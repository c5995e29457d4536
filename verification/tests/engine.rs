use std::path::PathBuf;
use whisper_diarize_rs::engine::{plan_chunking, whole_span, Chunking};
use whisper_diarize_rs::types::AdvancedTranscribe;
use whisper_diarize_rs::{Engine, EngineConfig, ModelManager, TranscribeOptions};

fn config(dir: &str) -> EngineConfig {
    EngineConfig {
        cache_dir: PathBuf::from(dir),
        use_gpu: false,
        gpu_device: None,
        enable_dtw: true,
        vad_model_path: None,
        diarize_segment_model_path: None,
        diarize_embedding_model_path: None,
    }
}

#[test]
fn engine_keeps_its_models_in_the_cache_directory() {
    let engine = Engine::new(config("/var/cache/models"));
    assert_eq!(engine.models().cache_dir(), &PathBuf::from("/var/cache/models"));
    assert_eq!(engine.cfg().cache_dir, PathBuf::from("/var/cache/models"));
    assert!(engine.cfg().enable_dtw);
    let m = ModelManager::new(PathBuf::from("x/y"));
    assert_eq!(m.cache_dir(), &PathBuf::from("x/y"));
}

#[test]
fn default_options() {
    let o = TranscribeOptions::default();
    assert_eq!(o.model, "base");
    assert_eq!(o.offset, None);
    assert_eq!(o.max_speakers, None);
    assert_eq!(plan_chunking(&o), Chunking::Whole);
}

#[test]
fn diarization_goes_before_voice_activity() {
    let mut o = TranscribeOptions::default();
    o.enable_vad = Some(true);
    assert_eq!(plan_chunking(&o), Chunking::Vad);
    o.enable_diarize = Some(false);
    assert_eq!(plan_chunking(&o), Chunking::Vad);
    o.enable_diarize = Some(true);
    assert_eq!(plan_chunking(&o), Chunking::Diarize { threshold_milli: 500, max_speakers: usize::MAX });
    o.max_speakers = Some(0);
    assert_eq!(plan_chunking(&o), Chunking::Diarize { threshold_milli: 500, max_speakers: usize::MAX });
    o.max_speakers = Some(4);
    o.advanced = Some(AdvancedTranscribe {
        sampling_strategy: None,
        best_of_or_beam_size: None,
        n_threads: None,
        temperature_milli: None,
        max_text_ctx: None,
        init_prompt: None,
        diarize_threshold_milli: Some(650),
    });
    assert_eq!(plan_chunking(&o), Chunking::Diarize { threshold_milli: 650, max_speakers: 4 });
}

#[test]
fn whole_recording_is_one_span() {
    assert_eq!(whole_span(0), (0, 0));
    assert_eq!(whole_span(16_000), (0, 1_000));
    assert_eq!(whole_span(16_015), (0, 1_000));
    assert_eq!(whole_span(160), (0, 10));
}
