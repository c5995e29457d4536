use whisper_diarize_rs::decode::{dtw_preset, plan_context, setup_params, ContextPlan, DtwPreset, Sampling};
use whisper_diarize_rs::types::{AdvancedTranscribe, TranscribeOptions};

fn advanced() -> AdvancedTranscribe {
    AdvancedTranscribe {
        sampling_strategy: None,
        best_of_or_beam_size: None,
        n_threads: None,
        temperature_milli: None,
        max_text_ctx: None,
        init_prompt: None,
        diarize_threshold_milli: None,
    }
}

#[test]
fn beam_search_of_width_five_by_default() {
    let p = setup_params(&TranscribeOptions::default());
    assert_eq!(p.sampling, Sampling::BeamSearch { beam_size: 5 });
    assert!(!p.print_special && p.print_progress && !p.print_realtime && !p.print_timestamps);
    assert!(p.suppress_blank && p.token_timestamps && p.single_segment);
    assert_eq!(p.language, None);
    assert!(!p.translate);
    assert_eq!(p.temperature_milli, None);
    assert_eq!(p.initial_prompt, None);
}

#[test]
fn greedy_by_name_and_width_of_one_at_least() {
    let mut o = TranscribeOptions::default();
    let mut a = advanced();
    a.sampling_strategy = Some("greedy".into());
    a.best_of_or_beam_size = Some(0);
    a.temperature_milli = Some(700);
    a.max_text_ctx = Some(64);
    a.init_prompt = Some("Names: Ada.".into());
    a.n_threads = Some(3);
    o.advanced = Some(a);
    o.lang = Some("de".into());
    o.translate = Some(true);
    let p = setup_params(&o);
    assert_eq!(p.sampling, Sampling::Greedy { best_of: 1 });
    assert_eq!(p.language, Some("de".to_string()));
    assert!(p.translate);
    assert_eq!(p.temperature_milli, Some(700));
    assert_eq!(p.max_text_ctx, Some(64));
    assert_eq!(p.initial_prompt, Some("Names: Ada.".to_string()));
    assert_eq!(p.n_threads, Some(3));

    let mut a = advanced();
    a.sampling_strategy = Some("Greedy".into());
    a.best_of_or_beam_size = Some(-3);
    o.advanced = Some(a);
    assert_eq!(setup_params(&o).sampling, Sampling::BeamSearch { beam_size: 1 });
    let mut a = advanced();
    a.sampling_strategy = Some("beam_search".into());
    a.best_of_or_beam_size = Some(8);
    o.advanced = Some(a);
    assert_eq!(setup_params(&o).sampling, Sampling::BeamSearch { beam_size: 8 });
}

#[test]
fn presets_by_model_name() {
    assert_eq!(dtw_preset("tiny.en"), DtwPreset::TinyEn);
    assert_eq!(dtw_preset("tiny"), DtwPreset::Tiny);
    assert_eq!(dtw_preset("base.en"), DtwPreset::BaseEn);
    assert_eq!(dtw_preset("base"), DtwPreset::Base);
    assert_eq!(dtw_preset("small.en"), DtwPreset::SmallEn);
    assert_eq!(dtw_preset("small"), DtwPreset::Small);
    assert_eq!(dtw_preset("medium.en"), DtwPreset::MediumEn);
    assert_eq!(dtw_preset("medium"), DtwPreset::Medium);
    assert_eq!(dtw_preset("large-v3"), DtwPreset::LargeV3);
    assert_eq!(dtw_preset("large-v3-turbo"), DtwPreset::LargeV3Turbo);
    assert_eq!(dtw_preset("large-v2"), DtwPreset::Small);
    assert_eq!(dtw_preset(""), DtwPreset::Small);
}

#[test]
fn refining_token_times_rules_out_flash_attention() {
    assert_eq!(
        plan_context("base", Some(1), Some(true), Some(true), Some(true)),
        ContextPlan { gpu_off: false, gpu_device: Some(1), flash_attn: Some(false), dtw: Some(DtwPreset::Base) }
    );
    assert_eq!(
        plan_context("base", None, None, None, None),
        ContextPlan { gpu_off: false, gpu_device: None, flash_attn: Some(true), dtw: None }
    );
    assert_eq!(
        plan_context("base", None, Some(false), Some(false), None),
        ContextPlan { gpu_off: true, gpu_device: None, flash_attn: None, dtw: None }
    );
    assert_eq!(
        plan_context("base", None, Some(true), None, Some(false)),
        ContextPlan { gpu_off: false, gpu_device: None, flash_attn: None, dtw: None }
    );
}
