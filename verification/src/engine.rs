//! The engine's configuration and the plans it makes before any audio is
//! decoded: how the recording is cut into chunks, and what the decoder is
//! told.

use vstd::prelude::*;
use std::path::PathBuf;
use crate::model_manager::ModelManager;
use crate::text::chars_of;
use crate::types::{
    clone_opt_text, opt_text, AdvancedTranscribe, DiarizeOptions, SpeechSegment, TranscribeOptions,
};

verus! {

/// Where the engine finds its models and how it runs them.
pub struct EngineConfig {
    pub cache_dir: PathBuf,
    pub use_gpu: bool,
    pub gpu_device: Option<i32>,
    /// Whether token times are refined by alignment.
    pub enable_dtw: bool,
    pub vad_model_path: Option<String>,
    pub diarize_segment_model_path: Option<String>,
    pub diarize_embedding_model_path: Option<String>,
}

/// Calls `PathBuf::clone`; the copy is equal to the path.
#[verifier::external_body]
fn clone_path(p: &PathBuf) -> (r: PathBuf)
    ensures
        r == *p,
{
    p.clone()
}

/// The engine: its configuration and the keeper of its models.
pub struct Engine {
    cfg: EngineConfig,
    models: ModelManager,
}

impl Engine {
    /// The configuration the engine was made with.
    pub closed spec fn config(&self) -> EngineConfig {
        self.cfg
    }

    /// The keeper of the engine's models.
    pub closed spec fn model_manager(&self) -> ModelManager {
        self.models
    }

    /// An engine with the given configuration, whose models are kept in
    /// the configuration's cache directory.
    pub fn new(cfg: EngineConfig) -> (r: Self)
        ensures
            r.config() == cfg,
            r.model_manager().dir() == cfg.cache_dir,
    {
        Engine { models: ModelManager::new(clone_path(&cfg.cache_dir)), cfg }
    }

    /// The configuration the engine was made with.
    pub fn cfg(&self) -> (r: &EngineConfig)
        ensures
            *r == self.config(),
    {
        &self.cfg
    }

    /// The keeper of the engine's models.
    pub fn models(&self) -> (r: &ModelManager)
        ensures
            *r == self.model_manager(),
    {
        &self.models
    }
}

/// The similarity threshold of diarization where none is given: one half.
pub const DEFAULT_DIARIZE_THRESHOLD_MILLI: u32 = 500;

/// The rate of the samples, per millisecond.
pub const SAMPLES_PER_MS: usize = 16;

/// How the recording is cut into chunks.
#[derive(Clone, Copy, Debug, PartialEq, Eq, Structural)]
pub enum Chunking {
    /// By speaker turns, with these diarization settings.
    Diarize { threshold_milli: u32, max_speakers: usize },
    /// By voice activity.
    Vad,
    /// Not at all: the whole recording is one chunk.
    Whole,
}

/// The most speakers to tell apart: as asked, where none or 0 stands for
/// no limit.
pub open spec fn speaker_cap(max_speakers: Option<usize>) -> usize {
    match max_speakers {
        Some(n) if n != 0 => n,
        _ => usize::MAX,
    }
}

/// The similarity threshold asked for, or the default.
pub open spec fn diarize_threshold(options: TranscribeOptions) -> u32 {
    match options.advanced {
        Some(a) => match a.diarize_threshold_milli {
            Some(t) => t,
            None => DEFAULT_DIARIZE_THRESHOLD_MILLI,
        },
        None => DEFAULT_DIARIZE_THRESHOLD_MILLI,
    }
}

/// How the options ask for the recording to be cut: diarization goes
/// before voice activity detection, and without either the recording is
/// one chunk.
pub open spec fn chunking_of(options: TranscribeOptions) -> Chunking {
    if options.enable_diarize == Some(true) {
        Chunking::Diarize {
            threshold_milli: diarize_threshold(options),
            max_speakers: speaker_cap(options.max_speakers),
        }
    } else if options.enable_vad == Some(true) {
        Chunking::Vad
    } else {
        Chunking::Whole
    }
}

/// How the options ask for the recording to be cut into chunks.
pub fn plan_chunking(options: &TranscribeOptions) -> (r: Chunking)
    ensures
        r == chunking_of(*options),
{
    if let Some(true) = options.enable_diarize {
        let threshold_milli = match &options.advanced {
            Some(a) => match a.diarize_threshold_milli {
                Some(t) => t,
                None => DEFAULT_DIARIZE_THRESHOLD_MILLI,
            },
            None => DEFAULT_DIARIZE_THRESHOLD_MILLI,
        };
        let max_speakers = match options.max_speakers {
            Some(n) => if n != 0 {
                n
            } else {
                usize::MAX
            },
            None => usize::MAX,
        };
        Chunking::Diarize { threshold_milli, max_speakers }
    } else if let Some(true) = options.enable_vad {
        Chunking::Vad
    } else {
        Chunking::Whole
    }
}

/// The span, in milliseconds, of a recording of `n` samples: from zero to
/// its length, rounded down.
pub fn whole_span(n: usize) -> (r: (i64, i64))
    ensures
        r.0 == 0,
        r.1 == n / SAMPLES_PER_MS,
{
    (0, (n / SAMPLES_PER_MS) as i64)
}

} // verus!
