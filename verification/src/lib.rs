//! Transcript assembly and subtitle formatting over integer timestamps.

pub mod clamp;
pub mod decode;
pub mod engine;
pub mod formatting;
pub mod lines;
pub mod model_manager;
pub mod speaker;
pub mod text;
pub mod transcribe;
pub mod translate;
pub mod types;
pub mod utils;
pub mod vad;
pub mod words;

pub use engine::{Engine, EngineConfig};
pub use formatting::{process_segments, PostProcessConfig};
pub use model_manager::ModelManager;
pub use types::{Segment, SubtitleCue, TranscribeOptions, WordTimestamp};
pub use utils::{get_translate_languages, get_whisper_languages};
