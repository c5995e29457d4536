//! What the decoder is told: the sampling strategy and the knobs of a
//! transcription, and how the model is loaded.

use vstd::prelude::*;
use crate::text::text_is;
use crate::types::{clone_opt_text, AdvancedTranscribe, TranscribeOptions};

verus! {

/// The width of the beam, and the number of candidates of greedy sampling,
/// where none is asked for.
pub const DEFAULT_WIDTH: i32 = 5;

/// How the decoder picks tokens.
#[derive(Clone, Copy, Debug, PartialEq, Eq, Structural)]
pub enum Sampling {
    Greedy { best_of: i32 },
    BeamSearch { beam_size: i32 },
}

/// The settings of one decoding run.
#[derive(Debug, PartialEq, Eq)]
pub struct DecodeParams {
    pub sampling: Sampling,
    pub print_special: bool,
    pub print_progress: bool,
    pub print_realtime: bool,
    pub print_timestamps: bool,
    pub suppress_blank: bool,
    pub token_timestamps: bool,
    /// Every chunk is decoded as one segment.
    pub single_segment: bool,
    pub language: Option<String>,
    /// Whether the decoder translates into English.
    pub translate: bool,
    pub temperature_milli: Option<u32>,
    pub max_text_ctx: Option<i32>,
    pub initial_prompt: Option<String>,
    pub n_threads: Option<i32>,
}

/// The width asked for, or the default; at least 1.
pub open spec fn width_of(advanced: Option<AdvancedTranscribe>) -> i32 {
    let asked = match advanced {
        Some(a) => match a.best_of_or_beam_size {
            Some(w) => w,
            None => DEFAULT_WIDTH,
        },
        None => DEFAULT_WIDTH,
    };
    if asked < 1 {
        1
    } else {
        asked
    }
}

/// Greedy sampling is asked for by name.
pub open spec fn asks_greedy(advanced: Option<AdvancedTranscribe>) -> bool {
    advanced matches Some(a) && a.sampling_strategy matches Some(s) && s@ == "greedy"@
}

/// The sampling that the options ask for: greedy where they say so, else
/// beam search.
pub open spec fn sampling_of(advanced: Option<AdvancedTranscribe>) -> Sampling {
    if asks_greedy(advanced) {
        Sampling::Greedy { best_of: width_of(advanced) }
    } else {
        Sampling::BeamSearch { beam_size: width_of(advanced) }
    }
}

/// The settings of a decoding run for the given options.
pub fn setup_params(options: &TranscribeOptions) -> (r: DecodeParams)
    ensures
        r.sampling == sampling_of(options.advanced),
        !r.print_special && r.print_progress && !r.print_realtime && !r.print_timestamps,
        r.suppress_blank && r.token_timestamps && r.single_segment,
        r.language == options.lang,
        r.translate == (options.translate == Some(true)),
        r.temperature_milli == match options.advanced {
            Some(a) => a.temperature_milli,
            None => None,
        },
        r.max_text_ctx == match options.advanced {
            Some(a) => a.max_text_ctx,
            None => None,
        },
        r.initial_prompt == match options.advanced {
            Some(a) => a.init_prompt,
            None => None,
        },
        r.n_threads == match options.advanced {
            Some(a) => a.n_threads,
            None => None,
        },
{
    let asked = match &options.advanced {
        Some(a) => match a.best_of_or_beam_size {
            Some(w) => w,
            None => DEFAULT_WIDTH,
        },
        None => DEFAULT_WIDTH,
    };
    let width = if asked < 1 {
        1
    } else {
        asked
    };
    let greedy = match &options.advanced {
        Some(a) => match &a.sampling_strategy {
            Some(s) => text_is(s.as_str(), "greedy"),
            None => false,
        },
        None => false,
    };
    let sampling = if greedy {
        Sampling::Greedy { best_of: width }
    } else {
        Sampling::BeamSearch { beam_size: width }
    };
    let translate = match options.translate {
        Some(t) => t,
        None => false,
    };
    let (temperature_milli, max_text_ctx, initial_prompt, n_threads) = match &options.advanced {
        Some(a) => (a.temperature_milli, a.max_text_ctx, clone_opt_text(&a.init_prompt), a.n_threads),
        None => (None, None, None, None),
    };
    DecodeParams {
        sampling,
        print_special: false,
        print_progress: true,
        print_realtime: false,
        print_timestamps: false,
        suppress_blank: true,
        token_timestamps: true,
        single_segment: true,
        language: clone_opt_text(&options.lang),
        translate,
        temperature_milli,
        max_text_ctx,
        initial_prompt,
        n_threads,
    }
}

/// The alignment heads of the models that token times can be refined with.
#[derive(Clone, Copy, Debug, PartialEq, Eq, Structural)]
pub enum DtwPreset {
    TinyEn,
    Tiny,
    BaseEn,
    Base,
    SmallEn,
    Small,
    MediumEn,
    Medium,
    LargeV3,
    LargeV3Turbo,
}

/// The preset for a model by its name; that of the small model where the
/// name is not known.
pub open spec fn preset_of(name: Seq<char>) -> DtwPreset {
    if name == "tiny.en"@ {
        DtwPreset::TinyEn
    } else if name == "tiny"@ {
        DtwPreset::Tiny
    } else if name == "base.en"@ {
        DtwPreset::BaseEn
    } else if name == "base"@ {
        DtwPreset::Base
    } else if name == "small.en"@ {
        DtwPreset::SmallEn
    } else if name == "small"@ {
        DtwPreset::Small
    } else if name == "medium.en"@ {
        DtwPreset::MediumEn
    } else if name == "medium"@ {
        DtwPreset::Medium
    } else if name == "large-v3"@ {
        DtwPreset::LargeV3
    } else if name == "large-v3-turbo"@ {
        DtwPreset::LargeV3Turbo
    } else {
        DtwPreset::Small
    }
}

/// The preset for a model by its name.
pub fn dtw_preset(model_name: &str) -> (r: DtwPreset)
    ensures
        r == preset_of(model_name@),
{
    if text_is(model_name, "tiny.en") {
        DtwPreset::TinyEn
    } else if text_is(model_name, "tiny") {
        DtwPreset::Tiny
    } else if text_is(model_name, "base.en") {
        DtwPreset::BaseEn
    } else if text_is(model_name, "base") {
        DtwPreset::Base
    } else if text_is(model_name, "small.en") {
        DtwPreset::SmallEn
    } else if text_is(model_name, "small") {
        DtwPreset::Small
    } else if text_is(model_name, "medium.en") {
        DtwPreset::MediumEn
    } else if text_is(model_name, "medium") {
        DtwPreset::Medium
    } else if text_is(model_name, "large-v3") {
        DtwPreset::LargeV3
    } else if text_is(model_name, "large-v3-turbo") {
        DtwPreset::LargeV3Turbo
    } else {
        DtwPreset::Small
    }
}

/// How the model is loaded.
#[derive(Clone, Copy, Debug, PartialEq, Eq, Structural)]
pub struct ContextPlan {
    /// Whether the use of the GPU is switched off.
    pub gpu_off: bool,
    /// The GPU to use, where one is named.
    pub gpu_device: Option<i32>,
    /// Whether flash attention is switched on or off; left as it is where
    /// nothing is said.
    pub flash_attn: Option<bool>,
    /// The preset to refine token times with, where that is asked for.
    pub dtw: Option<DtwPreset>,
}

/// How the model `model_name` is loaded. Refining token times rules out
/// flash attention; without it, flash attention is switched on unless it
/// or the GPU is switched off.
pub fn plan_context(
    model_name: &str,
    gpu_device: Option<i32>,
    use_gpu: Option<bool>,
    enable_dtw: Option<bool>,
    enable_flash_attn: Option<bool>,
) -> (r: ContextPlan)
    ensures
        r.gpu_off == (use_gpu == Some(false)),
        r.gpu_device == gpu_device,
        r.dtw == if enable_dtw == Some(true) {
            Some(preset_of(model_name@))
        } else {
            None
        },
        r.flash_attn == if enable_dtw == Some(true) {
            Some(false)
        } else if enable_flash_attn != Some(false) && use_gpu != Some(false) {
            Some(true)
        } else {
            None
        },
{
    let gpu_off = match use_gpu {
        Some(g) => !g,
        None => false,
    };
    let dtw_on = match enable_dtw {
        Some(d) => d,
        None => false,
    };
    if dtw_on {
        ContextPlan { gpu_off, gpu_device, flash_attn: Some(false), dtw: Some(dtw_preset(model_name)) }
    } else {
        let flash = match enable_flash_attn {
            Some(f) => f,
            None => true,
        };
        ContextPlan {
            gpu_off,
            gpu_device,
            flash_attn: if flash && !gpu_off {
                Some(true)
            } else {
                None
            },
            dtw: None,
        }
    }
}

} // verus!
