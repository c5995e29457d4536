//! The transcript data model. All times are whole milliseconds on the
//! recording's timeline; probabilities are parts per million.

use vstd::prelude::*;

verus! {

/// Largest magnitude of a timestamp, in milliseconds, that the subtitle
/// formatter and the transcript assembler work on.
pub const TIME_LIMIT: i64 = 1_000_000_000_000_000;

/// The time is within the time limit.
pub open spec fn time_ok(t: int) -> bool {
    -TIME_LIMIT <= t <= TIME_LIMIT
}

/// The point halfway between `a` and `b`, rounded down.
pub open spec fn mid(a: int, b: int) -> int {
    (a + b) / 2
}

/// The point halfway between `a` and `b`, rounded down.
pub fn midpoint(a: i64, b: i64) -> (m: i64)
    ensures
        m == mid(a as int, b as int),
        a <= b ==> a <= m <= b,
        b <= a ==> b <= m <= a,
{
    let s: i128 = a as i128 + b as i128;
    let h: i128 = if s >= 0 {
        s / 2
    } else {
        (s - 1) / 2
    };
    h as i64
}

/// The text, if there is one, as characters.
pub open spec fn opt_text(o: Option<String>) -> Option<Seq<char>> {
    match o {
        Some(s) => Some(s@),
        None => None,
    }
}

/// The number, if there is one, as an integer.
pub open spec fn opt_int(o: Option<u32>) -> Option<int> {
    match o {
        Some(p) => Some(p as int),
        None => None,
    }
}

/// A copy of the text, if there is one.
pub fn clone_opt_text(o: &Option<String>) -> (r: Option<String>)
    ensures
        r == *o,
{
    match o {
        Some(s) => Some(s.clone()),
        None => None,
    }
}

/// One word of a transcript with its time span.
#[derive(Debug, PartialEq, Eq)]
pub struct WordTimestamp {
    pub word: String,
    pub start: i64,
    pub end: i64,
    /// Mean probability of the tokens that make up the word.
    pub probability: Option<u32>,
}

/// The mathematical value of a [`WordTimestamp`].
pub ghost struct WordView {
    pub word: Seq<char>,
    pub start: int,
    pub end: int,
    pub probability: Option<int>,
}

impl View for WordTimestamp {
    type V = WordView;

    open spec fn view(&self) -> WordView {
        WordView {
            word: self.word@,
            start: self.start as int,
            end: self.end as int,
            probability: opt_int(self.probability),
        }
    }
}

impl DeepView for WordTimestamp {
    type V = WordView;

    open spec fn deep_view(&self) -> WordView {
        self@
    }
}

impl Clone for WordTimestamp {
    fn clone(&self) -> (r: Self)
        ensures
            r == *self,
    {
        WordTimestamp {
            word: self.word.clone(),
            start: self.start,
            end: self.end,
            probability: self.probability,
        }
    }
}

/// A copy of `words`, element by element.
pub fn clone_words(words: &Vec<WordTimestamp>) -> (r: Vec<WordTimestamp>)
    ensures
        r@ == words@,
{
    let mut r: Vec<WordTimestamp> = Vec::new();
    let mut i: usize = 0;
    while i < words.len()
        invariant
            i <= words.len(),
            r@ == words@.take(i as int),
        decreases words.len() - i,
    {
        r.push(words[i].clone());
        i += 1;
    }
    r
}

/// One stretch of transcribed speech.
#[derive(Debug, PartialEq, Eq)]
pub struct Segment {
    pub start: i64,
    pub end: i64,
    pub text: String,
    pub speaker_id: Option<String>,
    /// Word-level timing, where it was asked for and could be had.
    pub words: Option<Vec<WordTimestamp>>,
}

/// The mathematical value of a [`Segment`].
pub ghost struct SegmentView {
    pub start: int,
    pub end: int,
    pub text: Seq<char>,
    pub speaker_id: Option<Seq<char>>,
    pub words: Option<Seq<WordView>>,
}

impl View for Segment {
    type V = SegmentView;

    open spec fn view(&self) -> SegmentView {
        SegmentView {
            start: self.start as int,
            end: self.end as int,
            text: self.text@,
            speaker_id: opt_text(self.speaker_id),
            words: match self.words {
                Some(ws) => Some(ws.deep_view()),
                None => None,
            },
        }
    }
}

impl DeepView for Segment {
    type V = SegmentView;

    open spec fn deep_view(&self) -> SegmentView {
        self@
    }
}

impl Clone for Segment {
    fn clone(&self) -> (r: Self)
        ensures
            r@ == self@,
    {
        let words = match &self.words {
            Some(ws) => {
                let c = clone_words(ws);
                assert(c.deep_view() =~= ws.deep_view());
                Some(c)
            },
            None => None,
        };
        Segment {
            start: self.start,
            end: self.end,
            text: self.text.clone(),
            speaker_id: clone_opt_text(&self.speaker_id),
            words,
        }
    }
}

/// A subtitle unit: a time span and one or more rendered lines.
#[derive(Debug, PartialEq, Eq)]
pub struct SubtitleCue {
    pub start: i64,
    pub end: i64,
    pub lines: Vec<String>,
    /// The cue's words, with their punctuation attached.
    pub words: Vec<WordTimestamp>,
    pub speaker_id: Option<String>,
}

/// The mathematical value of a [`SubtitleCue`].
pub ghost struct CueView {
    pub start: int,
    pub end: int,
    pub lines: Seq<Seq<char>>,
    pub words: Seq<WordView>,
    pub speaker_id: Option<Seq<char>>,
}

impl View for SubtitleCue {
    type V = CueView;

    open spec fn view(&self) -> CueView {
        CueView {
            start: self.start as int,
            end: self.end as int,
            lines: self.lines.deep_view(),
            words: self.words.deep_view(),
            speaker_id: opt_text(self.speaker_id),
        }
    }
}

impl DeepView for SubtitleCue {
    type V = CueView;

    open spec fn deep_view(&self) -> CueView {
        self@
    }
}

/// A span of the recording that holds speech, with its samples
/// (mono, 16 kHz, signed 16-bit).
#[derive(Debug, PartialEq, Eq)]
pub struct SpeechSegment {
    pub start: i64,
    pub end: i64,
    pub samples: Vec<i16>,
}

/// Knobs of the decoder that are seldom turned. Fractions are in
/// thousandths.
#[derive(Debug, PartialEq, Eq)]
pub struct AdvancedTranscribe {
    /// `greedy`, or anything else for beam search.
    pub sampling_strategy: Option<String>,
    /// The width of the beam, or how many candidates greedy sampling keeps.
    pub best_of_or_beam_size: Option<i32>,
    pub n_threads: Option<i32>,
    pub temperature_milli: Option<u32>,
    pub max_text_ctx: Option<i32>,
    pub init_prompt: Option<String>,
    /// The similarity above which a sample belongs to a known speaker.
    pub diarize_threshold_milli: Option<u32>,
}

/// What is asked of a transcription.
#[derive(Debug, PartialEq, Eq)]
pub struct TranscribeOptions {
    /// By how many milliseconds every time is moved.
    pub offset: Option<i64>,
    pub model: String,
    pub lang: Option<String>,
    /// Whether the decoder itself translates into English.
    pub translate: Option<bool>,
    /// The language into which the transcript is translated afterwards.
    pub translate_target: Option<String>,
    pub word_timestamps: Option<bool>,
    pub enable_vad: Option<bool>,
    pub enable_diarize: Option<bool>,
    /// The most speakers to tell apart; none or 0 for no limit.
    pub max_speakers: Option<usize>,
    pub advanced: Option<AdvancedTranscribe>,
}

impl Default for TranscribeOptions {
    fn default() -> (r: Self)
        ensures
            r.model@ == "base"@,
            r.offset is None,
            r.lang is None,
            r.translate is None,
            r.translate_target is None,
            r.word_timestamps is None,
            r.enable_vad is None,
            r.enable_diarize is None,
            r.max_speakers is None,
            r.advanced is None,
    {
        TranscribeOptions {
            offset: None,
            model: "base".to_owned(),
            lang: None,
            translate: None,
            translate_target: None,
            word_timestamps: None,
            enable_vad: None,
            enable_diarize: None,
            max_speakers: None,
            advanced: None,
        }
    }
}

/// What diarization goes by.
#[derive(Debug, PartialEq, Eq)]
pub struct DiarizeOptions {
    pub segment_model_path: String,
    pub embedding_model_path: String,
    /// The similarity, in thousandths, above which a sample belongs to a
    /// known speaker.
    pub threshold_milli: u32,
    pub max_speakers: usize,
}

} // verus!
