//! Subtitle cues from a transcript: words are split from their
//! punctuation, clamped against their neighbours, merged where they are too
//! short, cut into groups at sentence ends and long pauses, gathered into
//! cues that respect reading speed, and broken into lines by a scored
//! search.
//!
//! Times are whole milliseconds. Scores are in hundredths of a point.

use vstd::prelude::*;
use vstd::string::*;
use crate::text::{
    blank, char_is_punct, chars_of, is_blank, lemma_trailing, strip_back, trailing, CharClass,
};
use crate::clamp::{
    clamp_spans, clamped, max_of, min_of, spans_near, spans_ok, Span, Times, CLAMP_SLACK,
};
use crate::lines::{
    joined, lemma_lines_rejoin, lemma_rendered_len, lemma_words_rejoin, range_chars, render_token,
    rendered, rendered_tok, split_into_lines, split_lines, token_texts,
};
use crate::types::{
    clone_opt_text, opt_int, opt_text, time_ok, CueView, Segment, SegmentView, SubtitleCue,
    WordTimestamp, WordView, TIME_LIMIT,
};

verus! {

/// The knobs of the subtitle formatter.
#[derive(Clone, Copy, Debug, PartialEq, Eq)]
pub struct PostProcessConfig {
    /// Soft cap on the characters of a rendered line.
    pub max_chars_per_line: usize,
    /// Lines per cue; 0 and 1 both mean one line and no line splitting.
    pub max_lines: usize,
    /// Cap on the reading speed, in thousandths of a character per second.
    pub cps_cap_milli: u32,
    /// A pause between words of at least this length is a strong boundary.
    pub split_gap_ms: u32,
    /// A comma is a place to break only in a text of at least this length.
    pub comma_min_chars_before_allow: usize,
    /// Shorter words are stretched and, if still shorter, merged.
    pub min_word_dur_ms: u32,
    /// Soft lower bound on a cue's duration.
    pub min_sub_dur_ms: u32,
    /// Soft upper bound on a cue's duration.
    pub max_sub_dur_ms: u32,
    /// Soft cap on the words of a line; 0 switches it off.
    pub soft_max_words_per_line: usize,
}

impl Default for PostProcessConfig {
    fn default() -> (r: Self)
        ensures
            r.max_chars_per_line == 38,
            r.max_lines == 1,
            r.cps_cap_milli == 17_000,
            r.split_gap_ms == 500,
            r.comma_min_chars_before_allow == 55,
            r.min_word_dur_ms == 100,
            r.min_sub_dur_ms == 1_000,
            r.max_sub_dur_ms == 6_000,
            r.soft_max_words_per_line == 0,
    {
        PostProcessConfig {
            max_chars_per_line: 38,
            max_lines: 1,
            cps_cap_milli: 17_000,
            split_gap_ms: 500,
            comma_min_chars_before_allow: 55,
            min_word_dur_ms: 100,
            min_sub_dur_ms: 1_000,
            max_sub_dur_ms: 6_000,
            soft_max_words_per_line: 0,
        }
    }
}

/// Knowledge of where the recording holds no speech. Whoever has such
/// knowledge, from voice activity detection or elsewhere, implements this.
///
/// An oracle gives the same answer whenever it is asked about the same
/// span: `is_silence` returns what `says` tells. An oracle written outside
/// Verus gives `is_silence` only; nothing is known of what it says but
/// that, and nothing checks that it keeps to it.
pub trait SilenceOracle {
    /// What the oracle says of the span from `t0` to `t1`: whether it
    /// counts as silence.
    open spec fn says(&self, t0: int, t1: int) -> bool {
        vstd::pervasive::arbitrary::<spec_fn(&Self, int, int) -> bool>()(self, t0, t1)
    }

    /// Whether the span from `t0` to `t1` counts as silence.
    fn is_silence(&self, t0: i64, t1: i64) -> (r: bool)
        ensures
            r == self.says(t0 as int, t1 as int),
    ;
}

/// The oracle that knows of no silence.
#[derive(Clone, Copy, Debug, PartialEq, Eq)]
pub struct NoSilence;

impl SilenceOracle for NoSilence {
    open spec fn says(&self, t0: int, t1: int) -> bool {
        false
    }

    fn is_silence(&self, _t0: i64, _t1: i64) -> (r: bool) {
        false
    }
}

/// An oracle backed by the spans of the recording that hold speech.
#[derive(Debug)]
pub struct VadMaskOracle {
    mask: Vec<(i64, i64)>,
}

/// The speech span `m` reaches into the span from `t0` to `t1`.
pub open spec fn overlaps(m: (i64, i64), t0: int, t1: int) -> bool {
    m.1 > t0 && m.0 < t1
}

/// The spans `s` with the span `m` put in behind the last span that starts
/// no later than `m` does.
pub open spec fn inserted(s: Seq<(i64, i64)>, m: (i64, i64)) -> Seq<(i64, i64)>
    decreases s.len(),
{
    if s.len() > 0 && s.last().0 > m.0 {
        inserted(s.drop_last(), m).push(s.last())
    } else {
        s.push(m)
    }
}

/// The speech mask made of the given spans: those that end after they
/// start, in the order of their starts, and spans that start together in
/// the order in which they were given.
pub open spec fn mask_of(given: Seq<(i64, i64)>) -> Seq<(i64, i64)>
    decreases given.len(),
{
    if given.len() == 0 {
        Seq::empty()
    } else if given.last().1 > given.last().0 {
        inserted(mask_of(given.drop_last()), given.last())
    } else {
        mask_of(given.drop_last())
    }
}

/// The spans are in the order of their starts.
pub open spec fn starts_sorted(s: Seq<(i64, i64)>) -> bool {
    forall|i: int, j: int| 0 <= i <= j < s.len() ==> s[i].0 <= s[j].0
}

/// Putting a span in is inserting it at the place `k` behind which every
/// span starts later, and before which the last span starts no later.
pub proof fn lemma_inserted(s: Seq<(i64, i64)>, m: (i64, i64), k: int)
    requires
        0 <= k <= s.len(),
        forall|i: int| k <= i < s.len() ==> s[i].0 > m.0,
        k == 0 || s[k - 1].0 <= m.0,
    ensures
        inserted(s, m) == s.insert(k, m),
    decreases s.len() - k,
{
    if k == s.len() {
        assert(s.push(m) =~= s.insert(k, m));
    } else {
        let t = s.drop_last();
        assert(s.last() == s[s.len() - 1]);
        if k > 0 {
            assert(t[k - 1] == s[k - 1]);
        }
        assert forall|i: int| k <= i < t.len() implies t[i].0 > m.0 by {
            assert(t[i] == s[i]);
        }
        lemma_inserted(t, m, k);
        assert(t.insert(k, m).push(s.last()) =~= s.insert(k, m));
    }
}

proof fn lemma_inserted_sorted(s: Seq<(i64, i64)>, m: (i64, i64))
    requires
        starts_sorted(s),
    ensures
        starts_sorted(inserted(s, m)),
        inserted(s, m).len() == s.len() + 1,
        forall|x: (i64, i64)|
            #![trigger inserted(s, m).contains(x)]
            #![trigger s.contains(x)]
            inserted(s, m).contains(x) <==> (s.contains(x) || x == m),
    decreases s.len(),
{
    let r = inserted(s, m);
    if s.len() > 0 && s.last().0 > m.0 {
        let t = s.drop_last();
        assert forall|i: int, j: int| 0 <= i <= j < t.len() implies t[i].0 <= t[j].0 by {
            assert(t[i] == s[i] && t[j] == s[j]);
        }
        lemma_inserted_sorted(t, m);
        let u = inserted(t, m);
        assert forall|i: int, j: int| 0 <= i <= j < r.len() implies r[i].0 <= r[j].0 by {
            if j == r.len() - 1 && i < j {
                assert(r[i] == u[i]);
                assert(r[j] == s[s.len() - 1]);
                assert(u.contains(u[i]));
                if u[i] != m {
                    assert(t.contains(u[i]));
                    let w = choose|w: int| 0 <= w < t.len() && t[w] == u[i];
                    assert(t[w] == s[w]);
                    assert(s[w].0 <= s[s.len() - 1].0);
                }
            } else if i < j {
                assert(r[i] == u[i] && r[j] == u[j]);
            }
        }
        assert forall|x: (i64, i64)| r.contains(x) <==> (s.contains(x) || x == m) by {
            if r.contains(x) {
                let w = choose|w: int| 0 <= w < r.len() && r[w] == x;
                if w < u.len() {
                    assert(u[w] == x);
                    assert(u.contains(x));
                    if t.contains(x) {
                        let z = choose|z: int| 0 <= z < t.len() && t[z] == x;
                        assert(s[z] == x);
                    }
                } else {
                    assert(s[s.len() - 1] == x);
                }
            }
            if s.contains(x) {
                let z = choose|z: int| 0 <= z < s.len() && s[z] == x;
                if z < t.len() {
                    assert(t[z] == x);
                    assert(t.contains(x));
                    assert(u.contains(x));
                    let w = choose|w: int| 0 <= w < u.len() && u[w] == x;
                    assert(r[w] == x);
                } else {
                    assert(r[r.len() - 1] == x);
                }
            }
            if x == m {
                assert(u.contains(m));
                let w = choose|w: int| 0 <= w < u.len() && u[w] == m;
                assert(r[w] == m);
            }
        }
    } else {
        assert forall|i: int, j: int| 0 <= i <= j < r.len() implies r[i].0 <= r[j].0 by {
            if j == r.len() - 1 && i < j {
                assert(r[i] == s[i]);
                assert(s[i].0 <= s[s.len() - 1].0);
            } else if i < j {
                assert(r[i] == s[i] && r[j] == s[j]);
            }
        }
        assert forall|x: (i64, i64)| r.contains(x) <==> (s.contains(x) || x == m) by {
            if r.contains(x) {
                let w = choose|w: int| 0 <= w < r.len() && r[w] == x;
                if w < s.len() {
                    assert(s[w] == x);
                }
            }
            if s.contains(x) {
                let z = choose|z: int| 0 <= z < s.len() && s[z] == x;
                assert(r[z] == x);
            }
            if x == m {
                assert(r[r.len() - 1] == m);
            }
        }
    }
}

/// A speech mask is in the order of its starts, and holds exactly the
/// given spans that end after they start.
pub proof fn lemma_mask_of(given: Seq<(i64, i64)>)
    ensures
        starts_sorted(mask_of(given)),
        forall|x: (i64, i64)|
            #![trigger mask_of(given).contains(x)]
            #![trigger given.contains(x)]
            mask_of(given).contains(x) <==> (given.contains(x) && x.1 > x.0),
    decreases given.len(),
{
    if given.len() > 0 {
        let rest = given.drop_last();
        let m = given.last();
        lemma_mask_of(rest);
        if m.1 > m.0 {
            lemma_inserted_sorted(mask_of(rest), m);
        }
        assert forall|x: (i64, i64)| mask_of(given).contains(x) <==> (given.contains(x) && x.1
            > x.0) by {
            if given.contains(x) {
                let z = choose|z: int| 0 <= z < given.len() && given[z] == x;
                if z < rest.len() {
                    assert(rest[z] == x);
                    assert(rest.contains(x));
                }
            }
            if rest.contains(x) {
                let z = choose|z: int| 0 <= z < rest.len() && rest[z] == x;
                assert(given[z] == x);
            }
            assert(given[given.len() - 1] == m);
        }
    }
}

impl VadMaskOracle {
    /// The speech spans that the oracle goes by.
    pub closed spec fn spans(&self) -> Seq<(i64, i64)> {
        self.mask@
    }

    /// A span is silent if it is empty or no speech span reaches into it.
    pub open spec fn silent(&self, t0: int, t1: int) -> bool {
        t1 <= t0 || forall|i: int|
            0 <= i < self.spans().len() ==> !overlaps(#[trigger] self.spans()[i], t0, t1)
    }

    /// An oracle over the given speech spans `(start, end)`. Spans that are
    /// empty or run backwards are dropped, and the rest is put in the order
    /// of the starts.
    pub fn new(mask: Vec<(i64, i64)>) -> (r: Self)
        ensures
            r.spans() == mask_of(mask@),
    {
        let mut kept: Vec<(i64, i64)> = Vec::new();
        let mut i: usize = 0;
        assert(mask@.take(0) =~= Seq::<(i64, i64)>::empty());
        while i < mask.len()
            invariant
                i <= mask.len(),
                kept@ == mask_of(mask@.take(i as int)),
            decreases mask.len() - i,
        {
            let m = mask[i];
            proof {
                assert(mask@.take(i + 1).drop_last() =~= mask@.take(i as int));
                assert(mask@.take(i + 1).last() == m);
            }
            if m.1 > m.0 {
                let mut k: usize = kept.len();
                while k > 0 && kept[k - 1].0 > m.0
                    invariant
                        k <= kept.len(),
                        forall|j: int| k <= j < kept.len() ==> kept@[j].0 > m.0,
                    decreases k,
                {
                    k -= 1;
                }
                proof {
                    lemma_inserted(kept@, m, k as int);
                }
                kept.insert(k, m);
            }
            i += 1;
        }
        assert(mask@.take(mask.len() as int) =~= mask@);
        VadMaskOracle { mask: kept }
    }

    /// The speech spans that the oracle goes by.
    pub fn mask(&self) -> (r: &Vec<(i64, i64)>)
        ensures
            r@ == self.spans(),
    {
        &self.mask
    }

    /// Whether the span from `t0` to `t1` holds no speech.
    pub fn holds_no_speech(&self, t0: i64, t1: i64) -> (r: bool)
        ensures
            r == self.silent(t0 as int, t1 as int),
    {
        if t1 <= t0 {
            return true;
        }
        let mut i: usize = 0;
        while i < self.mask.len()
            invariant
                i <= self.mask.len(),
                t0 < t1,
                forall|k: int| 0 <= k < i ==> !overlaps(#[trigger] self.spans()[k], t0 as int, t1 as int),
            decreases self.mask.len() - i,
        {
            let m = self.mask[i];
            if m.1 > t0 && m.0 < t1 {
                assert(overlaps(self.spans()[i as int], t0 as int, t1 as int));
                return false;
            }
            i += 1;
        }
        true
    }
}

impl SilenceOracle for VadMaskOracle {
    open spec fn says(&self, t0: int, t1: int) -> bool {
        self.silent(t0, t1)
    }

    fn is_silence(&self, t0: i64, t1: i64) -> (r: bool) {
        self.holds_no_speech(t0, t1)
    }
}

/// The word `s` without its trailing punctuation.
pub open spec fn core_of(s: Seq<char>) -> Seq<char> {
    strip_back(s, CharClass::Punct)
}

/// The punctuation at the end of the word `s`.
pub open spec fn punc_of(s: Seq<char>) -> Seq<char> {
    s.skip(s.len() - trailing(s, CharClass::Punct))
}

/// Splits a word into its core and the punctuation at its end: the longest
/// run of punctuation marks that the word ends with.
pub fn split_trailing_punct<'a>(s: &'a str) -> (r: (&'a str, &'a str))
    ensures
        r.0@ == core_of(s@),
        r.1@ == punc_of(s@),
        r.0@ + r.1@ == s@,
{
    let v = chars_of(s);
    let n = v.len();
    let mut cut: usize = n;
    while cut > 0 && char_is_punct(v[cut - 1])
        invariant
            cut <= n == v.len(),
            forall|i: int| cut <= i < n ==> CharClass::Punct.has(#[trigger] v@[i]),
        decreases cut,
    {
        cut -= 1;
    }
    proof {
        lemma_trailing(v@, CharClass::Punct, n - cut);
        assert(s@.subrange(0, cut as int) =~= core_of(s@));
        assert(s@.subrange(cut as int, n as int) =~= punc_of(s@));
        assert(core_of(s@) + punc_of(s@) =~= s@);
    }
    (s.substring_char(0, cut), s.substring_char(cut, n))
}

/// The marks that end a sentence.
pub open spec fn is_terminal_mark(c: char) -> bool {
    ||| c == '.'
    ||| c == '!'
    ||| c == '?'
    ||| c == '\u{2026}'
    ||| c == '\u{3002}'
    ||| c == '\u{FF01}'
    ||| c == '\u{FF1F}'
}

/// The marks that separate clauses.
pub open spec fn is_comma_mark(c: char) -> bool {
    c == ',' || c == '\u{FF0C}' || c == '\u{3001}' || c == ';'
}

/// The punctuation `p` ends a sentence: its last mark is one that ends a
/// sentence, whatever marks stand before it.
pub open spec fn terminal(p: Seq<char>) -> bool {
    p.len() > 0 && is_terminal_mark(p.last())
}

/// The punctuation `p` separates clauses: its last mark is comma-like,
/// whatever marks stand before it.
pub open spec fn comma_like(p: Seq<char>) -> bool {
    p.len() > 0 && is_comma_mark(p.last())
}

/// The last mark of the punctuation, if it has one.
fn last_of(p: &str) -> (r: Option<char>)
    ensures
        r == if p@.len() > 0 {
            Some(p@.last())
        } else {
            None
        },
{
    let n = p.unicode_len();
    if n > 0 {
        Some(p.get_char(n - 1))
    } else {
        None
    }
}

/// Whether the punctuation ends a sentence.
pub fn is_terminal_punct(p: &str) -> (r: bool)
    ensures
        r == terminal(p@),
{
    match last_of(p) {
        Some(c) => c == '.' || c == '!' || c == '?' || c == '\u{2026}' || c == '\u{3002}' || c
            == '\u{FF01}' || c == '\u{FF1F}',
        None => false,
    }
}

/// Whether the punctuation separates clauses.
pub fn is_comma_like(p: &str) -> (r: bool)
    ensures
        r == comma_like(p@),
{
    match last_of(p) {
        Some(c) => c == ',' || c == '\u{FF0C}' || c == '\u{3001}' || c == ';',
        None => false,
    }
}

/// The formatter's working unit: a word's core, the punctuation after it,
/// its time span, its probability and its speaker.
#[derive(Debug, PartialEq, Eq)]
pub struct Tok {
    pub word: String,
    pub punc: String,
    pub start: i64,
    pub end: i64,
    pub prob: Option<u32>,
    pub speaker: Option<String>,
}

/// The mathematical value of a [`Tok`].
pub ghost struct TokView {
    pub word: Seq<char>,
    pub punc: Seq<char>,
    pub start: int,
    pub end: int,
    pub prob: Option<int>,
    pub speaker: Option<Seq<char>>,
}

impl View for Tok {
    type V = TokView;

    open spec fn view(&self) -> TokView {
        TokView {
            word: self.word@,
            punc: self.punc@,
            start: self.start as int,
            end: self.end as int,
            prob: opt_int(self.prob),
            speaker: opt_text(self.speaker),
        }
    }
}

impl DeepView for Tok {
    type V = TokView;

    open spec fn deep_view(&self) -> TokView {
        self@
    }
}

impl Clone for Tok {
    fn clone(&self) -> (r: Self)
        ensures
            r == *self,
    {
        Tok {
            word: self.word.clone(),
            punc: self.punc.clone(),
            start: self.start,
            end: self.end,
            prob: self.prob,
            speaker: clone_opt_text(&self.speaker),
        }
    }
}

/// The token that a word gives.
pub open spec fn word_tok(w: WordView, speaker: Option<Seq<char>>) -> TokView {
    TokView {
        word: core_of(w.word),
        punc: punc_of(w.word),
        start: w.start,
        end: w.end,
        prob: w.probability,
        speaker,
    }
}

/// The tokens of one segment: one for each word of its word list; without
/// a word list, one for its whole text, unless the text is blank.
pub open spec fn segment_toks(s: SegmentView) -> Seq<TokView> {
    match s.words {
        Some(ws) => Seq::new(ws.len(), |i: int| word_tok(ws[i], s.speaker_id)),
        None => if is_blank(s.text) {
            Seq::empty()
        } else {
            seq![
                word_tok(
                    WordView { word: s.text, start: s.start, end: s.end, probability: None },
                    s.speaker_id,
                ),
            ]
        },
    }
}

/// The tokens of all the segments, in order.
pub open spec fn flatten(segs: Seq<SegmentView>) -> Seq<TokView>
    decreases segs.len(),
{
    if segs.len() == 0 {
        Seq::empty()
    } else {
        flatten(segs.drop_last()) + segment_toks(segs.last())
    }
}

fn make_tok(
    word: &str,
    start: i64,
    end: i64,
    prob: Option<u32>,
    speaker: &Option<String>,
) -> (t: Tok)
    ensures
        t@ == word_tok(
            WordView { word: word@, start: start as int, end: end as int, probability: opt_int(prob) },
            opt_text(*speaker),
        ),
{
    let (core, punc) = split_trailing_punct(word);
    Tok {
        word: core.to_owned(),
        punc: punc.to_owned(),
        start,
        end,
        prob,
        speaker: clone_opt_text(speaker),
    }
}

/// The tokens of the segments, in order.
pub fn flatten_segments(segments: &[Segment]) -> (toks: Vec<Tok>)
    ensures
        toks.deep_view() == flatten(segments.deep_view()),
{
    let ghost segs = segments.deep_view();
    let mut toks: Vec<Tok> = Vec::new();
    let mut i: usize = 0;
    assert(toks.deep_view() =~= flatten(segs.take(0)));
    while i < segments.len()
        invariant
            i <= segments.len(),
            segs == segments.deep_view(),
            toks.deep_view() == flatten(segs.take(i as int)),
        decreases segments.len() - i,
    {
        let seg = &segments[i];
        let ghost before = toks.deep_view();
        proof {
            assert(segs.take(i + 1).drop_last() =~= segs.take(i as int));
            assert(segs.take(i + 1).last() == seg@);
        }
        match &seg.words {
            Some(ws) => {
                let ghost want = segment_toks(seg@);
                let mut k: usize = 0;
                assert(toks.deep_view() =~= before + want.take(0));
                while k < ws.len()
                    invariant
                        k <= ws.len(),
                        seg.words == Some(*ws),
                        want == segment_toks(seg@),
                        toks.deep_view() == before + want.take(k as int),
                    decreases ws.len() - k,
                {
                    let w = &ws[k];
                    let ghost mid = toks.deep_view();
                    assert(ws.deep_view()[k as int] == w@);
                    let t = make_tok(w.word.as_str(), w.start, w.end, w.probability, &seg.speaker_id);
                    assert(t@ == want[k as int]);
                    toks.push(t);
                    assert(toks.deep_view() =~= mid.push(want[k as int]));
                    assert(before + want.take(k + 1) =~= (before + want.take(k as int)).push(
                        want[k as int],
                    ));
                    k += 1;
                }
                assert(want.take(ws.len() as int) =~= want);
            },
            None => {
                let v = chars_of(seg.text.as_str());
                if !blank(&v) {
                    let t = make_tok(seg.text.as_str(), seg.start, seg.end, None, &seg.speaker_id);
                    toks.push(t);
                    assert(toks.deep_view() =~= before + segment_toks(seg@));
                } else {
                    assert(toks.deep_view() =~= before + segment_toks(seg@));
                }
            },
        }
        i += 1;
    }
    assert(segs.take(segments.len() as int) =~= segs);
    toks
}

/// The most characters, separators between words counted, that the
/// formatter takes in one call.
pub const TEXT_LIMIT: usize = 0xFFFF_FFFF;

/// The characters of a token and one separator.
pub open spec fn weight(t: TokView) -> nat {
    t.word.len() + t.punc.len() + 1
}

/// The characters of the tokens and as many separators.
pub open spec fn total_weight(toks: Seq<TokView>) -> nat
    decreases toks.len(),
{
    if toks.len() == 0 {
        0
    } else {
        total_weight(toks.drop_last()) + weight(toks.last())
    }
}

/// The time spans of the tokens.
pub open spec fn spans_of(toks: Seq<TokView>) -> Seq<Span> {
    Seq::new(toks.len(), |i: int| Span { start: toks[i].start, end: toks[i].end })
}

/// The tokens with their time spans replaced by `spans`.
pub open spec fn with_spans(toks: Seq<TokView>, spans: Seq<Span>) -> Seq<TokView> {
    Seq::new(toks.len(), |i: int| TokView { start: spans[i].start, end: spans[i].end, ..toks[i] })
}

/// The formatter can take the tokens: their times are within the time
/// limit and their text is within the text limit.
pub open spec fn toks_fit(toks: Seq<TokView>) -> bool {
    &&& spans_ok(spans_of(toks))
    &&& total_weight(toks) <= TEXT_LIMIT
}

/// The tokens are as clamping and merging leave them: their times are
/// near the time limit and their text is within the text limit.
pub open spec fn toks_near(toks: Seq<TokView>) -> bool {
    &&& spans_near(spans_of(toks))
    &&& total_weight(toks) <= TEXT_LIMIT
}

/// One more token adds its weight.
pub proof fn lemma_weight_push(toks: Seq<TokView>, t: TokView)
    ensures
        total_weight(toks.push(t)) == total_weight(toks) + weight(t),
{
    assert(toks.push(t).drop_last() =~= toks);
}

/// A stretch of the tokens weighs no more than all of them.
pub proof fn lemma_weight_subrange(toks: Seq<TokView>, a: int, b: int)
    requires
        0 <= a <= b <= toks.len(),
    ensures
        total_weight(toks.subrange(a, b)) <= total_weight(toks),
    decreases toks.len(),
{
    if toks.len() > 0 {
        if b == toks.len() {
            if a == b {
                assert(toks.subrange(a, b) =~= Seq::<TokView>::empty());
            } else {
                assert(toks.subrange(a, b).drop_last() =~= toks.drop_last().subrange(a, b - 1));
                lemma_weight_subrange(toks.drop_last(), a, b - 1);
            }
        } else {
            assert(toks.subrange(a, b) =~= toks.drop_last().subrange(a, b));
            lemma_weight_subrange(toks.drop_last(), a, b);
        }
    } else {
        assert(toks.subrange(a, b) =~= toks);
    }
}

/// A token is tiny if it lasts less than the minimum word duration.
pub open spec fn tiny(t: TokView, min_dur: int) -> bool {
    t.end - t.start < min_dur
}

/// The text of `a` and the core of `b` as one word: the two are a space
/// apart where both have a core.
pub open spec fn joined_word(a: TokView, b: TokView) -> Seq<char> {
    a.word + a.punc + (if a.word.len() > 0 && b.word.len() > 0 {
        seq![' ']
    } else {
        Seq::empty()
    }) + b.word
}

/// The tiny token `a` merged into the token `b` that follows it: the text
/// of both, the earlier start, and the rest as `b` has it.
pub open spec fn merged_forward(a: TokView, b: TokView) -> TokView {
    TokView { word: joined_word(a, b), punc: b.punc, start: min_of(a.start, b.start), ..b }
}

/// The tiny token `t` merged into the token `p` before it: the text of
/// both, the punctuation of `t`, the later end, and the rest as `p` has it.
pub open spec fn merged_backward(p: TokView, t: TokView) -> TokView {
    TokView { word: joined_word(p, t), punc: t.punc, end: max_of(p.end, t.end), ..p }
}

/// What the walk of `merge_tiny` gives from token `i` on, when `out` has come
/// out so far.
pub open spec fn merge_from(
    toks: Seq<TokView>,
    i: int,
    out: Seq<TokView>,
    min_dur: int,
) -> Seq<TokView>
    decreases toks.len() - i,
{
    if i < 0 || i >= toks.len() {
        out
    } else if tiny(toks[i], min_dur) && i + 1 < toks.len() {
        merge_from(toks, i + 2, out.push(merged_forward(toks[i], toks[i + 1])), min_dur)
    } else if tiny(toks[i], min_dur) && out.len() > 0 {
        merge_from(toks, i + 1, out.drop_last().push(merged_backward(out.last(), toks[i])), min_dur)
    } else {
        merge_from(toks, i + 1, out.push(toks[i]), min_dur)
    }
}

/// The tokens after the tiny ones are merged away. The stream is walked
/// from the front: a tiny token is merged into the token after it, and the
/// walk goes on behind the two; a tiny token at the end of the stream is
/// merged into what came out last; any other token is kept.
pub open spec fn merge_tiny(toks: Seq<TokView>, min_dur: int) -> Seq<TokView> {
    merge_from(toks, 0, Seq::empty(), min_dur)
}

/// A merged token weighs no more than the two tokens it is made of.
pub proof fn lemma_merged_weight(a: TokView, b: TokView)
    ensures
        weight(merged_forward(a, b)) <= weight(a) + weight(b),
        weight(merged_backward(a, b)) <= weight(a) + weight(b),
{
}

/// The text of two tokens joined for a merge, and the punctuation that the
/// merged token keeps.
pub fn join_tokens(a: &Tok, b: &Tok) -> (r: (String, String))
    ensures
        r.0@ == joined_word(a@, b@),
        r.1@ == b@.punc,
{
    let mut s = a.word.clone();
    s.append(a.punc.as_str());
    if !a.word.as_str().is_empty() && !b.word.as_str().is_empty() {
        proof {
            reveal_strlit(" ");
        }
        assert(" "@ =~= seq![' ']);
        s.append(" ");
    }
    s.append(b.word.as_str());
    assert(s@ =~= joined_word(a@, b@));
    (s, b.punc.clone())
}

fn merge_forward(a: &Tok, b: &Tok) -> (r: Tok)
    ensures
        r@ == merged_forward(a@, b@),
{
    let (word, punc) = join_tokens(a, b);
    Tok {
        word,
        punc,
        start: if a.start <= b.start {
            a.start
        } else {
            b.start
        },
        end: b.end,
        prob: b.prob,
        speaker: clone_opt_text(&b.speaker),
    }
}

fn merge_backward(p: &Tok, t: &Tok) -> (r: Tok)
    ensures
        r@ == merged_backward(p@, t@),
{
    let (word, punc) = join_tokens(p, t);
    Tok {
        word,
        punc,
        start: p.start,
        end: if p.end >= t.end {
            p.end
        } else {
            t.end
        },
        prob: p.prob,
        speaker: clone_opt_text(&p.speaker),
    }
}

/// Every boundary of the tokens is within the time limit and the slack
/// of clamping.
pub open spec fn times_near(toks: Seq<TokView>) -> bool {
    forall|k: int|
        0 <= k < toks.len() ==> {
            &&& -TIME_LIMIT - CLAMP_SLACK <= (#[trigger] toks[k]).start <= TIME_LIMIT + CLAMP_SLACK
            &&& -TIME_LIMIT - CLAMP_SLACK <= toks[k].end <= TIME_LIMIT + CLAMP_SLACK
        }
}

/// The times of the tokens are near the limit exactly when their spans are.
pub proof fn lemma_times_near(toks: Seq<TokView>)
    ensures
        times_near(toks) <==> spans_near(spans_of(toks)),
{
    let sp = spans_of(toks);
    if times_near(toks) {
        assert forall|k: int| 0 <= k < sp.len() implies {
            &&& -TIME_LIMIT - CLAMP_SLACK <= (#[trigger] sp[k]).start <= TIME_LIMIT + CLAMP_SLACK
            &&& -TIME_LIMIT - CLAMP_SLACK <= sp[k].end <= TIME_LIMIT + CLAMP_SLACK
        } by {
            let _ = toks[k];
        }
    }
    if spans_near(sp) {
        assert forall|k: int| 0 <= k < toks.len() implies {
            &&& -TIME_LIMIT - CLAMP_SLACK <= (#[trigger] toks[k]).start <= TIME_LIMIT + CLAMP_SLACK
            &&& -TIME_LIMIT - CLAMP_SLACK <= toks[k].end <= TIME_LIMIT + CLAMP_SLACK
        } by {
            let _ = sp[k];
        }
    }
}

/// Merges the tiny tokens away.
pub fn merge_tiny_words(toks: &Vec<Tok>, min_dur: u32) -> (out: Vec<Tok>)
    requires
        toks_near(toks.deep_view()),
    ensures
        out.deep_view() == merge_tiny(toks.deep_view(), min_dur as int),
        toks_near(out.deep_view()),
{
    let ghost ts = toks.deep_view();
    let n = toks.len();
    let mut out: Vec<Tok> = Vec::new();
    let mut i: usize = 0;
    proof {
        lemma_times_near(ts);
        assert(out.deep_view() =~= Seq::<TokView>::empty());
        assert(ts.take(0) =~= Seq::<TokView>::empty());
    }
    while i < n
        invariant
            i <= n == toks.len(),
            ts == toks.deep_view(),
            times_near(ts),
            times_near(out.deep_view()),
            i > 0 ==> out.len() > 0,
            merge_from(ts, i as int, out.deep_view(), min_dur as int) == merge_tiny(ts, min_dur as int),
            total_weight(out.deep_view()) <= total_weight(ts.take(i as int)),
        decreases n - i,
    {
        let t = &toks[i];
        let ghost o = out.deep_view();
        assert(ts[i as int] == t@);
        let is_tiny = t.end - t.start < min_dur as i64;
        proof {
            assert(ts.take(i + 1).drop_last() =~= ts.take(i as int));
            assert(ts.take(i + 1).last() == ts[i as int]);
            assert(total_weight(ts.take(i + 1)) == total_weight(ts.take(i as int)) + weight(
                ts[i as int],
            ));
        }
        if is_tiny && i + 1 < n {
            let next = &toks[i + 1];
            assert(ts[i + 1] == next@);
            let m = merge_forward(t, next);
            out.push(m);
            proof {
                assert(out.deep_view() =~= o.push(merged_forward(ts[i as int], ts[i + 1])));
                lemma_weight_push(o, merged_forward(ts[i as int], ts[i + 1]));
                assert(ts.take(i + 2).drop_last() =~= ts.take(i + 1));
                assert(ts.take(i + 2).last() == ts[i + 1]);
                assert(total_weight(ts.take(i + 2)) == total_weight(ts.take(i + 1)) + weight(
                    ts[i + 1],
                ));
                lemma_merged_weight(ts[i as int], ts[i + 1]);
                assert forall|k: int| 0 <= k < out.deep_view().len() implies {
                    &&& -TIME_LIMIT - CLAMP_SLACK <= (#[trigger] out.deep_view()[k]).start <= TIME_LIMIT + CLAMP_SLACK
                    &&& -TIME_LIMIT - CLAMP_SLACK <= out.deep_view()[k].end <= TIME_LIMIT + CLAMP_SLACK
                } by {
                    if k < o.len() {
                        assert(out.deep_view()[k] == o[k]);
                    }
                }
            }
            i += 2;
        } else if is_tiny && i > 0 {
            let prev = out.pop().unwrap();
            assert(prev@ == o.last());
            let ghost rest = out.deep_view();
            assert(rest =~= o.drop_last());
            let m = merge_backward(&prev, t);
            out.push(m);
            proof {
                assert(out.deep_view() =~= o.drop_last().push(merged_backward(o.last(), ts[i as int])));
                lemma_weight_push(o.drop_last(), merged_backward(o.last(), ts[i as int]));
                assert(total_weight(o) == total_weight(o.drop_last()) + weight(o.last()));
                lemma_merged_weight(o.last(), ts[i as int]);
                assert forall|k: int| 0 <= k < out.deep_view().len() implies {
                    &&& -TIME_LIMIT - CLAMP_SLACK <= (#[trigger] out.deep_view()[k]).start <= TIME_LIMIT + CLAMP_SLACK
                    &&& -TIME_LIMIT - CLAMP_SLACK <= out.deep_view()[k].end <= TIME_LIMIT + CLAMP_SLACK
                } by {
                    if k < o.len() - 1 {
                        assert(out.deep_view()[k] == o[k]);
                    } else {
                        let _ = o[o.len() - 1];
                    }
                }
            }
            i += 1;
        } else {
            out.push(t.clone());
            proof {
                assert(out.deep_view() =~= o.push(ts[i as int]));
                lemma_weight_push(o, ts[i as int]);
                assert forall|k: int| 0 <= k < out.deep_view().len() implies {
                    &&& -TIME_LIMIT - CLAMP_SLACK <= (#[trigger] out.deep_view()[k]).start <= TIME_LIMIT + CLAMP_SLACK
                    &&& -TIME_LIMIT - CLAMP_SLACK <= out.deep_view()[k].end <= TIME_LIMIT + CLAMP_SLACK
                } by {
                    if k < o.len() {
                        assert(out.deep_view()[k] == o[k]);
                    }
                }
            }
            i += 1;
        }
    }
    proof {
        assert(ts.take(n as int) =~= ts);
        lemma_times_near(out.deep_view());
    }
    out
}

/// The tokens after clamping and merging.
pub open spec fn clamp_merge(
    toks: Seq<TokView>,
    min_dur: int,
    oracle: Option<&dyn SilenceOracle>,
) -> Seq<TokView> {
    merge_tiny(with_spans(toks, clamped(spans_of(toks), min_dur, oracle)), min_dur)
}

proof fn lemma_with_spans_weight(toks: Seq<TokView>, spans: Seq<Span>)
    ensures
        total_weight(with_spans(toks, spans)) == total_weight(toks),
    decreases toks.len(),
{
    if toks.len() > 0 {
        assert(with_spans(toks, spans).drop_last() =~= with_spans(toks.drop_last(), spans));
        lemma_with_spans_weight(toks.drop_last(), spans);
    }
}

/// Clamps the boundaries of the tokens against their neighbours and the
/// silence that the oracle tells of, then merges the tiny tokens away.
/// Without an oracle nothing is silent.
pub fn clamp_and_merge_tiny_words(
    toks: &mut Vec<Tok>,
    cfg: &PostProcessConfig,
    oracle: Option<&dyn SilenceOracle>,
)
    requires
        toks_fit(old(toks).deep_view()),
    ensures
        final(toks).deep_view() == clamp_merge(old(toks).deep_view(), cfg.min_word_dur_ms as int, oracle),
        toks_near(final(toks).deep_view()),
{
    let ghost ts = toks.deep_view();
    let n = toks.len();
    let mut spans: Vec<Times> = Vec::new();
    let mut i: usize = 0;
    assert(spans.deep_view() =~= spans_of(ts).take(0));
    while i < n
        invariant
            i <= n == toks.len(),
            ts == toks.deep_view(),
            spans.deep_view() == spans_of(ts).take(i as int),
        decreases n - i,
    {
        let ghost before = spans.deep_view();
        assert(ts[i as int] == toks@[i as int]@);
        spans.push(Times { start: toks[i].start, end: toks[i].end });
        assert(spans.deep_view() =~= before.push(spans_of(ts)[i as int]));
        assert(spans_of(ts).take(i + 1) =~= spans_of(ts).take(i as int).push(spans_of(ts)[i as int]));
        i += 1;
    }
    assert(spans_of(ts).take(n as int) =~= spans_of(ts));
    clamp_spans(&mut spans, cfg.min_word_dur_ms, oracle);
    let ghost sp = spans.deep_view();
    let ghost want = with_spans(ts, sp);
    let mut moved: Vec<Tok> = Vec::new();
    let mut k: usize = 0;
    assert(moved.deep_view() =~= want.take(0));
    while k < n
        invariant
            k <= n == toks.len(),
            n == spans.len(),
            ts == toks.deep_view(),
            sp == spans.deep_view(),
            want == with_spans(ts, sp),
            moved.deep_view() == want.take(k as int),
        decreases n - k,
    {
        let ghost before = moved.deep_view();
        let t = &toks[k];
        assert(ts[k as int] == t@);
        assert(sp[k as int] == spans@[k as int]@);
        let m = Tok {
            word: t.word.clone(),
            punc: t.punc.clone(),
            start: spans[k].start,
            end: spans[k].end,
            prob: t.prob,
            speaker: clone_opt_text(&t.speaker),
        };
        assert(m@ == want[k as int]);
        moved.push(m);
        assert(moved.deep_view() =~= before.push(want[k as int]));
        assert(want.take(k + 1) =~= want.take(k as int).push(want[k as int]));
        k += 1;
    }
    proof {
        assert(want.take(n as int) =~= want);
        lemma_with_spans_weight(ts, sp);
        assert(spans_of(want) =~= sp);
    }
    *toks = merge_tiny_words(&moved, cfg.min_word_dur_ms);
}

/// A group ends with token `i`: the token ends a sentence, or a long pause
/// lies between it and the next token.
pub open spec fn boundary(toks: Seq<TokView>, i: int, cfg: PostProcessConfig) -> bool {
    terminal(toks[i].punc) || (i + 1 < toks.len() && toks[i + 1].start - toks[i].end
        >= cfg.split_gap_ms)
}

/// The end of the group that holds token `i`: the index after the first
/// token from `i` on with which a group ends, or the number of tokens.
pub open spec fn group_end(toks: Seq<TokView>, i: int, cfg: PostProcessConfig) -> int
    decreases toks.len() - i,
{
    if i + 1 >= toks.len() || boundary(toks, i, cfg) {
        i + 1
    } else {
        group_end(toks, i + 1, cfg)
    }
}

/// The groups of the tokens from token `i` on, which begins a group.
pub open spec fn groups_from(
    toks: Seq<TokView>,
    i: int,
    cfg: PostProcessConfig,
) -> Seq<Seq<TokView>>
    decreases toks.len() - i,
{
    let e = group_end(toks, i, cfg);
    if i < 0 || i >= toks.len() || e <= i || e > toks.len() {
        Seq::empty()
    } else {
        seq![toks.subrange(i, e)] + groups_from(toks, e, cfg)
    }
}

/// The tokens cut into groups: a group ends with each token that ends a
/// sentence or is followed by a long pause, and with the last token.
pub open spec fn groups(toks: Seq<TokView>, cfg: PostProcessConfig) -> Seq<Seq<TokView>> {
    groups_from(toks, 0, cfg)
}

/// A group holds at least one token, no group ends inside it, and one ends
/// with its last token unless the tokens end there.
pub proof fn lemma_group_end(toks: Seq<TokView>, i: int, cfg: PostProcessConfig)
    requires
        0 <= i < toks.len(),
    ensures
        i < group_end(toks, i, cfg) <= toks.len(),
        forall|k: int| i <= k < group_end(toks, i, cfg) - 1 ==> !boundary(toks, k, cfg),
        group_end(toks, i, cfg) < toks.len() ==> boundary(toks, group_end(toks, i, cfg) - 1, cfg),
    decreases toks.len() - i,
{
    if !(i + 1 >= toks.len() || boundary(toks, i, cfg)) {
        lemma_group_end(toks, i + 1, cfg);
    }
}

/// Two words with a long pause between them are never in one group: a
/// group that begins at or before the first of them ends with it at the
/// latest.
pub proof fn lemma_gap_splits(toks: Seq<TokView>, s: int, i: int, cfg: PostProcessConfig)
    requires
        0 <= s <= i,
        i + 1 < toks.len(),
        toks[i + 1].start - toks[i].end >= cfg.split_gap_ms,
    ensures
        group_end(toks, s, cfg) <= i + 1,
    decreases i - s,
{
    if s < i && !boundary(toks, s, cfg) {
        lemma_gap_splits(toks, s + 1, i, cfg);
    }
}

fn boundary_at(toks: &[Tok], i: usize, cfg: &PostProcessConfig) -> (r: bool)
    requires
        i < toks.len(),
    ensures
        r == boundary(toks.deep_view(), i as int, *cfg),
{
    let ghost ts = toks.deep_view();
    assert(ts[i as int] == toks@[i as int]@);
    if is_terminal_punct(toks[i].punc.as_str()) {
        return true;
    }
    if i + 1 < toks.len() {
        assert(ts[i + 1] == toks@[i + 1]@);
        toks[i + 1].start as i128 - toks[i].end as i128 >= cfg.split_gap_ms as i128
    } else {
        false
    }
}

/// A copy of the tokens `toks[lo..hi]`.
pub fn copy_range(toks: &[Tok], lo: usize, hi: usize) -> (r: Vec<Tok>)
    requires
        lo <= hi <= toks.len(),
    ensures
        r.deep_view() == toks.deep_view().subrange(lo as int, hi as int),
        r.len() == hi - lo,
{
    let ghost ts = toks.deep_view();
    let mut r: Vec<Tok> = Vec::new();
    let mut i: usize = lo;
    assert(r.deep_view() =~= ts.subrange(lo as int, lo as int));
    while i < hi
        invariant
            lo <= i <= hi <= toks.len(),
            ts == toks.deep_view(),
            r.len() == i - lo,
            r.deep_view() == ts.subrange(lo as int, i as int),
        decreases hi - i,
    {
        let ghost before = r.deep_view();
        assert(ts[i as int] == toks@[i as int]@);
        r.push(toks[i].clone());
        assert(r.deep_view() =~= before.push(ts[i as int]));
        assert(ts.subrange(lo as int, i + 1) =~= ts.subrange(lo as int, i as int).push(ts[i as int]));
        i += 1;
    }
    r
}

/// Cuts the tokens into groups at sentence ends and long pauses.
pub fn split_into_groups(toks: &[Tok], cfg: &PostProcessConfig) -> (out: Vec<Vec<Tok>>)
    ensures
        out.deep_view() == groups(toks.deep_view(), *cfg),
{
    let ghost ts = toks.deep_view();
    let n = toks.len();
    let mut out: Vec<Vec<Tok>> = Vec::new();
    let mut i: usize = 0;
    assert(out.deep_view() + groups_from(ts, 0, *cfg) =~= groups(ts, *cfg));
    while i < n
        invariant
            i <= n == toks.len(),
            ts == toks.deep_view(),
            out.deep_view() + groups_from(ts, i as int, *cfg) == groups(ts, *cfg),
        decreases n - i,
    {
        let mut j: usize = i;
        while j + 1 < n && !boundary_at(toks, j, cfg)
            invariant
                i <= j < n == toks.len(),
                ts == toks.deep_view(),
                group_end(ts, j as int, *cfg) == group_end(ts, i as int, *cfg),
            decreases n - j,
        {
            j += 1;
        }
        let e = j + 1;
        assert(group_end(ts, i as int, *cfg) == e);
        let g = copy_range(toks, i, e);
        let ghost before = out.deep_view();
        out.push(g);
        proof {
            let gv = ts.subrange(i as int, e as int);
            assert(out.deep_view() =~= before.push(gv));
            assert(before.push(gv) + groups_from(ts, e as int, *cfg) =~= before + (seq![gv]
                + groups_from(ts, e as int, *cfg)));
        }
        i = e;
    }
    assert(out.deep_view() + Seq::<Seq<TokView>>::empty() =~= out.deep_view());
    out
}

/// The lines a cue may have: as many as configured, but at least one.
pub open spec fn line_count(cfg: PostProcessConfig) -> int {
    if cfg.max_lines == 0 {
        1
    } else {
        cfg.max_lines as int
    }
}

/// The duration, in milliseconds, of the window of tokens `a..b`: from
/// the start of its first token to the end of its last.
pub open spec fn window_span(toks: Seq<TokView>, a: int, b: int) -> int {
    toks[b - 1].end - toks[a].start
}

/// The time, in milliseconds, over which the text of the window of tokens
/// `a..b` is read: its duration, but one millisecond at the least.
pub open spec fn reading_ms(toks: Seq<TokView>, a: int, b: int) -> int {
    max_of(window_span(toks, a, b), 1)
}

/// The window of tokens `a..b` may take in token `b`: there is such a
/// token, the window is shorter than the longest cue may be, and either its
/// reading speed is within the cap or its text is shorter than a cue's
/// lines can hold.
pub open spec fn may_grow(toks: Seq<TokView>, a: int, b: int, cfg: PostProcessConfig) -> bool {
    let chars = rendered(toks.subrange(a, b)).len();
    &&& b < toks.len()
    &&& window_span(toks, a, b) < cfg.max_sub_dur_ms
    &&& (chars * 1_000_000 <= cfg.cps_cap_milli * reading_ms(toks, a, b) || chars
        < cfg.max_chars_per_line * line_count(cfg))
}

/// Where the window that begins at `a` and has reached `b` ends.
pub open spec fn window_end(toks: Seq<TokView>, a: int, b: int, cfg: PostProcessConfig) -> int
    decreases toks.len() - b,
{
    if may_grow(toks, a, b, cfg) {
        window_end(toks, a, b + 1, cfg)
    } else {
        b
    }
}

/// The words of a cue: the tokens with their punctuation attached.
pub open spec fn cue_words(toks: Seq<TokView>) -> Seq<WordView> {
    Seq::new(
        toks.len(),
        |i: int|
            WordView {
                word: rendered_tok(toks[i]),
                start: toks[i].start,
                end: toks[i].end,
                probability: toks[i].prob,
            },
    )
}

/// The cue over the tokens of one window: it spans from the start of the
/// first token, but not from before zero, to the end of the last, and has
/// the speaker of the first.
pub open spec fn cue_of(toks: Seq<TokView>, cfg: PostProcessConfig) -> CueView {
    CueView {
        start: max_of(toks[0].start, 0),
        end: toks.last().end,
        lines: split_lines(toks, cfg),
        words: cue_words(toks),
        speaker_id: toks[0].speaker,
    }
}

/// The cues of the group from token `i` on, which begins a window.
pub open spec fn cues_from(group: Seq<TokView>, i: int, cfg: PostProcessConfig) -> Seq<CueView>
    decreases group.len() - i,
{
    let e = window_end(group, i, i + 1, cfg);
    if i < 0 || i >= group.len() || e <= i || e > group.len() {
        Seq::empty()
    } else {
        seq![cue_of(group.subrange(i, e), cfg)] + cues_from(group, e, cfg)
    }
}

/// The cues of one group: from the first token on, a window is grown
/// while it may, gives a cue, and the next window begins behind it.
pub open spec fn group_cues(group: Seq<TokView>, cfg: PostProcessConfig) -> Seq<CueView> {
    cues_from(group, 0, cfg)
}

/// The cues of the groups, in order.
pub open spec fn all_cues(gs: Seq<Seq<TokView>>, cfg: PostProcessConfig) -> Seq<CueView>
    decreases gs.len(),
{
    if gs.len() == 0 {
        Seq::empty()
    } else {
        all_cues(gs.drop_last(), cfg) + group_cues(gs.last(), cfg)
    }
}

/// The subtitle cues of a transcript.
pub open spec fn subtitles(
    segs: Seq<SegmentView>,
    cfg: PostProcessConfig,
    oracle: Option<&dyn SilenceOracle>,
) -> Seq<CueView> {
    all_cues(groups(clamp_merge(flatten(segs), cfg.min_word_dur_ms as int, oracle), cfg), cfg)
}

/// The start, the end and the number of characters of the tokens; zeros
/// where there are none.
pub fn slice_stats(slice: &[Tok]) -> (r: (i64, i64, usize))
    requires
        total_weight(slice.deep_view()) <= TEXT_LIMIT,
    ensures
        slice.len() > 0 ==> r.0 == slice.deep_view()[0].start && r.1 == slice.deep_view().last().end,
        slice.len() == 0 ==> r.0 == 0 && r.1 == 0,
        r.2 == rendered(slice.deep_view()).len(),
{
    let n = slice.len();
    assert(slice.deep_view().subrange(0, n as int) =~= slice.deep_view());
    let chars = range_chars(slice, 0, n);
    if n == 0 {
        (0, 0, chars)
    } else {
        assert(slice.deep_view()[0] == slice@[0]@);
        assert(slice.deep_view()[n - 1] == slice@[n - 1]@);
        (slice[0].start, slice[n - 1].end, chars)
    }
}

/// Whether the window `a..b` of the group may take in token `b`.
fn grows(group: &[Tok], a: usize, b: usize, cfg: &PostProcessConfig) -> (r: bool)
    requires
        a < b <= group.len(),
        toks_near(group.deep_view()),
    ensures
        r == may_grow(group.deep_view(), a as int, b as int, *cfg),
{
    let ghost g = group.deep_view();
    if b >= group.len() {
        return false;
    }
    proof {
        lemma_times_near(g);
        assert(g[a as int] == group@[a as int]@);
        assert(g[b - 1] == group@[b - 1]@);
    }
    let chars = range_chars(group, a, b);
    let span: i64 = group[b - 1].end - group[a].start;
    let dur: i64 = if span > 1 {
        span
    } else {
        1
    };
    if span >= cfg.max_sub_dur_ms as i64 {
        return false;
    }
    let lines: u128 = if cfg.max_lines == 0 {
        1
    } else {
        cfg.max_lines as u128
    };
    let per_line: u128 = cfg.max_chars_per_line as u128;
    assert(per_line * lines <= 0xFFFF_FFFF_FFFF_FFFF * 0xFFFF_FFFF_FFFF_FFFF) by (nonlinear_arith)
        requires
            0 <= per_line <= 0xFFFF_FFFF_FFFF_FFFF,
            0 <= lines <= 0xFFFF_FFFF_FFFF_FFFF,
    ;
    let cap: u128 = per_line * lines;
    let cps_cap: u128 = cfg.cps_cap_milli as u128;
    let d: u128 = dur as u128;
    assert(cps_cap * d <= 0xFFFF_FFFF * 0xFFFF_FFFF) by (nonlinear_arith)
        requires
            0 <= cps_cap <= 0xFFFF_FFFF,
            0 <= d <= 0xFFFF_FFFF,
    ;
    (chars as u128) * 1_000_000 <= cps_cap * d || (chars as u128) < cap
}

fn make_words(toks: &[Tok]) -> (words: Vec<WordTimestamp>)
    ensures
        words.deep_view() == cue_words(toks.deep_view()),
{
    let ghost ts = toks.deep_view();
    let ghost want = cue_words(ts);
    let mut words: Vec<WordTimestamp> = Vec::new();
    let mut i: usize = 0;
    assert(words.deep_view() =~= want.take(0));
    while i < toks.len()
        invariant
            i <= toks.len(),
            ts == toks.deep_view(),
            want == cue_words(ts),
            words.deep_view() == want.take(i as int),
        decreases toks.len() - i,
    {
        let ghost before = words.deep_view();
        let t = &toks[i];
        assert(ts[i as int] == t@);
        let w = WordTimestamp { word: render_token(t), start: t.start, end: t.end, probability: t.prob };
        assert(w@ == want[i as int]);
        words.push(w);
        assert(words.deep_view() =~= before.push(want[i as int]));
        assert(want.take(i + 1) =~= want.take(i as int).push(want[i as int]));
        i += 1;
    }
    assert(want.take(toks.len() as int) =~= want);
    words
}

/// The cue over the tokens of one window.
fn make_cue(window: &[Tok], cfg: &PostProcessConfig) -> (cue: SubtitleCue)
    requires
        window.len() > 0,
        total_weight(window.deep_view()) <= TEXT_LIMIT,
    ensures
        cue@ == cue_of(window.deep_view(), *cfg),
{
    let n = window.len();
    assert(window.deep_view()[0] == window@[0]@);
    assert(window.deep_view()[n - 1] == window@[n - 1]@);
    let lines = split_into_lines(window, cfg);
    let words = make_words(window);
    let t0 = window[0].start;
    SubtitleCue {
        start: if t0 > 0 {
            t0
        } else {
            0
        },
        end: window[n - 1].end,
        lines,
        words,
        speaker_id: clone_opt_text(&window[0].speaker),
    }
}

/// Grows a window from token `start_idx` of the group and makes the cue of
/// it; gives the index at which the next window begins, and the cue.
pub fn build_cue(
    group: &[Tok],
    start_idx: usize,
    cfg: &PostProcessConfig,
) -> (r: (usize, SubtitleCue))
    requires
        start_idx < group.len(),
        toks_near(group.deep_view()),
    ensures
        r.0 == window_end(group.deep_view(), start_idx as int, start_idx + 1, *cfg),
        start_idx < r.0 <= group.len(),
        r.1@ == cue_of(group.deep_view().subrange(start_idx as int, r.0 as int), *cfg),
{
    let ghost g = group.deep_view();
    let mut j: usize = start_idx + 1;
    while grows(group, start_idx, j, cfg)
        invariant
            start_idx < j <= group.len(),
            g == group.deep_view(),
            toks_near(g),
            window_end(g, start_idx as int, j as int, *cfg) == window_end(
                g,
                start_idx as int,
                start_idx + 1,
                *cfg,
            ),
        decreases group.len() - j,
    {
        j += 1;
    }
    let window = copy_range(group, start_idx, j);
    let slice = window.as_slice();
    proof {
        lemma_weight_subrange(g, start_idx as int, j as int);
        assert(slice.deep_view() =~= window.deep_view());
    }
    let cue = make_cue(slice, cfg);
    (j, cue)
}

/// The cues of one group.
fn cues_of_group(group: &[Tok], cfg: &PostProcessConfig, cues: &mut Vec<SubtitleCue>)
    requires
        toks_near(group.deep_view()),
    ensures
        final(cues).deep_view() == old(cues).deep_view() + group_cues(group.deep_view(), *cfg),
{
    let ghost g = group.deep_view();
    let ghost c0 = cues.deep_view();
    let mut i: usize = 0;
    assert(cues.deep_view() + cues_from(g, 0, *cfg) =~= c0 + group_cues(g, *cfg));
    while i < group.len()
        invariant
            i <= group.len(),
            g == group.deep_view(),
            toks_near(g),
            cues.deep_view() + cues_from(g, i as int, *cfg) == c0 + group_cues(g, *cfg),
        decreases group.len() - i,
    {
        let (j, cue) = build_cue(group, i, cfg);
        let ghost before = cues.deep_view();
        let ghost cv = cue@;
        cues.push(cue);
        proof {
            assert(cues.deep_view() =~= before.push(cv));
            assert(before.push(cv) + cues_from(g, j as int, *cfg) =~= before + (seq![cv] + cues_from(
                g,
                j as int,
                *cfg,
            )));
        }
        i = j;
    }
    assert(cues.deep_view() + Seq::<CueView>::empty() =~= cues.deep_view());
}

/// Every group is as clamping and merging leave tokens.
pub open spec fn groups_near(gs: Seq<Seq<TokView>>) -> bool {
    forall|k: int| 0 <= k < gs.len() ==> toks_near(#[trigger] gs[k])
}

proof fn lemma_subrange_near(toks: Seq<TokView>, a: int, b: int)
    requires
        toks_near(toks),
        0 <= a <= b <= toks.len(),
    ensures
        toks_near(toks.subrange(a, b)),
{
    lemma_weight_subrange(toks, a, b);
    lemma_times_near(toks);
    let sub = toks.subrange(a, b);
    assert forall|k: int| 0 <= k < sub.len() implies {
        &&& -TIME_LIMIT - CLAMP_SLACK <= (#[trigger] sub[k]).start <= TIME_LIMIT + CLAMP_SLACK
        &&& -TIME_LIMIT - CLAMP_SLACK <= sub[k].end <= TIME_LIMIT + CLAMP_SLACK
    } by {
        assert(sub[k] == toks[a + k]);
    }
    lemma_times_near(sub);
}

proof fn lemma_groups_near(toks: Seq<TokView>, i: int, cfg: PostProcessConfig)
    requires
        toks_near(toks),
    ensures
        groups_near(groups_from(toks, i, cfg)),
    decreases toks.len() - i,
{
    let e = group_end(toks, i, cfg);
    if !(i < 0 || i >= toks.len() || e <= i || e > toks.len()) {
        lemma_groups_near(toks, e, cfg);
        lemma_subrange_near(toks, i, e);
        let gs = groups_from(toks, i, cfg);
        let rest = groups_from(toks, e, cfg);
        assert forall|k: int| 0 <= k < gs.len() implies toks_near(#[trigger] gs[k]) by {
            if k > 0 {
                assert(gs[k] == rest[k - 1]);
            }
        }
    }
}

/// Subtitle cues from a transcript.
///
/// The words of the segments are split from their punctuation, clamped and
/// merged, cut into groups, and each group gives one cue or more. The
/// oracle, if there is one, is asked about the silence at the edges of
/// each word; without an oracle nothing counts as silence. No segments
/// give no cues.
pub fn process_segments(
    segments: &[Segment],
    cfg: &PostProcessConfig,
    oracle: Option<&dyn SilenceOracle>,
) -> (cues: Vec<SubtitleCue>)
    requires
        toks_fit(flatten(segments.deep_view())),
    ensures
        cues.deep_view() == subtitles(segments.deep_view(), *cfg, oracle),
        segments.len() == 0 ==> cues.len() == 0,
{
    let mut toks = flatten_segments(segments);
    clamp_and_merge_tiny_words(&mut toks, cfg, oracle);
    let ghost ts = toks.deep_view();
    let toks_slice = toks.as_slice();
    assert(toks_slice.deep_view() =~= ts);
    let gs = split_into_groups(toks_slice, cfg);
    let ghost gv = gs.deep_view();
    proof {
        lemma_groups_near(ts, 0, *cfg);
    }
    let mut cues: Vec<SubtitleCue> = Vec::new();
    let mut k: usize = 0;
    assert(gv.take(0) =~= Seq::<Seq<TokView>>::empty());
    assert(cues.deep_view() =~= all_cues(gv.take(0), *cfg));
    while k < gs.len()
        invariant
            k <= gs.len(),
            gv == gs.deep_view(),
            groups_near(gv),
            cues.deep_view() == all_cues(gv.take(k as int), *cfg),
        decreases gs.len() - k,
    {
        let g = gs[k].as_slice();
        proof {
            assert(gv[k as int] == gs@[k as int].deep_view());
            assert(g.deep_view() =~= gv[k as int]);
            assert(gv.take(k + 1).drop_last() =~= gv.take(k as int));
            assert(gv.take(k + 1).last() == gv[k as int]);
        }
        cues_of_group(g, cfg, &mut cues);
        k += 1;
    }
    proof {
        assert(gv.take(gs.len() as int) =~= gv);
        if segments.len() == 0 {
            lemma_nothing_in_nothing_out(segments.deep_view(), *cfg, oracle);
        }
    }
    cues
}

/// A transcript without tokens gives no cues.
pub proof fn lemma_nothing_in_nothing_out(
    segs: Seq<SegmentView>,
    cfg: PostProcessConfig,
    oracle: Option<&dyn SilenceOracle>,
)
    requires
        flatten(segs).len() == 0,
    ensures
        subtitles(segs, cfg, oracle).len() == 0,
{
    let toks = flatten(segs);
    let sp = clamped(spans_of(toks), cfg.min_word_dur_ms as int, oracle);
    assert(with_spans(toks, sp).len() == 0);
    let m = clamp_merge(toks, cfg.min_word_dur_ms as int, oracle);
    assert(m.len() == 0);
    assert(groups(m, cfg).len() == 0);
}

/// Whether the formatter can take the tokens.
pub fn toks_check(toks: &[Tok]) -> (r: bool)
    ensures
        r == toks_fit(toks.deep_view()),
{
    let ghost ts = toks.deep_view();
    let mut sum: usize = 0;
    let mut i: usize = 0;
    assert(ts.take(0) =~= Seq::<TokView>::empty());
    while i < toks.len()
        invariant
            i <= toks.len(),
            ts == toks.deep_view(),
            sum == total_weight(ts.take(i as int)),
            sum <= TEXT_LIMIT,
            forall|k: int| 0 <= k < i ==> time_ok((#[trigger] ts[k]).start) && time_ok(ts[k].end),
        decreases toks.len() - i,
    {
        let t = &toks[i];
        proof {
            assert(ts[i as int] == t@);
            assert(ts.take(i + 1).drop_last() =~= ts.take(i as int));
            assert(ts.take(i + 1).last() == ts[i as int]);
            lemma_weight_subrange(ts, 0, i + 1);
            assert(ts.subrange(0, i + 1) =~= ts.take(i + 1));
        }
        if t.start < -TIME_LIMIT || t.start > TIME_LIMIT || t.end < -TIME_LIMIT || t.end > TIME_LIMIT {
            assert(!spans_ok(spans_of(ts))) by {
                let _ = spans_of(ts)[i as int];
            }
            return false;
        }
        let a = t.word.as_str().unicode_len();
        let b = t.punc.as_str().unicode_len();
        if a > TEXT_LIMIT - sum || b > TEXT_LIMIT - sum - a || TEXT_LIMIT - sum - a - b < 1 {
            return false;
        }
        sum = sum + a + b + 1;
        i += 1;
    }
    proof {
        assert(ts.take(toks.len() as int) =~= ts);
        assert forall|k: int| 0 <= k < spans_of(ts).len() implies time_ok(
            (#[trigger] spans_of(ts)[k]).start,
        ) && time_ok(spans_of(ts)[k].end) by {
            let _ = ts[k];
        }
    }
    true
}

/// Whether `process_segments` can take the segments: every time lies
/// within the time limit, and the text within the text limit.
pub fn segments_fit(segments: &[Segment]) -> (r: bool)
    ensures
        r == toks_fit(flatten(segments.deep_view())),
{
    let toks = flatten_segments(segments);
    let slice = toks.as_slice();
    assert(slice.deep_view() =~= toks.deep_view());
    toks_check(slice)
}

/// The texts of the words.
pub open spec fn word_texts(ws: Seq<WordView>) -> Seq<Seq<char>> {
    Seq::new(ws.len(), |i: int| ws[i].word)
}

/// Joining a cue's lines with a space gives the text of the cue's words
/// joined with a space: nothing is lost to the line break but the space it
/// stands for.
pub proof fn lemma_cue_lines_hold_words(toks: Seq<TokView>, cfg: PostProcessConfig)
    ensures
        joined(cue_of(toks, cfg).lines) == joined(word_texts(cue_of(toks, cfg).words)),
        joined(cue_of(toks, cfg).lines) == rendered(toks),
{
    lemma_lines_rejoin(toks, cfg);
    lemma_words_rejoin(toks);
    assert(word_texts(cue_words(toks)) =~= token_texts(toks));
}

/// Tokens among which no group ends before the last are one group.
pub proof fn lemma_unbroken_is_one_group(toks: Seq<TokView>, cfg: PostProcessConfig)
    requires
        toks.len() > 0,
        forall|i: int| 0 <= i < toks.len() - 1 ==> !boundary(toks, i, cfg),
    ensures
        groups(toks, cfg) == seq![toks],
{
    lemma_group_end(toks, 0, cfg);
    let e = group_end(toks, 0, cfg);
    if e < toks.len() {
        assert(boundary(toks, e - 1, cfg));
    }
    assert(toks.subrange(0, e) =~= toks);
    assert(groups_from(toks, e, cfg) =~= Seq::<Seq<TokView>>::empty());
    assert(seq![toks] + Seq::<Seq<TokView>>::empty() =~= seq![toks]);
}

proof fn lemma_window_runs(toks: Seq<TokView>, b: int, cfg: PostProcessConfig)
    requires
        0 < b <= toks.len(),
        forall|j: int| b <= j < toks.len() ==> may_grow(toks, 0, j, cfg),
    ensures
        window_end(toks, 0, b, cfg) == toks.len(),
    decreases toks.len() - b,
{
    if b < toks.len() {
        lemma_window_runs(toks, b + 1, cfg);
    }
}

/// A group is taken into one cue if its text is shorter than a cue's lines
/// can hold and every stretch of it from the first token to one before the
/// last is shorter than the longest cue may be.
pub proof fn lemma_short_group_is_one_cue(toks: Seq<TokView>, cfg: PostProcessConfig)
    requires
        toks.len() > 0,
        rendered(toks).len() < cfg.max_chars_per_line * line_count(cfg),
        forall|j: int| 0 < j < toks.len() ==> window_span(toks, 0, j) < cfg.max_sub_dur_ms,
    ensures
        group_cues(toks, cfg) == seq![cue_of(toks, cfg)],
{
    assert forall|j: int| 1 <= j < toks.len() implies may_grow(toks, 0, j, cfg) by {
        lemma_weight_subrange(toks, 0, j);
        lemma_rendered_len(toks.subrange(0, j));
        lemma_rendered_len(toks);
    }
    lemma_window_runs(toks, 1, cfg);
    assert(toks.subrange(0, toks.len() as int) =~= toks);
    assert(cues_from(toks, toks.len() as int, cfg) =~= Seq::<CueView>::empty());
    assert(seq![cue_of(toks, cfg)] + Seq::<CueView>::empty() =~= seq![cue_of(toks, cfg)]);
}

/// Tokens without a sentence end or a long pause before the last of them,
/// with a text shorter than a cue's lines can hold, are taken into exactly
/// one cue, if every stretch from the first token to one before the last
/// is shorter than the longest cue may be.
pub proof fn lemma_short_unbroken_is_one_cue(toks: Seq<TokView>, cfg: PostProcessConfig)
    requires
        toks.len() > 0,
        forall|i: int| 0 <= i < toks.len() - 1 ==> !boundary(toks, i, cfg),
        rendered(toks).len() < cfg.max_chars_per_line * line_count(cfg),
        forall|j: int| 0 < j < toks.len() ==> window_span(toks, 0, j) < cfg.max_sub_dur_ms,
    ensures
        all_cues(groups(toks, cfg), cfg) == seq![cue_of(toks, cfg)],
{
    lemma_unbroken_is_one_group(toks, cfg);
    lemma_short_group_is_one_cue(toks, cfg);
    let gs = seq![toks];
    assert(gs.drop_last() =~= Seq::<Seq<TokView>>::empty());
    assert(all_cues(gs.drop_last(), cfg) =~= Seq::<CueView>::empty());
    assert(gs.last() == toks);
    assert(Seq::<CueView>::empty() + group_cues(toks, cfg) =~= group_cues(toks, cfg));
}

/// `a` is the beginning of `b`.
pub open spec fn begins(b: Seq<char>, a: Seq<char>) -> bool {
    a.len() <= b.len() && b.take(a.len() as int) == a
}

/// What has come out of the walk is kept: the tokens before the last as
/// they are, the last with its start and with its word at the beginning of
/// the word it ends up with.
proof fn lemma_merge_keeps(toks: Seq<TokView>, i: int, out: Seq<TokView>, min_dur: int)
    requires
        out.len() > 0,
        0 <= i,
    ensures
        merge_from(toks, i, out, min_dur).len() >= out.len(),
        forall|k: int| 0 <= k < out.len() - 1 ==> merge_from(toks, i, out, min_dur)[k] == out[k],
        merge_from(toks, i, out, min_dur)[out.len() - 1].start == out.last().start,
        begins(merge_from(toks, i, out, min_dur)[out.len() - 1].word, out.last().word),
    decreases toks.len() - i,
{
    let r = merge_from(toks, i, out, min_dur);
    if i >= toks.len() {
        assert(out.last().word.take(out.last().word.len() as int) =~= out.last().word);
    } else if tiny(toks[i], min_dur) && i + 1 < toks.len() {
        let o2 = out.push(merged_forward(toks[i], toks[i + 1]));
        lemma_merge_keeps(toks, i + 2, o2, min_dur);
        assert(r[out.len() - 1] == o2[out.len() - 1]);
        assert(out.last().word.take(out.last().word.len() as int) =~= out.last().word);
        assert forall|k: int| 0 <= k < out.len() - 1 implies r[k] == out[k] by {
            assert(r[k] == o2[k]);
        }
    } else if tiny(toks[i], min_dur) && out.len() > 0 {
        let m = merged_backward(out.last(), toks[i]);
        let o2 = out.drop_last().push(m);
        lemma_merge_keeps(toks, i + 1, o2, min_dur);
        assert(o2.last() == m);
        assert(begins(m.word, out.last().word)) by {
            assert(m.word.take(out.last().word.len() as int) =~= out.last().word);
        }
        let w = r[out.len() - 1].word;
        assert(w.take(out.last().word.len() as int) =~= w.take(m.word.len() as int).take(
            out.last().word.len() as int,
        ));
        assert forall|k: int| 0 <= k < out.len() - 1 implies r[k] == out[k] by {
            assert(r[k] == o2[k]);
        }
    } else {
        let o2 = out.push(toks[i]);
        lemma_merge_keeps(toks, i + 1, o2, min_dur);
        assert(r[out.len() - 1] == o2[out.len() - 1]);
        assert(out.last().word.take(out.last().word.len() as int) =~= out.last().word);
        assert forall|k: int| 0 <= k < out.len() - 1 implies r[k] == out[k] by {
            assert(r[k] == o2[k]);
        }
    }
}

/// The walk of `merge_tiny` comes to stand at token `i`: it begins at the
/// first token, goes from a token that it keeps or merges backward to the
/// next, and from a tiny token that it merges forward to the token after
/// the next.
pub open spec fn visited(toks: Seq<TokView>, i: int, min_dur: int) -> bool
    decreases i,
{
    if i <= 0 {
        i == 0
    } else {
        ||| (visited(toks, i - 1, min_dur) && !(tiny(toks[i - 1], min_dur) && i < toks.len()))
        ||| (i >= 2 && visited(toks, i - 2, min_dur) && tiny(toks[i - 2], min_dur))
    }
}

proof fn lemma_walk(toks: Seq<TokView>, i: int, min_dur: int) -> (out: Seq<TokView>)
    requires
        0 <= i <= toks.len(),
        visited(toks, i, min_dur),
    ensures
        merge_tiny(toks, min_dur) == merge_from(toks, i, out, min_dur),
    decreases i,
{
    if i == 0 {
        Seq::empty()
    } else if visited(toks, i - 1, min_dur) && !(tiny(toks[i - 1], min_dur) && i < toks.len()) {
        let o = lemma_walk(toks, i - 1, min_dur);
        if tiny(toks[i - 1], min_dur) && o.len() > 0 {
            o.drop_last().push(merged_backward(o.last(), toks[i - 1]))
        } else {
            o.push(toks[i - 1])
        }
    } else {
        let o = lemma_walk(toks, i - 2, min_dur);
        o.push(merged_forward(toks[i - 2], toks[i - 1]))
    }
}

/// A tiny token at which the walk comes to stand, and which another token
/// follows, is merged forward: a token comes out that starts where the
/// earlier of the two starts, which is the start of the tiny token where
/// the tokens are in the order of their starts, and whose word begins with
/// the text of the tiny token and the core of the other.
pub proof fn lemma_tiny_merges_forward(toks: Seq<TokView>, i: int, min_dur: int) -> (p: int)
    requires
        0 <= i,
        i + 1 < toks.len(),
        visited(toks, i, min_dur),
        tiny(toks[i], min_dur),
    ensures
        0 <= p < merge_tiny(toks, min_dur).len(),
        merge_tiny(toks, min_dur)[p].start == min_of(toks[i].start, toks[i + 1].start),
        toks[i].start <= toks[i + 1].start ==> merge_tiny(toks, min_dur)[p].start == toks[i].start,
        begins(merge_tiny(toks, min_dur)[p].word, joined_word(toks[i], toks[i + 1])),
{
    let out = lemma_walk(toks, i, min_dur);
    let o2 = out.push(merged_forward(toks[i], toks[i + 1]));
    lemma_merge_keeps(toks, i + 2, o2, min_dur);
    out.len() as int
}

} // verus!
