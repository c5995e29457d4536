//! The segment assembler: one ordered transcript, without overlaps, from
//! the hypotheses of chunks that were transcribed one by one.
//!
//! The assembler is a state machine. Whoever drives it decodes the audio:
//! it asks `step` what to do next, decodes the chunk with `hint` as the
//! prompt, hands over each hypothesis with `push`, and closes the chunk
//! with `finish_chunk`, which gives the progress to report.

use vstd::prelude::*;
use crate::text::{
    capitalize, capitalized, chars_of, leading, leading_end, lemma_leading_bound, string_of,
    strip_front, CharClass,
};
use crate::types::{
    clone_opt_text, opt_text, time_ok, Segment, SegmentView, SpeechSegment, WordTimestamp, WordView,
    TIME_LIMIT,
};
use crate::words::{
    get_word_timestamps, lemma_reconstruct_within, reconstruct, tokens_within, words_within, Token,
    TokenView,
};

verus! {

/// Largest magnitude, in milliseconds, of the times handed to the
/// assembler: chunk bounds, the global offset, a hypothesis's own times.
pub const SPAN_LIMIT: i64 = 100_000_000_000_000;

/// The time is within the span limit.
pub open spec fn span_ok(t: int) -> bool {
    -SPAN_LIMIT <= t <= SPAN_LIMIT
}

/// One hypothesis of a chunk, on the chunk's own clock, with the label the
/// speaker assigner gave to its audio where diarization is on.
#[derive(Debug, PartialEq, Eq)]
pub struct Hypothesis {
    pub text: String,
    pub start: i64,
    pub end: i64,
    pub tokens: Vec<Token>,
    pub speaker: Option<String>,
}

/// The mathematical value of a [`Hypothesis`].
pub ghost struct HypothesisView {
    pub text: Seq<char>,
    pub start: int,
    pub end: int,
    pub tokens: Seq<TokenView>,
    pub speaker: Option<Seq<char>>,
}

impl View for Hypothesis {
    type V = HypothesisView;

    open spec fn view(&self) -> HypothesisView {
        HypothesisView {
            text: self.text@,
            start: self.start as int,
            end: self.end as int,
            tokens: self.tokens.deep_view(),
            speaker: opt_text(self.speaker),
        }
    }
}

impl DeepView for Hypothesis {
    type V = HypothesisView;

    open spec fn deep_view(&self) -> HypothesisView {
        self@
    }
}

/// All the times of the hypothesis are within the span limit.
pub open spec fn hypothesis_ok(h: HypothesisView) -> bool {
    &&& span_ok(h.start)
    &&& span_ok(h.end)
    &&& tokens_within(h.tokens, -SPAN_LIMIT as int, SPAN_LIMIT as int)
}

impl Hypothesis {
    /// Whether the assembler can take this hypothesis.
    pub fn in_range(&self) -> (r: bool)
        ensures
            r == hypothesis_ok(self@),
    {
        if self.start < -SPAN_LIMIT || self.start > SPAN_LIMIT || self.end < -SPAN_LIMIT || self.end
            > SPAN_LIMIT {
            return false;
        }
        let mut i: usize = 0;
        while i < self.tokens.len()
            invariant
                i <= self.tokens.len(),
                tokens_within(
                    self.tokens.deep_view().take(i as int),
                    -SPAN_LIMIT as int,
                    SPAN_LIMIT as int,
                ),
            decreases self.tokens.len() - i,
        {
            let t = &self.tokens[i];
            let ghost ts = self.tokens.deep_view();
            let anchor_ok = match t.anchor {
                Some(a) => -SPAN_LIMIT <= a && a <= SPAN_LIMIT,
                None => true,
            };
            if t.start < -SPAN_LIMIT || t.start > SPAN_LIMIT || t.end < -SPAN_LIMIT || t.end
                > SPAN_LIMIT || !anchor_ok {
                assert(ts[i as int] == t@);
                return false;
            }
            assert forall|k: int| 0 <= k < i + 1 implies {
                &&& -SPAN_LIMIT <= (#[trigger] ts.take(i + 1)[k]).start <= SPAN_LIMIT
                &&& -SPAN_LIMIT <= ts.take(i + 1)[k].end <= SPAN_LIMIT
                &&& ts.take(i + 1)[k].anchor matches Some(a) ==> -SPAN_LIMIT <= a <= SPAN_LIMIT
            } by {
                if k < i {
                    assert(ts.take(i + 1)[k] == ts.take(i as int)[k]);
                } else {
                    assert(ts.take(i + 1)[k] == t@);
                }
            }
            i += 1;
        }
        assert(self.tokens.deep_view().take(self.tokens.len() as int) =~= self.tokens.deep_view());
        true
    }
}

/// Why the assembler refuses its input.
#[derive(Clone, Copy, Debug, PartialEq, Eq, Structural)]
pub enum InputError {
    /// The chunk with this index ends before it starts, starts before the
    /// recording does, or lies beyond the span limit.
    InvalidBounds(usize),
    /// The global offset lies beyond the span limit.
    InvalidOffset,
}

impl InputError {
    /// What the error says.
    pub open spec fn text(self) -> Seq<char> {
        match self {
            InputError::InvalidBounds(_) => "invalid chunk bounds"@,
            InputError::InvalidOffset => "invalid offset"@,
        }
    }

    /// What the error says.
    pub fn message(&self) -> (r: String)
        ensures
            r@ == self.text(),
    {
        match self {
            InputError::InvalidBounds(_) => "invalid chunk bounds".to_owned(),
            InputError::InvalidOffset => "invalid offset".to_owned(),
        }
    }
}

/// The label under which the progress of the assembly is reported.
pub const TRANSCRIBING_LABEL: &'static str = "Transcribing audio";

/// A chunk's bounds are valid: it starts at or after the start of the
/// recording, does not end before it starts, and lies within the span limit.
pub open spec fn bounds_ok(start: int, end: int) -> bool {
    0 <= start <= end <= SPAN_LIMIT
}

/// The bounds of the chunk are valid.
pub open spec fn chunk_ok(c: SpeechSegment) -> bool {
    bounds_ok(c.start as int, c.end as int)
}

/// The index of the first chunk with invalid bounds, or the number of chunks.
pub open spec fn first_invalid(chunks: Seq<SpeechSegment>) -> int
    decreases chunks.len(),
{
    if chunks.len() == 0 {
        0
    } else if chunk_ok(chunks[0]) {
        1 + first_invalid(chunks.drop_first())
    } else {
        0
    }
}

/// What `Assembler::new` makes of its input: the error it is refused with,
/// if any.
pub open spec fn input_error(chunks: Seq<SpeechSegment>, offset: int) -> Option<InputError> {
    if !span_ok(offset) {
        Some(InputError::InvalidOffset)
    } else if first_invalid(chunks) < chunks.len() {
        Some(InputError::InvalidBounds(first_invalid(chunks) as usize))
    } else {
        None
    }
}

/// The first `n` chunks are valid and the next one is not: `n` is the first
/// invalid one.
pub proof fn lemma_first_invalid(chunks: Seq<SpeechSegment>, n: int)
    requires
        0 <= n <= chunks.len(),
        forall|i: int| 0 <= i < n ==> chunk_ok(#[trigger] chunks[i]),
        n == chunks.len() || !chunk_ok(chunks[n]),
    ensures
        first_invalid(chunks) == n,
    decreases n,
{
    if n > 0 {
        let t = chunks.drop_first();
        assert forall|i: int| 0 <= i < n - 1 implies chunk_ok(#[trigger] t[i]) by {
            assert(t[i] == chunks[i + 1]);
        }
        if n - 1 < t.len() {
            assert(t[n - 1] == chunks[n]);
        }
        lemma_first_invalid(t, n - 1);
    }
}

/// `ws` moved along the timeline by `by`.
pub open spec fn shifted(ws: Seq<WordView>, by: int) -> Seq<WordView> {
    Seq::new(ws.len(), |i: int| WordView { start: ws[i].start + by, end: ws[i].end + by, ..ws[i] })
}

/// `ws` with its first word capitalized.
pub open spec fn capitalized_words(ws: Seq<WordView>) -> Seq<WordView> {
    if ws.len() == 0 {
        ws
    } else {
        ws.update(0, WordView { word: capitalized(ws[0].word), ..ws[0] })
    }
}

/// The text of the segment that a hypothesis gives: the hypothesis's text
/// without the white space in front of it.
pub open spec fn segment_text(h: HypothesisView) -> Seq<char> {
    strip_front(h.text, CharClass::Space)
}

/// The segment that a hypothesis gives. `base` is where the chunk's clock
/// starts on the recording's timeline; `first` says that this is the first
/// segment of the transcript, whose first letter is capitalized.
///
/// With words, the segment spans from the first word to the last; without
/// them it has the hypothesis's own bounds and no word list.
pub open spec fn segment_of(
    h: HypothesisView,
    base: int,
    word_timestamps: bool,
    first: bool,
) -> SegmentView {
    let text = if first {
        capitalized(segment_text(h))
    } else {
        segment_text(h)
    };
    let ws = if word_timestamps {
        shifted(reconstruct(h.tokens), base)
    } else {
        Seq::empty()
    };
    if ws.len() == 0 {
        SegmentView { start: base + h.start, end: base + h.end, text, speaker_id: h.speaker, words: None }
    } else {
        SegmentView {
            start: ws[0].start,
            end: ws.last().end,
            text,
            speaker_id: h.speaker,
            words: Some(
                if first {
                    capitalized_words(ws)
                } else {
                    ws
                },
            ),
        }
    }
}

/// `p` once it has yielded to a segment that starts at `start`: it ends no
/// later than `start`, and so does its last word.
pub open spec fn yielded(p: SegmentView, start: int) -> SegmentView {
    let end = if p.end > start {
        start
    } else {
        p.end
    };
    SegmentView {
        end,
        words: match p.words {
            Some(ws) => Some(
                if ws.len() > 0 && ws.last().end > end {
                    ws.update(ws.len() - 1, WordView { end, ..ws.last() })
                } else {
                    ws
                },
            ),
            None => None,
        },
        ..p
    }
}

/// The transcript `segs` with the segment `s` appended: the last segment
/// so far yields to `s`.
pub open spec fn appended(segs: Seq<SegmentView>, s: SegmentView) -> Seq<SegmentView> {
    if segs.len() == 0 {
        seq![s]
    } else {
        segs.drop_last().push(yielded(segs.last(), s.start)).push(s)
    }
}

/// No segment ends after the next one starts.
pub open spec fn no_overlap(segs: Seq<SegmentView>) -> bool {
    forall|i: int| 0 <= i < segs.len() - 1 ==> (#[trigger] segs[i]).end <= segs[i + 1].start
}

/// The segments are in the order of their starts.
pub open spec fn sorted_by_start(segs: Seq<SegmentView>) -> bool {
    forall|i: int| 0 <= i < segs.len() - 1 ==> (#[trigger] segs[i]).start <= segs[i + 1].start
}

/// Every time in the segment is within the time limit.
pub open spec fn segment_ok(s: SegmentView) -> bool {
    &&& time_ok(s.start)
    &&& time_ok(s.end)
    &&& s.words matches Some(ws) ==> words_within(ws, -TIME_LIMIT as int, TIME_LIMIT as int)
}

/// Every time in every segment is within the time limit.
pub open spec fn segments_ok(segs: Seq<SegmentView>) -> bool {
    forall|i: int| 0 <= i < segs.len() ==> segment_ok(#[trigger] segs[i])
}

/// Appending keeps a transcript free of overlaps, whatever is appended.
pub proof fn lemma_appended_no_overlap(segs: Seq<SegmentView>, s: SegmentView)
    requires
        no_overlap(segs),
    ensures
        no_overlap(appended(segs, s)),
{
    let r = appended(segs, s);
    if segs.len() > 0 {
        assert forall|i: int| 0 <= i < r.len() - 1 implies (#[trigger] r[i]).end <= r[i + 1].start by {
            if i < segs.len() - 2 {
                assert(r[i] == segs[i]);
                assert(r[i + 1] == segs[i + 1]);
            } else if i == segs.len() - 2 {
                assert(r[i] == segs[i]);
                assert(r[i + 1].start == segs[i + 1].start);
            }
        }
    }
}

/// Appending a segment that starts no earlier than the last one keeps the
/// transcript in the order of its starts.
pub proof fn lemma_appended_sorted(segs: Seq<SegmentView>, s: SegmentView)
    requires
        sorted_by_start(segs),
        segs.len() > 0 ==> segs.last().start <= s.start,
    ensures
        sorted_by_start(appended(segs, s)),
{
    let r = appended(segs, s);
    if segs.len() > 0 {
        assert forall|i: int| 0 <= i < r.len() - 1 implies (#[trigger] r[i]).start <= r[i
            + 1].start by {
            if i < segs.len() - 2 {
                assert(r[i] == segs[i]);
                assert(r[i + 1] == segs[i + 1]);
            } else if i == segs.len() - 2 {
                assert(r[i] == segs[i]);
                assert(r[i + 1].start == segs[i + 1].start);
            }
        }
    }
}

/// What the driver is to do next.
#[derive(Clone, Copy, Debug, PartialEq, Eq, Structural)]
pub enum Step {
    /// Decode the chunk with this index and hand over its hypotheses.
    Decode(usize),
    /// Stop: every chunk is done, or cancellation was asked for.
    Finished,
}

/// The state of an assembly.
pub struct Assembler {
    starts: Vec<i64>,
    offset: i64,
    word_timestamps: bool,
    done: usize,
    stopped: bool,
    segments: Vec<Segment>,
    hint: Option<String>,
    pending: Option<String>,
    empty_segments: usize,
}

/// The mathematical value of an [`Assembler`].
pub ghost struct AssemblerView {
    /// Where each chunk starts on the recording's timeline.
    pub starts: Seq<int>,
    /// By how much every time is moved.
    pub offset: int,
    /// Whether word-level timing is asked for.
    pub word_timestamps: bool,
    /// How many chunks are finished.
    pub done: nat,
    /// Whether cancellation was asked for.
    pub stopped: bool,
    /// The transcript so far.
    pub segments: Seq<SegmentView>,
    /// The text to hand to the decoder with the next chunk.
    pub hint: Option<Seq<char>>,
    /// The last text of the chunk in progress that is not blank.
    pub pending: Option<Seq<char>>,
    /// How many segments have a blank text.
    pub empty_segments: nat,
}

impl View for Assembler {
    type V = AssemblerView;

    closed spec fn view(&self) -> AssemblerView {
        AssemblerView {
            starts: self.starts@.map_values(|t: i64| t as int),
            offset: self.offset as int,
            word_timestamps: self.word_timestamps,
            done: self.done as nat,
            stopped: self.stopped,
            segments: self.segments.deep_view(),
            hint: opt_text(self.hint),
            pending: opt_text(self.pending),
            empty_segments: self.empty_segments as nat,
        }
    }
}

/// The state after the hypothesis `h` of the chunk in progress is taken.
pub open spec fn pushed(a: AssemblerView, h: HypothesisView) -> AssemblerView {
    let blank = segment_text(h).len() == 0;
    AssemblerView {
        segments: appended(
            a.segments,
            segment_of(h, a.starts[a.done as int] + a.offset, a.word_timestamps, a.segments.len() == 0),
        ),
        pending: if blank {
            a.pending
        } else {
            Some(segment_text(h))
        },
        empty_segments: if blank {
            a.empty_segments + 1
        } else {
            a.empty_segments
        },
        ..a
    }
}

/// The state after the chunk in progress is closed.
pub open spec fn chunk_finished(a: AssemblerView) -> AssemblerView {
    AssemblerView { done: a.done + 1, hint: a.pending, pending: None, ..a }
}

/// Progress in percent: the chunks done out of all, rounded down.
pub open spec fn percent(done: nat, total: nat) -> nat {
    if total == 0 {
        100
    } else {
        (done * 100 / total) as nat
    }
}

fn yield_to(seg: Segment, start: i64) -> (r: Segment)
    ensures
        r@ == yielded(seg@, start as int),
{
    let Segment { start: s0, end: e0, text, speaker_id, words } = seg;
    let end = if e0 > start {
        start
    } else {
        e0
    };
    let words = match words {
        Some(mut ws) => {
            let ghost before = ws.deep_view();
            let n = ws.len();
            if n > 0 && ws[n - 1].end > end {
                let last = ws.pop().unwrap();
                let WordTimestamp { word, start: ws0, end: _, probability } = last;
                ws.push(WordTimestamp { word, start: ws0, end, probability });
                assert(ws.deep_view() =~= before.update(
                    before.len() - 1,
                    WordView { end: end as int, ..before.last() },
                ));
            }
            Some(ws)
        },
        None => None,
    };
    Segment { start: s0, end, text, speaker_id, words }
}

/// The segment of one hypothesis and, where its text is not blank, that
/// text as it stood before any capitalization.
fn make_segment(hyp: &Hypothesis, base: i64, word_timestamps: bool, first: bool) -> (r: (
    Segment,
    Option<String>,
))
    requires
        hypothesis_ok(hyp@),
        -2 * SPAN_LIMIT <= base <= 2 * SPAN_LIMIT,
    ensures
        r.0@ == segment_of(hyp@, base as int, word_timestamps, first),
        segment_ok(r.0@),
        opt_text(r.1) == if segment_text(hyp@).len() == 0 {
            None
        } else {
            Some(segment_text(hyp@))
        },
{
    let ghost h = hyp@;
    let v = chars_of(hyp.text.as_str());
    let lead = leading_end(&v, CharClass::Space);
    let trimmed = string_of(&v, lead, v.len());
    assert(trimmed@ =~= segment_text(h));
    proof {
        lemma_leading_bound(h.text, CharClass::Space);
    }
    let hint_text = if lead == v.len() {
        None
    } else {
        Some(trimmed.clone())
    };
    let text = if first {
        capitalize(trimmed.as_str())
    } else {
        trimmed
    };
    let words = shifted_words(hyp, base, word_timestamps, first);
    let seg = if words.len() == 0 {
        Segment {
            start: base + hyp.start,
            end: base + hyp.end,
            text,
            speaker_id: clone_opt_text(&hyp.speaker),
            words: None,
        }
    } else {
        let n = words.len();
        assert(words.deep_view()[0] == words@[0]@);
        assert(words.deep_view()[n - 1] == words@[n - 1]@);
        Segment {
            start: words[0].start,
            end: words[n - 1].end,
            text,
            speaker_id: clone_opt_text(&hyp.speaker),
            words: Some(words),
        }
    };
    (seg, hint_text)
}

/// The words of a hypothesis on the recording's timeline.
pub open spec fn placed_words(
    h: HypothesisView,
    base: int,
    word_timestamps: bool,
    first: bool,
) -> Seq<
    WordView,
> {
    let ws = if word_timestamps {
        shifted(reconstruct(h.tokens), base)
    } else {
        Seq::empty()
    };
    if first {
        capitalized_words(ws)
    } else {
        ws
    }
}

fn shifted_words(hyp: &Hypothesis, base: i64, word_timestamps: bool, first: bool) -> (words: Vec<
    WordTimestamp,
>)
    requires
        hypothesis_ok(hyp@),
        -2 * SPAN_LIMIT <= base <= 2 * SPAN_LIMIT,
    ensures
        words.deep_view() == placed_words(hyp@, base as int, word_timestamps, first),
        words_within(words.deep_view(), -TIME_LIMIT as int, TIME_LIMIT as int),
        words.len() > 0 ==> {
            let ws = shifted(reconstruct(hyp@.tokens), base as int);
            &&& word_timestamps
            &&& ws.len() == words.len()
            &&& words.deep_view()[0].start == ws[0].start
            &&& words.deep_view().last().end == ws.last().end
        },
        words.len() == 0 ==> !word_timestamps || reconstruct(hyp@.tokens).len() == 0,
{
    let mut words: Vec<WordTimestamp> = Vec::new();
    if !word_timestamps {
        assert(words.deep_view() =~= Seq::<WordView>::empty());
        return words;
    }
    let raw = get_word_timestamps(&hyp.tokens);
    let ghost rawv = raw.deep_view();
    let ghost target = placed_words(hyp@, base as int, word_timestamps, first);
    proof {
        lemma_reconstruct_within(hyp@.tokens, -SPAN_LIMIT as int, SPAN_LIMIT as int);
    }
    let mut i: usize = 0;
    assert(words.deep_view() =~= target.take(0));
    while i < raw.len()
        invariant
            i <= raw.len(),
            rawv == raw.deep_view(),
            target.len() == rawv.len(),
            words_within(rawv, -SPAN_LIMIT as int, SPAN_LIMIT as int),
            -2 * SPAN_LIMIT <= base <= 2 * SPAN_LIMIT,
            target == if first {
                capitalized_words(shifted(rawv, base as int))
            } else {
                shifted(rawv, base as int)
            },
            words.deep_view() == target.take(i as int),
            words_within(words.deep_view(), -TIME_LIMIT as int, TIME_LIMIT as int),
        decreases raw.len() - i,
    {
        let w = &raw[i];
        assert(rawv[i as int] == w@);
        let word = if first && i == 0 {
            capitalize(w.word.as_str())
        } else {
            w.word.clone()
        };
        let ghost before = words.deep_view();
        let nw = WordTimestamp {
            word,
            start: w.start + base,
            end: w.end + base,
            probability: w.probability,
        };
        assert(nw@ == target[i as int]);
        words.push(nw);
        assert(words.deep_view() =~= before.push(nw@));
        assert(target.take(i + 1) =~= target.take(i as int).push(target[i as int]));
        i += 1;
    }
    assert(target.take(raw.len() as int) =~= target);
    words
}

/// Appends `seg` to the transcript; the segment before it yields to it.
fn append_segment(segments: &mut Vec<Segment>, seg: Segment)
    requires
        segments_ok(old(segments).deep_view()),
        segment_ok(seg@),
    ensures
        final(segments).deep_view() == appended(old(segments).deep_view(), seg@),
        segments_ok(final(segments).deep_view()),
        final(segments).len() == old(segments).len() + 1,
{
    let ghost segs0 = segments.deep_view();
    let ghost want = seg@;
    let count = segments.len();
    if count > 0 {
        let last = segments.pop().unwrap();
        assert(last@ == segs0.last());
        let ghost rest = segments.deep_view();
        assert(rest =~= segs0.drop_last());
        let y = yield_to(last, seg.start);
        assert(segment_ok(y@)) by {
            assert(segment_ok(segs0[count - 1]));
        }
        segments.push(y);
        assert(segments.deep_view() =~= rest.push(y@));
    }
    let ghost mid = segments.deep_view();
    segments.push(seg);
    assert(segments.deep_view() =~= mid.push(want));
    proof {
        let segs1 = segments.deep_view();
        assert forall|i: int| 0 <= i < segs1.len() implies segment_ok(#[trigger] segs1[i]) by {
            if count > 0 && i < count - 1 {
                assert(segs1[i] == segs0[i]);
                assert(segment_ok(segs0[i]));
            }
        }
    }
}

impl Assembler {
    /// The state is consistent: it is what `new` gives and every method keeps.
    pub closed spec fn wf(&self) -> bool {
        &&& self.done <= self.starts.len()
        &&& span_ok(self.offset as int)
        &&& forall|i: int| 0 <= i < self.starts.len() ==> 0 <= #[trigger] self.starts[i] <= SPAN_LIMIT
        &&& no_overlap(self.segments.deep_view())
        &&& segments_ok(self.segments.deep_view())
        &&& self.empty_segments <= self.segments.len()
    }

    /// What follows from a consistent state.
    pub proof fn lemma_wf(&self)
        requires
            self.wf(),
        ensures
            self@.done <= self@.starts.len(),
            no_overlap(self@.segments),
            segments_ok(self@.segments),
            self@.empty_segments <= self@.segments.len(),
    {
    }

    /// Starts an assembly over `chunks`, which are refused before anything
    /// is processed if one of them has invalid bounds. Without chunks
    /// there is nothing to decode, and the transcript is empty.
    pub fn new(chunks: &Vec<SpeechSegment>, offset: i64, word_timestamps: bool) -> (r: Result<
        Assembler,
        InputError,
    >)
        ensures
            match r {
                Ok(a) => {
                    &&& input_error(chunks@, offset as int) is None
                    &&& a.wf()
                    &&& a@.starts == chunks@.map_values(|c: SpeechSegment| c.start as int)
                    &&& a@.offset == offset
                    &&& a@.word_timestamps == word_timestamps
                    &&& a@.done == 0
                    &&& !a@.stopped
                    &&& a@.segments.len() == 0
                    &&& a@.hint is None
                    &&& a@.pending is None
                    &&& a@.empty_segments == 0
                },
                Err(e) => input_error(chunks@, offset as int) == Some(e),
            },
    {
        if offset < -SPAN_LIMIT || offset > SPAN_LIMIT {
            return Err(InputError::InvalidOffset);
        }
        let mut starts: Vec<i64> = Vec::new();
        let mut i: usize = 0;
        while i < chunks.len()
            invariant
                i <= chunks.len(),
                starts.len() == i,
                span_ok(offset as int),
                forall|k: int| 0 <= k < i ==> chunk_ok(#[trigger] chunks@[k]),
                forall|k: int| 0 <= k < i ==> #[trigger] starts@[k] == chunks@[k].start,
            decreases chunks.len() - i,
        {
            let c = &chunks[i];
            if !(0 <= c.start && c.start <= c.end && c.end <= SPAN_LIMIT) {
                proof {
                    lemma_first_invalid(chunks@, i as int);
                }
                return Err(InputError::InvalidBounds(i));
            }
            starts.push(c.start);
            i += 1;
        }
        proof {
            lemma_first_invalid(chunks@, chunks.len() as int);
        }
        let a = Assembler {
            starts,
            offset,
            word_timestamps,
            done: 0,
            stopped: false,
            segments: Vec::new(),
            hint: None,
            pending: None,
            empty_segments: 0,
        };
        assert(a@.starts =~= chunks@.map_values(|c: SpeechSegment| c.start as int));
        assert(a.segments.deep_view() =~= Seq::<SegmentView>::empty());
        Ok(a)
    }

    /// What to do next. Cancellation is polled here, between chunks: once
    /// `cancelled` was true, every later step is `Finished`.
    pub fn step(&mut self, cancelled: bool) -> (r: Step)
        requires
            old(self).wf(),
        ensures
            final(self).wf(),
            final(self)@ == (AssemblerView { stopped: old(self)@.stopped || cancelled, ..old(self)@ }),
            r == if final(self)@.stopped || old(self)@.done == old(self)@.starts.len() {
                Step::Finished
            } else {
                Step::Decode(old(self)@.done as usize)
            },
    {
        if cancelled {
            self.stopped = true;
        }
        if self.stopped || self.done == self.starts.len() {
            Step::Finished
        } else {
            Step::Decode(self.done)
        }
    }

    /// The text to prompt the decoder with for the next chunk: the last
    /// text of the chunk before that is not blank, if there is one.
    pub fn hint(&self) -> (r: Option<String>)
        ensures
            opt_text(r) == self@.hint,
    {
        clone_opt_text(&self.hint)
    }

    /// Takes one hypothesis of the chunk in progress and appends its
    /// segment to the transcript; the segment before it yields to it.
    pub fn push(&mut self, hyp: &Hypothesis)
        requires
            old(self).wf(),
            old(self)@.done < old(self)@.starts.len(),
            hypothesis_ok(hyp@),
        ensures
            final(self).wf(),
            final(self)@ == pushed(old(self)@, hyp@),
            no_overlap(final(self)@.segments),
            sorted_by_start(old(self)@.segments) && (old(self)@.segments.len() > 0 ==> old(
                self,
            )@.segments.last().start <= final(self)@.segments.last().start) ==> sorted_by_start(
                final(self)@.segments,
            ),
    {
        let ghost a0 = self@;
        let ghost segs0 = self.segments.deep_view();
        let base: i64 = self.starts[self.done] + self.offset;
        let first = self.segments.len() == 0;
        let (seg, hint_text) = make_segment(hyp, base, self.word_timestamps, first);
        let ghost want = seg@;
        append_segment(&mut self.segments, seg);
        match hint_text {
            Some(t) => {
                self.pending = Some(t);
            },
            None => {
                self.empty_segments = self.empty_segments + 1;
            },
        }
        proof {
            lemma_appended_no_overlap(segs0, want);
            if sorted_by_start(segs0) && (segs0.len() > 0 ==> segs0.last().start <= want.start) {
                lemma_appended_sorted(segs0, want);
            }
            assert(self@.starts == a0.starts);
        }
    }

    /// Closes the chunk in progress and gives the progress to report, in
    /// percent of the chunks. The hint for the next chunk is the last text
    /// of this one that is not blank.
    pub fn finish_chunk(&mut self) -> (r: u32)
        requires
            old(self).wf(),
            old(self)@.done < old(self)@.starts.len(),
        ensures
            final(self).wf(),
            final(self)@ == chunk_finished(old(self)@),
            r == percent(final(self)@.done, final(self)@.starts.len()),
            r <= 100,
    {
        self.done = self.done + 1;
        self.hint = self.pending.take();
        let total: u128 = self.starts.len() as u128;
        let done: u128 = self.done as u128;
        let p: u128 = done * 100 / total;
        assert(p <= 100) by (nonlinear_arith)
            requires
                p as int == (done as int * 100) / (total as int),
                0 < total,
                done <= total,
        ;
        assert(self@.starts == old(self)@.starts);
        p as u32
    }

    /// The transcript so far.
    pub fn segments(&self) -> (r: &Vec<Segment>)
        requires
            self.wf(),
        ensures
            r.deep_view() == self@.segments,
            no_overlap(r.deep_view()),
            segments_ok(r.deep_view()),
    {
        &self.segments
    }

    /// How many of the segments have a blank text.
    pub fn empty_segments(&self) -> (r: usize)
        ensures
            r == self@.empty_segments,
    {
        self.empty_segments
    }

    /// How many chunks are finished.
    pub fn chunks_done(&self) -> (r: usize)
        ensures
            r == self@.done,
    {
        self.done
    }

    /// Ends the assembly and gives the transcript: the segments that were
    /// appended, in the order in which they came, none overlapping the next.
    pub fn into_segments(self) -> (r: Vec<Segment>)
        requires
            self.wf(),
        ensures
            r.deep_view() == self@.segments,
            no_overlap(r.deep_view()),
            segments_ok(r.deep_view()),
    {
        self.segments
    }
}

} // verus!
