//! Clamping of word boundaries: every word is stretched to a minimum
//! length, kept from crossing into its neighbours, and drawn in where
//! silence is known at its edges.

use vstd::prelude::*;
use crate::formatting::SilenceOracle;
use crate::types::{mid, midpoint, time_ok, TIME_LIMIT};

verus! {

/// The width, in milliseconds, of the window in which silence is asked
/// about at the edges of a word, and by which an edge is drawn in.
pub const PAD: i64 = 20;

/// How far beyond the time limit clamping can move a boundary.
pub const CLAMP_SLACK: i64 = 4_294_967_400;

/// The time span of a word.
#[derive(Clone, Copy, Debug, PartialEq, Eq, Structural)]
pub struct Times {
    pub start: i64,
    pub end: i64,
}

/// The mathematical value of a [`Times`].
pub ghost struct Span {
    pub start: int,
    pub end: int,
}

impl View for Times {
    type V = Span;

    open spec fn view(&self) -> Span {
        Span { start: self.start as int, end: self.end as int }
    }
}

impl DeepView for Times {
    type V = Span;

    open spec fn deep_view(&self) -> Span {
        self@
    }
}

/// The lesser of two numbers.
pub open spec fn min_of(a: int, b: int) -> int {
    if a <= b {
        a
    } else {
        b
    }
}

/// The greater of two numbers.
pub open spec fn max_of(a: int, b: int) -> int {
    if a >= b {
        a
    } else {
        b
    }
}

/// `t` stretched to the length `min_dur` if it is shorter: the missing
/// length is added in halves at both ends, the odd millisecond at the end.
pub open spec fn stretched(t: Span, min_dur: int) -> Span {
    let short = min_dur - (t.end - t.start);
    if short > 0 {
        Span { start: t.start - short / 2, end: t.end + (short - short / 2) }
    } else {
        t
    }
}

/// The span `p` kept from crossing into the span `c` that follows it: it
/// ends no later than halfway between its end and the start of `c`.
pub open spec fn apart_left(p: Span, c: Span) -> Span {
    Span { end: min_of(p.end, mid(p.end, c.start)), ..p }
}

/// The span `c` kept from crossing into the span `p` before it: it starts
/// no earlier than halfway between the end of `p` and its start.
pub open spec fn apart_right(p: Span, c: Span) -> Span {
    Span { start: max_of(c.start, mid(p.end, c.start)), ..c }
}

/// What the oracle said of the two edges of a word: whether there is
/// silence at its start, and whether there is silence at its end.
pub type Quiet = (bool, bool);

/// `t` with each edge drawn in by the pad where the oracle told of silence.
pub open spec fn snapped(t: Span, quiet: Quiet) -> Span {
    Span {
        start: if quiet.0 {
            t.start + PAD
        } else {
            t.start
        },
        end: if quiet.1 {
            t.end - PAD
        } else {
            t.end
        },
    }
}

/// Word `i` as it stands when the oracle is asked about its edges:
/// stretched, and kept apart from the word before it and the word after it.
pub open spec fn settled_at(s: Seq<Span>, i: int, min_dur: int) -> Span {
    let c1 = stretched(s[i], min_dur);
    let c2 = if i > 0 {
        apart_right(s[i - 1], c1)
    } else {
        c1
    };
    if i + 1 < s.len() {
        apart_left(c2, s[i + 1])
    } else {
        c2
    }
}

/// The span that the oracle is asked about for the start of the word `t`:
/// the pad just inside the start.
pub open spec fn start_window(t: Span) -> Span {
    Span { start: t.start, end: t.start + PAD }
}

/// The span that the oracle is asked about for the end of the word `t`:
/// the pad just outside the end.
pub open spec fn end_window(t: Span) -> Span {
    Span { start: t.end, end: t.end + PAD }
}

/// What is known of silence in the span `w`: what the oracle says of it,
/// and without an oracle that nothing is silent.
pub open spec fn said(oracle: Option<&dyn SilenceOracle>, w: Span) -> bool {
    match oracle {
        Some(o) => o.says(w.start, w.end),
        None => false,
    }
}

/// The answers for word `i`: what is known of silence in the window at its
/// start and in the window at its end, as the word stands once it is
/// stretched and kept apart from its neighbours.
pub open spec fn answers_at(
    s: Seq<Span>,
    i: int,
    min_dur: int,
    oracle: Option<&dyn SilenceOracle>,
) -> Quiet {
    let t = settled_at(s, i, min_dur);
    (said(oracle, start_window(t)), said(oracle, end_window(t)))
}

/// The spans after word `i` is clamped, given the answers about its edges:
/// it is stretched, kept apart from the word before it and from the word
/// after it, which yield as much, and snapped where silence was told of.
pub open spec fn clamp_with(s: Seq<Span>, i: int, min_dur: int, quiet: Quiet) -> Seq<Span> {
    let c1 = stretched(s[i], min_dur);
    let c2 = if i > 0 {
        apart_right(s[i - 1], c1)
    } else {
        c1
    };
    let s1 = if i > 0 {
        s.update(i - 1, apart_left(s[i - 1], c1))
    } else {
        s
    };
    let s2 = if i + 1 < s.len() {
        s1.update(i + 1, apart_right(c2, s[i + 1]))
    } else {
        s1
    };
    s2.update(i, snapped(settled_at(s, i, min_dur), quiet))
}

/// The spans after word `i` is clamped.
pub open spec fn clamp_at(
    s: Seq<Span>,
    i: int,
    min_dur: int,
    oracle: Option<&dyn SilenceOracle>,
) -> Seq<Span> {
    clamp_with(s, i, min_dur, answers_at(s, i, min_dur, oracle))
}

/// The spans after the first `k` words are clamped, one after the other.
pub open spec fn clamp_upto(
    s: Seq<Span>,
    k: int,
    min_dur: int,
    oracle: Option<&dyn SilenceOracle>,
) -> Seq<Span>
    decreases k,
{
    if k <= 0 {
        s
    } else {
        clamp_at(clamp_upto(s, k - 1, min_dur, oracle), k - 1, min_dur, oracle)
    }
}

/// The spans after every word is clamped, from the first to the last.
pub open spec fn clamped(
    s: Seq<Span>,
    min_dur: int,
    oracle: Option<&dyn SilenceOracle>,
) -> Seq<Span> {
    clamp_upto(s, s.len() as int, min_dur, oracle)
}

/// Without an oracle no edge is drawn in: a word is stretched and kept
/// apart from its neighbours, and that is all.
pub proof fn lemma_no_oracle_no_snap(s: Seq<Span>, i: int, min_dur: int)
    requires
        0 <= i < s.len(),
    ensures
        clamp_at(s, i, min_dur, None)[i] == settled_at(s, i, min_dur),
{
}

/// Every boundary is within the time limit.
pub open spec fn spans_ok(s: Seq<Span>) -> bool {
    forall|k: int| 0 <= k < s.len() ==> time_ok((#[trigger] s[k]).start) && time_ok(s[k].end)
}

/// Every boundary is within the time limit and the slack of clamping.
pub open spec fn spans_near(s: Seq<Span>) -> bool {
    forall|k: int|
        0 <= k < s.len() ==> {
            &&& -TIME_LIMIT - CLAMP_SLACK <= (#[trigger] s[k]).start <= TIME_LIMIT + CLAMP_SLACK
            &&& -TIME_LIMIT - CLAMP_SLACK <= s[k].end <= TIME_LIMIT + CLAMP_SLACK
        }
}

/// Asks the oracle, if there is one, whether the span `w` is silent.
fn ask(oracle: Option<&dyn SilenceOracle>, w: Times) -> (r: bool)
    ensures
        r == said(oracle, w@),
{
    match oracle {
        Some(o) => o.is_silence(w.start, w.end),
        None => false,
    }
}

/// Both boundaries are at most `b` from zero.
spec fn within(t: Span, b: int) -> bool {
    -b <= t.start <= b && -b <= t.end <= b
}

fn stretch(t: Times, min_dur: u32) -> (r: Times)
    requires
        within(t@, 2 * TIME_LIMIT),
    ensures
        r@ == stretched(t@, min_dur as int),
        within(r@, 5 * TIME_LIMIT),
{
    let short: i64 = min_dur as i64 - (t.end - t.start);
    if short > 0 {
        let half = short / 2;
        Times { start: t.start - half, end: t.end + (short - half) }
    } else {
        t
    }
}

fn keep_apart(p: Times, c: Times) -> (r: (Times, Times))
    requires
        within(p@, 5 * TIME_LIMIT),
        within(c@, 5 * TIME_LIMIT),
    ensures
        r.0@ == apart_left(p@, c@),
        r.1@ == apart_right(p@, c@),
        within(r.0@, 5 * TIME_LIMIT),
        within(r.1@, 5 * TIME_LIMIT),
{
    let m = midpoint(p.end, c.start);
    let end = if m < p.end {
        m
    } else {
        p.end
    };
    let start = if m > c.start {
        m
    } else {
        c.start
    };
    (Times { start: p.start, end }, Times { start, end: c.end })
}

/// The two spans that the oracle is asked about for the word `t`: the pad
/// just inside its start, and the pad just outside its end.
pub fn windows_of(t: Times) -> (r: (Times, Times))
    requires
        -5 * TIME_LIMIT <= t.start <= 5 * TIME_LIMIT,
        -5 * TIME_LIMIT <= t.end <= 5 * TIME_LIMIT,
    ensures
        r.0@ == start_window(t@),
        r.1@ == end_window(t@),
{
    (Times { start: t.start, end: t.start + PAD }, Times { start: t.end, end: t.end + PAD })
}

/// The word `t` with each edge drawn in by the pad where silence was told.
pub fn snap(t: Times, quiet_start: bool, quiet_end: bool) -> (r: Times)
    requires
        -5 * TIME_LIMIT <= t.start <= 5 * TIME_LIMIT,
        -5 * TIME_LIMIT <= t.end <= 5 * TIME_LIMIT,
    ensures
        r@ == snapped(t@, (quiet_start, quiet_end)),
{
    Times {
        start: if quiet_start {
            t.start + PAD
        } else {
            t.start
        },
        end: if quiet_end {
            t.end - PAD
        } else {
            t.end
        },
    }
}

/// What holds of the spans when word `i` is about to be clamped: the
/// boundaries not yet touched are within the time limit, the others near it.
spec fn clamp_inv(s: Seq<Span>, i: int) -> bool {
    &&& spans_near(s)
    &&& forall|k: int| i <= k < s.len() ==> time_ok((#[trigger] s[k]).end)
    &&& forall|k: int| i < k < s.len() ==> time_ok((#[trigger] s[k]).start)
    &&& 0 <= i < s.len() ==> -TIME_LIMIT <= s[i].start <= TIME_LIMIT + 4_294_967_360
    &&& 0 < i <= s.len() ==> -TIME_LIMIT - PAD <= s[i - 1].end <= TIME_LIMIT + 4_294_967_360
}

proof fn lemma_stretched_bounds(t: Span, min_dur: int)
    requires
        0 <= min_dur <= u32::MAX,
        -TIME_LIMIT <= t.start <= TIME_LIMIT + 4_294_967_360,
        time_ok(t.end),
    ensures
        -TIME_LIMIT - 2_147_483_648 <= stretched(t, min_dur).start <= TIME_LIMIT + 4_294_967_360,
        -TIME_LIMIT <= stretched(t, min_dur).end <= TIME_LIMIT + 4_294_967_360,
{
}

proof fn lemma_clamp_inv_step(s: Seq<Span>, i: int, min_dur: int, quiet: Quiet)
    requires
        0 <= i < s.len(),
        0 <= min_dur <= u32::MAX,
        clamp_inv(s, i),
    ensures
        clamp_inv(clamp_with(s, i, min_dur, quiet), i + 1),
{
    let d = clamp_with(s, i, min_dur, quiet);
    let c1 = stretched(s[i], min_dur);
    lemma_stretched_bounds(s[i], min_dur);
    let c2 = if i > 0 {
        apart_right(s[i - 1], c1)
    } else {
        c1
    };
    let c3 = settled_at(s, i, min_dur);
    assert(d[i] == snapped(c3, quiet));
    if i > 0 {
        assert(d[i - 1] == apart_left(s[i - 1], c1));
        let _ = s[i - 1];
    }
    if i + 1 < s.len() {
        assert(d[i + 1] == apart_right(c2, s[i + 1]));
        let _ = s[i + 1];
    }
    assert(-TIME_LIMIT - 2_147_483_648 <= c2.start <= TIME_LIMIT + 4_294_967_360);
    assert(-TIME_LIMIT <= c3.end <= TIME_LIMIT + 4_294_967_360);
    assert forall|k: int| 0 <= k < d.len() implies {
        &&& -TIME_LIMIT - CLAMP_SLACK <= (#[trigger] d[k]).start <= TIME_LIMIT + CLAMP_SLACK
        &&& -TIME_LIMIT - CLAMP_SLACK <= d[k].end <= TIME_LIMIT + CLAMP_SLACK
    } by {
        if k != i && k != i - 1 && k != i + 1 {
            assert(d[k] == s[k]);
        }
    }
    assert forall|k: int| i + 1 <= k < d.len() implies time_ok((#[trigger] d[k]).end) by {
        if k != i + 1 {
            assert(d[k] == s[k]);
        }
        assert(time_ok(s[k].end));
    }
    assert forall|k: int| i + 1 < k < d.len() implies time_ok((#[trigger] d[k]).start) by {
        assert(d[k] == s[k]);
        assert(time_ok(s[k].start));
    }
}

/// Clamps word `i`, asking about its edges.
fn clamp_one(spans: &mut Vec<Times>, i: usize, min_dur: u32, oracle: Option<&dyn SilenceOracle>)
    requires
        i < old(spans).len(),
        spans_near(old(spans).deep_view()),
    ensures
        final(spans).len() == old(spans).len(),
        final(spans).deep_view() == clamp_at(old(spans).deep_view(), i as int, min_dur as int, oracle),
{
    let ghost s = spans.deep_view();
    let n = spans.len();
    assert(s[i as int] == spans@[i as int]@);
    let c1 = stretch(spans[i], min_dur);
    let c2 = if i > 0 {
        assert(s[i - 1] == spans@[i - 1]@);
        let (p, c) = keep_apart(spans[i - 1], c1);
        spans.set(i - 1, p);
        c
    } else {
        c1
    };
    let c3 = if i + 1 < n {
        assert(s[i + 1] == spans@[i + 1]@);
        let (c, nx) = keep_apart(c2, spans[i + 1]);
        spans.set(i + 1, nx);
        c
    } else {
        c2
    };
    assert(c3@ == settled_at(s, i as int, min_dur as int));
    let (at_start, at_end) = windows_of(c3);
    let quiet_start = ask(oracle, at_start);
    let quiet_end = ask(oracle, at_end);
    spans.set(i, snap(c3, quiet_start, quiet_end));
    assert(spans.deep_view() =~= clamp_with(s, i as int, min_dur as int, (quiet_start, quiet_end)));
}

/// Clamps every word, from the first to the last. For each word the
/// oracle, if there is one, is asked twice: whether there is silence in
/// the window at the word's start, and in the window at its end, as the
/// word stands once it is stretched and kept apart from its neighbours.
pub fn clamp_spans(spans: &mut Vec<Times>, min_dur: u32, oracle: Option<&dyn SilenceOracle>)
    requires
        spans_ok(old(spans).deep_view()),
    ensures
        final(spans).deep_view() == clamped(old(spans).deep_view(), min_dur as int, oracle),
        final(spans).len() == old(spans).len(),
        spans_near(final(spans).deep_view()),
{
    let n = spans.len();
    let ghost s0 = spans.deep_view();
    let mut i: usize = 0;
    while i < n
        invariant
            i <= n == spans.len(),
            s0.len() == n,
            spans.deep_view() == clamp_upto(s0, i as int, min_dur as int, oracle),
            clamp_inv(spans.deep_view(), i as int),
        decreases n - i,
    {
        proof {
            lemma_clamp_inv_step(
                spans.deep_view(),
                i as int,
                min_dur as int,
                answers_at(spans.deep_view(), i as int, min_dur as int, oracle),
            );
        }
        clamp_one(spans, i, min_dur, oracle);
        i += 1;
    }
}

} // verus!
