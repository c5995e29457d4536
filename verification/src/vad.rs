//! Chunks of a recording from the spans in which voice was detected.

use vstd::prelude::*;
use crate::engine::SAMPLES_PER_MS;
use crate::types::SpeechSegment;

verus! {

/// The index of the sample at time `ms`, kept within a recording of `n`
/// samples.
pub open spec fn sample_index(ms: int, n: int) -> int {
    if ms <= 0 {
        0
    } else if ms * SAMPLES_PER_MS >= n {
        n
    } else {
        ms * SAMPLES_PER_MS
    }
}

/// The span holds speech that can be cut out of a recording of `n`
/// samples: it ends after it starts, and holds at least one sample.
pub open spec fn usable(span: (i64, i64), n: int) -> bool {
    span.1 > span.0 && sample_index(span.1 as int, n) > sample_index(span.0 as int, n)
}

/// The chunk that a usable span gives: its times, and the samples
/// between them.
pub open spec fn chunk_of(span: (i64, i64), samples: Seq<i16>) -> SpeechView {
    SpeechView {
        start: span.0 as int,
        end: span.1 as int,
        samples: samples.subrange(
            sample_index(span.0 as int, samples.len() as int),
            sample_index(span.1 as int, samples.len() as int),
        ),
    }
}

/// The mathematical value of a [`SpeechSegment`].
pub ghost struct SpeechView {
    pub start: int,
    pub end: int,
    pub samples: Seq<i16>,
}

/// The value of a chunk.
pub open spec fn speech_view(s: SpeechSegment) -> SpeechView {
    SpeechView { start: s.start as int, end: s.end as int, samples: s.samples@ }
}

/// The chunks that the first `k` spans give.
pub open spec fn chunks_upto(spans: Seq<(i64, i64)>, samples: Seq<i16>, k: int) -> Seq<SpeechView>
    decreases k,
{
    if k <= 0 {
        Seq::empty()
    } else if usable(spans[k - 1], samples.len() as int) {
        chunks_upto(spans, samples, k - 1).push(chunk_of(spans[k - 1], samples))
    } else {
        chunks_upto(spans, samples, k - 1)
    }
}

/// The views of the chunks.
pub open spec fn speech_views(chunks: Seq<SpeechSegment>) -> Seq<SpeechView> {
    Seq::new(chunks.len(), |i: int| speech_view(chunks[i]))
}

fn index_at(ms: i64, n: usize) -> (r: usize)
    ensures
        r == sample_index(ms as int, n as int),
        r <= n,
{
    if ms <= 0 {
        0
    } else {
        assert(SAMPLES_PER_MS == 16);
        let at: u128 = (ms as u128) * 16;
        if at >= n as u128 {
            n
        } else {
            at as usize
        }
    }
}

/// The chunks of a recording: one for each span of speech, in milliseconds,
/// that ends after it starts and holds at least one sample, with the
/// samples of the span.
pub fn speech_chunks(spans: &[(i64, i64)], samples: &[i16]) -> (out: Vec<SpeechSegment>)
    ensures
        speech_views(out@) == chunks_upto(spans@, samples@, spans.len() as int),
{
    let n = samples.len();
    let mut out: Vec<SpeechSegment> = Vec::new();
    let mut i: usize = 0;
    assert(speech_views(out@) =~= chunks_upto(spans@, samples@, 0));
    while i < spans.len()
        invariant
            i <= spans.len(),
            n == samples.len(),
            speech_views(out@) == chunks_upto(spans@, samples@, i as int),
        decreases spans.len() - i,
    {
        let span = spans[i];
        let a = index_at(span.0, n);
        let b = index_at(span.1, n);
        if span.1 > span.0 && b > a {
            let mut cut: Vec<i16> = Vec::new();
            let mut k: usize = a;
            while k < b
                invariant
                    a <= k <= b <= n == samples.len(),
                    cut@ == samples@.subrange(a as int, k as int),
                decreases b - k,
            {
                cut.push(samples[k]);
                k += 1;
            }
            let ghost before = speech_views(out@);
            out.push(SpeechSegment { start: span.0, end: span.1, samples: cut });
            assert(speech_views(out@) =~= before.push(chunk_of(span, samples@)));
        }
        i += 1;
    }
    out
}

} // verus!
