use whisper_diarize_rs::transcribe::{Assembler, Hypothesis, InputError, Step};
use whisper_diarize_rs::types::{Segment, SpeechSegment};
use whisper_diarize_rs::words::Token;

fn chunk(start: i64, end: i64) -> SpeechSegment {
    SpeechSegment { start, end, samples: vec![0; 16] }
}

fn tok(text: &str, start: i64, end: i64) -> Token {
    Token { text: text.to_string(), probability: 900_000, start, end, anchor: None }
}

fn hyp(text: &str, start: i64, end: i64, tokens: Vec<Token>) -> Hypothesis {
    Hypothesis { text: text.to_string(), start, end, tokens, speaker: None }
}

fn no_overlap(segments: &[Segment]) -> bool {
    segments.windows(2).all(|p| p[0].end <= p[1].start)
}

fn sorted(segments: &[Segment]) -> bool {
    segments.windows(2).all(|p| p[0].start <= p[1].start)
}

#[test]
fn input_is_refused_before_anything_is_processed() {
    assert_eq!(
        Assembler::new(&vec![chunk(0, 10), chunk(30, 20)], 0, true).err(),
        Some(InputError::InvalidBounds(1))
    );
    assert_eq!(Assembler::new(&vec![chunk(-1, 20)], 0, true).err(), Some(InputError::InvalidBounds(0)));
    assert_eq!(
        Assembler::new(&vec![chunk(0, 100_000_000_000_001)], 0, true).err(),
        Some(InputError::InvalidBounds(0))
    );
    assert_eq!(
        Assembler::new(&vec![chunk(0, 10)], 100_000_000_000_001, true).err(),
        Some(InputError::InvalidOffset)
    );
    assert!(Assembler::new(&vec![chunk(5, 5)], -100_000_000_000_000, false).is_ok());
    assert_eq!(InputError::InvalidBounds(3).message(), "invalid chunk bounds");
    assert_eq!(InputError::InvalidOffset.message(), "invalid offset");
}

#[test]
fn no_chunks_give_an_empty_transcript() {
    let mut a = Assembler::new(&vec![], 0, true).ok().unwrap();
    assert_eq!(a.step(false), Step::Finished);
    assert_eq!(a.hint(), None);
    assert_eq!(a.chunks_done(), 0);
    assert!(a.into_segments().is_empty());
    // The offset is still held against its limit.
    assert_eq!(Assembler::new(&vec![], 100_000_000_000_001, true).err(), Some(InputError::InvalidOffset));
}

#[test]
fn times_are_chunk_start_plus_offset_plus_local_time() {
    let mut a = Assembler::new(&vec![chunk(10_000, 20_000)], 500, false).ok().unwrap();
    assert_eq!(a.step(false), Step::Decode(0));
    a.push(&hyp(" hello world", 120, 980, vec![tok(" hello", 120, 500), tok(" world", 500, 980)]));
    let segs = a.into_segments();
    assert_eq!(segs.len(), 1);
    assert_eq!((segs[0].start, segs[0].end), (10_620, 11_480));
    assert_eq!(segs[0].text, "Hello world");
    assert_eq!(segs[0].words, None);
}

#[test]
fn words_give_the_bounds_of_the_segment() {
    let mut a = Assembler::new(&vec![chunk(1_000, 5_000)], 0, true).ok().unwrap();
    a.push(&hyp(" hello world", 0, 2_000, vec![tok("[_BEG_]", 0, 0), tok(" hel", 100, 300), tok("lo", 300, 500), tok(" world", 600, 900)]));
    let segs = a.into_segments();
    let words = segs[0].words.as_ref().unwrap();
    assert_eq!(words.len(), 2);
    assert_eq!(words[0].word, "Hello");
    assert_eq!((words[0].start, words[0].end), (1_100, 1_500));
    assert_eq!(words[1].word, "world");
    assert_eq!((words[1].start, words[1].end), (1_600, 1_900));
    assert_eq!((segs[0].start, segs[0].end), (1_100, 1_900));
}

#[test]
fn earlier_segment_yields_to_the_later_one() {
    let mut a = Assembler::new(&vec![chunk(0, 3_000), chunk(2_000, 5_000)], 0, true).ok().unwrap();
    a.push(&hyp(" one two", 0, 2_500, vec![tok(" one", 0, 1_000), tok(" two", 1_000, 2_500)]));
    assert_eq!(a.finish_chunk(), 50);
    a.push(&hyp(" three", 200, 900, vec![tok(" three", 200, 900)]));
    assert_eq!(a.finish_chunk(), 100);
    let segs = a.into_segments();
    assert_eq!(segs.len(), 2);
    assert_eq!(segs[0].end, 2_200);
    assert_eq!(segs[0].words.as_ref().unwrap()[1].end, 2_200);
    assert_eq!(segs[0].words.as_ref().unwrap()[0].end, 1_000);
    assert_eq!((segs[1].start, segs[1].end), (2_200, 2_900));
    assert!(no_overlap(&segs));
    assert!(sorted(&segs));
}

#[test]
fn segments_never_overlap_and_stay_sorted_in_chronological_input() {
    let chunks: Vec<SpeechSegment> = (0..6).map(|i| chunk(i * 1_400, i * 1_400 + 1_500)).collect();
    let mut a = Assembler::new(&chunks, 250, true).ok().unwrap();
    for i in 0..6 {
        assert_eq!(a.step(false), Step::Decode(i));
        a.push(&hyp(" a b", 0, 1_400, vec![tok(" a", 0, 700), tok(" b", 700, 1_400)]));
        a.push(&hyp(" c", 1_300, 1_500, vec![tok(" c", 1_300, 1_500)]));
        a.finish_chunk();
    }
    assert_eq!(a.step(false), Step::Finished);
    let segs = a.into_segments();
    assert_eq!(segs.len(), 12);
    assert!(no_overlap(&segs));
    assert!(sorted(&segs));
}

#[test]
fn a_segment_that_starts_before_the_last_one_breaks_the_order_but_not_the_yielding() {
    let mut a = Assembler::new(&vec![chunk(5_000, 6_000), chunk(1_000, 2_000)], 0, false).ok().unwrap();
    a.push(&hyp(" late", 0, 500, vec![]));
    a.finish_chunk();
    a.push(&hyp(" early", 0, 500, vec![]));
    a.finish_chunk();
    let segs = a.into_segments();
    assert!(no_overlap(&segs));
    assert!(!sorted(&segs));
    assert_eq!((segs[0].start, segs[0].end), (5_000, 1_000));
}

#[test]
fn only_the_first_segment_is_capitalized() {
    let mut a = Assembler::new(&vec![chunk(0, 9_000)], 0, true).ok().unwrap();
    a.push(&hyp(" \"élan\" they said", 0, 1_000, vec![tok(" \"élan\"", 0, 400), tok(" they", 400, 700), tok(" said", 700, 1_000)]));
    a.push(&hyp(" and left", 1_000, 2_000, vec![tok(" and", 1_000, 1_500), tok(" left", 1_500, 2_000)]));
    let segs = a.into_segments();
    assert_eq!(segs[0].text, "\"Élan\" they said");
    assert_eq!(segs[0].words.as_ref().unwrap()[0].word, "\"Élan\"");
    assert_eq!(segs[0].words.as_ref().unwrap()[1].word, "they");
    assert_eq!(segs[1].text, "and left");
    assert_eq!(segs[1].words.as_ref().unwrap()[0].word, "and");
}

#[test]
fn capitalizing_can_lengthen_the_text() {
    let mut a = Assembler::new(&vec![chunk(0, 9_000)], 0, false).ok().unwrap();
    a.push(&hyp("123 ßa", 0, 1_000, vec![]));
    assert_eq!(a.segments()[0].text, "123 SSa");
}

#[test]
fn empty_hypotheses_are_kept_and_counted() {
    let mut a = Assembler::new(&vec![chunk(0, 9_000)], 0, true).ok().unwrap();
    a.push(&hyp("", 0, 1_000, vec![]));
    a.push(&hyp("   ", 1_000, 2_000, vec![tok(" ", 1_000, 2_000)]));
    a.push(&hyp(" \n\t", 2_000, 3_000, vec![tok("[_TT_3]", 2_000, 3_000)]));
    assert_eq!(a.empty_segments(), 3);
    assert_eq!(a.finish_chunk(), 100);
    assert_eq!(a.hint(), None);
    let segs = a.into_segments();
    assert_eq!(segs.len(), 3);
    for s in &segs {
        assert_eq!(s.text, "");
        assert_eq!(s.words, None);
    }
    assert_eq!((segs[2].start, segs[2].end), (2_000, 3_000));
}

#[test]
fn hint_is_the_last_text_of_the_previous_chunk_that_is_not_blank() {
    let mut a = Assembler::new(&vec![chunk(0, 1_000), chunk(1_000, 2_000), chunk(2_000, 3_000)], 0, false).ok().unwrap();
    assert_eq!(a.hint(), None);
    a.push(&hyp(" first words", 0, 400, vec![]));
    a.push(&hyp("  ", 400, 500, vec![]));
    // Nothing changes until the chunk is closed.
    assert_eq!(a.hint(), None);
    a.finish_chunk();
    assert_eq!(a.hint(), Some("first words".to_string()));
    a.push(&hyp("", 0, 400, vec![]));
    a.finish_chunk();
    assert_eq!(a.hint(), None);
    a.push(&hyp(" more", 0, 400, vec![]));
    a.push(&hyp(" and more", 400, 800, vec![]));
    a.finish_chunk();
    assert_eq!(a.hint(), Some("and more".to_string()));
}

#[test]
fn progress_is_the_share_of_chunks_done() {
    let chunks: Vec<SpeechSegment> = (0..7).map(|i| chunk(i * 10, i * 10 + 10)).collect();
    let mut a = Assembler::new(&chunks, 0, false).ok().unwrap();
    let mut seen = Vec::new();
    while let Step::Decode(i) = a.step(false) {
        assert_eq!(i, a.chunks_done());
        seen.push(a.finish_chunk());
    }
    assert_eq!(seen, vec![14, 28, 42, 57, 71, 85, 100]);
}

#[test]
fn cancellation_stops_between_chunks_and_keeps_what_was_committed() {
    let mut a = Assembler::new(&vec![chunk(0, 1_000), chunk(1_000, 2_000)], 0, false).ok().unwrap();
    assert_eq!(a.step(false), Step::Decode(0));
    a.push(&hyp(" kept", 0, 900, vec![]));
    a.finish_chunk();
    assert_eq!(a.step(true), Step::Finished);
    // Once asked for, cancellation stays.
    assert_eq!(a.step(false), Step::Finished);
    let segs = a.into_segments();
    assert_eq!(segs.len(), 1);
    assert_eq!(segs[0].text, "Kept");
}

#[test]
fn speaker_label_is_carried() {
    let mut a = Assembler::new(&vec![chunk(0, 1_000)], 0, false).ok().unwrap();
    let mut h = hyp(" hi", 0, 500, vec![]);
    h.speaker = Some("?".to_string());
    a.push(&h);
    assert_eq!(a.segments()[0].speaker_id, Some("?".to_string()));
}

#[test]
fn hypothesis_out_of_range_is_told() {
    assert!(hyp("x", 0, 100_000_000_000_000, vec![]).in_range());
    assert!(!hyp("x", 0, 100_000_000_000_001, vec![]).in_range());
    assert!(!hyp("x", 0, 1, vec![tok("a", -100_000_000_000_001, 0)]).in_range());
    let mut t = tok("a", 0, 1);
    t.anchor = Some(100_000_000_000_001);
    assert!(!hyp("x", 0, 1, vec![t]).in_range());
}
