use whisper_diarize_rs::types::SpeechSegment;
use whisper_diarize_rs::vad::speech_chunks;

#[test]
fn chunks_hold_the_samples_of_their_spans() {
    let samples: Vec<i16> = (0..64).collect();
    let chunks = speech_chunks(&[(0, 1), (1, 3), (3, 10)], &samples);
    assert_eq!(
        chunks,
        vec![
            SpeechSegment { start: 0, end: 1, samples: (0..16).collect() },
            SpeechSegment { start: 1, end: 3, samples: (16..48).collect() },
            SpeechSegment { start: 3, end: 10, samples: (48..64).collect() },
        ]
    );
}

#[test]
fn spans_without_samples_are_dropped() {
    let samples: Vec<i16> = vec![7; 32];
    assert!(speech_chunks(&[(5, 5), (6, 5), (2, 3), (-4, 0)], &samples).is_empty());
    assert!(speech_chunks(&[(0, 10)], &[]).is_empty());
    assert!(speech_chunks(&[], &samples).is_empty());
    let chunks = speech_chunks(&[(-4, 1), (1, i64::MAX)], &samples);
    assert_eq!(chunks.len(), 2);
    assert_eq!(chunks[0].samples.len(), 16);
    assert_eq!((chunks[1].start, chunks[1].end), (1, i64::MAX));
    assert_eq!(chunks[1].samples.len(), 16);
}
