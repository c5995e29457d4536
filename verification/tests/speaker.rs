use whisper_diarize_rs::speaker::{Assignment, Nearest, SpeakerRegistry};

#[test]
fn dissimilar_samples_open_speakers_while_there_is_room() {
    let mut r = SpeakerRegistry::new(3);
    assert_eq!(r.assign(None, 1), Assignment::Opened(1));
    assert_eq!(r.assign(Some(Nearest { id: 1, similar: false }), 2), Assignment::Opened(2));
    assert_eq!(r.assign(Some(Nearest { id: 2, similar: true }), 3), Assignment::Existing(2));
    assert_eq!(r.len(), 2);
    assert!(!r.is_full());
    // The label of a new speaker is the one handed in.
    assert_eq!(r.assign(Some(Nearest { id: 1, similar: false }), 17), Assignment::Opened(17));
    assert!(r.is_full());
    assert_eq!(r.max_speakers(), 3);
}

#[test]
fn full_registry_forces_the_nearest_speaker() {
    let mut r = SpeakerRegistry::new(2);
    r.assign(None, 1);
    r.assign(Some(Nearest { id: 1, similar: false }), 2);
    assert!(r.is_full());
    // Dissimilar to all: still one of the labels there are.
    let got = r.assign(Some(Nearest { id: 2, similar: false }), 3);
    assert_eq!(got, Assignment::Existing(2));
    assert_eq!(got.label(), "2");
    assert_eq!(r.len(), 2);
    for _ in 0..10 {
        let got = r.assign(Some(Nearest { id: 1, similar: false }), 3);
        assert_eq!(got, Assignment::Existing(1));
    }
    assert_eq!(r.len(), 2);
}

#[test]
fn registry_without_room_knows_nobody() {
    let mut r = SpeakerRegistry::new(0);
    assert!(r.is_full());
    assert_eq!(r.assign(None, 1), Assignment::Unknown);
    assert_eq!(r.len(), 0);
}

#[test]
fn labels_are_decimal_numbers_or_a_question_mark() {
    assert_eq!(Assignment::Unknown.label(), "?");
    assert_eq!(Assignment::Opened(1).label(), "1");
    assert_eq!(Assignment::Existing(10).label(), "10");
    assert_eq!(Assignment::Existing(0).label(), "0");
    assert_eq!(Assignment::Opened(4_096).label(), "4096");
    assert_eq!(Assignment::Opened(usize::MAX).label(), usize::MAX.to_string());
}
