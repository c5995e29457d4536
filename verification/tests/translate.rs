use whisper_diarize_rs::translate::{
    after_status, after_transport_error, apply_translations, normalize_google_lang,
    percent_translated, read_translation, segments_in_time, read_translations, regenerate_words_uniform, status_is_success,
    translation_inputs, ReplyError, Verdict,
};
use whisper_diarize_rs::types::{Segment, WordTimestamp};

fn seg(text: &str, start: i64, end: i64) -> Segment {
    Segment { start, end, text: text.to_string(), speaker_id: None, words: None }
}

#[test]
fn language_codes_are_normalized() {
    assert_eq!(normalize_google_lang("auto", false), "auto");
    assert_eq!(normalize_google_lang(" AUTO ", true), "auto");
    assert_eq!(normalize_google_lang("Auto", false), "auto");
    assert_eq!(normalize_google_lang("jw", false), "jv");
    assert_eq!(normalize_google_lang("jw", true), "jv");
    assert_eq!(normalize_google_lang("yue", false), "zh-TW");
    assert_eq!(normalize_google_lang("nn", true), "no");
    assert_eq!(normalize_google_lang("nn", false), "nn");
    assert_eq!(normalize_google_lang("  fr\n", false), "fr");
    assert_eq!(normalize_google_lang("JW", false), "JW");
    assert_eq!(normalize_google_lang("", true), "");
}

#[test]
fn first_piece_of_a_reply() {
    let body = r#"[[["Hola ","Hello ",null,null,10],["mundo","world",null,null,3]],null,"en"]"#;
    assert_eq!(read_translation(body), Ok("Hola ".to_string()));
    assert_eq!(read_translation("[[[\"h\\u00e9\"]]]"), Ok("hé".to_string()));
    assert_eq!(read_translation("[]"), Ok(String::new()));
    assert_eq!(read_translation("[[[1]]]"), Ok(String::new()));
    assert_eq!(read_translation("{\"a\": [[[\"x\"]]]}"), Ok(String::new()));
    assert_eq!(read_translation("\"text\""), Ok(String::new()));
    assert_eq!(read_translation("[[[\"x\""), Err(ReplyError::NotJson));
    assert_eq!(read_translation(""), Err(ReplyError::NotJson));
}

#[test]
fn reply_to_one_text() {
    let body = r#"[[["Hola ","Hello ",null,null,10],["mundo","world",null,null,3],[null,"x"],[]],null,"en"]"#;
    assert_eq!(read_translations(body, 1), Ok(vec!["Hola mundo".to_string()]));
    // The same reply to three texts: the text comes first, the rest is empty.
    assert_eq!(
        read_translations(body, 3),
        Ok(vec!["Hola mundo".to_string(), String::new(), String::new()])
    );
}

#[test]
fn reply_to_several_texts() {
    let body = r#"[[[["uno","one"]]],[[["dos ","two "],["tres","three"]],null],[null],7]"#;
    assert_eq!(
        read_translations(body, 4),
        Ok(vec!["uno".to_string(), "dos tres".to_string(), String::new(), String::new()])
    );
    assert_eq!(read_translations("[]", 2), Ok(vec![]));
}

#[test]
fn replies_that_cannot_be_read() {
    assert_eq!(read_translations("{\"error\": 1}", 1), Err(ReplyError::UnexpectedShape));
    assert_eq!(read_translations("null", 1), Err(ReplyError::UnexpectedShape));
    assert_eq!(read_translations("<html>", 1), Err(ReplyError::NotJson));
    assert_eq!(ReplyError::UnexpectedShape.message(), "Unexpected translation response shape");
}

#[test]
fn retries_back_off_and_end() {
    assert!(status_is_success(200));
    assert!(status_is_success(299));
    assert!(!status_is_success(300));
    assert!(!status_is_success(199));
    assert_eq!(after_status(429, 0), Verdict::Retry(200));
    assert_eq!(after_status(500, 1), Verdict::Retry(400));
    assert_eq!(after_status(599, 2), Verdict::Retry(800));
    assert_eq!(after_status(503, 3), Verdict::GiveUp);
    assert_eq!(after_status(404, 0), Verdict::Reject);
    assert_eq!(after_status(600, 0), Verdict::Reject);
    assert_eq!(after_status(301, 3), Verdict::Reject);
    assert_eq!(after_transport_error(0), Verdict::Retry(200));
    assert_eq!(after_transport_error(2), Verdict::Retry(800));
    assert_eq!(after_transport_error(3), Verdict::GiveUp);
    assert_eq!(after_transport_error(u32::MAX), Verdict::GiveUp);
}

#[test]
fn progress_of_translation_stops_short_of_all() {
    assert_eq!(percent_translated(0, 3), 0);
    assert_eq!(percent_translated(1, 3), 33);
    assert_eq!(percent_translated(2, 3), 67);
    assert_eq!(percent_translated(3, 3), 99);
    assert_eq!(percent_translated(1, 8), 13);
    assert_eq!(percent_translated(1, 200), 1);
    assert_eq!(percent_translated(1, 201), 0);
    assert_eq!(percent_translated(199, 200), 99);
}

#[test]
fn words_are_spread_evenly() {
    let mut s = seg("  uno dos\ttres ", 1_000, 2_000);
    s.words = Some(vec![WordTimestamp { word: "old".into(), start: 0, end: 1, probability: Some(1) }]);
    regenerate_words_uniform(&mut s);
    let words = s.words.unwrap();
    assert_eq!(words.len(), 3);
    assert_eq!(words[0], WordTimestamp { word: "uno".into(), start: 1_000, end: 1_333, probability: None });
    assert_eq!(words[1], WordTimestamp { word: "dos".into(), start: 1_333, end: 1_666, probability: None });
    assert_eq!(words[2], WordTimestamp { word: "tres".into(), start: 1_666, end: 2_000, probability: None });
    assert_eq!(s.text, "  uno dos\ttres ");
}

#[test]
fn words_of_a_blank_or_inverted_segment() {
    let mut s = seg("   ", 0, 500);
    regenerate_words_uniform(&mut s);
    assert_eq!(s.words, Some(vec![]));
    let mut s = seg("a b", 900, 100);
    regenerate_words_uniform(&mut s);
    let words = s.words.unwrap();
    assert_eq!((words[0].start, words[0].end), (900, 900));
    assert_eq!((words[1].start, words[1].end), (900, 900));
    assert_eq!((s.start, s.end), (900, 100));
}

#[test]
fn only_segments_with_text_are_translated() {
    let segs = vec![seg(" hello ", 0, 1), seg("", 1, 2), seg(" \n", 2, 3), seg("world", 3, 4)];
    let (places, texts) = translation_inputs(&segs);
    assert_eq!(places, vec![0, 3]);
    assert_eq!(texts, vec!["hello".to_string(), "world".to_string()]);
    let (places, texts) = translation_inputs(&[]);
    assert!(places.is_empty() && texts.is_empty());
}

#[test]
fn translations_are_put_back_where_they_belong() {
    let mut segs = vec![seg(" hello ", 0, 1_000), seg("", 1_000, 2_000), seg("big world", 2_000, 4_000)];
    segs[2].speaker_id = Some("2".into());
    let (places, _) = translation_inputs(&segs);
    apply_translations(&mut segs, &places, &[None, Some("gran mundo azul".to_string())]);
    // No text came back for the first: it stays as it is.
    assert_eq!(segs[0], seg(" hello ", 0, 1_000));
    assert_eq!(segs[1], seg("", 1_000, 2_000));
    assert_eq!(segs[2].text, "gran mundo azul");
    assert_eq!(segs[2].speaker_id, Some("2".to_string()));
    assert_eq!((segs[2].start, segs[2].end), (2_000, 4_000));
    let words = segs[2].words.as_ref().unwrap();
    assert_eq!(words.len(), 3);
    assert_eq!((words[0].word.as_str(), words[0].start, words[0].end), ("gran", 2_000, 2_666));
    assert_eq!((words[2].word.as_str(), words[2].start, words[2].end), ("azul", 3_333, 4_000));
}

#[test]
fn a_later_translation_for_the_same_segment_wins() {
    let mut segs = vec![seg("a", 0, 100)];
    apply_translations(&mut segs, &[0, 0, 0], &[Some("x".into()), Some("y z".into()), None]);
    assert_eq!(segs[0].text, "y z");
    assert_eq!(segs[0].words.as_ref().unwrap().len(), 2);
    let mut none: Vec<Segment> = vec![];
    apply_translations(&mut none, &[], &[]);
    assert!(none.is_empty());
}

#[test]
fn times_beyond_the_limit_are_told() {
    assert!(segments_in_time(&[seg("a", -1_000_000_000_000_000, 1_000_000_000_000_000)]));
    assert!(!segments_in_time(&[seg("a", 0, 1), seg("b", 0, 1_000_000_000_000_001)]));
    assert!(!segments_in_time(&[seg("a", -1_000_000_000_000_001, 0)]));
    assert!(segments_in_time(&[]));
}
