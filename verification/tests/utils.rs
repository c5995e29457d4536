use whisper_diarize_rs::utils::{cs_to_ms, cs_to_ms_checked};
use whisper_diarize_rs::{get_translate_languages, get_whisper_languages};

#[test]
fn translate_languages_are_listed() {
    let langs = get_translate_languages();
    assert_eq!(langs.len(), 107);
    assert_eq!(langs[0], "af");
    assert_eq!(langs[15], "zh-TW");
    assert_eq!(langs[106], "zu");
    assert!(langs.contains(&"jv"));
    assert!(!langs.contains(&"auto"));
}

#[test]
fn whisper_languages_are_listed() {
    let langs = get_whisper_languages();
    assert_eq!(langs.len(), 101);
    assert_eq!(langs[0], "auto");
    assert_eq!(langs[1], "en");
    assert_eq!(langs[100], "yue");
    assert!(langs.contains(&"jw"));
}

#[test]
fn centiseconds_are_ten_milliseconds() {
    assert_eq!(cs_to_ms(0), 0);
    assert_eq!(cs_to_ms(123), 1_230);
    assert_eq!(cs_to_ms(-1), -10);
    assert_eq!(cs_to_ms_checked(320), Some(3_200));
    assert_eq!(cs_to_ms_checked(900_000_000_000_000_000), Some(9_000_000_000_000_000_000));
    assert_eq!(cs_to_ms_checked(900_000_000_000_000_001), None);
    assert_eq!(cs_to_ms_checked(i64::MIN), None);
}
