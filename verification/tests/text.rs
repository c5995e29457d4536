use whisper_diarize_rs::text::{
    blank, capitalize, char_is_space, chars_of, decimal_string, first_word_range,
    function_word_at, last_word_range, splice, split_fields, strip_range, to_lower, CharClass,
};

fn chars(s: &str) -> Vec<char> {
    s.chars().collect()
}

#[test]
fn characters_of_a_text() {
    assert_eq!(chars_of("añ😀"), vec!['a', 'ñ', '😀']);
    assert_eq!(chars_of(""), Vec::<char>::new());
}

#[test]
fn white_space_is_what_the_language_calls_so() {
    for u in 0..=0x11_0000u32 {
        if let Some(c) = char::from_u32(u) {
            assert_eq!(char_is_space(c), c.is_whitespace(), "{u:#x}");
        }
    }
}

#[test]
fn stripping_each_class() {
    let v = chars("\0\0  hi there \0");
    assert_eq!(strip_range(&v, 0, v.len(), CharClass::Nul), (2, v.len() - 1));
    assert_eq!(strip_range(&v, 2, v.len() - 1, CharClass::Space), (4, 12));
    let b = chars("   ");
    assert_eq!(strip_range(&b, 0, 3, CharClass::Space), (3, 3));
    let p = chars("wait...");
    assert_eq!(strip_range(&p, 0, 7, CharClass::Punct), (0, 4));
    assert!(blank(&chars(" \t\n\u{3000}")));
    assert!(blank(&chars("")));
    assert!(!blank(&chars(" . ")));
}

#[test]
fn first_and_last_words() {
    let v = chars("  The quick\tfox ");
    assert_eq!(first_word_range(&v), (2, 5));
    assert_eq!(last_word_range(&v), (12, 15));
    let one = chars("word");
    assert_eq!(first_word_range(&one), (0, 4));
    assert_eq!(last_word_range(&one), (0, 4));
    let none = chars("   ");
    let (a, b) = first_word_range(&none);
    assert_eq!(a, b);
    let (a, b) = last_word_range(&none);
    assert_eq!(a, b);
}

#[test]
fn function_words_in_any_case() {
    for w in ["i", "I", "to", "TO", "a", "the", "The", "and", "or", "of", "in", "on", "for", "with", "WiTh", "at"] {
        let v = chars(w);
        assert!(function_word_at(&v, 0, v.len()), "{w}");
    }
    for w in ["", "an", "it", "too", "them", "withe", "ı", "K", "to.", "İ"] {
        let v = chars(w);
        assert!(!function_word_at(&v, 0, v.len()), "{w}");
    }
    assert_eq!(to_lower('Q'), 'q');
    assert_eq!(to_lower('É'), 'É');
    assert_eq!(to_lower('z'), 'z');
}

#[test]
fn capitalizing_the_first_letter() {
    assert_eq!(capitalize("hello world"), "Hello world");
    assert_eq!(capitalize("  \"quoted\""), "  \"Quoted\"");
    assert_eq!(capitalize("42"), "42");
    assert_eq!(capitalize(""), "");
    assert_eq!(capitalize("Already"), "Already");
    assert_eq!(capitalize("ßtraße"), "SStraße");
    assert_eq!(capitalize("...ñu"), "...Ñu");
}

#[test]
fn replacing_one_character_by_several() {
    assert_eq!(splice(&chars("abc"), 1, &chars("XY")), chars("aXYc"));
    assert_eq!(splice(&chars("abc"), 0, &chars("")), chars("bc"));
    assert_eq!(splice(&chars("abc"), 2, &chars("Z")), chars("abZ"));
}

#[test]
fn decimal_numbers() {
    assert_eq!(decimal_string(0), "0");
    assert_eq!(decimal_string(7), "7");
    assert_eq!(decimal_string(10), "10");
    assert_eq!(decimal_string(90_210), "90210");
    assert_eq!(decimal_string(usize::MAX), usize::MAX.to_string());
}

#[test]
fn fields_of_a_text() {
    assert_eq!(split_fields("  one two\n\tthree  "), vec!["one", "two", "three"]);
    assert_eq!(split_fields(""), Vec::<&str>::new());
    assert_eq!(split_fields(" \u{a0} "), Vec::<&str>::new());
    assert_eq!(split_fields("día"), vec!["día"]);
}
