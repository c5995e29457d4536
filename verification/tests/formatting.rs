use whisper_diarize_rs::clamp::{clamp_spans, Times};
use whisper_diarize_rs::formatting::{
    build_cue, clamp_and_merge_tiny_words, flatten_segments, is_comma_like, is_terminal_punct,
    join_tokens, merge_tiny_words, process_segments, segments_fit,
    slice_stats, split_into_groups,
    split_trailing_punct, NoSilence, PostProcessConfig, SilenceOracle, Tok, VadMaskOracle,
};
use whisper_diarize_rs::lines::{
    choose_split, length_penalty, render_slice, slice_chars, soft_cap_penalty, split_into_lines,
    syntax_penalty,
};
use whisper_diarize_rs::types::{Segment, WordTimestamp};

fn tok(word: &str, punc: &str, start: i64, end: i64) -> Tok {
    Tok { word: word.into(), punc: punc.into(), start, end, prob: None, speaker: None }
}

fn word(text: &str, start: i64, end: i64) -> WordTimestamp {
    WordTimestamp { word: text.into(), start, end, probability: None }
}

fn segment_of(words: Vec<WordTimestamp>) -> Segment {
    let start = words.first().map(|w| w.start).unwrap_or(0);
    let end = words.last().map(|w| w.end).unwrap_or(0);
    Segment { start, end, text: String::new(), speaker_id: None, words: Some(words) }
}

fn two_lines() -> PostProcessConfig {
    let mut cfg = PostProcessConfig::default();
    cfg.max_lines = 2;
    cfg
}

#[test]
fn basic_split() {
    // The defaults, with two lines to a cue.
    let cfg = two_lines();
    let words = vec![
        tok("I", "", 0, 100),
        tok("think", "", 100, 380),
        tok("I", "", 500, 600),
        tok("would", "", 600, 800),
        tok("like", "", 800, 950),
        tok("to", ".", 950, 1100),
    ];

    let seg = Segment {
        start: 0,
        end: 1100,
        text: String::new(),
        speaker_id: None,
        words: Some(
            words
                .iter()
                .map(|t| WordTimestamp {
                    word: format!("{}{}", t.word, t.punc),
                    start: t.start,
                    end: t.end,
                    probability: None,
                })
                .collect(),
        ),
    };
    let cues = process_segments(&[seg], &cfg, None);
    assert!(!cues.is_empty());
    let lines = &cues[0].lines;
    assert_eq!(lines.len(), 2);
    assert!(lines[0].starts_with("I think"));
}

#[test]
fn basic_split_gives_one_cue_with_exact_lines() {
    let cfg = two_lines();
    let seg = segment_of(vec![
        word("I", 0, 100),
        word("think", 100, 380),
        word("I", 500, 600),
        word("would", 600, 800),
        word("like", 800, 950),
        word("to.", 950, 1100),
    ]);
    let cues = process_segments(&[seg], &cfg, None);
    assert_eq!(cues.len(), 1);
    assert_eq!(cues[0].lines, vec!["I think I would".to_string(), "like to.".to_string()]);
    assert_eq!((cues[0].start, cues[0].end), (0, 1100));
    assert_eq!(cues[0].words.len(), 6);
    assert_eq!(cues[0].words[5].word, "to.");
    assert_eq!(cues[0].speaker_id, None);
}

#[test]
fn default_config_has_the_documented_values() {
    let cfg = PostProcessConfig::default();
    assert_eq!(cfg.max_chars_per_line, 38);
    assert_eq!(cfg.max_lines, 1);
    assert_eq!(cfg.cps_cap_milli, 17_000);
    assert_eq!(cfg.split_gap_ms, 500);
    assert_eq!(cfg.comma_min_chars_before_allow, 55);
    assert_eq!(cfg.min_word_dur_ms, 100);
    assert_eq!(cfg.min_sub_dur_ms, 1_000);
    assert_eq!(cfg.max_sub_dur_ms, 6_000);
    assert_eq!(cfg.soft_max_words_per_line, 0);
}

#[test]
fn no_segments_give_no_cues() {
    let cues = process_segments(&[], &PostProcessConfig::default(), None);
    assert!(cues.is_empty());
}

#[test]
fn one_line_when_line_splitting_is_off() {
    let seg = segment_of(vec![word("Hello", 0, 300), word("there.", 300, 700)]);
    let cues = process_segments(&[seg.clone()], &PostProcessConfig::default(), None);
    assert_eq!(cues.len(), 1);
    assert_eq!(cues[0].lines, vec!["Hello there.".to_string()]);
    let mut zero = PostProcessConfig::default();
    zero.max_lines = 0;
    let cues = process_segments(&[seg], &zero, None);
    assert_eq!(cues[0].lines, vec!["Hello there.".to_string()]);
}

#[test]
fn segment_without_words_is_one_token() {
    let seg = Segment { start: 1000, end: 2500, text: "Good morning.".into(), speaker_id: Some("2".into()), words: None };
    let blank = Segment { start: 3000, end: 3500, text: "  \n".into(), speaker_id: None, words: None };
    let toks = flatten_segments(&[seg.clone(), blank.clone()]);
    assert_eq!(toks.len(), 1);
    assert_eq!(toks[0].word, "Good morning");
    assert_eq!(toks[0].punc, ".");
    assert_eq!((toks[0].start, toks[0].end), (1000, 2500));
    let cues = process_segments(&[seg, blank], &PostProcessConfig::default(), None);
    assert_eq!(cues.len(), 1);
    assert_eq!(cues[0].speaker_id, Some("2".to_string()));
    assert_eq!(cues[0].lines, vec!["Good morning.".to_string()]);
}

#[test]
fn trailing_punctuation_is_split_off() {
    assert_eq!(split_trailing_punct("hello,"), ("hello", ","));
    assert_eq!(split_trailing_punct("wait..."), ("wait", "..."));
    assert_eq!(split_trailing_punct("don't"), ("don't", ""));
    assert_eq!(split_trailing_punct("rock'n'"), ("rock'n'", ""));
    assert_eq!(split_trailing_punct("(yes)"), ("(yes", ")"));
    assert_eq!(split_trailing_punct("?!"), ("", "?!"));
    assert_eq!(split_trailing_punct(""), ("", ""));
    assert_eq!(split_trailing_punct("はい。"), ("はい", "。"));
    assert_eq!(split_trailing_punct("a.b"), ("a.b", ""));
}

#[test]
fn terminal_and_comma_marks() {
    for p in [".", "!", "?", "…", "。", "！", "？"] {
        assert!(is_terminal_punct(p), "{p}");
        assert!(!is_comma_like(p), "{p}");
    }
    for p in [",", "，", "、", ";"] {
        assert!(is_comma_like(p), "{p}");
        assert!(!is_terminal_punct(p), "{p}");
    }
    for p in ["", ":", ")", "a", "\"", ")]}", "—", ".:", "!–"] {
        assert!(!is_terminal_punct(p), "{p}");
        assert!(!is_comma_like(p), "{p}");
    }
}

#[test]
fn punctuation_goes_by_its_last_mark() {
    for p in ["...", "?!", "!!", ",.", ":?", "—。", ").", "\"!"] {
        assert!(is_terminal_punct(p), "{p}");
        assert!(!is_comma_like(p), "{p}");
    }
    for p in [".,", "!;", ",,", "…、", "),"] {
        assert!(is_comma_like(p), "{p}");
        assert!(!is_terminal_punct(p), "{p}");
    }
}

#[test]
fn a_closing_bracket_or_quote_behind_the_mark_takes_its_place() {
    for p in [".)", "!\"", "?)]", "...\")", "。}", ",)", ";\"", "，]"] {
        assert!(!is_terminal_punct(p), "{p}");
        assert!(!is_comma_like(p), "{p}");
    }
}

#[test]
fn groups_end_with_every_token_that_ends_in_a_terminal_mark() {
    let cfg = PostProcessConfig::default();
    for punc in ["?!", "...", ".", "!!", ")."] {
        let toks = vec![tok("What", punc, 0, 300), tok("now", "", 300, 600)];
        let groups = split_into_groups(&toks, &cfg);
        assert_eq!(groups.len(), 2, "{punc}");
        assert_eq!(groups[0].len(), 1);
        assert_eq!(groups[0][0].punc, punc);
        assert_eq!(groups[1][0].word, "now");
    }
    for punc in ["", ",", ")", ":", ".:", "—", ".)", "!\"", ".\")"] {
        let toks = vec![tok("What", punc, 0, 300), tok("now", "", 300, 600)];
        assert_eq!(split_into_groups(&toks, &cfg).len(), 1, "{punc}");
    }
}

#[test]
fn sentences_with_several_marks_give_cues_of_their_own() {
    let seg = segment_of(vec![
        word("Really?!", 0, 400),
        word("Yes...", 400, 800),
        word("(Fine.)", 800, 1_200),
        word("Go", 1_200, 1_500),
    ]);
    let cues = process_segments(&[seg], &PostProcessConfig::default(), None);
    let lines: Vec<&str> = cues.iter().map(|c| c.lines[0].as_str()).collect();
    assert_eq!(lines, vec!["Really?!", "Yes...", "(Fine.) Go"]);
}

#[test]
fn break_after_several_marks_counts_as_after_a_sentence() {
    let cfg = two_lines();
    // Five tokens: 1 is a candidate only because the token before it ends
    // a sentence; it scores -60 and wins over 2 and 4, which score 0.
    let toks = vec![
        tok("Wait", "...", 0, 300),
        tok("bb", "", 300, 400),
        tok("cc", "", 400, 500),
        tok("dd", "", 500, 600),
        tok("ee", "", 600, 700),
    ];
    assert_eq!(choose_split(&toks, &cfg), 1);
    // A bracket behind the full stop: 3 is no candidate, and 2 is the
    // first of those that score 0.
    let toks = vec![
        tok("aa", "", 0, 100),
        tok("bb", "", 100, 200),
        tok("(so", ".)", 200, 300),
        tok("dd", "", 300, 400),
        tok("ee", "", 400, 500),
    ];
    assert_eq!(choose_split(&toks, &cfg), 2);
    // Four tokens, the first with a bracket behind its full stop: the
    // break falls at 2, the middle.
    let toks = vec![
        tok("a", ".)", 0, 100),
        tok("b", "", 100, 200),
        tok("c", "", 200, 300),
        tok("d", "", 300, 400),
    ];
    assert_eq!(choose_split(&toks, &cfg), 2);
    assert_eq!(split_into_lines(&toks, &cfg), vec!["a.) b".to_string(), "c d".to_string()]);
}

#[test]
fn comma_behind_other_marks_is_weighed_as_a_comma() {
    let mut cfg = two_lines();
    cfg.comma_min_chars_before_allow = 0;
    cfg.max_chars_per_line = 100;
    // With three tokens the candidates are 1 (the middle) and 2 (even).
    // The comma costs 15 at 1, so 2 wins; a comma before a quote is none.
    let toks = vec![tok("so", "),", 0, 100), tok("bb", "", 100, 200), tok("cc", "", 200, 300)];
    assert_eq!(choose_split(&toks, &cfg), 2);
    let toks = vec![tok("so", ",\"", 0, 100), tok("bb", "", 100, 200), tok("cc", "", 200, 300)];
    assert_eq!(choose_split(&toks, &cfg), 1);
}

#[test]
fn a_window_without_length_is_shorter_than_any_cue_may_be() {
    let mut cfg = PostProcessConfig::default();
    cfg.max_sub_dur_ms = 1;
    let toks = vec![tok("a", "", 0, 0), tok("b", "", 0, 0)];
    let (next, cue) = build_cue(&toks, 0, &cfg);
    assert_eq!(next, 2);
    assert_eq!(cue.lines, vec!["a b".to_string()]);
    // A window of one millisecond is not.
    let toks = vec![tok("a", "", 0, 1), tok("b", "", 1, 1)];
    let (next, _) = build_cue(&toks, 0, &cfg);
    assert_eq!(next, 1);
    // A window that runs backwards is read in one millisecond: three
    // characters are too fast for that, so the room of the line decides.
    let toks = vec![tok("abc", "", 500, 400), tok("d", "", 400, 400)];
    let (next, _) = build_cue(&toks, 0, &cfg);
    assert_eq!(next, 2);
    cfg.max_chars_per_line = 3;
    let (next, _) = build_cue(&toks, 0, &cfg);
    assert_eq!(next, 1);
}

#[test]
fn words_are_stretched_and_kept_apart() {
    // A 40 ms word is stretched to 100 ms; its neighbour starts inside the
    // stretched span, so both settle halfway.
    let mut spans = vec![Times { start: 1000, end: 1040 }, Times { start: 1050, end: 1500 }];
    clamp_spans(&mut spans, 100, None);
    assert_eq!(spans[0], Times { start: 970, end: 1060 });
    assert_eq!(spans[1], Times { start: 1060, end: 1500 });
}

#[test]
fn odd_shortfall_is_stretched_to_the_exact_minimum() {
    let mut spans = vec![Times { start: 0, end: 95 }];
    clamp_spans(&mut spans, 100, None);
    assert_eq!(spans[0], Times { start: -2, end: 98 });
}

#[test]
fn overlapping_neighbours_meet_halfway() {
    let mut spans = vec![Times { start: 0, end: 600 }, Times { start: 400, end: 1000 }];
    clamp_spans(&mut spans, 100, None);
    assert_eq!(spans[0], Times { start: 0, end: 500 });
    assert_eq!(spans[1], Times { start: 500, end: 1000 });
}

struct Always;

impl SilenceOracle for Always {
    fn is_silence(&self, _t0: i64, _t1: i64) -> bool {
        true
    }
}

#[test]
fn edges_are_drawn_in_where_silence_is_known() {
    let mut spans = vec![Times { start: 1000, end: 2000 }];
    clamp_spans(&mut spans, 100, Some(&Always));
    assert_eq!(spans[0], Times { start: 1020, end: 1980 });
    let mut spans = vec![Times { start: 1000, end: 2000 }];
    clamp_spans(&mut spans, 100, Some(&NoSilence));
    assert_eq!(spans[0], Times { start: 1000, end: 2000 });
}

#[test]
fn silence_is_asked_just_inside_the_start_and_just_outside_the_end() {
    // Speech from 1010 on: the first 20 ms of the word are not all silent.
    let speech = VadMaskOracle::new(vec![(1010, 1500)]);
    let mut spans = vec![Times { start: 1000, end: 1500 }];
    clamp_spans(&mut spans, 100, Some(&speech));
    assert_eq!(spans[0], Times { start: 1000, end: 1480 });
    // Speech from 1020 on: the first 20 ms are silent.
    let speech = VadMaskOracle::new(vec![(1020, 1510)]);
    let mut spans = vec![Times { start: 1000, end: 1500 }];
    clamp_spans(&mut spans, 100, Some(&speech));
    assert_eq!(spans[0], Times { start: 1020, end: 1500 });
}

#[test]
fn speech_mask_tells_silence() {
    let oracle = VadMaskOracle::new(vec![(500, 400), (1000, 2000), (100, 200), (300, 300)]);
    assert!(oracle.is_silence(0, 100));
    assert!(!oracle.is_silence(0, 101));
    assert!(oracle.is_silence(200, 1000));
    assert!(!oracle.is_silence(1999, 3000));
    assert!(oracle.is_silence(2000, 3000));
    assert!(oracle.is_silence(400, 500));
    // An empty span is silent wherever it lies.
    assert!(oracle.is_silence(1500, 1500));
    assert!(oracle.is_silence(1500, 1400));
    assert!(!NoSilence.is_silence(0, 1));
}

#[test]
fn speech_mask_is_kept_in_the_order_of_its_starts() {
    let oracle = VadMaskOracle::new(vec![
        (500, 400),
        (1000, 2000),
        (100, 200),
        (300, 300),
        (100, 150),
        (-5, 90),
        (1000, 1001),
    ]);
    assert_eq!(
        oracle.mask(),
        &vec![(-5, 90), (100, 200), (100, 150), (1000, 2000), (1000, 1001)]
    );
    assert!(VadMaskOracle::new(vec![]).mask().is_empty());
    assert!(VadMaskOracle::new(vec![(3, 3), (9, 1)]).mask().is_empty());
}

#[test]
fn tiny_word_is_merged_forward() {
    let toks = vec![tok("a", "", 0, 50), tok("b", ".", 60, 500), tok("c", "", 600, 900)];
    let out = merge_tiny_words(&toks, 100);
    assert_eq!(out.len(), 2);
    assert_eq!(out[0].word, "a b");
    assert_eq!(out[0].punc, ".");
    assert_eq!((out[0].start, out[0].end), (0, 500));
    assert_eq!(out[1].word, "c");
}

#[test]
fn tiny_word_at_the_end_is_merged_backward() {
    let toks = vec![tok("well", ",", 0, 400), tok("no", "!", 400, 450)];
    let out = merge_tiny_words(&toks, 100);
    assert_eq!(out.len(), 1);
    assert_eq!(out[0].word, "well, no");
    assert_eq!(out[0].punc, "!");
    assert_eq!((out[0].start, out[0].end), (0, 450));
}

#[test]
fn a_lone_tiny_word_stays() {
    let toks = vec![tok("a", "", 0, 10)];
    let out = merge_tiny_words(&toks, 100);
    assert_eq!(out, toks);
}

#[test]
fn two_tiny_words_in_a_row_make_one_token() {
    let toks = vec![tok("a", "", 0, 10), tok("b", "", 10, 20), tok("c", "", 20, 500)];
    let out = merge_tiny_words(&toks, 100);
    assert_eq!(out.len(), 2);
    assert_eq!(out[0].word, "a b");
    assert_eq!((out[0].start, out[0].end), (0, 20));
    assert_eq!(out[1].word, "c");
}

#[test]
fn joined_tokens_keep_punctuation_and_skip_empty_cores() {
    assert_eq!(join_tokens(&tok("a", ",", 0, 1), &tok("b", ".", 1, 2)), ("a, b".to_string(), ".".to_string()));
    assert_eq!(join_tokens(&tok("", "...", 0, 1), &tok("b", "", 1, 2)), ("...b".to_string(), String::new()));
    assert_eq!(join_tokens(&tok("a", "", 0, 1), &tok("", "!", 1, 2)), ("a".to_string(), "!".to_string()));
}

#[test]
fn short_word_followed_by_another_is_merged_in_the_pipeline() {
    let mut toks = vec![tok("a", "", 0, 50), tok("b", "", 50, 500)];
    clamp_and_merge_tiny_words(&mut toks, &PostProcessConfig::default(), None);
    assert_eq!(toks.len(), 1);
    assert_eq!(toks[0].word, "a b");
    // The tiny word was stretched to -25..75 and cut back to 62 by its
    // neighbour; the merged word starts where it starts.
    assert_eq!((toks[0].start, toks[0].end), (-25, 500));
}

#[test]
fn long_gap_and_sentence_end_cut_groups() {
    let cfg = PostProcessConfig::default();
    let toks = vec![
        tok("one", "", 0, 300),
        tok("two", "", 800, 1000),
        tok("three", ".", 1000, 1300),
        tok("four", "", 1300, 1600),
        tok("five", "", 2099, 2500),
    ];
    let groups = split_into_groups(&toks, &cfg);
    let words: Vec<Vec<&str>> = groups.iter().map(|g| g.iter().map(|t| t.word.as_str()).collect()).collect();
    assert_eq!(words, vec![vec!["one"], vec!["two", "three"], vec!["four", "five"]]);
    // A gap of exactly the threshold cuts.
    let toks = vec![tok("a", "", 0, 300), tok("b", "", 800, 900)];
    assert_eq!(split_into_groups(&toks, &cfg).len(), 2);
    let toks = vec![tok("a", "", 0, 300), tok("b", "", 799, 900)];
    assert_eq!(split_into_groups(&toks, &cfg).len(), 1);
    assert!(split_into_groups(&[], &cfg).is_empty());
}

#[test]
fn words_across_a_long_pause_fall_in_different_cues() {
    let seg = segment_of(vec![word("Hello", 0, 400), word("again", 1000, 1400)]);
    let cues = process_segments(&[seg], &PostProcessConfig::default(), None);
    assert_eq!(cues.len(), 2);
    assert_eq!(cues[0].lines, vec!["Hello".to_string()]);
    assert_eq!(cues[1].lines, vec!["again".to_string()]);
}

#[test]
fn short_group_is_one_cue() {
    let cfg = PostProcessConfig::default();
    let toks = vec![tok("It", "", 0, 200), tok("is", "", 200, 400), tok("late", "", 400, 900)];
    let (next, cue) = build_cue(&toks, 0, &cfg);
    assert_eq!(next, 3);
    assert_eq!(cue.lines, vec!["It is late".to_string()]);
    assert_eq!((cue.start, cue.end), (0, 900));
}

#[test]
fn window_stops_at_the_longest_duration() {
    let cfg = PostProcessConfig::default();
    let toks = vec![tok("a", "", 0, 3000), tok("b", "", 3000, 6000), tok("c", "", 6000, 6400)];
    let (next, cue) = build_cue(&toks, 0, &cfg);
    assert_eq!(next, 2);
    assert_eq!(cue.lines, vec!["a b".to_string()]);
    let (next, cue) = build_cue(&toks, 2, &cfg);
    assert_eq!(next, 3);
    assert_eq!((cue.start, cue.end), (6000, 6400));
}

#[test]
fn window_stops_when_text_is_long_and_fast() {
    let mut cfg = PostProcessConfig::default();
    cfg.max_chars_per_line = 10;
    // 11 characters in 200 ms is faster than 17 per second, and more than
    // a line holds.
    let toks = vec![tok("abcdefghijk", "", 0, 200), tok("l", "", 200, 400)];
    let (next, _) = build_cue(&toks, 0, &cfg);
    assert_eq!(next, 1);
    // At 17 characters a second exactly, the window grows.
    let toks = vec![tok("abcdefghijklmnopq", "", 0, 1000), tok("r", "", 1000, 1400)];
    let (next, _) = build_cue(&toks, 0, &cfg);
    assert_eq!(next, 2);
    let toks = vec![tok("abcdefghijklmnopq", "", 0, 999), tok("r", "", 999, 1400)];
    let (next, _) = build_cue(&toks, 0, &cfg);
    assert_eq!(next, 1);
}

#[test]
fn cue_does_not_start_before_zero() {
    let toks = vec![tok("a", "", -30, 400)];
    let (_, cue) = build_cue(&toks, 0, &PostProcessConfig::default());
    assert_eq!(cue.start, 0);
    assert_eq!(cue.words[0].start, -30);
}

#[test]
fn lines_rejoin_to_the_text_of_the_words() {
    let cfg = two_lines();
    let toks = vec![
        tok("Well", ",", 0, 300),
        tok("that", "", 300, 500),
        tok("is", "", 500, 600),
        tok("all", "", 600, 900),
        tok("for", "", 900, 1100),
        tok("today", "!", 1100, 1600),
    ];
    let (_, cue) = build_cue(&toks, 0, &cfg);
    assert_eq!(cue.lines.len(), 2);
    let words: Vec<&str> = cue.words.iter().map(|w| w.word.as_str()).collect();
    assert_eq!(cue.lines.join(" "), words.join(" "));
    assert_eq!(cue.lines.join(" "), "Well, that is all for today!");
}

#[test]
fn exact_penalties() {
    assert_eq!(length_penalty(38, 38), 0);
    assert_eq!(length_penalty(40, 38), 8);
    assert_eq!(length_penalty(48, 38), 200);
    assert_eq!(soft_cap_penalty(10, 10), 0);
    assert_eq!(soft_cap_penalty(13, 10), 9);
    assert_eq!(syntax_penalty("I think", "I would like to."), 30);
    assert_eq!(syntax_penalty("I think I", "would like to."), 25);
    assert_eq!(syntax_penalty("go TO", "The end"), 55);
    assert_eq!(syntax_penalty("I think I would", "like to."), 0);
    assert_eq!(syntax_penalty("", ""), 0);
    assert_eq!(syntax_penalty("to.", "and,"), 0);
}

#[test]
fn break_after_a_sentence_end_wins() {
    let cfg = two_lines();
    let toks = vec![
        tok("Stop", ".", 0, 300),
        tok("Now", "", 300, 500),
        tok("we", "", 500, 600),
        tok("go", "", 600, 900),
    ];
    assert_eq!(choose_split(&toks, &cfg), 1);
    assert_eq!(split_into_lines(&toks, &cfg), vec!["Stop.".to_string(), "Now we go".to_string()]);
}

#[test]
fn first_of_equal_scores_wins() {
    let cfg = two_lines();
    let toks = vec![
        tok("aa", "", 0, 100),
        tok("bb", "", 100, 200),
        tok("cc", "", 200, 300),
        tok("dd", "", 300, 400),
        tok("ee", "", 400, 500),
    ];
    // Candidates are 2 (even, and the middle) and 4 (even); both score 0.
    assert_eq!(choose_split(&toks, &cfg), 2);
}

#[test]
fn comma_is_a_candidate_only_in_long_text() {
    let mut cfg = two_lines();
    cfg.comma_min_chars_before_allow = 10;
    // 5 tokens: without the comma rule the candidates are 2 and 4.
    let toks = vec![
        tok("a", ",", 0, 100),
        tok("bbbbbbbbbbbbbbbbbbbbbbbbbbbbbbbbbbbbbbbbbbbbbbbbbb", "", 100, 200),
        tok("c", "", 200, 300),
        tok("d", "", 300, 400),
        tok("e", "", 400, 500),
    ];
    // Breaking at 1 costs the comma's 15 and 2 * 18 * 18 for the long right
    // line; breaking at 2 costs 2 * 15 * 15. The comma loses, but it is
    // weighed: with a larger cap it would win on the tie-break.
    assert_eq!(choose_split(&toks, &cfg), 2);
    let mut wide = cfg;
    wide.max_chars_per_line = 100;
    let short = vec![tok("a", ",", 0, 100), tok("b", "", 100, 200), tok("c", "", 200, 300)];
    // Three tokens, nine characters: the comma is no candidate, 1 is the
    // middle, 2 is even; both score 0 apart from the comma's 15 at 1.
    assert_eq!(choose_split(&short, &wide), 2);
}

#[test]
fn single_token_is_one_line() {
    let cfg = two_lines();
    assert_eq!(split_into_lines(&[tok("Hi", "!", 0, 100)], &cfg), vec!["Hi!".to_string()]);
    assert_eq!(split_into_lines(&[], &cfg), vec![String::new()]);
}

#[test]
fn soft_word_cap_pushes_the_break_to_the_middle() {
    let mut cfg = two_lines();
    cfg.soft_max_words_per_line = 2;
    let toks = vec![
        tok("Stop", ".", 0, 100),
        tok("b", "", 100, 200),
        tok("c", "", 200, 300),
        tok("d", "", 300, 400),
        tok("e", "", 400, 500),
        tok("f", "", 500, 600),
    ];
    // At 1: -60 + 9 (five words right); at 2: 4; at 3: 1 + 1; at 4: 4.
    assert_eq!(choose_split(&toks, &cfg), 1);
    cfg.soft_max_words_per_line = 1;
    // At 1: -60 + 16; at 2: 1 + 9; at 3: 4 + 4; at 4: 9 + 1.
    assert_eq!(choose_split(&toks, &cfg), 1);
    let plain = vec![tok("a", "", 0, 100), tok("b", "", 100, 200), tok("c", "", 200, 300), tok("d", "", 300, 400), tok("e", "", 400, 500), tok("f", "", 500, 600)];
    // At 2: 1 + 9; at 3: 4 + 4; at 4: 9 + 1.
    assert_eq!(choose_split(&plain, &cfg), 3);
}

#[test]
fn rendering_and_counting() {
    let toks = vec![tok("Hello", ",", 0, 1), tok("wörld", "!", 1, 2)];
    assert_eq!(render_slice(&toks), "Hello, wörld!");
    assert_eq!(slice_chars(&toks), 13);
    assert_eq!(render_slice(&[]), "");
    assert_eq!(slice_chars(&[]), 0);
}

#[test]
fn input_beyond_the_limits_is_told() {
    let ok = segment_of(vec![word("a", 0, 100)]);
    assert!(segments_fit(&[ok]));
    let late = segment_of(vec![word("a", 0, 1_000_000_000_000_001)]);
    assert!(!segments_fit(&[late]));
    let early = segment_of(vec![word("a", -1_000_000_000_000_001, 0)]);
    assert!(!segments_fit(&[early]));
    let edge = segment_of(vec![word("a", -1_000_000_000_000_000, 1_000_000_000_000_000)]);
    assert!(segments_fit(&[edge]));
}

#[test]
fn speaker_of_a_cue_is_that_of_its_first_token() {
    let a = Segment { start: 0, end: 300, text: String::new(), speaker_id: Some("1".into()), words: Some(vec![word("yes", 0, 300)]) };
    let b = Segment { start: 300, end: 700, text: String::new(), speaker_id: Some("2".into()), words: Some(vec![word("no", 300, 700)]) };
    let cues = process_segments(&[a, b], &PostProcessConfig::default(), None);
    assert_eq!(cues.len(), 1);
    assert_eq!(cues[0].speaker_id, Some("1".to_string()));
    assert_eq!(cues[0].lines, vec!["yes no".to_string()]);
}

#[test]
fn speech_mask_draws_in_the_edges_of_cues() {
    let seg = segment_of(vec![word("Hello", 1_000, 1_400), word("there.", 1_400, 2_000)]);
    let cfg = PostProcessConfig::default();
    // Speech from 1020 to 2000: silent just inside the start and just
    // outside the end.
    let mask = VadMaskOracle::new(vec![(1_020, 2_000)]);
    let cues = process_segments(&[seg.clone()], &cfg, Some(&mask));
    assert_eq!(cues.len(), 1);
    assert_eq!((cues[0].start, cues[0].end), (1_020, 1_980));
    assert_eq!((cues[0].words[0].start, cues[0].words[0].end), (1_020, 1_400));
    // Without a mask, nothing moves.
    let plain = process_segments(&[seg], &cfg, None);
    assert_eq!((plain[0].start, plain[0].end), (1_000, 2_000));
}

#[test]
fn each_oracle_gives_its_answers() {
    let spans = vec![Times { start: 0, end: 400 }, Times { start: 600, end: 900 }];
    let mask = VadMaskOracle::new(vec![(0, 400), (620, 2_000)]);
    let mut a = spans.clone();
    clamp_spans(&mut a, 100, Some(&mask));
    assert_eq!(a, vec![Times { start: 0, end: 380 }, Times { start: 620, end: 900 }]);
    let mut b = spans.clone();
    clamp_spans(&mut b, 100, None);
    assert_eq!(b, spans);
    let mut c = spans.clone();
    clamp_spans(&mut c, 100, Some(&Always));
    assert_eq!(c, vec![Times { start: 20, end: 380 }, Times { start: 620, end: 880 }]);
}

#[test]
fn start_end_and_length_of_a_stretch() {
    let toks = vec![tok("ab", ",", 100, 300), tok("c", "", 300, 450)];
    assert_eq!(slice_stats(&toks), (100, 450, 5));
    assert_eq!(slice_stats(&[]), (0, 0, 0));
}
