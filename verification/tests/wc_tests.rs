use miniutils::wc::{
    do_wc, get_bytes, get_chars, get_lines, get_max_l, get_wc, get_words, is_whitespace,
    option_max, option_str, option_sum, Config, WcInfo,
};

fn conf_all() -> Config {
    Config { lines: true, words: true, chars: true, bytes: true, max_l: true }
}

fn conf_standard() -> Config {
    Config { lines: true, words: true, chars: false, bytes: true, max_l: false }
}

#[test]
fn counts_newlines() {
    assert_eq!(get_lines(&"a\nb\n".to_string()), 2);
    assert_eq!(get_lines(&"no newline".to_string()), 0);
    assert_eq!(get_lines(&"".to_string()), 0);
}

#[test]
fn whitespace_characters() {
    assert!(is_whitespace('\n'));
    assert!(is_whitespace('\t'));
    assert!(is_whitespace(' '));
    assert!(is_whitespace('\u{0b}'));
    assert!(is_whitespace('\u{0c}'));
    assert!(is_whitespace('\r'));
    assert!(!is_whitespace('a'));
    assert!(!is_whitespace('0'));
}

#[test]
fn counts_words_closed_by_a_separator() {
    assert_eq!(get_words(&"hello world\n".to_string()), 2);
    // A trailing word with no separator after it is not counted.
    assert_eq!(get_words(&"hello world".to_string()), 1);
    assert_eq!(get_words(&"  spaced  out  ".to_string()), 2);
    assert_eq!(get_words(&"".to_string()), 0);
}

#[test]
fn counts_characters_and_bytes() {
    assert_eq!(get_chars(&"h\u{e9}llo".to_string()), 5);
    assert_eq!(get_bytes(&"h\u{e9}llo".to_string()), 6);
    assert_eq!(get_chars(&"".to_string()), 0);
    assert_eq!(get_bytes(&"".to_string()), 0);
}

#[test]
fn longest_line_length() {
    assert_eq!(get_max_l(&"ab\nabcd\nx".to_string()), 4);
    assert_eq!(get_max_l(&"\n\n".to_string()), 0);
    assert_eq!(get_max_l(&"abc".to_string()), 3);
}

#[test]
fn optional_counters_combine() {
    assert_eq!(option_sum(Some(2), Some(3)), Some(5));
    assert_eq!(option_sum(None, Some(3)), None);
    assert_eq!(option_sum(Some(2), None), None);
    assert_eq!(option_max(Some(2), Some(3)), Some(3));
    assert_eq!(option_max(Some(4), Some(3)), Some(4));
    assert_eq!(option_max(None, Some(3)), None);
}

#[test]
fn optional_counter_rendering() {
    assert_eq!(option_str(Some(5)), "\t5");
    assert_eq!(option_str(Some(1234)), "\t1234");
    assert_eq!(option_str(None), "");
}

#[test]
fn counts_follow_the_configuration() {
    let wc = get_wc(&"hello world\n".to_string(), conf_all());
    assert_eq!(wc.lines, Some(1));
    assert_eq!(wc.words, Some(2));
    assert_eq!(wc.chars, Some(12));
    assert_eq!(wc.bytes, Some(12));
    assert_eq!(wc.max_l, Some(11));
    let partial = get_wc(&"hello world\n".to_string(), conf_standard());
    assert_eq!(partial.chars, None);
    assert_eq!(partial.max_l, None);
    assert_eq!(partial.lines, Some(1));
}

#[test]
fn adding_counters_sums_and_maximises() {
    let a = WcInfo { lines: Some(1), words: Some(2), chars: Some(3), bytes: Some(4), max_l: Some(5) };
    let b = WcInfo { lines: Some(10), words: Some(20), chars: Some(30), bytes: Some(40), max_l: Some(2) };
    let c = a.add(&b);
    assert_eq!(c.lines, Some(11));
    assert_eq!(c.words, Some(22));
    assert_eq!(c.chars, Some(33));
    assert_eq!(c.bytes, Some(44));
    assert_eq!(c.max_l, Some(5));
}

#[test]
fn rendering_skips_absent_counters() {
    let w = WcInfo { lines: Some(1), words: None, chars: None, bytes: Some(4), max_l: None };
    assert_eq!(w.render(), "\t1\t4");
}

#[test]
fn report_lists_files_and_a_total() {
    let files = vec![
        ("a\nbb\n".to_string(), "f1".to_string()),
        ("c\n".to_string(), "f2".to_string()),
    ];
    let out = do_wc(&files, conf_standard());
    assert_eq!(out, vec![
        "\t2\t2\t5\tf1".to_string(),
        "\t1\t1\t2\tf2".to_string(),
        "\t3\t3\t7\ttotal".to_string(),
    ]);
}

#[test]
fn single_file_report_has_no_total_and_no_name_suffix() {
    let files = vec![("a\nbb\n".to_string(), "".to_string())];
    let out = do_wc(&files, conf_standard());
    assert_eq!(out, vec!["\t2\t2\t5".to_string()]);
}
