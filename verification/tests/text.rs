use i18n_hero::text::{
    byte_len, chars_of, is_char_offset, split_lines, str_contains, str_eq, str_starts_with,
    utf8_width,
};

#[test]
fn lines_split_like_str_lines() {
    for text in ["a\r\nb\n\nc", "", "x\n", "a\r", "\n", "one", "a\nb\r\n", "é\nü"] {
        let ours = split_lines(text);
        let std: Vec<String> = text.lines().map(|s| s.to_string()).collect();
        assert_eq!(ours, std, "{:?}", text);
    }
}

#[test]
fn lines_hold_no_line_feed() {
    for line in split_lines("a\nb\r\nc\n") {
        assert!(!line.contains('\n'));
    }
    assert_eq!(split_lines("no feed"), vec!["no feed".to_string()]);
}

#[test]
fn string_comparisons() {
    assert!(str_eq("abc", "abc"));
    assert!(!str_eq("abc", "abd"));
    assert!(!str_eq("ab", "abc"));
    assert!(str_starts_with("hello.world", "hello"));
    assert!(str_starts_with("hello", ""));
    assert!(!str_starts_with("he", "hello"));
    assert!(str_contains("hello.world", "o.w"));
    assert!(str_contains("hello", ""));
    assert!(!str_contains("hello", "xyz"));
    assert!(!str_contains("ab", "abc"));
    assert!(str_contains("éa", "a"));
}

#[test]
fn utf8_measures() {
    assert_eq!(utf8_width('a'), 1);
    assert_eq!(utf8_width('é'), 2);
    assert_eq!(utf8_width('€'), 3);
    assert_eq!(utf8_width('😀'), 4);
    assert_eq!(byte_len("aé€"), 6);
    assert_eq!(chars_of("aé"), vec!['a', 'é']);
    assert!(is_char_offset("aé", 1));
    assert!(!is_char_offset("aé", 2));
    assert!(is_char_offset("aé", 3));
    assert!(!is_char_offset("aé", 4));
}
