use i18n_hero::lsp::misc::get_quote_string;
use i18n_hero::lsp::quote::Quote;
use i18n_hero::lsp::types::Position;

fn quote_at(line: &str, character: u32) -> Option<Quote> {
    assert!(Quote::reads_cursor(line, character));
    Quote::from_line(line, character)
}

#[test]
fn closed_quote_under_cursor() {
    let q = quote_at("t(\"hello.world\")", 5).unwrap();
    assert_eq!(q.text, "hello.world");
    assert_eq!(q.start, 2);
    assert_eq!(q.end, 5);
    assert_eq!(q.quote, '"');
    assert!(q.complete);
    assert_eq!(q.len(), 11);
    assert!(!q.is_empty());
}

#[test]
fn cursor_on_delimiters_is_inside() {
    let open = quote_at("t('ab')", 2).unwrap();
    assert_eq!(open.text, "ab");
    let close = quote_at("t('ab')", 5).unwrap();
    assert_eq!(close.text, "ab");
    assert!(quote_at("t('ab')", 6).is_none());
    assert!(quote_at("t('ab')", 1).is_none());
}

#[test]
fn unclosed_quote_runs_to_cursor() {
    let q = quote_at("t(`hello", 6).unwrap();
    assert_eq!(q.text, "hel");
    assert_eq!(q.start, 2);
    assert_eq!(q.end, 6);
    assert_eq!(q.quote, '`');
    assert!(!q.complete);
}

#[test]
fn second_quote_found_after_first() {
    let q = quote_at("\"a\" + \"b\"", 7).unwrap();
    assert_eq!(q.text, "b");
    assert_eq!(q.start, 6);
}

#[test]
fn other_quote_kinds_do_not_close() {
    let q = quote_at("\"it's\"", 2).unwrap();
    assert_eq!(q.text, "it's");
    assert_eq!(q.quote, '"');
    assert!(!q.text.contains(q.quote));
}

#[test]
fn byte_offsets_count_utf8() {
    let q = quote_at("\"héllo\"", 7).unwrap();
    assert_eq!(q.text, "héllo");
    assert_eq!(q.start, 0);
    assert_eq!(q.len(), 6);
    assert!(quote_at("x \"é\" y", 8).is_none());
}

#[test]
fn empty_quote() {
    let q = quote_at("\"\"", 1).unwrap();
    assert!(q.is_empty());
    assert_eq!(q.len(), 0);
    assert!(q.complete);
}

#[test]
fn no_quote_means_none() {
    assert!(quote_at("no quotes here", 3).is_none());
    assert!(quote_at("", 0).is_none());
}

#[test]
fn cursor_on_unclosed_opening_cannot_be_read() {
    // the original slices past the cursor here and panics
    assert!(!Quote::reads_cursor("x \"abc", 2));
    // a cursor inside a multi-byte character cannot be read either
    assert!(!Quote::reads_cursor("\"é", 2));
    assert!(Quote::reads_cursor("\"é", 3));
}

#[test]
fn quote_string_keeps_delimiters() {
    assert_eq!(get_quote_string("t(\"hello\")", 4), Some("\"hello\"".to_string()));
    assert_eq!(get_quote_string("t(\"hel", 6), Some("\"hel".to_string()));
    assert_eq!(get_quote_string("t(\"hel", 1), None);
    assert_eq!(get_quote_string("plain", 2), None);
}

#[test]
fn quote_string_wraps_quote_text() {
    let line = "say('hi there')";
    let q = quote_at(line, 6).unwrap();
    let s = get_quote_string(line, 6).unwrap();
    assert_eq!(s, format!("{}{}{}", q.quote, q.text, q.quote));
    let open_line = "say('hi there";
    let q = quote_at(open_line, 7).unwrap();
    let s = get_quote_string(open_line, 7).unwrap();
    assert!(s.starts_with(&format!("{}{}", q.quote, q.text)));
    assert_eq!(s, "'hi there");
}

#[test]
fn quote_from_document_position() {
    let text = "first line\nlet x = t(\"key.one\");\n";
    let q = Quote::from_text(text, Position { line: 1, character: 12 }).unwrap();
    assert_eq!(q.text, "key.one");
    assert_eq!(q.start, 10);
    assert!(Quote::from_text(text, Position { line: 0, character: 2 }).is_none());
    assert!(Quote::from_text(text, Position { line: 5, character: 0 }).is_none());
    // a cursor on the opening of an unclosed quote cannot be read
    assert!(Quote::from_text("x \"abc", Position { line: 0, character: 2 }).is_none());
}

#[test]
fn closed_quote_sits_between_its_delimiter_bytes() {
    let line = "x = t(\"né.key\") + 'b'";
    let q = quote_at(line, 9).unwrap();
    let bytes = line.as_bytes();
    let s = q.start as usize;
    let e = s + 1 + q.text.len();
    assert!(q.complete);
    assert_eq!(bytes[s], q.quote as u8);
    assert_eq!(bytes[e], q.quote as u8);
    assert_eq!(&line[s + 1..e], q.text);
    assert!(s <= 9 && 9 <= e);
}

#[test]
fn unclosed_quote_has_no_closing_delimiter_after_it() {
    let line = "t('a') + t(\"ké'y";
    let q = quote_at(line, 16).unwrap();
    let s = q.start as usize;
    assert!(!q.complete);
    assert_eq!(s, 11);
    assert_eq!(line.as_bytes()[s], b'"');
    assert_eq!(q.text, &line[s + 1..16]);
    assert_eq!(q.text, "ké'");
    assert!(!line[s + 1..].contains(q.quote));
}

#[test]
fn first_enclosing_span_is_chosen() {
    // the pairing gives the spans "a'" (bytes 0 to 3), 'b' (4 to 6) and "c"
    // (7 to 9); the quote character inside the first span is ignored
    let line = "\"a'\"'b'\"c\"";
    let q = quote_at(line, 3).unwrap();
    assert_eq!((q.start, q.text.as_str()), (0, "a'"));
    let q = quote_at(line, 6).unwrap();
    assert_eq!((q.start, q.text.as_str()), (4, "b"));
    let q = quote_at(line, 8).unwrap();
    assert_eq!((q.start, q.text.as_str()), (7, "c"));
}

#[test]
fn unclosed_quote_string_is_the_rest_of_the_line() {
    let line = "t(\"abc def";
    let q = quote_at(line, 5).unwrap();
    assert!(!q.complete);
    let s = get_quote_string(line, 5).unwrap();
    assert_eq!(s, &line[q.start as usize..]);
    assert_eq!(s, "\"abc def");
}
