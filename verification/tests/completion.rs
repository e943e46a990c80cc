use i18n_hero::completion::completion::Completion;
use i18n_hero::completion::completion_data::CompletionData;
use i18n_hero::completion::completion_doc::{CompletionDoc, CompletionDocData};
use i18n_hero::lsp::quote::Quote;
use i18n_hero::lsp::types::{Documentation, MarkupKind, Position};
use i18n_hero::string_map::StringMap;

fn doc(entries: &[(&str, &str)]) -> StringMap<CompletionDocData> {
    let mut m = StringMap::new();
    for (locale, info) in entries {
        m.insert(locale.to_string(), CompletionDocData::new(info, "./locales/x.toml"));
    }
    m
}

fn sample() -> Completion {
    let mut c = Completion::new();
    c.set_available_locales(&vec!["en".to_string(), "fr".to_string()]);
    c.add_completion(CompletionData::new("Hello.World", doc(&[("en", "Hi")])));
    c.add_completion(CompletionData::new("hello.there", doc(&[("fr", "Salut")])));
    c.add_completion(CompletionData::new("bye", doc(&[("en", ""), ("fr", "Au revoir")])));
    c
}

fn quote(text: &str, start: u32, end: u32, complete: bool) -> Quote {
    Quote { text: text.to_string(), start, end, quote: '"', complete }
}

#[test]
fn markup_lists_every_locale() {
    let d = CompletionDoc::new(doc(&[("en", "Hello")]));
    let m = d.get_markup("greet", &vec!["en".to_string(), "fr".to_string()]);
    assert_eq!(m.kind, MarkupKind::Markdown);
    assert_eq!(m.value, "**greet**\n\n- **en**: Hello \n- **fr**: - \n");
    match d.get_md_doc("greet", &vec![]) {
        Documentation::MarkupContent(m) => assert_eq!(m.value, "**greet**\n\n"),
        Documentation::String(_) => panic!("expected markup"),
    }
}

#[test]
fn hint_is_the_english_translation() {
    assert_eq!(CompletionDoc::new(doc(&[("en", "Hello"), ("fr", "Salut")])).get_hint(), "Hello");
    assert_eq!(CompletionDoc::new(doc(&[("fr", "Salut")])).get_hint(), "");
}

#[test]
fn doc_data_keeps_its_fields() {
    let d = CompletionDocData::new("info", "file.toml");
    assert_eq!(d.info, "info");
    assert_eq!(d.file, "file.toml");
}

#[test]
fn hover_ignores_case_of_the_quote() {
    let c = sample();
    let q = quote("HELLO.WORLD", 2, 5, true);
    let pos = Position { line: 3, character: 5 };
    let h = c.get_hover(&q, pos).unwrap();
    assert_eq!(h.contents.value, "**Hello.World**\n\n- **en**: Hi \n- **fr**: - \n");
    let r = h.range.unwrap();
    assert_eq!((r.start.line, r.start.character), (3, 3));
    assert_eq!((r.end.line, r.end.character), (3, 5));
    let g = c.get_goto(&q, pos).unwrap();
    assert_eq!(g.contents.value, h.contents.value);
}

#[test]
fn hover_needs_more_than_one_byte() {
    let mut c = Completion::new();
    c.add_completion(CompletionData::new("a", doc(&[("en", "A")])));
    let pos = Position { line: 0, character: 1 };
    assert!(c.get_hover(&quote("a", 0, 1, true), pos).is_none());
    assert!(c.hover_for("a", &quote("a", 0, 1, true), pos).is_some());
    assert!(sample().get_hover(&quote("unknown", 0, 1, true), pos).is_none());
}

#[test]
fn adding_a_key_again_replaces_its_data() {
    let mut c = Completion::new();
    c.add_completion(CompletionData::new("k.one", doc(&[("en", "first")])));
    c.add_completion(CompletionData::new("K.ONE", doc(&[("en", "second")])));
    let pos = Position { line: 0, character: 3 };
    let h = c.get_hover(&quote("k.one", 0, 3, true), pos).unwrap();
    assert_eq!(h.contents.value, "**K.ONE**\n\n");
}

#[test]
fn hints_come_from_quotes_open_at_line_end() {
    let c = sample();
    let hints = c.get_hints("t(\"hello.world\nt(\"hello.world\")\nx\nt('BYE").unwrap();
    assert_eq!(hints.len(), 1);
    assert_eq!(hints[0].position.line, 0);
    assert_eq!(hints[0].position.character, 14);
    assert_eq!(hints[0].label, ": Hi");
    assert!(hints[0].padding_left);
    assert!(c.get_hints("").is_none());
    assert!(c.get_hints("nothing").unwrap().is_empty());
}

#[test]
fn hint_for_needs_a_nonempty_translation() {
    let c = sample();
    let q = quote("bye", 2, 5, false);
    assert!(c.hint_for("bye", &q, 1).is_none());
    let h = c.hint_for("hello.world", &q, 1).unwrap();
    assert_eq!((h.position.line, h.position.character), (1, 5));
}

#[test]
fn completions_match_prefix_or_infix() {
    let c = sample();
    let q = quote("hello", 2, 7, true);
    let items = c.get_completions(&q, Position { line: 0, character: 7 }).unwrap();
    let labels: Vec<&str> = items.iter().map(|i| i.label.as_str()).collect();
    // "Hello.World" matches, but its data is stored under "hello.world",
    // which is not among the keys as they were added
    assert_eq!(labels, vec!["hello.there"]);
    assert_eq!(items[0].filter_text, "hello");
    assert_eq!(items[0].detail, "Translation");
    assert_eq!(items[0].text_edit.new_text, "hello.there");
    assert_eq!(items[0].text_edit.range.start.character, 3);
}

#[test]
fn empty_quote_proposes_all_keys() {
    let c = sample();
    let q = quote("", 2, 3, false);
    let items = c.get_completions(&q, Position { line: 0, character: 3 }).unwrap();
    let labels: Vec<&str> = items.iter().map(|i| i.label.as_str()).collect();
    assert_eq!(labels, vec!["hello.there", "bye"]);
    // an unclosed quote gets its closing delimiter
    assert_eq!(items[1].text_edit.new_text, "bye\"");
}

#[test]
fn completion_item_of_data() {
    let d = CompletionData::new("key", doc(&[("en", "Key")]));
    let q = Quote { text: "ke".to_string(), start: 4, end: 7, quote: '\'', complete: false };
    let item = d.get_completion(&q, Position { line: 2, character: 7 }, &vec!["en".to_string()]);
    assert_eq!(item.label, "key");
    assert_eq!(item.text_edit.new_text, "key'");
    assert_eq!(item.text_edit.range.start.character, 5);
    assert_eq!(item.text_edit.range.end.character, 7);
    match item.documentation {
        Documentation::MarkupContent(m) => assert_eq!(m.value, "**key**\n\n- **en**: Key \n"),
        Documentation::String(_) => panic!("expected markup"),
    }
    let hover = d.get_hover(&q, Position { line: 2, character: 7 }, &vec![]);
    assert_eq!(hover.contents.value, "**key**\n\n");
}

#[test]
fn hints_follow_line_order() {
    let c = sample();
    let hints = c.get_hints("t('hello.world\nplain\nt(\"Hello.World\n").unwrap();
    let lines: Vec<u32> = hints.iter().map(|h| h.position.line).collect();
    assert_eq!(lines, vec![0, 2]);
    assert_eq!(hints[1].position.character, 14);
}

fn lowercase_keys() -> Completion {
    let mut c = Completion::new();
    c.add_completion(CompletionData::new("menu.open", doc(&[("en", "Open")])));
    c.add_completion(CompletionData::new("menu.close", doc(&[("en", "Close")])));
    c.add_completion(CompletionData::new("file.open", doc(&[("en", "")])));
    c
}

fn labels_for(c: &Completion, text: &str) -> Vec<String> {
    let q = quote(text, 0, 1, false);
    let items = c.get_completions(&q, Position { line: 0, character: 1 }).unwrap();
    items.iter().map(|i| i.label.clone()).collect()
}

#[test]
fn lowercase_keys_are_proposed_by_infix() {
    let c = lowercase_keys();
    assert_eq!(labels_for(&c, "OPEN"), vec!["menu.open", "file.open"]);
    assert_eq!(labels_for(&c, "u.c"), vec!["menu.close"]);
    assert_eq!(labels_for(&c, "zzz"), Vec::<String>::new());
    assert_eq!(labels_for(&c, ""), vec!["menu.open", "menu.close", "file.open"]);
}

#[test]
fn longer_query_proposes_no_more_labels() {
    let c = lowercase_keys();
    let short = labels_for(&c, "en");
    let long = labels_for(&c, "Open");
    assert_eq!(short, vec!["menu.open", "menu.close", "file.open"]);
    assert_eq!(long, vec!["menu.open", "file.open"]);
    let longer = labels_for(&c, "menu.ope");
    assert_eq!(longer, vec!["menu.open"]);
    assert!(longer.iter().all(|l| long.contains(l)));
    assert!(long.iter().all(|l| short.contains(l)));
}

#[test]
fn hover_present_exactly_for_known_keys() {
    let c = lowercase_keys();
    let pos = Position { line: 0, character: 1 };
    assert!(c.get_hover(&quote("MENU.OPEN", 0, 1, true), pos).is_some());
    assert!(c.get_goto(&quote("Menu.Close", 0, 1, true), pos).is_some());
    assert!(c.get_hover(&quote("menu", 0, 1, true), pos).is_none());
    assert!(c.get_hover(&quote("m", 0, 1, true), pos).is_none());
}

#[test]
fn each_line_gets_its_own_hint() {
    let c = lowercase_keys();
    let text = "t('menu.open\nt('file.open\nnone\nt(\"MENU.CLOSE";
    let hints = c.get_hints(text).unwrap();
    let lines: Vec<u32> = hints.iter().map(|h| h.position.line).collect();
    assert_eq!(lines, vec![0, 3]);
    assert_eq!(hints[0].label, ": Open");
    assert_eq!(hints[1].label, ": Close");
    assert_eq!(hints[1].position.character, 13);
}

#[test]
fn longer_query_proposes_no_more_labels_for_any_keys() {
    let mut c = Completion::new();
    c.add_completion(CompletionData::new("größe.max", doc(&[("en", "Size")])));
    c.add_completion(CompletionData::new("größe.min", doc(&[("en", "Min")])));
    c.add_completion(CompletionData::new("ändern.max", doc(&[("en", "Change")])));
    let short = labels_for(&c, "max");
    let long = labels_for(&c, "e.MAX");
    assert_eq!(short, vec!["größe.max", "ändern.max"]);
    assert_eq!(long, vec!["größe.max"]);
    assert!(long.iter().all(|l| short.contains(l)));
}
