use i18n_hero::lsp::backend::{visible_hints, Documents};
use i18n_hero::lsp::completion::Completion;
use i18n_hero::lsp::types::{InlayHint, InlayHintKind, Position};
use i18n_hero::string_map::StringMap;

#[test]
fn store_reads_back_what_was_added() {
    let mut c = Completion::new();
    c.add_completion("k".to_string(), "key".to_string(), "a key".to_string());
    c.add_completion("j".to_string(), "jay".to_string(), "a jay".to_string());
    assert_eq!(c.get_completion("k").unwrap().completion, "key");
    assert_eq!(c.get_hover("j"), Some("a jay"));
    assert!(c.get_hover("x").is_none());
    assert!(c.get_completion("x").is_none());
    c.add_completion("k".to_string(), "key2".to_string(), "again".to_string());
    assert_eq!(c.get_hover("k"), Some("again"));
    let keys: Vec<&str> = c.get_keys().into_iter().map(|s| s.as_str()).collect();
    assert_eq!(keys, vec!["k", "j"]);
    let all: Vec<&str> = c.get_all_completions().into_iter().map(|d| d.completion.as_str()).collect();
    assert_eq!(all, vec!["key2", "jay"]);
}

#[test]
fn string_map_keeps_first_insertion_order() {
    let mut m: StringMap<u32> = StringMap::new();
    m.insert("b".to_string(), 1);
    m.insert("a".to_string(), 2);
    m.insert("b".to_string(), 3);
    assert_eq!(m.len(), 2);
    assert_eq!(m.key_at(0), "b");
    assert_eq!(*m.value_at(0), 3);
    assert_eq!(m.find("a"), Some(1));
    m.remove("b");
    assert_eq!(m.len(), 1);
    assert_eq!(m.get("b"), None);
    assert_eq!(m.get("a"), Some(&2));
    m.remove("zzz");
    assert_eq!(m.len(), 1);
}

#[test]
fn documents_follow_open_change_save_close() {
    let mut d = Documents::new();
    d.did_open("file:///a.rs".to_string(), "one".to_string());
    assert_eq!(d.get("file:///a.rs").map(|s| s.as_str()), Some("one"));
    d.did_change("file:///a.rs".to_string(), vec!["two".to_string(), "ignored".to_string()]);
    assert_eq!(d.get("file:///a.rs").map(|s| s.as_str()), Some("two"));
    d.did_change("file:///a.rs".to_string(), vec![]);
    assert_eq!(d.get("file:///a.rs").map(|s| s.as_str()), Some("two"));
    d.did_save("file:///a.rs".to_string(), None);
    assert_eq!(d.get("file:///a.rs").map(|s| s.as_str()), Some("two"));
    d.did_save("file:///a.rs".to_string(), Some("three".to_string()));
    assert_eq!(d.get("file:///a.rs").map(|s| s.as_str()), Some("three"));
    d.did_open("file:///b.rs".to_string(), "b".to_string());
    d.did_close("file:///a.rs");
    assert!(d.get("file:///a.rs").is_none());
    assert_eq!(d.get("file:///b.rs").map(|s| s.as_str()), Some("b"));
}

fn hint(line: u32) -> InlayHint {
    InlayHint {
        position: Position { line, character: 1 },
        label: format!(": {}", line),
        kind: InlayHintKind::Type,
        padding_left: true,
    }
}

#[test]
fn only_visible_hints_are_kept() {
    let hints = vec![hint(0), hint(3), hint(5), hint(9)];
    let v = visible_hints(&hints, 3, 5);
    let lines: Vec<u32> = v.iter().map(|h| h.position.line).collect();
    assert_eq!(lines, vec![3, 5]);
    assert_eq!(v[0].label, ": 3");
    assert!(visible_hints(&hints, 6, 8).is_empty());
}
