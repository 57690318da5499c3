use notes::codec::{load, parse_notes, save};
use notes::state::Note;

fn note(text: &str, done: bool) -> Note {
    Note { text: String::from(text), done }
}

#[test]
fn save_of_empty_list_is_empty_array() {
    assert_eq!(save(&Vec::new()), "[]");
}

#[test]
fn save_writes_canonical_json() {
    let notes = vec![note("a", false)];
    assert_eq!(save(&notes), "[{\"note_text\":\"a\",\"is_done\":false}]");
}

#[test]
fn save_joins_notes_with_commas() {
    let notes = vec![note("a", true), note("b", false)];
    assert_eq!(
        save(&notes),
        "[{\"note_text\":\"a\",\"is_done\":true},{\"note_text\":\"b\",\"is_done\":false}]"
    );
}

#[test]
fn save_escapes_quotes_backslashes_and_controls() {
    let notes = vec![note("a\"b\\c\nd\te", true)];
    assert_eq!(
        save(&notes),
        "[{\"note_text\":\"a\\\"b\\\\c\\nd\\te\",\"is_done\":true}]"
    );
}

#[test]
fn load_of_nothing_is_empty_and_clean() {
    let (notes, corrupt) = load(None);
    assert!(notes.is_empty());
    assert!(!corrupt);
}

#[test]
fn load_of_empty_array_is_empty_and_clean() {
    let (notes, corrupt) = load(Some("[]"));
    assert!(notes.is_empty());
    assert!(!corrupt);
}

#[test]
fn load_of_garbage_falls_back_to_empty() {
    let (notes, corrupt) = load(Some("not json"));
    assert!(notes.is_empty());
    assert!(corrupt);
}

#[test]
fn load_of_trailing_garbage_falls_back_to_empty() {
    let (notes, corrupt) = load(Some("[]x"));
    assert!(notes.is_empty());
    assert!(corrupt);
    let stored = "[{\"note_text\":\"a\",\"is_done\":false}] ";
    let (notes, corrupt) = load(Some(stored));
    assert!(notes.is_empty());
    assert!(corrupt);
}

#[test]
fn load_of_truncated_value_falls_back_to_empty() {
    let (notes, corrupt) = load(Some("[{\"note_text\":\"a\",\"is_done\":fal"));
    assert!(notes.is_empty());
    assert!(corrupt);
}

#[test]
fn round_trip_preserves_order_and_fields() {
    let notes = vec![
        note("buy milk", false),
        note("he said \"hi\"", true),
        note("path\\with\\slashes", false),
        note("line one\nline two\ttabbed", true),
        note("", false),
        note("ünïcødé ✓", true),
    ];
    let stored = save(&notes);
    let (back, corrupt) = load(Some(stored.as_str()));
    assert!(!corrupt);
    assert_eq!(back.len(), notes.len());
    for (a, b) in notes.iter().zip(back.iter()) {
        assert_eq!(a.text, b.text);
        assert_eq!(a.done, b.done);
    }
}

#[test]
fn parse_accepts_the_solidus_escape() {
    let parsed = parse_notes("[{\"note_text\":\"a\\/b\",\"is_done\":false}]").unwrap();
    assert_eq!(parsed.len(), 1);
    assert_eq!(parsed[0].text, "a/b");
    assert!(!parsed[0].done);
}

#[test]
fn parse_rejects_unknown_escapes() {
    assert!(parse_notes("[{\"note_text\":\"a\\qb\",\"is_done\":false}]").is_none());
}

#[test]
fn parse_rejects_other_key_order() {
    assert!(parse_notes("[{\"is_done\":false,\"note_text\":\"a\"}]").is_none());
}

#[test]
fn saved_value_is_real_json() {
    let notes = vec![note("he said \"hi\"\\\n", true), note("plain", false)];
    let stored = save(&notes);
    let value: serde_json::Value = serde_json::from_str(&stored).unwrap();
    let items = value.as_array().unwrap();
    assert_eq!(items.len(), 2);
    assert_eq!(
        items[0].get("note_text").unwrap().as_str().unwrap(),
        "he said \"hi\"\\\n"
    );
    assert_eq!(items[0].get("is_done").unwrap().as_bool().unwrap(), true);
    assert_eq!(items[1].get("note_text").unwrap().as_str().unwrap(), "plain");
    assert_eq!(items[1].get("is_done").unwrap().as_bool().unwrap(), false);
}
