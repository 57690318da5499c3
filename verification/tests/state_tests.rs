use notes::state::{Model, Msg, Note};

fn two_notes() -> Model {
    let mut m = Model::new();
    m.set_draft(String::from("a"));
    assert!(m.add_note());
    m.set_draft(String::from("b"));
    assert!(m.add_note());
    m
}

#[test]
fn add_after_set_draft_appends_one() {
    let mut m = Model::new();
    m.set_draft(String::from("buy milk"));
    let added = m.add_note();
    assert!(added);
    assert_eq!(m.len(), 1);
    assert_eq!(m.notes[0].text, "buy milk");
    assert!(!m.notes[0].done);
    assert_eq!(m.count_done(), 0);
}

#[test]
fn add_keeps_draft() {
    let mut m = Model::new();
    m.set_draft(String::from("x"));
    m.add_note();
    assert_eq!(m.draft, "x");
}

#[test]
fn add_with_empty_draft_is_refused() {
    let mut m = Model::new();
    let added = m.add_note();
    assert!(!added);
    assert_eq!(m.len(), 0);
}

#[test]
fn add_with_emptied_draft_is_refused() {
    let mut m = two_notes();
    m.set_draft(String::new());
    let added = m.add_note();
    assert!(!added);
    assert_eq!(m.len(), 2);
}

#[test]
fn toggle_marks_exactly_one_note() {
    let mut m = two_notes();
    let toggled = m.toggle_done(0);
    assert!(toggled);
    assert_eq!(m.notes[0].text, "a");
    assert!(m.notes[0].done);
    assert_eq!(m.notes[1].text, "b");
    assert!(!m.notes[1].done);
    assert_eq!(m.count_done(), 1);
    assert_eq!(m.len(), 2);
}

#[test]
fn toggle_twice_restores_the_flag() {
    let mut m = two_notes();
    m.toggle_done(1);
    assert!(m.notes[1].done);
    m.toggle_done(1);
    assert!(!m.notes[1].done);
    assert_eq!(m.len(), 2);
    assert_eq!(m.notes[1].text, "b");
}

#[test]
fn toggle_out_of_range_is_a_no_op() {
    let mut m = two_notes();
    let toggled = m.toggle_done(2);
    assert!(!toggled);
    assert_eq!(m.len(), 2);
    assert!(!m.notes[0].done);
    assert!(!m.notes[1].done);
}

#[test]
fn delete_shifts_later_notes_down() {
    let mut m = two_notes();
    let removed = m.delete_note(0);
    assert!(removed);
    assert_eq!(m.len(), 1);
    assert_eq!(m.notes[0].text, "b");
    assert!(!m.notes[0].done);
}

#[test]
fn delete_out_of_range_is_a_no_op() {
    let mut m = two_notes();
    let removed = m.delete_note(5);
    assert!(!removed);
    assert_eq!(m.len(), 2);
    assert_eq!(m.notes[0].text, "a");
    assert_eq!(m.notes[1].text, "b");
}

#[test]
fn from_saved_keeps_the_notes() {
    let saved = vec![
        Note { text: String::from("kept"), done: true },
        Note { text: String::from("open"), done: false },
    ];
    let m = Model::from_saved(saved);
    assert_eq!(m.draft, "");
    assert_eq!(m.len(), 2);
    assert_eq!(m.notes[0].text, "kept");
    assert!(m.notes[0].done);
    assert_eq!(m.count_done(), 1);
}

#[test]
fn update_dispatches_and_reports_persistence() {
    let mut m = Model::new();
    assert!(!m.update(Msg::SetDraft(String::from("a"))));
    assert!(m.update(Msg::AddNote));
    assert!(!m.update(Msg::SetDraft(String::new())));
    assert!(!m.update(Msg::AddNote));
    assert!(m.update(Msg::ToggleDone(0)));
    assert!(!m.update(Msg::ToggleDone(7)));
    assert!(m.update(Msg::DeleteNote(0)));
    assert!(!m.update(Msg::DeleteNote(0)));
    assert_eq!(m.len(), 0);
}

#[test]
fn counter_after_first_note_is_zero_of_one() {
    let mut m = Model::new();
    m.set_draft(String::from("buy milk"));
    m.add_note();
    assert_eq!(m.count_done(), 0);
    assert_eq!(m.len(), 1);
}
