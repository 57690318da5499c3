//! The note-list state machine: a draft input slot and an ordered list of
//! notes, mutated by four user actions (change the draft, add, delete,
//! toggle done). Each action is specified by a pure transition function on
//! the mathematical image of the state.

use vstd::prelude::*;

verus! {

/// A single note: user-entered text and a completion flag.
pub struct Note {
    pub text: String,
    pub done: bool,
}

/// The mathematical image of a note: its text as a sequence of characters.
#[verifier::ext_equal]
pub ghost struct NoteView {
    pub text: Seq<char>,
    pub done: bool,
}

impl View for Note {
    type V = NoteView;

    open spec fn view(&self) -> NoteView {
        NoteView { text: self.text@, done: self.done }
    }
}

impl DeepView for Note {
    type V = NoteView;

    open spec fn deep_view(&self) -> NoteView {
        self@
    }
}

/// The whole application state: the draft input text and the note list.
pub struct Model {
    pub draft: String,
    pub notes: Vec<Note>,
}

/// The mathematical image of the state.
#[verifier::ext_equal]
pub ghost struct ModelView {
    pub draft: Seq<char>,
    pub notes: Seq<NoteView>,
}

impl View for Model {
    type V = ModelView;

    open spec fn view(&self) -> ModelView {
        ModelView { draft: self.draft@, notes: self.notes.deep_view() }
    }
}

/// A user action on the note list.
pub enum Msg {
    SetDraft(String),
    AddNote,
    DeleteNote(usize),
    ToggleDone(usize),
}

/// Replacing the draft leaves the notes alone.
pub open spec fn set_draft_spec(m: ModelView, text: Seq<char>) -> ModelView {
    ModelView { draft: text, notes: m.notes }
}

/// A note may be added exactly when the draft is non-empty.
pub open spec fn add_allowed(m: ModelView) -> bool {
    m.draft.len() > 0
}

/// Adding appends a not-yet-done note holding the draft text; with an
/// empty draft the state is left unchanged.
pub open spec fn add_note_spec(m: ModelView) -> ModelView {
    if add_allowed(m) {
        ModelView { draft: m.draft, notes: m.notes.push(NoteView { text: m.draft, done: false }) }
    } else {
        m
    }
}

/// Deleting removes the note at `index`; an out-of-range index is a no-op.
pub open spec fn delete_note_spec(m: ModelView, index: int) -> ModelView {
    if 0 <= index < m.notes.len() {
        ModelView { draft: m.draft, notes: m.notes.remove(index) }
    } else {
        m
    }
}

/// Toggling flips the completion flag at `index`; an out-of-range index is
/// a no-op.
pub open spec fn toggle_done_spec(m: ModelView, index: int) -> ModelView {
    if 0 <= index < m.notes.len() {
        ModelView {
            draft: m.draft,
            notes: m.notes.update(
                index,
                NoteView { text: m.notes[index].text, done: !m.notes[index].done },
            ),
        }
    } else {
        m
    }
}

/// The reducer: the state each action leads to.
pub open spec fn update_spec(m: ModelView, msg: Msg) -> ModelView {
    match msg {
        Msg::SetDraft(text) => set_draft_spec(m, text@),
        Msg::AddNote => add_note_spec(m),
        Msg::DeleteNote(index) => delete_note_spec(m, index as int),
        Msg::ToggleDone(index) => toggle_done_spec(m, index as int),
    }
}

/// Which actions change the list and so must be written through to storage.
pub open spec fn update_persists(m: ModelView, msg: Msg) -> bool {
    match msg {
        Msg::SetDraft(_) => false,
        Msg::AddNote => add_allowed(m),
        Msg::DeleteNote(index) => 0 <= index < m.notes.len(),
        Msg::ToggleDone(index) => 0 <= index < m.notes.len(),
    }
}

/// How many notes of `notes` are marked done.
pub open spec fn count_done_spec(notes: Seq<NoteView>) -> nat
    decreases notes.len(),
{
    if notes.len() == 0 {
        0
    } else {
        count_done_spec(notes.drop_last()) + (if notes.last().done {
            1nat
        } else {
            0nat
        })
    }
}

impl Model {
    /// A fresh state: no notes, empty draft.
    pub fn new() -> (m: Model)
        ensures
            m@.draft == Seq::<char>::empty(),
            m@.notes == Seq::<NoteView>::empty(),
    {
        let m = Model { draft: String::new(), notes: Vec::new() };
        proof {
            assert(m@.notes =~= Seq::<NoteView>::empty());
        }
        m
    }

    /// The state at startup, hydrated from previously stored notes.
    pub fn from_saved(notes: Vec<Note>) -> (m: Model)
        ensures
            m@.notes == notes.deep_view(),
            m@.draft == Seq::<char>::empty(),
    {
        Model { draft: String::new(), notes }
    }

    /// Replace the draft input text.
    pub fn set_draft(&mut self, text: String)
        ensures
            final(self)@ == set_draft_spec(old(self)@, text@),
    {
        self.draft = text;
    }

    /// Add the draft as a new note at the end of the list. Returns whether
    /// a note was added; `false` is the signal that the draft was empty.
    pub fn add_note(&mut self) -> (added: bool)
        ensures
            final(self)@ == add_note_spec(old(self)@),
            added == add_allowed(old(self)@),
    {
        if !self.draft.as_str().is_empty() {
            let text = self.draft.clone();
            self.notes.push(Note { text, done: false });
            proof {
                assert(self.notes.deep_view() =~= old(self).notes.deep_view().push(
                    NoteView { text: old(self).draft@, done: false },
                ));
            }
            true
        } else {
            false
        }
    }

    /// Remove the note at `index`. An out-of-range index leaves the list
    /// unchanged and returns `false`.
    pub fn delete_note(&mut self, index: usize) -> (removed: bool)
        ensures
            final(self)@ == delete_note_spec(old(self)@, index as int),
            removed == (index < old(self)@.notes.len()),
    {
        proof {
            assert(self.notes.deep_view().len() == self.notes@.len());
        }
        if index < self.notes.len() {
            self.notes.remove(index);
            proof {
                assert(self.notes.deep_view() =~= old(self).notes.deep_view().remove(
                    index as int,
                ));
            }
            true
        } else {
            false
        }
    }

    /// Flip the completion flag of the note at `index`. An out-of-range
    /// index leaves the list unchanged and returns `false`.
    pub fn toggle_done(&mut self, index: usize) -> (toggled: bool)
        ensures
            final(self)@ == toggle_done_spec(old(self)@, index as int),
            toggled == (index < old(self)@.notes.len()),
    {
        proof {
            assert(self.notes.deep_view().len() == self.notes@.len());
        }
        if index < self.notes.len() {
            let note = self.notes.remove(index);
            let flipped = Note { text: note.text, done: !note.done };
            self.notes.insert(index, flipped);
            proof {
                let ghost before = old(self).notes.deep_view();
                assert(self.notes.deep_view() =~= before.update(
                    index as int,
                    NoteView { text: before[index as int].text, done: !before[index as int].done },
                ));
            }
            true
        } else {
            false
        }
    }

    /// Dispatch one user action; the result says whether the changed list
    /// should be written through to storage.
    pub fn update(&mut self, msg: Msg) -> (persist: bool)
        ensures
            final(self)@ == update_spec(old(self)@, msg),
            persist == update_persists(old(self)@, msg),
    {
        match msg {
            Msg::SetDraft(text) => {
                self.set_draft(text);
                false
            },
            Msg::AddNote => self.add_note(),
            Msg::DeleteNote(index) => self.delete_note(index),
            Msg::ToggleDone(index) => self.toggle_done(index),
        }
    }

    /// How many notes are marked done (the `done / total` counter).
    pub fn count_done(&self) -> (c: usize)
        ensures
            c as nat == count_done_spec(self@.notes),
            c <= self@.notes.len(),
    {
        let ghost all = self@.notes;
        proof {
            assert(all.len() == self.notes@.len());
        }
        let mut c: usize = 0;
        let mut i: usize = 0;
        while i < self.notes.len()
            invariant
                i <= self.notes@.len(),
                c <= i,
                all == self@.notes,
                all.len() == self.notes@.len(),
                c as nat == count_done_spec(all.take(i as int)),
            decreases self.notes@.len() - i,
        {
            proof {
                assert(all.take(i + 1).drop_last() =~= all.take(i as int));
                assert(all.take(i + 1).last() == all[i as int]);
            }
            if self.notes[i].done {
                c = c + 1;
            }
            i = i + 1;
        }
        proof {
            assert(all.take(self.notes@.len() as int) =~= all);
        }
        c
    }

    /// The number of notes in the list.
    pub fn len(&self) -> (n: usize)
        ensures
            n == self@.notes.len(),
    {
        proof {
            assert(self.notes.deep_view().len() == self.notes@.len());
        }
        self.notes.len()
    }
}

/// After replacing the draft with non-empty text, adding a note succeeds,
/// appends exactly one note holding that text and not yet done, and leaves
/// every earlier note unchanged.
pub proof fn lemma_add_after_set_draft(m: ModelView, text: Seq<char>)
    requires
        text.len() > 0,
    ensures
        ({
            let m1 = set_draft_spec(m, text);
            let m2 = add_note_spec(m1);
            &&& add_allowed(m1)
            &&& m2.notes.len() == m.notes.len() + 1
            &&& m2.notes.last() == (NoteView { text: text, done: false })
            &&& forall|i: int| 0 <= i < m.notes.len() ==> m2.notes[i] == m.notes[i]
        }),
{
}

/// Adding with an empty draft is refused and changes nothing.
pub proof fn lemma_add_empty_draft(m: ModelView)
    requires
        m.draft.len() == 0,
    ensures
        !add_allowed(m),
        add_note_spec(m) == m,
{
}

/// Toggling the same valid index twice restores the state it started from.
pub proof fn lemma_toggle_involution(m: ModelView, index: int)
    requires
        0 <= index < m.notes.len(),
    ensures
        toggle_done_spec(toggle_done_spec(m, index), index) == m,
{
    assert(toggle_done_spec(toggle_done_spec(m, index), index) =~~= m);
}

/// Deleting a valid index shortens the list by exactly one, removes exactly
/// the element at that position, and shifts every later element down by one.
pub proof fn lemma_delete_shifts(m: ModelView, index: int)
    requires
        0 <= index < m.notes.len(),
    ensures
        ({
            let m2 = delete_note_spec(m, index);
            &&& m2.notes.len() == m.notes.len() - 1
            &&& forall|j: int| 0 <= j < index ==> m2.notes[j] == m.notes[j]
            &&& forall|j: int| index <= j < m2.notes.len() ==> m2.notes[j] == m.notes[j + 1]
        }),
{
}

} // verus!

