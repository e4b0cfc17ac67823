//! The edit session protocol: serialize a record, let an external editor
//! change the text, then reparse, diff and validate the result.
//!
//! The session itself is pure. A caller writes the rendered text to a scratch
//! file, runs the editor, re-reads the file by path, and hands the edited
//! text to [`EditorSession::conclude`], which decides between the four
//! outcomes: the store may only ever be written with a `Validated` result.

use vstd::prelude::*;

verus! {

/// A document that can round-trip through an external text editor: it
/// renders to text, parses back, compares structurally, and checks an edited
/// version against the original.
pub trait EditableDocument: View + Sized {
    /// Whether this document can be rendered by the format.
    spec fn spec_can_render(&self) -> bool;

    /// The text form handed to the editor.
    spec fn spec_render(&self) -> Seq<char>;

    /// What parsing a text yields.
    spec fn spec_parse(text: Seq<char>) -> Option<Self::V>;

    /// Whether an edited value is acceptable against the original.
    spec fn spec_valid_edit(edited: Self::V, original: Self::V) -> bool;

    /// The reason an unacceptable edit is rejected with.
    spec fn spec_reject_reason(edited: Self::V, original: Self::V) -> Seq<char>;

    /// Serialize for editing.
    fn render(&self) -> (s: String)
        requires
            self.spec_can_render(),
        ensures
            s@ == self.spec_render(),
    ;

    /// Parse edited text.
    fn parse_text(text: &str) -> (r: Option<Self>)
        ensures
            match r {
                Some(d) => Self::spec_parse(text@) == Some(d@),
                None => Self::spec_parse(text@) is None,
            },
    ;

    /// Structural equality.
    fn equals(&self, other: &Self) -> (r: bool)
        ensures
            r == (self@ == other@),
    ;

    /// Check an edited version against the original.
    fn validate(&self, original: &Self) -> (r: Result<(), String>)
        ensures
            r is Ok <==> Self::spec_valid_edit(self@, original@),
            r matches Err(m) ==> m@ == Self::spec_reject_reason(self@, original@),
    ;

    /// Rendering a document and parsing the text back gives the document's
    /// value: a scratch file returned untouched by the editor always parses.
    proof fn render_parses_back(&self)
        requires
            self.spec_can_render(),
        ensures
            Self::spec_parse(self.spec_render()) == Some(self@),
    ;
}

/// How an edit session concludes.
pub enum EditOutcome<T> {
    /// The edited text parses and passes validation; the caller may commit
    /// it.
    Validated(T),
    /// The edited text parses but violates the document's rule; carries a
    /// human-readable reason. The store must not be written.
    Rejected(String),
    /// The edited text is the original, field for field. The caller skips
    /// persistence.
    Unchanged,
    /// The edited text does not parse. The store must not be written.
    Malformed,
}

/// One edit round trip over a document: the original is held, rendered for
/// the editor, and compared against whatever text comes back.
pub struct EditorSession<T> {
    original: T,
}

impl<T: EditableDocument> EditorSession<T> {
    /// The record the session was opened on.
    pub closed spec fn spec_original(&self) -> T {
        self.original
    }

    /// Open a session on a document.
    pub fn new(original: T) -> (s: Self)
        ensures
            s.spec_original() == original,
    {
        EditorSession { original }
    }

    /// The text to hand to the external editor.
    pub fn render(&self) -> (s: String)
        requires
            self.spec_original().spec_can_render(),
        ensures
            s@ == self.spec_original().spec_render(),
    {
        self.original.render()
    }

    /// Decide the session's outcome from the text the editor returned:
    /// unparsable text fails, an unchanged document short-circuits, a changed
    /// one is validated against the original.
    pub fn conclude(&self, edited_text: &str) -> (r: EditOutcome<T>)
        ensures
            match T::spec_parse(edited_text@) {
                None => r is Malformed,
                Some(ev) => if ev == self.spec_original()@ {
                    r is Unchanged
                } else if T::spec_valid_edit(ev, self.spec_original()@) {
                    r matches EditOutcome::Validated(d) && d@ == ev
                } else {
                    r matches EditOutcome::Rejected(m) && m@ == T::spec_reject_reason(
                        ev,
                        self.spec_original()@,
                    )
                },
            },
    {
        match T::parse_text(edited_text) {
            None => EditOutcome::Malformed,
            Some(edited) => {
                if edited.equals(&self.original) {
                    EditOutcome::Unchanged
                } else {
                    match edited.validate(&self.original) {
                        Ok(()) => EditOutcome::Validated(edited),
                        Err(msg) => EditOutcome::Rejected(msg),
                    }
                }
            },
        }
    }
}

/// A scratch file the editor returns untouched parses back to the original,
/// so the session concludes `Unchanged` and the caller never writes the
/// store.
pub proof fn lemma_noop_edit_unchanged<T: EditableDocument>(original: T)
    requires
        original.spec_can_render(),
    ensures
        T::spec_parse(original.spec_render()) == Some(original@),
{
    original.render_parses_back();
}

} // verus!
