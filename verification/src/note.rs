//! A single note.

use crate::clock::Timestamp;
use crate::id::{copy_ids, find_text, lemma_find_text, position_of, texts, IntoId, ID};
use crate::text::{chars_of, first_line, first_line_end, has_char};
use vstd::prelude::*;
use vstd::string::StrSliceExecFns;

verus! {

/// Maximum number of characters allowed in a note's content.
///
/// Notes must be atomic — one indivisible thought. 250 characters is enough for even a
/// complex idea expressed precisely. Content is immutable once written, so the limit is
/// enforced when a note enters the box.
pub const MAX_CONTENT_LEN: usize = 250;

/// The longest note that may do without a second line.
pub const MAX_SINGLE_LINE: usize = 150;

/// A single note (slip) in the box.
///
/// Each note has a hierarchical [`ID`], freeform text content, and a list of links to
/// other notes. A new note's first link is its parent.
#[derive(Debug, PartialEq)]
pub struct Note {
    id: ID,
    content: String,
    links: Vec<ID>,
    created_at: Timestamp,
    supersedes: Option<ID>,
}

/// What a note holds.
#[verifier::ext_equal]
pub struct NoteView {
    pub id: Seq<char>,
    pub content: Seq<char>,
    pub links: Seq<Seq<char>>,
    pub created_at: Timestamp,
    pub supersedes: Option<Seq<char>>,
}

/// The text of an ID that may be missing.
pub open spec fn text_of(id: Option<ID>) -> Option<Seq<char>> {
    match id {
        Some(i) => Some(i@),
        None => None,
    }
}

/// The text of a borrowed ID that may be missing.
pub open spec fn ref_text(id: Option<&ID>) -> Option<Seq<char>> {
    match id {
        Some(i) => Some(i@),
        None => None,
    }
}

impl View for Note {
    type V = NoteView;

    closed spec fn view(&self) -> NoteView {
        NoteView {
            id: self.id@,
            content: self.content@,
            links: texts(self.links@),
            created_at: self.created_at,
            supersedes: text_of(self.supersedes),
        }
    }
}

impl Clone for Note {
    fn clone(&self) -> (r: Note)
        ensures
            r@ == self@,
    {
        let supersedes = match &self.supersedes {
            Some(s) => Some(s.clone()),
            None => None,
        };
        Note {
            id: self.id.clone(),
            content: self.content.clone(),
            links: copy_ids(&self.links),
            created_at: self.created_at,
            supersedes,
        }
    }
}

impl Note {
    /// Creates a new note with the given `id`, `parent` ID, and `content`, dated now.
    ///
    /// The parent is recorded as the first entry in `links`.
    pub fn new(id: impl IntoId, parent: impl IntoId, content: &str) -> (r: Note)
        ensures
            r@ == (NoteView {
                id: id.id_text(),
                content: content@,
                links: seq![parent.id_text()],
                created_at: r@.created_at,
                supersedes: None,
            }),
            r@.created_at.shown() is Some,
    {
        Note::dated(id, parent, content, Timestamp::now())
    }

    /// The note that [`Note::new`] makes at the moment `created_at`.
    pub fn dated(id: impl IntoId, parent: impl IntoId, content: &str, created_at: Timestamp) -> (r: Note)
        ensures
            r@ == (NoteView {
                id: id.id_text(),
                content: content@,
                links: seq![parent.id_text()],
                created_at,
                supersedes: None,
            }),
    {
        let mut links: Vec<ID> = Vec::new();
        links.push(parent.into_id());
        let r = Note {
            id: id.into_id(),
            content: content.to_owned(),
            links,
            created_at,
            supersedes: None,
        };
        assert(r@.links =~= seq![parent.id_text()]);
        r
    }

    /// Creates a new version of an existing note, dated now.
    /// The new note is a child of the superseded note.
    pub fn new_version(
        id: impl IntoId,
        parent: impl IntoId,
        content: &str,
        supersedes: impl IntoId,
    ) -> (r: Note)
        ensures
            r@ == (NoteView {
                id: id.id_text(),
                content: content@,
                links: seq![parent.id_text()],
                created_at: r@.created_at,
                supersedes: Some(supersedes.id_text()),
            }),
            r@.created_at.shown() is Some,
    {
        Note::dated_version(id, parent, content, supersedes, Timestamp::now())
    }

    /// The note that [`Note::new_version`] makes at the moment `created_at`.
    pub fn dated_version(
        id: impl IntoId,
        parent: impl IntoId,
        content: &str,
        supersedes: impl IntoId,
        created_at: Timestamp,
    ) -> (r: Note)
        ensures
            r@ == (NoteView {
                id: id.id_text(),
                content: content@,
                links: seq![parent.id_text()],
                created_at,
                supersedes: Some(supersedes.id_text()),
            }),
    {
        let mut r = Note::dated(id, parent, content, created_at);
        r.supersedes = Some(supersedes.into_id());
        r
    }

    /// A note with all its fields given, as when it is read back.
    pub fn restore(
        id: ID,
        content: String,
        links: Vec<ID>,
        created_at: Timestamp,
        supersedes: Option<ID>,
    ) -> (r: Note)
        ensures
            r@ == (NoteView {
                id: id@,
                content: content@,
                links: texts(links@),
                created_at,
                supersedes: text_of(supersedes),
            }),
    {
        Note { id, content, links, created_at, supersedes }
    }

    /// The note's ID.
    pub fn id(&self) -> (r: &ID)
        ensures
            r@ == self@.id,
    {
        &self.id
    }

    /// The note's content.
    pub fn content(&self) -> (r: &str)
        ensures
            r@ == self@.content,
    {
        self.content.as_str()
    }

    /// Whether both notes have the same content.
    pub fn says_the_same(&self, other: &Note) -> (r: bool)
        ensures
            r == (self@.content == other@.content),
    {
        self.content == other.content
    }

    /// When the note was written.
    pub fn created_at(&self) -> (r: &Timestamp)
        ensures
            *r == self@.created_at,
    {
        &self.created_at
    }

    /// Returns the parent ID (first link), if any.
    pub fn parent(&self) -> (r: Option<&ID>)
        ensures
            ref_text(r) == (if self@.links.len() > 0 {
                Some(self@.links[0])
            } else {
                None
            }),
    {
        if self.links.len() > 0 {
            Some(&self.links[0])
        } else {
            None
        }
    }

    /// The note's links, in order.
    pub fn links(&self) -> (r: &[ID])
        ensures
            texts(r@) == self@.links,
    {
        self.links.as_slice()
    }

    /// The ID of the note that this one supersedes, if any.
    pub fn supersedes(&self) -> (r: Option<&ID>)
        ensures
            ref_text(r) == self@.supersedes,
    {
        match &self.supersedes {
            Some(s) => Some(s),
            None => None,
        }
    }

    /// Adds a link behind the others.
    pub fn add_link(&mut self, id: impl IntoId)
        ensures
            final(self)@ == (NoteView { links: old(self)@.links.push(id.id_text()), ..old(self)@ }),
    {
        self.links.push(id.into_id());
        assert(self@.links =~= old(self)@.links.push(id.id_text()));
    }

    /// This note with a different ID.
    pub fn with_id(self, id: impl IntoId) -> (r: Note)
        ensures
            r@ == (NoteView { id: id.id_text(), ..self@ }),
    {
        Note { id: id.into_id(), ..self }
    }

    /// Removes the first occurrence of `id` from links. Returns `true` if found.
    pub fn remove_link(&mut self, id: &ID) -> (r: bool)
        ensures
            r == old(self)@.links.contains(id@),
            r ==> final(self)@ == (NoteView {
                links: old(self)@.links.remove(find_text(old(self)@.links, id@)),
                ..old(self)@
            }),
            !r ==> final(self)@ == old(self)@,
    {
        let pos = position_of(&self.links, id);
        proof {
            lemma_find_text(self@.links, id@);
        }
        if pos < self.links.len() {
            self.links.remove(pos);
            assert(self@.links =~= old(self)@.links.remove(pos as int));
            true
        } else {
            false
        }
    }
}

/// Returns the first line of content (the headline).
pub fn headline(content: &str) -> (r: &str)
    ensures
        r@ == first_line(content@),
{
    let v = chars_of(content);
    let end = first_line_end(&v);
    let r = content.substring_char(0, end);
    assert(r@ =~= v@.take(end as int));
    r
}

/// A single line of more than `MAX_SINGLE_LINE` characters.
pub open spec fn overlong_line(content: Seq<char>) -> bool {
    !content.contains('\n') && content.len() > MAX_SINGLE_LINE
}

/// Validates note content: a single-line note must not exceed 150 characters.
/// Multi-line notes (headline + body) are always accepted.
pub fn validate_content(content: &str) -> (r: Result<(), String>)
    ensures
        match r {
            Ok(_) => !overlong_line(content@),
            Err(message) => {
                &&& overlong_line(content@)
                &&& message@
                    == "content is a single line with more than 150 characters; add a newline after the headline to include a longer body"@
            },
        },
{
    let v = chars_of(content);
    if !has_char(&v, '\n') && v.len() > MAX_SINGLE_LINE {
        Err(
            "content is a single line with more than 150 characters; add a newline after the headline to include a longer body".to_owned(),
        )
    } else {
        Ok(())
    }
}

} // verus!
