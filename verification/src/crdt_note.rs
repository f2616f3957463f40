//! The note document: one CRDT document that holds a note's identifier as a
//! string scalar and its content as a text object.

use crate::engine::{
    decoded, doc_changes, doc_fields, doc_settled, error_text, fresh_id, get_field, get_text,
    is_note_id, joined, load, merge, new_doc, no_changes, no_fields, put_str, put_text, save,
    update_text, Field, FieldRead,
};
use crate::error::NoteError;
use vstd::prelude::*;

verus! {

/// The root key of the identifier.
pub open spec fn id_key() -> Seq<char> {
    "id"@
}

/// The root key of the content.
pub open spec fn content_key() -> Seq<char> {
    "content"@
}

/// The identifier that a document with these fields carries, if any.
pub open spec fn id_in(fields: Map<Seq<char>, Field>) -> Option<Seq<char>> {
    if fields.contains_key(id_key()) {
        match fields[id_key()] {
            Field::Str(s) => Some(s),
            _ => None,
        }
    } else {
        None
    }
}

/// The content that a document with these fields carries, if any.
pub open spec fn content_in(fields: Map<Seq<char>, Field>) -> Option<Seq<char>> {
    if fields.contains_key(content_key()) {
        match fields[content_key()] {
            Field::Text(t) => Some(t),
            _ => None,
        }
    } else {
        None
    }
}

/// The fields of a note that was just created.
pub open spec fn note_fields(id: Seq<char>, content: Seq<char>) -> Map<Seq<char>, Field> {
    no_fields().insert(id_key(), Field::Str(id)).insert(content_key(), Field::Text(content))
}

/// `bytes` are what saving a document with these fields and this history
/// gives: they decode to exactly both.
pub open spec fn saves(fields: Map<Seq<char>, Field>, changes: Set<Seq<u8>>, bytes: Seq<u8>) -> bool {
    decoded(bytes) == Some((fields, changes))
}

/// The fields and history of the note that loading these bytes gives:
/// `None` where the bytes are no saved document or the document lacks its
/// identifier or its content.
pub open spec fn loaded(bytes: Seq<u8>) -> Option<(Map<Seq<char>, Field>, Set<Seq<u8>>)> {
    match decoded(bytes) {
        Some((fields, changes)) => if id_in(fields) is Some && content_in(fields) is Some {
            Some((fields, changes))
        } else {
            None
        },
        None => None,
    }
}

/// Whether `e` is the failure with which these bytes are refused as a note:
/// `DeserializationError` where they are no saved document, `MissingId` where
/// the document carries no identifier, and `MissingContent` where it
/// carries an identifier but no content.
pub open spec fn refuses(bytes: Seq<u8>, e: NoteError) -> bool {
    match decoded(bytes) {
        None => e is DeserializationError,
        Some((fields, _)) => if id_in(fields) is None {
            e is MissingId
        } else {
            content_in(fields) is None && e is MissingContent
        },
    }
}

/// Saving a complete note and loading the bytes gives a note with the same
/// fields, so with the same identifier and the same content, and with the
/// same history.
pub proof fn law_round_trip(fields: Map<Seq<char>, Field>, changes: Set<Seq<u8>>, bytes: Seq<u8>)
    requires
        id_in(fields) is Some,
        content_in(fields) is Some,
        saves(fields, changes, bytes),
    ensures
        loaded(bytes) == Some((fields, changes)),
{
}

/// The two keys differ.
pub proof fn lemma_keys_differ()
    ensures
        id_key() != content_key(),
{
    reveal_strlit("id");
    reveal_strlit("content");
    assert(id_key().len() == 2);
    assert(content_key().len() == 7);
}

/// A created note carries the identifier and the content it was made with.
pub proof fn lemma_note_fields(id: Seq<char>, content: Seq<char>)
    ensures
        id_in(note_fields(id, content)) == Some(id),
        content_in(note_fields(id, content)) == Some(content),
{
    lemma_keys_differ();
}

/// A note as a CRDT document. The whole document, not only identifier and
/// content, is what is saved and merged.
pub struct Note {
    doc: automerge::AutoCommit,
}

impl Note {
    /// What the document shows at its root.
    pub closed spec fn fields(&self) -> Map<Seq<char>, Field> {
        doc_fields(self.doc)
    }

    /// The changes that make up the document's history.
    pub closed spec fn changes(&self) -> Set<Seq<u8>> {
        doc_changes(self.doc)
    }

    /// The changes committed to the document's history: all of `changes` but
    /// what is still pending.
    pub closed spec fn settled(&self) -> Set<Seq<u8>> {
        doc_settled(self.doc)
    }

    /// What the engine makes of this note when it joins `other` into it: the
    /// fields that the note then shows and the history that it then holds,
    /// or `None` where the engine refuses the join.
    pub closed spec fn joined_with(&self, other: Note) -> Option<
        (Map<Seq<char>, Field>, Set<Seq<u8>>),
    > {
        joined(self.doc, other.doc)
    }

    /// The identifier, where the document carries one.
    pub open spec fn spec_id(&self) -> Option<Seq<char>> {
        id_in(self.fields())
    }

    /// The content, where the document carries one.
    pub open spec fn spec_content(&self) -> Option<Seq<char>> {
        content_in(self.fields())
    }

    /// Builds the document of a note from its identifier and content. The
    /// engine refuses none of the operations this takes, so the call
    /// succeeds; `DocumentError` is what a refusal would be reported as.
    pub fn assemble(id: &str, content: &str) -> (r: Result<Note, NoteError>)
        ensures
            r is Ok,
            r.unwrap().fields() == note_fields(id@, content@),
            r.unwrap().settled() == no_changes(),
    {
        let mut doc = new_doc();
        match put_str(&mut doc, "id", id) {
            Ok(()) => {},
            Err(e) => {
                return Err(NoteError::DocumentError(error_text(&e)));
            },
        }
        let handle = match put_text(&mut doc, "content") {
            Ok(handle) => handle,
            Err(e) => {
                return Err(NoteError::DocumentError(error_text(&e)));
            },
        };
        match update_text(&mut doc, &handle, content) {
            Ok(()) => {},
            Err(e) => {
                return Err(NoteError::DocumentError(error_text(&e)));
            },
        }
        proof {
            assert(doc_fields(doc) =~= note_fields(id@, content@));
        }
        Ok(Note { doc })
    }

    /// Creates a note with a fresh identifier. The call succeeds. Which
    /// identifier the note gets is not determined by `content`; it is well
    /// formed in every case.
    pub fn new(content: &str) -> (r: Result<Note, NoteError>)
        ensures
            r matches Ok(note) && {
                &&& note.spec_id() matches Some(id)
                &&& is_note_id(id)
                &&& note.fields() == note_fields(id, content@)
                &&& note.spec_content() == Some(content@)
            },
    {
        let id = fresh_id();
        let r = Note::assemble(id.as_str(), content);
        proof {
            lemma_note_fields(id@, content@);
        }
        r
    }

    /// The identifier: `MissingId` where the document has no string scalar
    /// under `id`.
    pub fn id(&self) -> (r: Result<String, NoteError>)
        ensures
            match self.spec_id() {
                Some(id) => r matches Ok(s) && s@ == id,
                None => r matches Err(NoteError::MissingId),
            },
    {
        match get_field(&self.doc, "id") {
            Ok(Some(FieldRead::Str(s))) => Ok(s),
            _ => Err(NoteError::MissingId),
        }
    }

    /// The content: `MissingContent` where the document has no text object
    /// under `content`.
    pub fn content(&self) -> (r: Result<String, NoteError>)
        ensures
            match self.spec_content() {
                Some(content) => r matches Ok(s) && s@ == content,
                None => r matches Err(NoteError::MissingContent),
            },
    {
        match get_field(&self.doc, "content") {
            Ok(Some(FieldRead::Text(handle))) => {
                match get_text(&self.doc, &handle) {
                    Ok(s) => Ok(s),
                    Err(_) => Err(NoteError::MissingContent),
                }
            },
            _ => Err(NoteError::MissingContent),
        }
    }

    /// Replaces the content by patching the text object, so that the edit
    /// history stays: what was committed before still is, and the patch is
    /// pending beside it. With a text object under `content` the call
    /// succeeds; without one the note is left as it is and the call fails
    /// with `MissingContent`.
    pub fn update(&mut self, new_content: &str) -> (r: Result<(), NoteError>)
        ensures
            final(self).settled() == old(self).settled(),
            match old(self).spec_content() {
                Some(_) => {
                    &&& r is Ok
                    &&& final(self).fields() == old(self).fields().insert(
                        content_key(),
                        Field::Text(new_content@),
                    )
                    &&& final(self).spec_content() == Some(new_content@)
                    &&& final(self).spec_id() == old(self).spec_id()
                },
                None => (r matches Err(NoteError::MissingContent)) && *final(self) == *old(self),
            },
    {
        match get_field(&self.doc, "content") {
            Ok(Some(FieldRead::Text(handle))) => {
                match update_text(&mut self.doc, &handle, new_content) {
                    Ok(()) => {
                        proof {
                            lemma_keys_differ();
                        }
                        Ok(())
                    },
                    Err(e) => Err(NoteError::DocumentError(error_text(&e))),
                }
            },
            _ => Err(NoteError::MissingContent),
        }
    }

    /// Saves the whole document, which commits what was pending. The note
    /// shows afterwards what it showed before; the bytes are not empty and
    /// decode to exactly its fields and history, which holds all that was
    /// committed before.
    pub fn into_bytes(&mut self) -> (bytes: Vec<u8>)
        ensures
            final(self).fields() == old(self).fields(),
            final(self).changes() == old(self).changes(),
            saves(old(self).fields(), old(self).changes(), bytes@),
            bytes@.len() > 0,
            final(self).settled() == final(self).changes(),
            old(self).settled().subset_of(final(self).settled()),
    {
        save(&mut self.doc)
    }

    /// Loads a note from saved bytes: `DeserializationError` where the bytes
    /// are not a saved document, `MissingId` or `MissingContent` where the
    /// document lacks that field, otherwise the note that the bytes decode to.
    pub fn from_bytes(data: &[u8]) -> (r: Result<Note, NoteError>)
        ensures
            match r {
                Ok(note) => loaded(data@) == Some((note.fields(), note.changes()))
                    && note.settled() == note.changes(),
                Err(e) => loaded(data@) is None && refuses(data@, e),
            },
    {
        let doc = match load(data) {
            Ok(doc) => doc,
            Err(e) => {
                return Err(NoteError::DeserializationError(error_text(&e)));
            },
        };
        let note = Note { doc };
        match note.id() {
            Ok(_) => {},
            Err(_) => {
                return Err(NoteError::MissingId);
            },
        }
        match note.content() {
            Ok(_) => {},
            Err(_) => {
                return Err(NoteError::MissingContent);
            },
        }
        Ok(note)
    }

    /// Joins the history of `other` into this note. `other` shows afterwards
    /// what it showed before. The join is the engine's: the call succeeds
    /// exactly where `joined_with` gives something, and the note then shows
    /// and holds exactly that; where the engine refuses the join the call
    /// fails with `DocumentError`. What is joined holds what both histories
    /// held. Where `other` holds no change that this note lacks, as when a
    /// note is merged with a copy of itself, the join is what the note showed
    /// before: the same identifier and the same content. The caller makes
    /// sure that both notes carry the same identifier.
    pub fn merge(&mut self, other: &mut Note) -> (r: Result<(), NoteError>)
        ensures
            final(other).fields() == old(other).fields(),
            final(other).changes() == old(other).changes(),
            old(other).settled().subset_of(final(other).settled()),
            match old(self).joined_with(*old(other)) {
                Some((fields, changes)) => {
                    &&& r is Ok
                    &&& final(self).fields() == fields
                    &&& final(self).changes() == changes
                    &&& final(self).settled() == changes
                    &&& old(self).changes().union(old(other).changes()).subset_of(changes)
                    &&& old(self).settled().subset_of(changes)
                },
                None => r matches Err(NoteError::DocumentError(_)),
            },
            old(other).changes().subset_of(old(self).changes()) ==> {
                &&& r is Ok
                &&& final(self).fields() == old(self).fields()
                &&& final(self).spec_id() == old(self).spec_id()
                &&& final(self).spec_content() == old(self).spec_content()
            },
    {
        match merge(&mut self.doc, &mut other.doc) {
            Ok(()) => Ok(()),
            Err(e) => Err(NoteError::DocumentError(error_text(&e))),
        }
    }
}

} // verus!
