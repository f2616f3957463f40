//! The service: the one place that keeps repository and content store in
//! step. Every note is stored as the saved bytes of its whole document, under
//! its identifier.

use crate::crdt_note::{content_in, id_in, loaded, refuses, saves};
use crate::engine::{decoded, is_note_id};
use crate::error::NoteError;
use crate::identity::{may_follow, IdSource};
use crate::notes::{
    has_id, ids_of, is_insertion, is_removal, is_replacement, lemma_same_notes_same_listing,
    shown_by, Note, Notes,
};
use crate::order::{ascending, id_lt, lemma_id_asymmetric, str_eq};
use crate::storage::{lists_key, Storage, StorageError};
use vstd::prelude::*;
use vstd::string::*;

verus! {

/// Some record shows this note.
pub open spec fn comes_from(records: Map<Seq<char>, Seq<u8>>, pair: (Seq<char>, Seq<char>)) -> bool {
    exists|key: Seq<char>| #[trigger] records.contains_key(key) && shown_by(records[key]) == Some(pair)
}

/// `listing` lists the records: it ascends by identifier, each of its notes
/// is shown by a record, and each record shows a note whose identifier is
/// listed.
pub open spec fn lists(records: Map<Seq<char>, Seq<u8>>, listing: Seq<(Seq<char>, Seq<char>)>) -> bool {
    &&& ascending(ids_of(listing))
    &&& forall|i: int| 0 <= i < listing.len() ==> comes_from(records, #[trigger] listing[i])
    &&& forall|key: Seq<char>| #[trigger]
        records.contains_key(key) ==> shown_by(records[key]) is Some && has_id(
            listing,
            shown_by(records[key]).unwrap().0,
        )
}

/// `result` is what reconciling a stored record with an incoming state of the
/// same note leaves: a complete note under the same identifier. Without a
/// stored record it is the incoming state itself. With one, its history
/// holds what both histories held; and where the incoming history adds
/// nothing to the stored one, it shows what the stored record showed.
pub open spec fn joins(stored: Option<Seq<u8>>, incoming: Seq<u8>, result: Seq<u8>) -> bool {
    &&& shown_by(incoming) is Some
    &&& shown_by(result) is Some
    &&& shown_by(result).unwrap().0 == shown_by(incoming).unwrap().0
    &&& match stored {
        None => decoded(result) == decoded(incoming),
        Some(current) => {
            &&& shown_by(current) is Some
            &&& decoded(current).unwrap().1.union(decoded(incoming).unwrap().1).subset_of(
                decoded(result).unwrap().1,
            )
            &&& adds_nothing(current, incoming) ==> decoded(result).unwrap().0 == decoded(
                current,
            ).unwrap().0
        },
    }
}

/// The incoming state holds no change that the stored record lacks.
pub open spec fn adds_nothing(current: Seq<u8>, incoming: Seq<u8>) -> bool {
    decoded(incoming).unwrap().1.subset_of(decoded(current).unwrap().1)
}

/// What reconciling the record stored under `id`, if there is one, with an
/// incoming state comes to.
///
/// - Incoming bytes that are no complete note are refused with the error of
///   their kind, and a note under another identifier with `NotFound` and `id`.
/// - Without a stored record the outcome is the incoming state.
/// - A stored record that is no complete note is refused with the error of
///   its kind.
/// - Otherwise both are loaded and joined, and the outcome is what `joins_as`
///   says of the two notes: the saved join, or `DocumentError` where the
///   engine refuses it, or `MissingId` or `MissingContent` where what is
///   joined no longer carries `id` or a content. Success gives what `joins`
///   describes. Where the incoming state adds nothing to a record stored
///   under its own identifier, the join succeeds.
pub open spec fn reconciles(
    id: Seq<char>,
    stored: Option<Seq<u8>>,
    incoming: Seq<u8>,
    outcome: Result<Seq<u8>, NoteError>,
) -> bool {
    match shown_by(incoming) {
        None => outcome matches Err(e) && refuses(incoming, e),
        Some(theirs) => if theirs.0 != id {
            outcome matches Err(NoteError::NotFound(missing)) && missing@ == id
        } else {
            match stored {
                None => outcome matches Ok(result) && joins(None, incoming, result),
                Some(current) => match shown_by(current) {
                    None => outcome matches Err(e) && refuses(current, e),
                    Some(ours) => {
                        &&& exists|stored: crate::crdt_note::Note, arrived: crate::crdt_note::Note|
                            #![trigger stored.joined_with(arrived)]
                            loads_to(current, stored) && loads_to(incoming, arrived) && joins_as(
                                id,
                                stored,
                                arrived,
                                outcome,
                            )
                        &&& match outcome {
                            Ok(result) => joins(Some(current), incoming, result),
                            Err(e) => e is DocumentError || e is MissingId || e is MissingContent,
                        }
                        &&& adds_nothing(current, incoming) && ours.0 == id ==> outcome is Ok
                    },
                },
            }
        },
    }
}

/// The record under a key, if there is one.
pub open spec fn record_at(records: Map<Seq<char>, Seq<u8>>, key: Seq<char>) -> Option<Seq<u8>> {
    if records.contains_key(key) {
        Some(records[key])
    } else {
        None
    }
}

/// An outcome with its bytes taken as the sequence they are.
pub open spec fn outcome_of(r: Result<Vec<u8>, NoteError>) -> Result<Seq<u8>, NoteError> {
    match r {
        Ok(bytes) => Ok(bytes@),
        Err(e) => Err(e),
    }
}

/// `note` is a note that these bytes load to.
pub open spec fn loads_to(bytes: Seq<u8>, note: crate::crdt_note::Note) -> bool {
    loaded(bytes) == Some((note.fields(), note.changes())) && note.settled() == note.changes()
}

/// What joining the note `theirs` into the note `ours`, both believed to be
/// states of the note `id`, comes to: `DocumentError` where the engine refuses
/// the join, `MissingId` where what is joined does not carry `id`,
/// `MissingContent` where it carries `id` but no content, and otherwise the
/// saved bytes, which are not empty, of exactly what is joined.
pub open spec fn joins_as(
    id: Seq<char>,
    ours: crate::crdt_note::Note,
    theirs: crate::crdt_note::Note,
    outcome: Result<Seq<u8>, NoteError>,
) -> bool {
    match ours.joined_with(theirs) {
        None => outcome matches Err(NoteError::DocumentError(_)),
        Some((fields, changes)) => if id_in(fields) != Some(id) {
            outcome matches Err(NoteError::MissingId)
        } else if content_in(fields) is None {
            outcome matches Err(NoteError::MissingContent)
        } else {
            outcome matches Ok(bytes) && bytes.len() > 0 && saves(fields, changes, bytes)
        },
    }
}

/// Joins an incoming state of the note `id` into the stored one and returns
/// the bytes to store in its place. `theirs` shows afterwards what it showed
/// before. What the engine makes of the join decides:
///
/// - where it refuses the join, the call fails with `DocumentError`;
/// - where what is joined does not carry `id`, with `MissingId`;
/// - where it carries `id` but no content, with `MissingContent`;
/// - otherwise the call returns the saved bytes, which are not empty, of
///   exactly what is joined.
///
/// What is joined holds what both histories held. Where the incoming history
/// adds nothing, it shows what the stored note showed.
pub fn join_as(id: &str, ours: crate::crdt_note::Note, theirs: &mut crate::crdt_note::Note) -> (r:
    Result<Vec<u8>, NoteError>)
    ensures
        final(theirs).fields() == old(theirs).fields(),
        final(theirs).changes() == old(theirs).changes(),
        joins_as(id@, ours, *old(theirs), outcome_of(r)),
        ours.joined_with(*old(theirs)) matches Some((_, changes)) ==> ours.changes().union(
            old(theirs).changes(),
        ).subset_of(changes),
        old(theirs).changes().subset_of(ours.changes()) ==> (ours.joined_with(
            *old(theirs),
        ) matches Some((fields, _)) && fields == ours.fields()),
{
    let mut ours = ours;
    match ours.merge(theirs) {
        Ok(()) => {},
        Err(e) => {
            return Err(e);
        },
    }
    match ours.id() {
        Ok(our_id) => {
            if !str_eq(our_id.as_str(), id) {
                return Err(NoteError::MissingId);
            }
        },
        Err(e) => {
            return Err(e);
        },
    }
    match ours.content() {
        Ok(_) => {},
        Err(e) => {
            return Err(e);
        },
    }
    Ok(ours.into_bytes())
}

/// Reconciles the record stored under `id`, if there is one, with an incoming
/// state of the same note, and returns the bytes to store in its place. Both
/// are loaded, and `join_as` joins them.
pub fn reconcile(id: &str, stored: Option<Vec<u8>>, incoming: &[u8]) -> (r: Result<
    Vec<u8>,
    NoteError,
>)
    ensures
        reconciles(
            id@,
            match stored {
                Some(current) => Some(current@),
                None => None,
            },
            incoming@,
            outcome_of(r),
        ),
{
    let mut theirs = match crate::crdt_note::Note::from_bytes(incoming) {
        Ok(note) => note,
        Err(e) => {
            return Err(e);
        },
    };
    match theirs.id() {
        Ok(their_id) => {
            if !str_eq(their_id.as_str(), id) {
                return Err(NoteError::NotFound(String::from_str(id)));
            }
        },
        Err(e) => {
            return Err(e);
        },
    }
    let current = match stored {
        Some(current) => current,
        None => {
            return Ok(theirs.into_bytes());
        },
    };
    let ours = match crate::crdt_note::Note::from_bytes(current.as_slice()) {
        Ok(note) => note,
        Err(e) => {
            return Err(e);
        },
    };
    let ghost stored = ours;
    let ghost arrived = theirs;
    let r = join_as(id, ours, &mut theirs);
    proof {
        assert(loads_to(current@, stored) && loads_to(incoming@, arrived) && joins_as(
            id@,
            stored,
            arrived,
            outcome_of(r),
        ));
    }
    r
}

/// Every record is a complete note stored under its own identifier. The
/// service keeps a store that way.
pub open spec fn coherent(records: Map<Seq<char>, Seq<u8>>) -> bool {
    forall|key: Seq<char>| #[trigger]
        records.contains_key(key) ==> shown_by(records[key]) is Some && shown_by(
            records[key],
        ).unwrap().0 == key
}

/// A coherent store has one listing: what `list` returns is determined by
/// the records alone.
pub proof fn law_one_listing(
    records: Map<Seq<char>, Seq<u8>>,
    a: Seq<(Seq<char>, Seq<char>)>,
    b: Seq<(Seq<char>, Seq<char>)>,
)
    requires
        coherent(records),
        lists(records, a),
        lists(records, b),
    ensures
        a == b,
{
    lemma_listed_in(records, a, b);
    lemma_listed_in(records, b, a);
    lemma_same_notes_same_listing(a, b);
}

proof fn lemma_listed_in(
    records: Map<Seq<char>, Seq<u8>>,
    a: Seq<(Seq<char>, Seq<char>)>,
    b: Seq<(Seq<char>, Seq<char>)>,
)
    requires
        coherent(records),
        lists(records, a),
        lists(records, b),
    ensures
        forall|i: int| 0 <= i < a.len() ==> b.contains(#[trigger] a[i]),
{
    assert forall|i: int| 0 <= i < a.len() implies b.contains(#[trigger] a[i]) by {
        assert(comes_from(records, a[i]));
        let key = choose|key: Seq<char>| #[trigger]
            records.contains_key(key) && shown_by(records[key]) == Some(a[i]);
        assert(has_id(b, a[i].0));
        let j = choose|j: int| 0 <= j < b.len() && (#[trigger] b[j]).0 == a[i].0;
        assert(comes_from(records, b[j]));
        let other = choose|other: Seq<char>| #[trigger]
            records.contains_key(other) && shown_by(records[other]) == Some(b[j]);
        assert(key == a[i].0);
        assert(other == b[j].0);
        assert(b[j] == a[i]);
    }
}

/// When the note at a one-based position of a coherent store's listing is
/// deleted, the store stays coherent and its listing is the old one without
/// that position: exactly that note is gone, and the others keep their order.
pub proof fn law_delete_keeps_order(
    records: Map<Seq<char>, Seq<u8>>,
    before: Seq<(Seq<char>, Seq<char>)>,
    index: int,
    after: Seq<(Seq<char>, Seq<char>)>,
)
    requires
        coherent(records),
        lists(records, before),
        1 <= index <= before.len(),
        lists(records.remove(before[index - 1].0), after),
    ensures
        coherent(records.remove(before[index - 1].0)),
        after == before.remove(index - 1),
{
    let gone = before[index - 1].0;
    let left = records.remove(gone);
    let rest = before.remove(index - 1);
    let ids = ids_of(before);
    let rest_ids = ids_of(rest);
    assert forall|i: int, j: int| 0 <= i < j < rest_ids.len() implies id_lt(
        #[trigger] rest_ids[i],
        #[trigger] rest_ids[j],
    ) by {
        let x = if i < index - 1 { i } else { i + 1 };
        let y = if j < index - 1 { j } else { j + 1 };
        assert(rest_ids[i] == ids[x]);
        assert(rest_ids[j] == ids[y]);
    }
    assert forall|i: int| 0 <= i < rest.len() implies comes_from(left, #[trigger] rest[i]) by {
        let x = if i < index - 1 { i } else { i + 1 };
        assert(rest[i] == before[x]);
        assert(comes_from(records, before[x]));
        let key = choose|key: Seq<char>| #[trigger]
            records.contains_key(key) && shown_by(records[key]) == Some(before[x]);
        assert(key == before[x].0);
        if key == gone {
            lemma_one_position(before, x, index - 1);
        }
        assert(left.contains_key(key));
    }
    assert forall|key: Seq<char>| #[trigger] left.contains_key(key) implies shown_by(
        left[key],
    ) is Some && has_id(rest, shown_by(left[key]).unwrap().0) by {
        assert(records.contains_key(key));
        assert(has_id(before, key));
        let x = choose|x: int| 0 <= x < before.len() && (#[trigger] before[x]).0 == key;
        let i = if x < index - 1 { x } else { x - 1 };
        assert(rest[i] == before[x]);
    }
    assert(lists(left, rest));
    law_one_listing(left, after, rest);
}

/// In a listing no identifier occurs at two positions.
pub proof fn lemma_one_position(listing: Seq<(Seq<char>, Seq<char>)>, i: int, j: int)
    requires
        ascending(ids_of(listing)),
        0 <= i < listing.len(),
        0 <= j < listing.len(),
        listing[i].0 == listing[j].0,
    ensures
        i == j,
{
    let ids = ids_of(listing);
    assert(ids[i] == listing[i].0 && ids[j] == listing[j].0);
    if i < j {
        lemma_id_asymmetric(ids[i], ids[j]);
    } else if j < i {
        lemma_id_asymmetric(ids[j], ids[i]);
    }
}

/// What a store's failure is reported as.
pub fn io_error(e: StorageError) -> (r: NoteError)
    ensures
        r is IoError,
        match e {
            StorageError::IoError(detail) => r == NoteError::IoError(detail),
            StorageError::SerializationError(detail) => r == NoteError::IoError(detail),
        },
{
    match e {
        StorageError::IoError(detail) => NoteError::IoError(detail),
        StorageError::SerializationError(detail) => NoteError::IoError(detail),
    }
}

/// The note at a one-based position of a listing: its identifier and its
/// content, or `IndexOutOfRange` with the position asked for and the number
/// of notes.
pub fn select(shown: &Vec<Note>, index: usize) -> (r: Result<(String, String), NoteError>)
    ensures
        match r {
            Ok((id, content)) => {
                &&& 1 <= index <= shown@.len()
                &&& (id@, content@) == shown@[index - 1].pair()
            },
            Err(e) => {
                &&& index == 0 || index > shown@.len()
                &&& e == NoteError::IndexOutOfRange(index, shown.len())
            },
        },
{
    if index == 0 || index > shown.len() {
        return Err(NoteError::IndexOutOfRange(index, shown.len()));
    }
    let note = &shown[index - 1];
    Ok((note.id.clone(), note.content.clone()))
}

/// Notes kept in a content store, with the repository as their cache.
pub struct NoteService<S: Storage> {
    notes: Notes,
    storage: S,
    ids: IdSource,
}

impl<S: Storage> NoteService<S> {
    /// The cached notes, in listing order.
    pub closed spec fn cache(&self) -> Seq<(Seq<char>, Seq<char>)> {
        self.notes.listing()
    }

    /// The records of the content store.
    pub closed spec fn store(&self) -> Map<Seq<char>, Seq<u8>> {
        self.storage.records()
    }

    /// Whether the content store is dependable, so that no call fails with
    /// `IoError`.
    pub closed spec fn dependable(&self) -> bool {
        self.storage.dependable()
    }

    /// The identifier of the note that this service created last, if it
    /// created one.
    pub closed spec fn latest(&self) -> Option<Seq<char>> {
        self.ids.latest()
    }

    /// A service over this store, with an empty cache, which has created
    /// nothing yet.
    pub fn new(storage: S) -> (service: NoteService<S>)
        ensures
            service.store() == storage.records(),
            service.dependable() == storage.dependable(),
            service.cache().len() == 0,
            service.latest() is None,
    {
        NoteService { notes: Notes::new(), storage, ids: IdSource::new() }
    }

    /// The content store.
    pub fn storage(&self) -> (storage: &S)
        ensures
            storage.records() == self.store(),
            storage.dependable() == self.dependable(),
    {
        &self.storage
    }

    /// Ends the service and hands back its content store.
    pub fn into_storage(self) -> (storage: S)
        ensures
            storage.records() == self.store(),
            storage.dependable() == self.dependable(),
    {
        self.storage
    }

    /// Creates a note, stores its saved document under its identifier and
    /// caches it. The identifier comes after that of every note this service
    /// created before, and neither the cache nor the store holds it. Where
    /// the store fails the call fails with `IoError`; where the generator
    /// gives an identifier that does not come after the latest, or one that
    /// cache or store hold, it fails with `DocumentError`. On failure nothing
    /// is stored and nothing is cached.
    pub fn create(&mut self, content: &str) -> (r: Result<Note, NoteError>)
        ensures
            coherent(old(self).store()) ==> coherent(final(self).store()),
            final(self).dependable() == old(self).dependable(),
            match r {
                Ok(shown) => {
                    &&& shown.content@ == content@
                    &&& is_note_id(shown.id@)
                    &&& may_follow(old(self).latest(), shown.id@)
                    &&& final(self).latest() == Some(shown.id@)
                    &&& !has_id(old(self).cache(), shown.id@)
                    &&& !old(self).store().contains_key(shown.id@)
                    &&& is_insertion(old(self).cache(), final(self).cache(), shown.pair())
                    &&& final(self).store().dom() == old(self).store().dom().insert(shown.id@)
                    &&& final(self).store() == old(self).store().insert(
                        shown.id@,
                        final(self).store()[shown.id@],
                    )
                    &&& final(self).store()[shown.id@].len() > 0
                    &&& shown_by(final(self).store()[shown.id@]) == Some(shown.pair())
                },
                Err(e) => {
                    &&& final(self).cache() == old(self).cache()
                    &&& final(self).store() == old(self).store()
                    &&& e is IoError || e is DocumentError
                    &&& e is IoError ==> !old(self).dependable()
                    &&& e is DocumentError ==> old(self).latest() is Some || exists|held: Seq<char>|
                        #[trigger] is_note_id(held) && (has_id(old(self).cache(), held) || old(
                            self,
                        ).store().contains_key(held))
                },
            },
    {
        let id = match self.ids.next() {
            Ok(id) => id,
            Err(e) => {
                return Err(e);
            },
        };
        self.create_as(id, content)
    }

    /// Takes in a note with the identifier drawn for it: stores its saved
    /// document under the identifier and caches it. An identifier that cache
    /// or store hold is refused with `DocumentError`; nothing is ever
    /// overwritten. Otherwise the call succeeds, unless the store fails: then
    /// it fails with `IoError`. On failure nothing is stored and nothing is
    /// cached.
    pub fn create_as(&mut self, id: String, content: &str) -> (r: Result<Note, NoteError>)
        ensures
            final(self).dependable() == old(self).dependable(),
            final(self).latest() == old(self).latest(),
            coherent(old(self).store()) ==> coherent(final(self).store()),
            if has_id(old(self).cache(), id@) || old(self).store().contains_key(id@) {
                &&& r matches Err(e) && (e is DocumentError || (e is IoError && !old(
                    self,
                ).dependable()))
                &&& final(self).cache() == old(self).cache()
                &&& final(self).store() == old(self).store()
            } else {
                match r {
                    Ok(shown) => {
                        &&& shown.pair() == (id@, content@)
                        &&& is_insertion(old(self).cache(), final(self).cache(), shown.pair())
                        &&& final(self).store().dom() == old(self).store().dom().insert(id@)
                        &&& final(self).store() == old(self).store().insert(
                            id@,
                            final(self).store()[id@],
                        )
                        &&& final(self).store()[id@].len() > 0
                        &&& shown_by(final(self).store()[id@]) == Some(shown.pair())
                    },
                    Err(e) => {
                        &&& e is IoError && !old(self).dependable()
                        &&& final(self).cache() == old(self).cache()
                        &&& final(self).store() == old(self).store()
                    },
                }
            },
            has_id(old(self).cache(), id@) ==> r matches Err(NoteError::DocumentError(_)),
    {
        let mut note = match crate::crdt_note::Note::assemble(id.as_str(), content) {
            Ok(note) => note,
            Err(e) => {
                return Err(e);
            },
        };
        proof {
            crate::crdt_note::lemma_note_fields(id@, content@);
        }
        match self.notes.get(id.as_str()) {
            Ok(_) => {
                return Err(NoteError::DocumentError(String::from_str("identifier already in use")));
            },
            Err(_) => {},
        }
        match self.storage.get(id.as_str()) {
            Ok(None) => {},
            Ok(Some(_)) => {
                return Err(NoteError::DocumentError(String::from_str("identifier already in use")));
            },
            Err(e) => {
                return Err(io_error(e));
            },
        }
        let bytes = note.into_bytes();
        match self.storage.set(id.as_str(), bytes.as_slice()) {
            Ok(()) => {},
            Err(e) => {
                return Err(io_error(e));
            },
        }
        self.notes.insert(note)
    }

    /// Reads every record, rebuilds the cache from them and returns the
    /// notes in ascending order of identifier. A record that is no complete
    /// note makes the whole call fail with the error of its kind. On failure
    /// the cache stays as it was. The store is only read.
    pub fn list(&mut self) -> (r: Result<Vec<Note>, NoteError>)
        ensures
            final(self).store() == old(self).store(),
            final(self).dependable() == old(self).dependable(),
            final(self).latest() == old(self).latest(),
            match r {
                Ok(shown) => {
                    &&& lists(old(self).store(), final(self).cache())
                    &&& shown@.map_values(|n: Note| n.pair()) == final(self).cache()
                },
                Err(e) => {
                    &&& final(self).cache() == old(self).cache()
                    &&& e is IoError || exists|key: Seq<char>| #[trigger]
                        old(self).store().contains_key(key) && refuses(old(self).store()[key], e)
                    &&& e is IoError ==> !old(self).dependable()
                },
            },
    {
        let keys = match self.storage.list() {
            Ok(keys) => keys,
            Err(e) => {
                return Err(io_error(e));
            },
        };
        let ghost records = self.storage.records();
        let mut notes = Notes::new();
        let mut i: usize = 0;
        while i < keys.len()
            invariant
                i <= keys@.len(),
                records == self.storage.records(),
                records == old(self).store(),
                self.storage.dependable() == old(self).dependable(),
                self.latest() == old(self).latest(),
                self.cache() == old(self).cache(),
                forall|key: Seq<char>| records.contains_key(key) <==> lists_key(keys@, key),
                ascending(ids_of(notes.listing())),
                forall|j: int|
                    0 <= j < notes.listing().len() ==> comes_from(
                        records,
                        #[trigger] notes.listing()[j],
                    ),
                forall|j: int|
                    0 <= j < i ==> shown_by(records[(#[trigger] keys@[j])@]) is Some && has_id(
                        notes.listing(),
                        shown_by(records[keys@[j]@]).unwrap().0,
                    ),
            decreases keys@.len() - i,
        {
            let ghost key = keys@[i as int]@;
            assert(lists_key(keys@, key));
            assert(records.contains_key(key));
            match self.storage.get(keys[i].as_str()) {
                Ok(Some(bytes)) => {
                    let ghost before = notes.listing();
                    match notes.add(bytes.as_slice()) {
                        Ok(_) => {
                            proof {
                                let pair = shown_by(records[key]).unwrap();
                                lemma_taken_in(before, notes.listing(), pair);
                                assert(comes_from(records, pair));
                            }
                        },
                        Err(e) => {
                            proof {
                                assert(records.contains_key(key) && refuses(records[key], e));
                            }
                            return Err(e);
                        },
                    }
                },
                Ok(None) => {},
                Err(e) => {
                    return Err(io_error(e));
                },
            }
            i += 1;
        }
        proof {
            assert forall|key: Seq<char>| #[trigger] records.contains_key(key) implies shown_by(
                records[key],
            ) is Some && has_id(notes.listing(), shown_by(records[key]).unwrap().0) by {
                let j = choose|j: int| 0 <= j < keys@.len() && (#[trigger] keys@[j])@ == key;
                assert(keys@[j]@ == key);
            }
        }
        self.notes = notes;
        match self.notes.list() {
            Ok(shown) => {
                assert(shown@.map_values(|n: Note| n.pair()) =~= self.notes.listing());
                Ok(shown)
            },
            Err(e) => Err(e),
        }
    }

    /// Removes the note at a one-based position of the listing from the
    /// store and from the cache, and returns its content. The listing is
    /// read afresh first. A position outside it fails with `IndexOutOfRange`,
    /// a failing store with `IoError`, and a record that is no complete note
    /// with the error of its kind. On any failure the store stays as it was,
    /// and the cache is the fresh listing or, where that could not be read,
    /// what it was.
    pub fn delete_by_index(&mut self, index: usize) -> (r: Result<String, NoteError>)
        ensures
            coherent(old(self).store()) ==> coherent(final(self).store()),
            final(self).dependable() == old(self).dependable(),
            final(self).latest() == old(self).latest(),
            r matches Err(e) && e is IoError ==> !old(self).dependable(),
            match r {
                Ok(content) => exists|before: Seq<(Seq<char>, Seq<char>)>| #[trigger]
                    lists(old(self).store(), before) && {
                        &&& 1 <= index <= before.len()
                        &&& content@ == before[index - 1].1
                        &&& final(self).store() == old(self).store().remove(before[index - 1].0)
                        &&& final(self).cache() == before.remove(index - 1)
                    },
                Err(NoteError::IndexOutOfRange(asked, available)) => {
                    &&& asked == index
                    &&& index == 0 || index > available
                    &&& lists(old(self).store(), final(self).cache())
                    &&& available == final(self).cache().len()
                    &&& final(self).store() == old(self).store()
                },
                Err(_) => final(self).store() == old(self).store(),
            },
            r is Err ==> final(self).cache() == old(self).cache() || lists(
                old(self).store(),
                final(self).cache(),
            ),
            r matches Err(e) ==> e is IoError || e is IndexOutOfRange || exists|key: Seq<char>|
                #[trigger] old(self).store().contains_key(key) && refuses(
                    old(self).store()[key],
                    e,
                ),
    {
        let shown = match self.list() {
            Ok(shown) => shown,
            Err(e) => {
                return Err(e);
            },
        };
        let ghost before = self.notes.listing();
        assert(shown@.len() == before.len()) by {
            assert(shown@.map_values(|n: Note| n.pair()).len() == shown@.len());
        }
        let (id, content) = match select(&shown, index) {
            Ok(found) => found,
            Err(e) => {
                return Err(e);
            },
        };
        assert((id@, content@) == before[index - 1]) by {
            assert(shown@.map_values(|n: Note| n.pair())[index - 1] == shown@[index - 1].pair());
        }
        match self.storage.delete(id.as_str()) {
            Ok(()) => {},
            Err(e) => {
                return Err(io_error(e));
            },
        }
        match self.notes.delete(id.as_str()) {
            Ok(()) => {
                proof {
                    let p = choose|p: int|
                        0 <= p < before.len() && (#[trigger] before[p]).0 == id@
                            && self.notes.listing() == before.remove(p);
                    lemma_one_position(before, p, index - 1);
                    assert(lists(old(self).store(), before));
                }
                Ok(content)
            },
            Err(e) => {
                proof {
                    assert(before[index - 1].0 == id@);
                }
                Err(e)
            },
        }
    }

    /// Reconciles the stored state of a note with a state of the same note
    /// that was saved elsewhere, as `reconcile` does, and stores the outcome
    /// under `id`. Where the store fails the call fails with `IoError`. On
    /// failure the store stays as it was. The cache is not touched.
    pub fn merge_replica(&mut self, id: &str, incoming: &[u8]) -> (r: Result<(), NoteError>)
        ensures
            final(self).cache() == old(self).cache(),
            final(self).latest() == old(self).latest(),
            final(self).dependable() == old(self).dependable(),
            coherent(old(self).store()) ==> coherent(final(self).store()),
            match r {
                Ok(()) => {
                    &&& final(self).store().dom() == old(self).store().dom().insert(id@)
                    &&& final(self).store() == old(self).store().insert(
                        id@,
                        final(self).store()[id@],
                    )
                    &&& reconciles(
                        id@,
                        record_at(old(self).store(), id@),
                        incoming@,
                        Ok(final(self).store()[id@]),
                    )
                },
                Err(e) => {
                    &&& final(self).store() == old(self).store()
                    &&& e is IoError || reconciles(
                        id@,
                        record_at(old(self).store(), id@),
                        incoming@,
                        Err(e),
                    )
                    &&& e is IoError ==> !old(self).dependable()
                },
            },
            shown_by(incoming@) is None ==> r is Err,
            shown_by(incoming@) is Some && shown_by(incoming@).unwrap().0 != id@ ==> r is Err,
    {
        let stored = match self.storage.get(id) {
            Ok(stored) => stored,
            Err(e) => {
                return Err(io_error(e));
            },
        };
        let bytes = match reconcile(id, stored, incoming) {
            Ok(bytes) => bytes,
            Err(e) => {
                return Err(e);
            },
        };
        match self.storage.set(id, bytes.as_slice()) {
            Ok(()) => Ok(()),
            Err(e) => Err(io_error(e)),
        }
    }
}

/// After a note was taken into a listing, in place of the one with its
/// identifier or as a new entry, the listing holds it, holds every identifier
/// it held, and holds no note besides those and the new one.
pub proof fn lemma_taken_in(
    before: Seq<(Seq<char>, Seq<char>)>,
    after: Seq<(Seq<char>, Seq<char>)>,
    pair: (Seq<char>, Seq<char>),
)
    requires
        is_replacement(before, after, pair) || is_insertion(before, after, pair),
    ensures
        has_id(after, pair.0),
        forall|id: Seq<char>| has_id(before, id) ==> has_id(after, id),
        forall|j: int|
            0 <= j < after.len() ==> (#[trigger] after[j]) == pair || before.contains(after[j]),
{
    if is_replacement(before, after, pair) {
        let p = choose|p: int|
            0 <= p < before.len() && (#[trigger] before[p]).0 == pair.0 && after == before.update(
                p,
                pair,
            );
        assert(after[p].0 == pair.0);
        assert forall|id: Seq<char>| has_id(before, id) implies has_id(after, id) by {
            let i = choose|i: int| 0 <= i < before.len() && (#[trigger] before[i]).0 == id;
            assert(after[i].0 == id);
        }
        assert forall|j: int| 0 <= j < after.len() implies (#[trigger] after[j]) == pair
            || before.contains(after[j]) by {
            if j != p {
                assert(before[j] == after[j]);
            }
        }
    } else {
        let p = choose|p: int| 0 <= p <= before.len() && after == #[trigger] before.insert(p, pair);
        assert(after[p].0 == pair.0);
        assert forall|id: Seq<char>| has_id(before, id) implies has_id(after, id) by {
            let i = choose|i: int| 0 <= i < before.len() && (#[trigger] before[i]).0 == id;
            let k = if i < p { i } else { i + 1 };
            assert(after[k].0 == id);
        }
        assert forall|j: int| 0 <= j < after.len() implies (#[trigger] after[j]) == pair
            || before.contains(after[j]) by {
            if j < p {
                assert(before[j] == after[j]);
            } else if j > p {
                assert(before[j - 1] == after[j]);
            }
        }
    }
}

} // verus!
