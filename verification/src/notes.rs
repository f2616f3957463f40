//! The repository: the notes held in memory, each under its identifier, and
//! listed in ascending order of identifier.

use crate::crdt_note::{content_in, id_in, loaded, refuses};
use crate::engine::{decoded, is_note_id};
use crate::error::{decimal, to_decimal, NoteError};
use crate::identity::{may_follow, not_after, IdSource};
use crate::order::{
    ascending, id_lt, lemma_id_asymmetric, lemma_id_irreflexive, lemma_id_total,
    lemma_id_transitive, str_lt,
};
use vstd::prelude::*;
use vstd::string::*;

verus! {

/// What a note shows: its identifier and its content.
#[derive(Debug)]
pub struct Note {
    pub id: String,
    pub content: String,
}

impl Note {
    /// The pair of identifier and content.
    pub open spec fn pair(&self) -> (Seq<char>, Seq<char>) {
        (self.id@, self.content@)
    }

    /// What a document shows: `MissingId` where it carries no identifier,
    /// else `MissingContent` where it carries no content.
    pub fn try_from(note_crdt: &crate::crdt_note::Note) -> (r: Result<Note, NoteError>)
        ensures
            match (note_crdt.spec_id(), note_crdt.spec_content()) {
                (None, _) => r matches Err(NoteError::MissingId),
                (Some(_), None) => r matches Err(NoteError::MissingContent),
                (Some(id), Some(content)) => r matches Ok(shown) && shown.pair() == (id, content),
            },
    {
        let id = match note_crdt.id() {
            Ok(id) => id,
            Err(e) => {
                return Err(e);
            },
        };
        let content = match note_crdt.content() {
            Ok(content) => content,
            Err(e) => {
                return Err(e);
            },
        };
        Ok(Note { id, content })
    }
}

/// The line of a list for the note at position `i`, counted from 0: its
/// one-based number, a full stop, a space, and the content.
pub open spec fn line_text(i: nat, content: Seq<char>) -> Seq<char> {
    decimal(i + 1) + ". "@ + content
}

/// The numbered lines for these contents, one below the other.
pub open spec fn lines_text(contents: Seq<Seq<char>>) -> Seq<char>
    decreases contents.len(),
{
    if contents.len() == 0 {
        Seq::empty()
    } else if contents.len() == 1 {
        line_text(0, contents[0])
    } else {
        lines_text(contents.drop_last()) + "\n"@ + line_text(
            (contents.len() - 1) as nat,
            contents.last(),
        )
    }
}

/// What is shown in place of an empty list.
pub open spec fn no_notes_text() -> Seq<char> {
    "No notes yet. Create one with: qot get milk"@
}

/// A list of notes as text: a placeholder where there is none, and otherwise
/// one numbered line for each note.
pub open spec fn listing_text(contents: Seq<Seq<char>>) -> Seq<char> {
    if contents.len() == 0 {
        no_notes_text()
    } else {
        lines_text(contents)
    }
}

/// Writes a list of notes as text, each note on a line of its own under the
/// number by which it can be deleted.
pub fn render_listing(notes: &Vec<Note>) -> (text: String)
    ensures
        text@ == listing_text(notes@.map_values(|n: Note| n.content@)),
{
    if notes.len() == 0 {
        return String::from_str("No notes yet. Create one with: qot get milk");
    }
    let ghost contents = notes@.map_values(|n: Note| n.content@);
    let mut text = String::new();
    let mut i: usize = 0;
    while i < notes.len()
        invariant
            i <= notes@.len(),
            contents == notes@.map_values(|n: Note| n.content@),
            text@ == lines_text(contents.take(i as int)),
        decreases notes@.len() - i,
    {
        proof {
            assert(contents.take(i + 1).drop_last() =~= contents.take(i as int));
            assert(contents.take(i + 1).last() == notes@[i as int].content@);
        }
        if i > 0 {
            text.append("\n");
        }
        text.append(to_decimal(i + 1).as_str());
        text.append(". ");
        text.append(notes[i].content.as_str());
        proof {
            if i == 0 {
                assert(contents.take(1)[0] == notes@[0].content@);
                assert(text@ =~= line_text(0, notes@[0].content@));
            } else {
                assert(text@ =~= lines_text(contents.take(i as int)) + "\n"@ + line_text(
                    i as nat,
                    notes@[i as int].content@,
                ));
            }
        }
        i += 1;
    }
    assert(contents.take(notes@.len() as int) =~= contents);
    text
}

/// The note that saved bytes show: identifier and content of the document
/// they decode to, where it carries both.
pub open spec fn shown_by(bytes: Seq<u8>) -> Option<(Seq<char>, Seq<char>)> {
    match loaded(bytes) {
        Some((fields, _)) => Some((id_in(fields).unwrap(), content_in(fields).unwrap())),
        None => None,
    }
}

/// The identifiers of a listing, in its order.
pub open spec fn ids_of(listing: Seq<(Seq<char>, Seq<char>)>) -> Seq<Seq<char>> {
    listing.map_values(|p: (Seq<char>, Seq<char>)| p.0)
}

/// Whether a listing holds a note with this identifier.
pub open spec fn has_id(listing: Seq<(Seq<char>, Seq<char>)>, id: Seq<char>) -> bool {
    exists|i: int| 0 <= i < listing.len() && (#[trigger] listing[i]).0 == id
}

/// `after` is `before` with `entry` put in at some position.
pub open spec fn is_insertion(
    before: Seq<(Seq<char>, Seq<char>)>,
    after: Seq<(Seq<char>, Seq<char>)>,
    entry: (Seq<char>, Seq<char>),
) -> bool {
    exists|p: int| 0 <= p <= before.len() && after == #[trigger] before.insert(p, entry)
}

/// `after` is `before` without the one note that has this identifier.
pub open spec fn is_removal(
    before: Seq<(Seq<char>, Seq<char>)>,
    after: Seq<(Seq<char>, Seq<char>)>,
    id: Seq<char>,
) -> bool {
    exists|p: int|
        0 <= p < before.len() && (#[trigger] before[p]).0 == id && after == before.remove(p)
}

/// `after` is `before` with the content of the note that has the entry's
/// identifier replaced by the entry's content.
pub open spec fn is_replacement(
    before: Seq<(Seq<char>, Seq<char>)>,
    after: Seq<(Seq<char>, Seq<char>)>,
    entry: (Seq<char>, Seq<char>),
) -> bool {
    exists|p: int|
        0 <= p < before.len() && (#[trigger] before[p]).0 == entry.0 && after == before.update(
            p,
            entry,
        )
}

/// A listing without its first note ascends as the listing did.
pub proof fn lemma_rest_ascending(listing: Seq<(Seq<char>, Seq<char>)>)
    requires
        ascending(ids_of(listing)),
        listing.len() > 0,
    ensures
        ascending(ids_of(listing.drop_first())),
{
    let ids = ids_of(listing);
    let rest = ids_of(listing.drop_first());
    assert forall|i: int, j: int| 0 <= i < j < rest.len() implies id_lt(
        #[trigger] rest[i],
        #[trigger] rest[j],
    ) by {
        assert(rest[i] == ids[i + 1]);
        assert(rest[j] == ids[j + 1]);
    }
}

/// Two ascending listings that hold the same notes are the same listing.
pub proof fn lemma_same_notes_same_listing(
    a: Seq<(Seq<char>, Seq<char>)>,
    b: Seq<(Seq<char>, Seq<char>)>,
)
    requires
        ascending(ids_of(a)),
        ascending(ids_of(b)),
        forall|i: int| 0 <= i < a.len() ==> b.contains(#[trigger] a[i]),
        forall|j: int| 0 <= j < b.len() ==> a.contains(#[trigger] b[j]),
    ensures
        a == b,
    decreases a.len(),
{
    let ia = ids_of(a);
    let ib = ids_of(b);
    if a.len() == 0 {
        if b.len() > 0 {
            assert(a.contains(b[0]));
        }
        assert(a =~= b);
    } else {
        assert(b.contains(a[0]));
        let j = choose|j: int| 0 <= j < b.len() && b[j] == a[0];
        assert(a.contains(b[0]));
        let i = choose|i: int| 0 <= i < a.len() && a[i] == b[0];
        assert(ia[0] == a[0].0 && ia[i] == a[i].0 && ib[0] == b[0].0 && ib[j] == b[j].0);
        if j > 0 && i > 0 {
            assert(id_lt(ib[0], ib[j]));
            assert(id_lt(ia[0], ia[i]));
            lemma_id_asymmetric(ib[0], ib[j]);
        }
        assert(a[0] == b[0]);
        lemma_rest_ascending(a);
        lemma_rest_ascending(b);
        let ra = a.drop_first();
        let rb = b.drop_first();
        assert forall|x: int| 0 <= x < ra.len() implies rb.contains(#[trigger] ra[x]) by {
            assert(ra[x] == a[x + 1]);
            assert(b.contains(a[x + 1]));
            let y = choose|y: int| 0 <= y < b.len() && b[y] == a[x + 1];
            assert(ia[x + 1] == a[x + 1].0);
            if y == 0 {
                assert(id_lt(ia[0], ia[x + 1]));
                lemma_id_asymmetric(ia[0], ia[x + 1]);
            }
            assert(rb[y - 1] == b[y]);
        }
        assert forall|y: int| 0 <= y < rb.len() implies ra.contains(#[trigger] rb[y]) by {
            assert(rb[y] == b[y + 1]);
            assert(a.contains(b[y + 1]));
            let x = choose|x: int| 0 <= x < a.len() && a[x] == b[y + 1];
            assert(ib[y + 1] == b[y + 1].0);
            if x == 0 {
                assert(id_lt(ib[0], ib[y + 1]));
                lemma_id_asymmetric(ib[0], ib[y + 1]);
            }
            assert(ra[x - 1] == a[x]);
        }
        lemma_same_notes_same_listing(ra, rb);
        assert(a =~= seq![a[0]] + ra);
        assert(b =~= seq![b[0]] + rb);
    }
}

/// A note whose identifier comes after all that a listing holds goes to its
/// end: as long as identifiers ascend in the order of creation, the listing is
/// in the order of creation.
pub proof fn law_latest_goes_last(
    before: Seq<(Seq<char>, Seq<char>)>,
    after: Seq<(Seq<char>, Seq<char>)>,
    entry: (Seq<char>, Seq<char>),
)
    requires
        ascending(ids_of(after)),
        is_insertion(before, after, entry),
        forall|i: int| 0 <= i < before.len() ==> id_lt((#[trigger] before[i]).0, entry.0),
    ensures
        after == before.push(entry),
{
    let p = choose|p: int| 0 <= p <= before.len() && after == #[trigger] before.insert(p, entry);
    let ids = ids_of(after);
    if p < before.len() {
        assert(ids[p] == after[p].0 && after[p] == entry);
        assert(ids[p + 1] == after[p + 1].0 && after[p + 1] == before[p]);
        assert(id_lt(ids[p], ids[p + 1]));
        lemma_id_asymmetric(before[p].0, entry.0);
    }
    assert(before.insert(p, entry) =~= before.push(entry));
}

/// What may follow the latest identifier comes after every identifier that
/// does not come after the latest.
pub proof fn lemma_after_all(
    listing: Seq<(Seq<char>, Seq<char>)>,
    latest: Option<Seq<char>>,
    id: Seq<char>,
)
    requires
        may_follow(latest, id),
        forall|i: int| 0 <= i < listing.len() ==> not_after(latest, (#[trigger] listing[i]).0),
    ensures
        forall|i: int| 0 <= i < listing.len() ==> id_lt((#[trigger] listing[i]).0, id),
{
    assert forall|i: int| 0 <= i < listing.len() implies id_lt((#[trigger] listing[i]).0, id) by {
        lemma_id_total(listing[i].0, latest.unwrap());
        if listing[i].0 != latest.unwrap() {
            lemma_id_transitive(listing[i].0, latest.unwrap(), id);
        }
    }
}

struct Entry {
    id: String,
    note: crate::crdt_note::Note,
}

impl Entry {
    spec fn sound(self) -> bool {
        self.note.spec_id() == Some(self.id@) && self.note.spec_content() is Some
    }

    spec fn pair(self) -> (Seq<char>, Seq<char>) {
        (self.id@, self.note.spec_content().unwrap())
    }
}

spec fn sound_entries(entries: Seq<Entry>) -> bool {
    &&& forall|i: int| 0 <= i < entries.len() ==> (#[trigger] entries[i]).sound()
    &&& forall|i: int, j: int|
        0 <= i < j < entries.len() ==> id_lt((#[trigger] entries[i]).id@, (#[trigger] entries[j]).id@)
}

spec fn pairs(entries: Seq<Entry>) -> Seq<(Seq<char>, Seq<char>)> {
    entries.map_values(|e: Entry| e.pair())
}

proof fn lemma_pairs_ascending(entries: Seq<Entry>)
    requires
        sound_entries(entries),
    ensures
        ascending(ids_of(pairs(entries))),
{
    let ids = ids_of(pairs(entries));
    assert forall|i: int, j: int| 0 <= i < j < ids.len() implies id_lt(
        #[trigger] ids[i],
        #[trigger] ids[j],
    ) by {
        assert(ids[i] == entries[i].id@);
        assert(ids[j] == entries[j].id@);
    }
}

/// Where `id` stands among the entries: the first position whose identifier
/// does not come before `id`, and whether that position holds `id` itself.
fn locate(entries: &Vec<Entry>, id: &str) -> (r: (usize, bool))
    requires
        sound_entries(entries@),
    ensures
        r.0 <= entries@.len(),
        forall|j: int| 0 <= j < r.0 ==> id_lt((#[trigger] entries@[j]).id@, id@),
        r.1 ==> r.0 < entries@.len() && entries@[r.0 as int].id@ == id@,
        !r.1 ==> forall|j: int| r.0 <= j < entries@.len() ==> id_lt(id@, (#[trigger] entries@[j]).id@),
        r.1 == has_id(pairs(entries@), id@),
{
    let mut p: usize = 0;
    while p < entries.len() && str_lt(entries[p].id.as_str(), id)
        invariant
            p <= entries@.len(),
            forall|j: int| 0 <= j < p ==> id_lt((#[trigger] entries@[j]).id@, id@),
        decreases entries@.len() - p,
    {
        p += 1;
    }
    let found = p < entries.len() && !str_lt(id, entries[p].id.as_str());
    proof {
        let listing = pairs(entries@);
        if p < entries@.len() {
            let here = entries@[p as int].id@;
            lemma_id_total(here, id@);
            if !found {
                assert forall|j: int| p <= j < entries@.len() implies id_lt(
                    id@,
                    (#[trigger] entries@[j]).id@,
                ) by {
                    if j > p {
                        lemma_id_transitive(id@, here, entries@[j].id@);
                    }
                }
            }
        }
        if found {
            assert(listing[p as int].0 == id@);
        } else {
            assert forall|j: int| 0 <= j < listing.len() implies (#[trigger] listing[j]).0
                != id@ by {
                if j < p {
                    lemma_id_asymmetric(entries@[j].id@, id@);
                } else {
                    lemma_id_asymmetric(id@, entries@[j].id@);
                }
            }
        }
    }
    (p, found)
}

/// Puts a sound entry where its identifier belongs. An identifier that is
/// already held keeps its place: its entry is replaced if `replace` is set and
/// left alone if not.
fn place(entries: &mut Vec<Entry>, id: String, note: crate::crdt_note::Note, replace: bool) -> (done:
    bool)
    requires
        sound_entries(old(entries)@),
        note.spec_id() == Some(id@),
        note.spec_content() is Some,
    ensures
        sound_entries(final(entries)@),
        done == (replace || !has_id(pairs(old(entries)@), id@)),
        !done ==> final(entries)@ == old(entries)@,
        done ==> if has_id(pairs(old(entries)@), id@) {
            is_replacement(
                pairs(old(entries)@),
                pairs(final(entries)@),
                (id@, note.spec_content().unwrap()),
            )
        } else {
            is_insertion(
                pairs(old(entries)@),
                pairs(final(entries)@),
                (id@, note.spec_content().unwrap()),
            )
        },
{
    let ghost before = entries@;
    let ghost pair = (id@, note.spec_content().unwrap());
    let (p, found) = locate(entries, id.as_str());
    if found {
        if !replace {
            return false;
        }
        entries.set(p, Entry { id, note });
        proof {
            assert(pairs(entries@) =~= pairs(before).update(p as int, pair));
            assert(pairs(before)[p as int].0 == pair.0);
            assert forall|i: int, j: int| 0 <= i < j < entries@.len() implies id_lt(
                (#[trigger] entries@[i]).id@,
                (#[trigger] entries@[j]).id@,
            ) by {
                assert(entries@[i].id@ == before[i].id@);
                assert(entries@[j].id@ == before[j].id@);
            }
        }
    } else {
        entries.insert(p, Entry { id, note });
        proof {
            assert(pairs(entries@) =~= pairs(before).insert(p as int, pair));
            assert forall|i: int, j: int| 0 <= i < j < entries@.len() implies id_lt(
                (#[trigger] entries@[i]).id@,
                (#[trigger] entries@[j]).id@,
            ) by {
                let a = if i < p { i } else { i - 1 };
                let b = if j < p { j } else { j - 1 };
                if i != p {
                    assert(entries@[i] == before[a]);
                }
                if j != p {
                    assert(entries@[j] == before[b]);
                }
            }
        }
    }
    true
}

/// The notes held in memory. No identifier occurs twice, and the notes are
/// kept in ascending order of identifier. The identifiers of the notes
/// created here come from the repository's own source.
pub struct Notes {
    entries: Vec<Entry>,
    ids: IdSource,
}

impl Notes {
    #[verifier::type_invariant]
    spec fn sound(self) -> bool {
        sound_entries(self.entries@)
    }

    /// The notes as pairs of identifier and content, in listing order.
    pub closed spec fn listing(&self) -> Seq<(Seq<char>, Seq<char>)> {
        pairs(self.entries@)
    }

    /// The document held at a position of the listing.
    pub closed spec fn document(&self, i: int) -> crate::crdt_note::Note {
        self.entries@[i].note
    }

    /// The identifier of the note created last, if one was.
    pub closed spec fn latest(&self) -> Option<Seq<char>> {
        self.ids.latest()
    }

    /// No note held comes after the note created last: the repository holds
    /// only notes that it created, so that its listing is in the order of
    /// their creation.
    pub open spec fn in_creation_order(&self) -> bool {
        forall|i: int|
            0 <= i < self.listing().len() ==> not_after(
                self.latest(),
                (#[trigger] self.listing()[i]).0,
            )
    }

    /// An empty repository, which has created nothing yet.
    pub fn new() -> (notes: Notes)
        ensures
            notes.listing().len() == 0,
            notes.latest() is None,
    {
        Notes { entries: Vec::new(), ids: IdSource::new() }
    }

    /// Takes a note into the repository under its own identifier. A note
    /// without identifier or content is refused with `MissingId` or
    /// `MissingContent`, one whose identifier is already held with
    /// `DocumentError`: nothing is ever overwritten here. On refusal the
    /// repository is left as it was.
    pub fn insert(&mut self, note: crate::crdt_note::Note) -> (r: Result<Note, NoteError>)
        ensures
            ascending(ids_of(final(self).listing())),
            match (note.spec_id(), note.spec_content()) {
                (None, _) => r matches Err(NoteError::MissingId),
                (Some(_), None) => r matches Err(NoteError::MissingContent),
                (Some(id), Some(content)) => if has_id(old(self).listing(), id) {
                    r matches Err(NoteError::DocumentError(_))
                } else {
                    &&& r matches Ok(shown)
                    &&& shown.pair() == (id, content)
                    &&& is_insertion(old(self).listing(), final(self).listing(), (id, content))
                },
            },
            r is Err ==> final(self).listing() == old(self).listing(),
            final(self).latest() == old(self).latest(),
    {
        proof {
            use_type_invariant(&*self);
            lemma_pairs_ascending(self.entries@);
        }
        let id = match note.id() {
            Ok(id) => id,
            Err(e) => {
                return Err(e);
            },
        };
        let content = match note.content() {
            Ok(content) => content,
            Err(e) => {
                return Err(e);
            },
        };
        let mut entries = Vec::new();
        std::mem::swap(&mut entries, &mut self.entries);
        let done = place(&mut entries, id.clone(), note, false);
        proof {
            lemma_pairs_ascending(entries@);
        }
        self.entries = entries;
        if done {
            Ok(Note { id, content })
        } else {
            Err(NoteError::DocumentError(String::from_str("identifier already in use")))
        }
    }

    /// Creates a note from its content and takes it in under a fresh
    /// identifier: one that comes after the identifier of every note created
    /// here before, and that no note held carries. Where the repository holds
    /// only notes that it created, the new note goes to the end of the
    /// listing. The call fails with `DocumentError`, and the listing stays as
    /// it was, where the generator gives an identifier that does not come
    /// after the latest, or one that a note held carries; on a new repository
    /// it cannot fail.
    pub fn create(&mut self, content: &str) -> (r: Result<Note, NoteError>)
        ensures
            ascending(ids_of(final(self).listing())),
            match r {
                Ok(shown) => {
                    &&& shown.content@ == content@
                    &&& is_note_id(shown.id@)
                    &&& may_follow(old(self).latest(), shown.id@)
                    &&& final(self).latest() == Some(shown.id@)
                    &&& !has_id(old(self).listing(), shown.id@)
                    &&& is_insertion(old(self).listing(), final(self).listing(), shown.pair())
                    &&& old(self).in_creation_order() ==> final(self).listing() == old(
                        self,
                    ).listing().push(shown.pair()) && final(self).in_creation_order()
                },
                Err(e) => {
                    &&& e is DocumentError
                    &&& final(self).listing() == old(self).listing()
                    &&& old(self).latest() is Some || old(self).listing().len() > 0
                    &&& old(self).in_creation_order() ==> final(self).latest() == old(
                        self,
                    ).latest()
                },
            },
    {
        proof {
            use_type_invariant(&*self);
            lemma_pairs_ascending(self.entries@);
        }
        let mut ids = IdSource::new();
        std::mem::swap(&mut ids, &mut self.ids);
        let next = ids.next();
        self.ids = ids;
        let id = match next {
            Ok(id) => id,
            Err(e) => {
                return Err(e);
            },
        };
        let note = match crate::crdt_note::Note::assemble(id.as_str(), content) {
            Ok(note) => note,
            Err(e) => {
                return Err(e);
            },
        };
        proof {
            crate::crdt_note::lemma_note_fields(id@, content@);
            if old(self).in_creation_order() {
                lemma_after_all(old(self).listing(), old(self).latest(), id@);
            }
        }
        let r = self.insert(note);
        proof {
            if r is Ok && old(self).in_creation_order() {
                let before = old(self).listing();
                law_latest_goes_last(before, self.listing(), (id@, content@));
                assert forall|i: int| 0 <= i < self.listing().len() implies not_after(
                    Some(id@),
                    (#[trigger] self.listing()[i]).0,
                ) by {
                    if i < before.len() {
                        lemma_id_asymmetric(before[i].0, id@);
                    } else {
                        lemma_id_irreflexive(id@);
                    }
                }
            }
        }
        r
    }

    /// Loads a note from saved bytes and takes it in: in place of the note
    /// held under the same identifier, if there is one, otherwise as a new
    /// entry. Bytes that are no complete note are refused as
    /// `crdt_note::Note::from_bytes` refuses them, and the repository is left
    /// as it was.
    pub fn add(&mut self, data: &[u8]) -> (r: Result<Note, NoteError>)
        ensures
            ascending(ids_of(final(self).listing())),
            match r {
                Ok(shown) => {
                    &&& shown_by(data@) == Some(shown.pair())
                    &&& if has_id(old(self).listing(), shown.id@) {
                        is_replacement(old(self).listing(), final(self).listing(), shown.pair())
                    } else {
                        is_insertion(old(self).listing(), final(self).listing(), shown.pair())
                    }
                },
                Err(e) => {
                    &&& shown_by(data@) is None
                    &&& refuses(data@, e)
                    &&& final(self).listing() == old(self).listing()
                },
            },
            final(self).latest() == old(self).latest(),
    {
        proof {
            use_type_invariant(&*self);
            lemma_pairs_ascending(self.entries@);
        }
        let note = match crate::crdt_note::Note::from_bytes(data) {
            Ok(note) => note,
            Err(e) => {
                return Err(e);
            },
        };
        let id = match note.id() {
            Ok(id) => id,
            Err(e) => {
                return Err(e);
            },
        };
        let content = match note.content() {
            Ok(content) => content,
            Err(e) => {
                return Err(e);
            },
        };
        let mut entries = Vec::new();
        std::mem::swap(&mut entries, &mut self.entries);
        let _ = place(&mut entries, id.clone(), note, true);
        proof {
            lemma_pairs_ascending(entries@);
        }
        self.entries = entries;
        Ok(Note { id, content })
    }

    /// The note with this identifier, or `NotFound` with the identifier.
    pub fn get(&self, id: &str) -> (r: Result<Note, NoteError>)
        ensures
            match r {
                Ok(shown) => shown.id@ == id@ && self.listing().contains(shown.pair()),
                Err(e) => e matches NoteError::NotFound(missing) && missing@ == id@ && !has_id(
                    self.listing(),
                    id@,
                ),
            },
    {
        proof {
            use_type_invariant(self);
        }
        let (p, found) = locate(&self.entries, id);
        if !found {
            return Err(NoteError::NotFound(String::from_str(id)));
        }
        match self.entries[p].note.content() {
            Ok(content) => {
                let shown = Note { id: self.entries[p].id.clone(), content };
                assert(self.listing()[p as int] == shown.pair());
                Ok(shown)
            },
            Err(e) => Err(e),
        }
    }

    /// The saved bytes of the note with this identifier, which are not empty
    /// and show that note, or `NotFound` with the identifier. The listing
    /// stays as it was, and so does what each document shows and holds.
    pub fn get_bytes(&mut self, id: &str) -> (r: Result<Vec<u8>, NoteError>)
        ensures
            final(self).listing() == old(self).listing(),
            final(self).latest() == old(self).latest(),
            forall|i: int|
                0 <= i < old(self).listing().len() ==> {
                    &&& (#[trigger] final(self).document(i)).fields() == old(self).document(
                        i,
                    ).fields()
                    &&& final(self).document(i).changes() == old(self).document(i).changes()
                },
            match r {
                Ok(bytes) => bytes@.len() > 0 && exists|i: int|
                    0 <= i < old(self).listing().len() && (#[trigger] old(self).listing()[i]).0
                        == id@ && shown_by(bytes@) == Some(old(self).listing()[i]) && decoded(
                        bytes@,
                    ) == Some((old(self).document(i).fields(), old(self).document(i).changes())),
                Err(e) => e matches NoteError::NotFound(missing) && missing@ == id@ && !has_id(
                    old(self).listing(),
                    id@,
                ),
            },
    {
        proof {
            use_type_invariant(&*self);
        }
        let (p, found) = locate(&self.entries, id);
        if !found {
            return Err(NoteError::NotFound(String::from_str(id)));
        }
        let mut entries = Vec::new();
        std::mem::swap(&mut entries, &mut self.entries);
        let ghost before = entries@;
        let mut entry = entries.remove(p);
        let bytes = entry.note.into_bytes();
        entries.insert(p, entry);
        proof {
            assert forall|i: int| 0 <= i < before.len() implies (#[trigger] entries@[i]).id@
                == before[i].id@ && entries@[i].note.fields() == before[i].note.fields()
                && entries@[i].note.changes() == before[i].note.changes() by {}
            assert(pairs(entries@) =~= pairs(before));
            assert(old(self).listing()[p as int].0 == id@);
            assert(old(self).document(p as int) == before[p as int].note);
            assert(before[p as int].sound());
            assert(shown_by(bytes@) == Some(old(self).listing()[p as int]));
        }
        self.entries = entries;
        Ok(bytes)
    }

    /// All notes, in ascending order of identifier.
    pub fn list(&self) -> (r: Result<Vec<Note>, NoteError>)
        ensures
            ascending(ids_of(self.listing())),
            r matches Ok(shown) && shown@.len() == self.listing().len() && forall|i: int|
                0 <= i < shown@.len() ==> (#[trigger] shown@[i]).pair() == self.listing()[i],
    {
        proof {
            use_type_invariant(self);
            lemma_pairs_ascending(self.entries@);
        }
        let mut shown: Vec<Note> = Vec::new();
        let mut i: usize = 0;
        while i < self.entries.len()
            invariant
                i <= self.entries@.len(),
                sound_entries(self.entries@),
                shown@.len() == i,
                forall|j: int| 0 <= j < i ==> (#[trigger] shown@[j]).pair() == self.listing()[j],
            decreases self.entries@.len() - i,
        {
            match self.entries[i].note.content() {
                Ok(content) => {
                    shown.push(Note { id: self.entries[i].id.clone(), content });
                },
                Err(e) => {
                    return Err(e);
                },
            }
            i += 1;
        }
        Ok(shown)
    }

    /// Removes the note with this identifier; the others keep their order,
    /// and a listing in creation order stays so.
    /// Where no note has it, the call fails with `NotFound` and the
    /// identifier, and the repository is left as it was.
    pub fn delete(&mut self, id: &str) -> (r: Result<(), NoteError>)
        ensures
            ascending(ids_of(final(self).listing())),
            final(self).latest() == old(self).latest(),
            old(self).in_creation_order() ==> final(self).in_creation_order(),
            match r {
                Ok(()) => is_removal(old(self).listing(), final(self).listing(), id@),
                Err(e) => {
                    &&& e matches NoteError::NotFound(missing)
                    &&& missing@ == id@
                    &&& !has_id(old(self).listing(), id@)
                    &&& final(self).listing() == old(self).listing()
                },
            },
    {
        proof {
            use_type_invariant(&*self);
            lemma_pairs_ascending(self.entries@);
        }
        let (p, found) = locate(&self.entries, id);
        if !found {
            return Err(NoteError::NotFound(String::from_str(id)));
        }
        let mut entries = Vec::new();
        std::mem::swap(&mut entries, &mut self.entries);
        let ghost before = entries@;
        let _ = entries.remove(p);
        proof {
            assert(pairs(entries@) =~= pairs(before).remove(p as int));
            assert(pairs(before)[p as int].0 == id@);
            assert forall|i: int, j: int| 0 <= i < j < entries@.len() implies id_lt(
                (#[trigger] entries@[i]).id@,
                (#[trigger] entries@[j]).id@,
            ) by {
                let a = if i < p { i } else { i + 1 };
                let b = if j < p { j } else { j + 1 };
                assert(entries@[i] == before[a]);
                assert(entries@[j] == before[b]);
            }
            lemma_pairs_ascending(entries@);
        }
        self.entries = entries;
        proof {
            if old(self).in_creation_order() {
                assert forall|i: int| 0 <= i < self.listing().len() implies not_after(
                    self.latest(),
                    (#[trigger] self.listing()[i]).0,
                ) by {
                    let x = if i < p { i } else { i + 1 };
                    assert(self.listing()[i] == old(self).listing()[x]);
                }
            }
        }
        Ok(())
    }
}

} // verus!
