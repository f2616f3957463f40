//! The content store: one record of bytes per note identifier.
//!
//! `Storage` is the interface that the service works against. This crate
//! brings one store that lives in memory and keeps a journal of the changes
//! made to it, and the naming convention of a store that keeps each record in
//! a file of its own. To keep records in files, read them into the store in
//! memory and carry its journal out on the files.

use crate::order::str_eq;
use vstd::prelude::*;
use vstd::string::*;

verus! {

/// Why a store could not do what it was asked.
#[derive(Debug)]
pub enum StorageError {
    /// Reading or writing failed.
    IoError(String),
    /// A value could not be turned into bytes or back.
    SerializationError(String),
}

impl StorageError {
    /// The text of this failure.
    pub open spec fn spec_message(&self) -> Seq<char> {
        match self {
            StorageError::IoError(detail) => "I/O error: "@ + detail@,
            StorageError::SerializationError(detail) => "Serialization error: "@ + detail@,
        }
    }

    /// The text of this failure.
    pub fn message(&self) -> (text: String)
        ensures
            text@ == self.spec_message(),
    {
        match self {
            StorageError::IoError(detail) => {
                let mut text = String::from_str("I/O error: ");
                text.append(detail.as_str());
                text
            },
            StorageError::SerializationError(detail) => {
                let mut text = String::from_str("Serialization error: ");
                text.append(detail.as_str());
                text
            },
        }
    }
}

/// The result of a store operation.
pub type StorageResult<T> = Result<T, StorageError>;

/// No key occurs twice.
pub open spec fn distinct_keys(keys: Seq<String>) -> bool {
    forall|i: int, j: int|
        0 <= i < j < keys.len() ==> (#[trigger] keys[i])@ != (#[trigger] keys[j])@
}

/// Whether `key` is among `keys`.
pub open spec fn lists_key(keys: Seq<String>, key: Seq<char>) -> bool {
    exists|i: int| 0 <= i < keys.len() && (#[trigger] keys[i])@ == key
}

/// A key-value store of records. An implementation keeps what its contract
/// says of `records`: an operation that fails leaves the records as they
/// were. Whether one fails is the implementation's affair, unless it
/// declares itself dependable: then none does.
pub trait Storage {
    /// The records held, by key.
    spec fn records(&self) -> Map<Seq<char>, Seq<u8>>;

    /// Whether every operation on this store succeeds.
    spec fn dependable(&self) -> bool;

    /// The record under `key`, or `None` where there is none.
    fn get(&self, key: &str) -> (r: StorageResult<Option<Vec<u8>>>)
        ensures
            self.dependable() ==> r is Ok,
            r matches Ok(found) ==> match found {
                Some(bytes) => self.records().contains_key(key@) && self.records()[key@]
                    == bytes@,
                None => !self.records().contains_key(key@),
            },
    ;

    /// Puts `value` under `key` in place of whatever was there.
    fn set(&mut self, key: &str, value: &[u8]) -> (r: StorageResult<()>)
        ensures
            old(self).dependable() ==> r is Ok,
            final(self).dependable() == old(self).dependable(),
            r is Ok ==> final(self).records() == old(self).records().insert(key@, value@),
            r is Err ==> final(self).records() == old(self).records(),
    ;

    /// Removes the record under `key`; without one there is nothing to do.
    fn delete(&mut self, key: &str) -> (r: StorageResult<()>)
        ensures
            old(self).dependable() ==> r is Ok,
            final(self).dependable() == old(self).dependable(),
            r is Ok ==> final(self).records() == old(self).records().remove(key@),
            r is Err ==> final(self).records() == old(self).records(),
    ;

    /// Every key that holds a record, each once, in no particular order.
    fn list(&self) -> (r: StorageResult<Vec<String>>)
        ensures
            self.dependable() ==> r is Ok,
            r matches Ok(keys) ==> {
                &&& distinct_keys(keys@)
                &&& forall|key: Seq<char>|
                    self.records().contains_key(key) <==> lists_key(keys@, key)
            },
    ;
}

/// The extension that marks a file as a note record.
pub open spec fn record_suffix() -> Seq<char> {
    ".note"@
}

/// The file name of the record with this key.
pub open spec fn record_name(key: Seq<char>) -> Seq<char> {
    key + record_suffix()
}

/// The key of the record that a file name stands for: the name without its
/// extension, where that extension is the record extension and something
/// stands before it. Any other name is no record.
pub open spec fn key_of_name(name: Seq<char>) -> Option<Seq<char>> {
    let cut = name.len() - record_suffix().len();
    if cut > 0 && name.subrange(cut, name.len() as int) == record_suffix() {
        Some(name.subrange(0, cut))
    } else {
        None
    }
}

/// The path of a file in a directory.
pub open spec fn path_in(dir: Seq<char>, name: Seq<char>) -> Seq<char> {
    dir + "/"@ + name
}

/// The suffix has five characters.
pub proof fn lemma_suffix_len()
    ensures
        record_suffix().len() == 5,
{
    reveal_strlit(".note");
}

/// A record's file name leads back to its key, whatever the key, as long as it
/// is not empty.
pub proof fn lemma_name_round_trip(key: Seq<char>)
    requires
        key.len() > 0,
    ensures
        key_of_name(record_name(key)) == Some(key),
{
    let name = record_name(key);
    let cut = name.len() - record_suffix().len();
    assert(cut == key.len());
    assert(name.subrange(cut, name.len() as int) =~= record_suffix());
    assert(name.subrange(0, cut) =~= key);
}

/// A name that stands for a record is that record's file name.
pub proof fn lemma_key_round_trip(name: Seq<char>)
    requires
        key_of_name(name) is Some,
    ensures
        record_name(key_of_name(name).unwrap()) == name,
{
    let cut = name.len() - record_suffix().len();
    assert(name.subrange(0, cut) + name.subrange(cut, name.len() as int) =~= name);
}

/// The naming convention of a store that keeps each record in a file of its
/// own, all in one directory. Paths are written with `/`.
pub struct FileSystemStorage {
    notes_dir: String,
}

impl FileSystemStorage {
    /// The directory that holds the record files.
    pub closed spec fn dir(&self) -> Seq<char> {
        self.notes_dir@
    }

    /// The store whose records lie in the directory `notes` under `base_path`.
    pub fn new(base_path: &str) -> (storage: FileSystemStorage)
        ensures
            storage.dir() == path_in(base_path@, "notes"@),
    {
        let mut notes_dir = String::from_str(base_path);
        notes_dir.append("/");
        notes_dir.append("notes");
        FileSystemStorage { notes_dir }
    }

    /// The directory that holds the record files.
    pub fn notes_dir(&self) -> (dir: &str)
        ensures
            dir@ == self.dir(),
    {
        self.notes_dir.as_str()
    }

    /// The path of the file that holds the record with this key.
    pub fn note_path(&self, uuid: &str) -> (path: String)
        ensures
            path@ == path_in(self.dir(), record_name(uuid@)),
    {
        let mut path = self.notes_dir.clone();
        path.append("/");
        path.append(uuid);
        path.append(".note");
        assert(path@ =~= path_in(self.dir(), record_name(uuid@)));
        path
    }

    /// The key of the record that a file of this name holds, or `None` for a
    /// file that is no record.
    pub fn key_of(name: &str) -> (key: Option<String>)
        ensures
            match key_of_name(name@) {
                Some(k) => key matches Some(s) && s@ == k,
                None => key is None,
            },
    {
        proof {
            lemma_suffix_len();
        }
        let n = name.unicode_len();
        if n <= 5 {
            return None;
        }
        if str_eq(name.substring_char(n - 5, n), ".note") {
            Some(String::from_str(name.substring_char(0, n - 5)))
        } else {
            None
        }
    }

    /// The keys of the records among the files of these names, in the order
    /// of the names. Files that are no records are passed over.
    pub fn keys_of(names: &Vec<String>) -> (keys: Vec<String>)
        ensures
            keys@.map_values(|k: String| k@) == record_keys(names@.map_values(|n: String| n@)),
    {
        let mut keys: Vec<String> = Vec::new();
        let mut i: usize = 0;
        let ghost all = names@.map_values(|n: String| n@);
        while i < names.len()
            invariant
                i <= names@.len(),
                all == names@.map_values(|n: String| n@),
                keys@.map_values(|k: String| k@) == record_keys(all.take(i as int)),
            decreases names@.len() - i,
        {
            let key = FileSystemStorage::key_of(names[i].as_str());
            proof {
                assert(all.take(i + 1).drop_last() =~= all.take(i as int));
                assert(all.take(i + 1).last() == names@[i as int]@);
            }
            match key {
                Some(key) => {
                    let ghost before = keys@;
                    keys.push(key);
                    assert(keys@.map_values(|k: String| k@) =~= before.map_values(
                        |k: String| k@,
                    ).push(key@));
                },
                None => {},
            }
            i += 1;
        }
        assert(all.take(names@.len() as int) =~= all);
        keys
    }
}

/// The keys of the records among these file names, in their order.
pub open spec fn record_keys(names: Seq<Seq<char>>) -> Seq<Seq<char>>
    decreases names.len(),
{
    if names.len() == 0 {
        Seq::empty()
    } else {
        match key_of_name(names.last()) {
            Some(key) => record_keys(names.drop_last()).push(key),
            None => record_keys(names.drop_last()),
        }
    }
}

/// A copy of the bytes.
pub fn copy_bytes(bytes: &[u8]) -> (copy: Vec<u8>)
    ensures
        copy@ == bytes@,
{
    let mut copy: Vec<u8> = Vec::new();
    let mut i: usize = 0;
    while i < bytes.len()
        invariant
            i <= bytes@.len(),
            copy@ == bytes@.take(i as int),
        decreases bytes@.len() - i,
    {
        copy.push(bytes[i]);
        assert(bytes@.take(i + 1) =~= bytes@.take(i as int).push(bytes@[i as int]));
        i += 1;
    }
    assert(bytes@.take(bytes@.len() as int) =~= bytes@);
    copy
}

struct Record {
    key: String,
    value: Vec<u8>,
}

spec fn distinct_records(records: Seq<Record>) -> bool {
    forall|i: int, j: int|
        0 <= i < j < records.len() ==> (#[trigger] records[i]).key@ != (#[trigger] records[j]).key@
}

spec fn holds_key(records: Seq<Record>, key: Seq<char>) -> bool {
    exists|i: int| 0 <= i < records.len() && (#[trigger] records[i]).key@ == key
}

spec fn slot(records: Seq<Record>, key: Seq<char>) -> int {
    choose|i: int| 0 <= i < records.len() && (#[trigger] records[i]).key@ == key
}

spec fn records_of(records: Seq<Record>) -> Map<Seq<char>, Seq<u8>> {
    Map::new(
        |key: Seq<char>| holds_key(records, key),
        |key: Seq<char>| records[slot(records, key)].value@,
    )
}

proof fn lemma_slot(records: Seq<Record>, i: int)
    requires
        distinct_records(records),
        0 <= i < records.len(),
    ensures
        holds_key(records, records[i].key@),
        slot(records, records[i].key@) == i,
        records_of(records).contains_key(records[i].key@),
        records_of(records)[records[i].key@] == records[i].value@,
{
    let key = records[i].key@;
    let s = slot(records, key);
    assert(0 <= s < records.len() && records[s].key@ == key);
    if s < i {
        assert(records[s].key@ != records[i].key@);
    } else if i < s {
        assert(records[i].key@ != records[s].key@);
    }
}

/// The position of the record under `key`, if there is one.
fn find(records: &Vec<Record>, key: &str) -> (r: Option<usize>)
    ensures
        match r {
            Some(i) => i < records@.len() && records@[i as int].key@ == key@,
            None => !holds_key(records@, key@),
        },
{
    let mut i: usize = 0;
    while i < records.len()
        invariant
            i <= records@.len(),
            forall|j: int| 0 <= j < i ==> (#[trigger] records@[j]).key@ != key@,
        decreases records@.len() - i,
    {
        if str_eq(records[i].key.as_str(), key) {
            return Some(i);
        }
        i += 1;
    }
    None
}

/// Puts a record under its key, in place of the one that was there.
fn put_record(held: &mut Vec<Record>, key: &str, value: &[u8])
    requires
        distinct_records(old(held)@),
    ensures
        distinct_records(final(held)@),
        records_of(final(held)@) == records_of(old(held)@).insert(key@, value@),
{
    let ghost before = held@;
    let record = Record { key: String::from_str(key), value: copy_bytes(value) };
    match find(held, key) {
        Some(i) => {
            held.set(i, record);
            proof {
                assert forall|a: int, b: int| 0 <= a < b < held@.len() implies (
                #[trigger] held@[a]).key@ != (#[trigger] held@[b]).key@ by {
                    assert(held@[a].key@ == before[a].key@);
                    assert(held@[b].key@ == before[b].key@);
                }
                lemma_slot(held@, i as int);
                assert forall|k: Seq<char>| holds_key(held@, k) == (k == key@ || holds_key(
                    before,
                    k,
                )) by {
                    if holds_key(held@, k) {
                        let j = slot(held@, k);
                        assert(before[j].key@ == k);
                    }
                    if holds_key(before, k) {
                        let j = slot(before, k);
                        assert(held@[j].key@ == k);
                    }
                }
            }
        },
        None => {
            held.push(record);
            proof {
                let last = held@.len() - 1;
                assert forall|a: int, b: int| 0 <= a < b < held@.len() implies (
                #[trigger] held@[a]).key@ != (#[trigger] held@[b]).key@ by {
                    assert(held@[a] == before[a]);
                    if b < last {
                        assert(held@[b] == before[b]);
                    }
                }
                lemma_slot(held@, last);
                assert forall|k: Seq<char>| holds_key(held@, k) == (k == key@ || holds_key(
                    before,
                    k,
                )) by {
                    if holds_key(held@, k) && k != key@ {
                        let j = slot(held@, k);
                        assert(before[j].key@ == k);
                    }
                    if holds_key(before, k) {
                        let j = slot(before, k);
                        assert(held@[j].key@ == k);
                    }
                }
            }
        },
    }
    proof {
        assert forall|k: Seq<char>| k != key@ && holds_key(before, k) implies records_of(held@)[k]
            == records_of(before)[k] by {
            let j = slot(before, k);
            lemma_slot(before, j);
            assert(held@[j] == before[j]);
            lemma_slot(held@, j);
        }
        assert(records_of(held@) =~= records_of(before).insert(key@, value@));
    }
}

/// Takes the record under a key away, if there is one.
fn drop_record(held: &mut Vec<Record>, key: &str)
    requires
        distinct_records(old(held)@),
    ensures
        distinct_records(final(held)@),
        records_of(final(held)@) == records_of(old(held)@).remove(key@),
{
    let ghost before = held@;
    match find(held, key) {
        Some(i) => {
            let _ = held.remove(i);
            proof {
                assert forall|a: int, b: int| 0 <= a < b < held@.len() implies (
                #[trigger] held@[a]).key@ != (#[trigger] held@[b]).key@ by {
                    let x = if a < i { a } else { a + 1 };
                    let y = if b < i { b } else { b + 1 };
                    assert(held@[a] == before[x]);
                    assert(held@[b] == before[y]);
                }
                assert forall|k: Seq<char>| holds_key(held@, k) == (k != key@ && holds_key(
                    before,
                    k,
                )) by {
                    if holds_key(held@, k) {
                        let j = slot(held@, k);
                        let x = if j < i { j } else { j + 1 };
                        assert(held@[j] == before[x]);
                        if x < i {
                            assert(before[x].key@ != before[i as int].key@);
                        } else {
                            assert(before[i as int].key@ != before[x].key@);
                        }
                    }
                    if holds_key(before, k) && k != key@ {
                        let j = slot(before, k);
                        let x = if j < i { j } else { j - 1 };
                        assert(held@[x] == before[j]);
                    }
                }
                assert forall|k: Seq<char>| holds_key(held@, k) implies records_of(held@)[k]
                    == records_of(before)[k] by {
                    let j = slot(held@, k);
                    let x = if j < i { j } else { j + 1 };
                    assert(held@[j] == before[x]);
                    lemma_slot(held@, j);
                    lemma_slot(before, x);
                }
            }
        },
        None => {},
    }
    proof {
        assert(records_of(held@) =~= records_of(before).remove(key@));
    }
}

/// One change to a store's records.
#[derive(Debug)]
pub enum Change {
    /// These bytes were put under this key.
    Write(String, Vec<u8>),
    /// The record under this key was removed.
    Remove(String),
}

impl Change {
    /// The records after this change.
    pub open spec fn apply(self, records: Map<Seq<char>, Seq<u8>>) -> Map<Seq<char>, Seq<u8>> {
        match self {
            Change::Write(key, value) => records.insert(key@, value@),
            Change::Remove(key) => records.remove(key@),
        }
    }
}

/// The records after these changes, made one after the other.
pub open spec fn replay(changes: Seq<Change>, records: Map<Seq<char>, Seq<u8>>) -> Map<
    Seq<char>,
    Seq<u8>,
>
    decreases changes.len(),
{
    if changes.len() == 0 {
        records
    } else {
        changes.last().apply(replay(changes.drop_last(), records))
    }
}

struct Shelf {
    held: Vec<Record>,
    journal: Vec<Change>,
    settled: Ghost<Map<Seq<char>, Seq<u8>>>,
}

impl Shelf {
    spec fn sound(self) -> bool {
        &&& distinct_records(self.held@)
        &&& records_of(self.held@) == replay(self.journal@, self.settled@)
    }

    fn empty() -> (shelf: Shelf)
        ensures
            shelf.sound(),
            shelf.held@.len() == 0,
            shelf.journal@.len() == 0,
            shelf.settled@ == Map::<Seq<char>, Seq<u8>>::empty(),
    {
        let shelf = Shelf { held: Vec::new(), journal: Vec::new(), settled: Ghost(Map::empty()) };
        assert(records_of(shelf.held@) =~= Map::empty());
        shelf
    }

    fn note(&mut self, change: Change)
        requires
            distinct_records(old(self).held@),
            records_of(old(self).held@) == change.apply(
                replay(old(self).journal@, old(self).settled@),
            ),
        ensures
            final(self).sound(),
            final(self).held == old(self).held,
            final(self).settled == old(self).settled,
    {
        let ghost before = self.journal@;
        self.journal.push(change);
        assert(self.journal@.drop_last() =~= before);
    }
}

/// A content store that lives in memory. It keeps a journal of the changes
/// made to it, so that they can be carried out elsewhere: on the records as
/// they were when the journal was last taken, the journal leads to the
/// records as they are.
pub struct MemoryStorage {
    shelf: Shelf,
}

impl MemoryStorage {
    #[verifier::type_invariant]
    spec fn sound(self) -> bool {
        self.shelf.sound()
    }

    /// The records as they were when the journal was last taken.
    pub closed spec fn settled(&self) -> Map<Seq<char>, Seq<u8>> {
        self.shelf.settled@
    }

    /// A store without records.
    pub fn new() -> (storage: MemoryStorage)
        ensures
            storage.records() == Map::<Seq<char>, Seq<u8>>::empty(),
            storage.settled() == Map::<Seq<char>, Seq<u8>>::empty(),
    {
        let storage = MemoryStorage { shelf: Shelf::empty() };
        assert(storage.records() =~= Map::empty());
        storage
    }

    /// Hands out the changes made since the journal was last taken, in the
    /// order in which they were made, and starts a new journal. The records
    /// stay as they are.
    pub fn take_journal(&mut self) -> (changes: Vec<Change>)
        ensures
            replay(changes@, old(self).settled()) == old(self).records(),
            final(self).records() == old(self).records(),
            final(self).settled() == old(self).records(),
    {
        proof {
            use_type_invariant(&*self);
        }
        let mut shelf = Shelf::empty();
        std::mem::swap(&mut shelf, &mut self.shelf);
        let Shelf { held, journal, settled } = shelf;
        self.shelf = Shelf { held, journal: Vec::new(), settled: Ghost(records_of(held@)) };
        journal
    }
}

impl Storage for MemoryStorage {
    closed spec fn records(&self) -> Map<Seq<char>, Seq<u8>> {
        records_of(self.shelf.held@)
    }

    /// A store in memory is dependable.
    open spec fn dependable(&self) -> bool {
        true
    }

    /// Always succeeds.
    fn get(&self, key: &str) -> (r: StorageResult<Option<Vec<u8>>>)
        ensures
            r is Ok,
    {
        proof {
            use_type_invariant(self);
        }
        match find(&self.shelf.held, key) {
            Some(i) => {
                proof {
                    lemma_slot(self.shelf.held@, i as int);
                }
                Ok(Some(copy_bytes(self.shelf.held[i].value.as_slice())))
            },
            None => Ok(None),
        }
    }

    /// Always succeeds, and leaves what was settled as it was.
    fn set(&mut self, key: &str, value: &[u8]) -> (r: StorageResult<()>)
        ensures
            r is Ok,
            final(self).settled() == old(self).settled(),
    {
        proof {
            use_type_invariant(&*self);
        }
        let mut shelf = Shelf::empty();
        std::mem::swap(&mut shelf, &mut self.shelf);
        put_record(&mut shelf.held, key, value);
        shelf.note(Change::Write(String::from_str(key), copy_bytes(value)));
        self.shelf = shelf;
        Ok(())
    }

    /// Always succeeds, and leaves what was settled as it was.
    fn delete(&mut self, key: &str) -> (r: StorageResult<()>)
        ensures
            r is Ok,
            final(self).settled() == old(self).settled(),
    {
        proof {
            use_type_invariant(&*self);
        }
        let mut shelf = Shelf::empty();
        std::mem::swap(&mut shelf, &mut self.shelf);
        drop_record(&mut shelf.held, key);
        shelf.note(Change::Remove(String::from_str(key)));
        self.shelf = shelf;
        Ok(())
    }

    /// Always succeeds; the keys come in the order in which they were first
    /// set.
    fn list(&self) -> (r: StorageResult<Vec<String>>)
        ensures
            r is Ok,
    {
        proof {
            use_type_invariant(self);
        }
        let held = &self.shelf.held;
        let mut keys: Vec<String> = Vec::new();
        let mut i: usize = 0;
        while i < held.len()
            invariant
                i <= held@.len(),
                keys@.len() == i,
                forall|j: int| 0 <= j < i ==> (#[trigger] keys@[j])@ == held@[j].key@,
            decreases held@.len() - i,
        {
            keys.push(held[i].key.clone());
            i += 1;
        }
        proof {
            assert forall|key: Seq<char>| self.records().contains_key(key) <==> lists_key(
                keys@,
                key,
            ) by {
                if holds_key(held@, key) {
                    let j = slot(held@, key);
                    assert(keys@[j]@ == key);
                }
                if lists_key(keys@, key) {
                    let j = choose|j: int| 0 <= j < keys@.len() && (#[trigger] keys@[j])@ == key;
                    assert(held@[j].key@ == key);
                }
            }
            assert forall|a: int, b: int| 0 <= a < b < keys@.len() implies (#[trigger] keys@[a])@
                != (#[trigger] keys@[b])@ by {
                assert(held@[a].key@ != held@[b].key@);
            }
        }
        Ok(keys)
    }
}

} // verus!
