use notes::crdt_note::Note;
use notes::error::{to_decimal, NoteError};
use notes::notes::Notes;
use notes::order::{str_eq, str_lt};
use notes::service::{io_error, NoteService};
use notes::storage::{
    copy_bytes, Change, FileSystemStorage, MemoryStorage, Storage, StorageError,
};

#[test]
fn created_note_is_stored_under_its_identifier() {
    let mut service = NoteService::new(MemoryStorage::new());
    let shown = service.create("persist me").unwrap();
    assert_eq!(shown.content, "persist me");

    let keys = service.storage().list().unwrap();
    assert_eq!(keys, vec![shown.id.clone()]);

    let bytes = service.storage().get(&shown.id).unwrap().unwrap();
    let loaded = Note::from_bytes(&bytes).unwrap();
    assert_eq!(loaded.id().unwrap(), shown.id);
    assert_eq!(loaded.content().unwrap(), "persist me");
}

#[test]
fn list_reads_what_another_session_stored() {
    let mut storage = MemoryStorage::new();
    let mut late = Note::assemble("b-id", "later").unwrap();
    let mut early = Note::assemble("a-id", "earlier").unwrap();
    storage.set("b-id", &late.into_bytes()).unwrap();
    storage.set("a-id", &early.into_bytes()).unwrap();

    let mut service = NoteService::new(storage);
    let shown = service.list().unwrap();
    assert_eq!(shown.len(), 2);
    assert_eq!(shown[0].id, "a-id");
    assert_eq!(shown[0].content, "earlier");
    assert_eq!(shown[1].id, "b-id");
    assert_eq!(shown[1].content, "later");
}

#[test]
fn a_corrupt_record_fails_the_whole_listing() {
    let mut storage = MemoryStorage::new();
    let mut good = Note::assemble("good", "fine").unwrap();
    storage.set("good", &good.into_bytes()).unwrap();
    storage.set("bad", b"garbage").unwrap();

    let mut service = NoteService::new(storage);
    assert!(matches!(
        service.list(),
        Err(NoteError::DeserializationError(_))
    ));
    assert!(matches!(
        service.delete_by_index(1),
        Err(NoteError::DeserializationError(_))
    ));
    assert_eq!(service.storage().list().unwrap().len(), 2);
}

#[test]
fn merge_replica_stores_a_new_note() {
    let mut service = NoteService::new(MemoryStorage::new());
    let mut incoming = Note::assemble("n1", "from elsewhere").unwrap();
    service.merge_replica("n1", &incoming.into_bytes()).unwrap();

    let shown = service.list().unwrap();
    assert_eq!(shown.len(), 1);
    assert_eq!(shown[0].id, "n1");
    assert_eq!(shown[0].content, "from elsewhere");
}

#[test]
fn merge_replica_of_the_same_state_changes_nothing() {
    let mut service = NoteService::new(MemoryStorage::new());
    let shown = service.create("unchanged").unwrap();
    let stored = service.storage().get(&shown.id).unwrap().unwrap();

    service.merge_replica(&shown.id, &stored).unwrap();

    let listed = service.list().unwrap();
    assert_eq!(listed.len(), 1);
    assert_eq!(listed[0].id, shown.id);
    assert_eq!(listed[0].content, "unchanged");
}

#[test]
fn merge_replica_brings_in_an_edit_made_elsewhere() {
    let mut service = NoteService::new(MemoryStorage::new());
    let shown = service.create("draft").unwrap();
    let stored = service.storage().get(&shown.id).unwrap().unwrap();

    let mut elsewhere = Note::from_bytes(&stored).unwrap();
    elsewhere.update("final").unwrap();
    service
        .merge_replica(&shown.id, &elsewhere.into_bytes())
        .unwrap();

    let listed = service.list().unwrap();
    assert_eq!(listed.len(), 1);
    assert_eq!(listed[0].id, shown.id);
    assert_eq!(listed[0].content, "final");
}

#[test]
fn merge_replica_refuses_what_is_not_that_note() {
    let mut service = NoteService::new(MemoryStorage::new());
    let mut other = Note::assemble("other", "text").unwrap();
    match service.merge_replica("wanted", &other.into_bytes()) {
        Err(NoteError::NotFound(id)) => assert_eq!(id, "wanted"),
        _ => panic!("expected NotFound"),
    }
    assert!(matches!(
        service.merge_replica("wanted", b"junk"),
        Err(NoteError::DeserializationError(_))
    ));
    assert_eq!(service.storage().list().unwrap().len(), 0);
}

#[test]
fn repository_never_overwrites() {
    let mut notes = Notes::new();
    let first = Note::assemble("same", "first").unwrap();
    let second = Note::assemble("same", "second").unwrap();
    assert_eq!(notes.insert(first).unwrap().content, "first");
    assert!(matches!(
        notes.insert(second),
        Err(NoteError::DocumentError(_))
    ));
    assert_eq!(notes.get("same").unwrap().content, "first");
    assert_eq!(notes.list().unwrap().len(), 1);
}

#[test]
fn repository_add_refreshes_a_note() {
    let mut notes = Notes::new();
    let mut old = Note::assemble("k", "old").unwrap();
    let mut new = Note::assemble("k", "new").unwrap();
    let mut other = Note::assemble("a", "other").unwrap();

    assert_eq!(notes.add(&old.into_bytes()).unwrap().content, "old");
    assert_eq!(notes.add(&other.into_bytes()).unwrap().id, "a");
    assert_eq!(notes.add(&new.into_bytes()).unwrap().content, "new");

    let listed = notes.list().unwrap();
    assert_eq!(listed.len(), 2);
    assert_eq!(listed[0].id, "a");
    assert_eq!(listed[1].id, "k");
    assert_eq!(listed[1].content, "new");

    assert!(matches!(
        notes.add(b"junk"),
        Err(NoteError::DeserializationError(_))
    ));
    assert_eq!(notes.list().unwrap().len(), 2);
}

#[test]
fn repository_keeps_order_whatever_the_order_of_arrival() {
    let mut notes = Notes::new();
    for id in ["m", "c", "x", "a", "mm", "b"] {
        notes.insert(Note::assemble(id, id).unwrap()).unwrap();
    }
    let listed: Vec<String> = notes.list().unwrap().into_iter().map(|n| n.id).collect();
    assert_eq!(listed, vec!["a", "b", "c", "m", "mm", "x"]);

    notes.delete("m").unwrap();
    let listed: Vec<String> = notes.list().unwrap().into_iter().map(|n| n.id).collect();
    assert_eq!(listed, vec!["a", "b", "c", "mm", "x"]);
}

#[test]
fn repository_hands_out_the_saved_document() {
    let mut notes = Notes::new();
    let shown = notes.create("bytes of mine").unwrap();
    let bytes = notes.get_bytes(&shown.id).unwrap();
    let loaded = Note::from_bytes(&bytes).unwrap();
    assert_eq!(loaded.id().unwrap(), shown.id);
    assert_eq!(loaded.content().unwrap(), "bytes of mine");
    assert_eq!(notes.get(&shown.id).unwrap().content, "bytes of mine");

    match notes.get_bytes("nobody") {
        Err(NoteError::NotFound(id)) => assert_eq!(id, "nobody"),
        _ => panic!("expected NotFound"),
    }
}

#[test]
fn memory_store_overwrites_and_deletes_idempotently() {
    let mut storage = MemoryStorage::new();
    storage.set("k", b"one").unwrap();
    storage.set("k", b"two").unwrap();
    assert_eq!(storage.get("k").unwrap(), Some(b"two".to_vec()));
    assert_eq!(storage.list().unwrap(), vec!["k".to_string()]);

    storage.delete("absent").unwrap();
    storage.delete("k").unwrap();
    storage.delete("k").unwrap();
    assert_eq!(storage.get("k").unwrap(), None);
    assert!(storage.list().unwrap().is_empty());
}

#[test]
fn record_files_follow_the_naming_convention() {
    let storage = FileSystemStorage::new("/data/qot");
    assert_eq!(storage.notes_dir(), "/data/qot/notes");
    assert_eq!(
        storage.note_path("0190-abc"),
        "/data/qot/notes/0190-abc.note"
    );

    assert_eq!(
        FileSystemStorage::key_of("0190-abc.note"),
        Some("0190-abc".to_string())
    );
    assert_eq!(
        FileSystemStorage::key_of("a.b.note"),
        Some("a.b".to_string())
    );
    assert_eq!(
        FileSystemStorage::key_of("\u{e9}t\u{e9}.note"),
        Some("\u{e9}t\u{e9}".to_string())
    );
    assert_eq!(FileSystemStorage::key_of(".note"), None);
    assert_eq!(FileSystemStorage::key_of("note"), None);
    assert_eq!(FileSystemStorage::key_of("abc.txt"), None);
    assert_eq!(FileSystemStorage::key_of("abc.note.tmp"), None);
    assert_eq!(FileSystemStorage::key_of("abc.NOTE"), None);
    assert_eq!(FileSystemStorage::key_of(""), None);
}

#[test]
fn only_record_files_are_listed() {
    let names: Vec<String> = ["b.note", "readme.md", ".note", "a.note", "c.note.tmp"]
        .iter()
        .map(|s| s.to_string())
        .collect();
    assert_eq!(FileSystemStorage::keys_of(&names), vec!["b", "a"]);
    assert!(FileSystemStorage::keys_of(&Vec::new()).is_empty());
}

#[test]
fn identifiers_are_ordered_like_strings() {
    let samples = ["", "a", "ab", "abc", "b", "A", "0190", "019", "\u{e9}", "z", "zz"];
    for a in samples {
        for b in samples {
            assert_eq!(str_lt(a, b), a < b);
            assert_eq!(str_eq(a, b), a == b);
        }
    }
}

#[test]
fn numbers_are_written_in_decimal() {
    assert_eq!(to_decimal(0), "0");
    assert_eq!(to_decimal(7), "7");
    assert_eq!(to_decimal(10), "10");
    assert_eq!(to_decimal(12345), "12345");
    assert_eq!(to_decimal(9_876_543_210), "9876543210");
    assert_eq!(to_decimal(usize::MAX), usize::MAX.to_string());
}

#[test]
fn every_failure_has_its_text() {
    assert_eq!(
        NoteError::NotFound("abc".to_string()).message(),
        "note not found with id: abc"
    );
    assert_eq!(NoteError::MissingId.message(), "id not found");
    assert_eq!(NoteError::MissingContent.message(), "content not found");
    assert_eq!(
        NoteError::DeserializationError("bad chunk".to_string()).message(),
        "Failed to load: bad chunk"
    );
    assert_eq!(
        NoteError::IoError("disk full".to_string()).message(),
        "I/O error: disk full"
    );
    assert_eq!(
        NoteError::IndexOutOfRange(4, 3).message(),
        "Index 4 out of range (1-3)"
    );
    assert_eq!(
        NoteError::IndexOutOfRange(0, 0).message(),
        "Index 0 out of range (1-0)"
    );
    assert_eq!(
        NoteError::DocumentError("refused".to_string()).message(),
        "Document error: refused"
    );
    assert_eq!(
        StorageError::IoError("gone".to_string()).message(),
        "I/O error: gone"
    );
    assert_eq!(
        StorageError::SerializationError("odd".to_string()).message(),
        "Serialization error: odd"
    );
}

#[test]
fn store_failures_are_reported_as_io_errors() {
    assert!(matches!(
        io_error(StorageError::IoError("x".to_string())),
        NoteError::IoError(detail) if detail == "x"
    ));
    assert!(matches!(
        io_error(StorageError::SerializationError("y".to_string())),
        NoteError::IoError(detail) if detail == "y"
    ));
}

#[test]
fn bytes_are_copied() {
    assert_eq!(copy_bytes(b""), Vec::<u8>::new());
    assert_eq!(copy_bytes(&[1, 2, 3, 255]), vec![1, 2, 3, 255]);
}

fn carried_out(changes: Vec<Change>, onto: &mut Vec<(String, Vec<u8>)>) {
    for change in changes {
        match change {
            Change::Write(key, bytes) => {
                onto.retain(|(k, _)| *k != key);
                onto.push((key, bytes));
            }
            Change::Remove(key) => onto.retain(|(k, _)| *k != key),
        }
    }
}

#[test]
fn the_journal_leads_from_the_settled_records_to_the_present_ones() {
    let mut storage = MemoryStorage::new();
    let mut mirror: Vec<(String, Vec<u8>)> = Vec::new();
    assert!(storage.take_journal().is_empty());

    storage.set("a", b"1").unwrap();
    storage.set("b", b"2").unwrap();
    storage.set("a", b"3").unwrap();
    storage.delete("b").unwrap();
    storage.delete("never there").unwrap();
    let journal = storage.take_journal();
    assert_eq!(journal.len(), 5);
    assert!(matches!(&journal[0], Change::Write(k, v) if k == "a" && v == b"1"));
    assert!(matches!(&journal[3], Change::Remove(k) if k == "b"));
    carried_out(journal, &mut mirror);
    assert_eq!(mirror, vec![("a".to_string(), b"3".to_vec())]);
    assert_eq!(storage.get("a").unwrap(), Some(b"3".to_vec()));

    assert!(storage.take_journal().is_empty());
    storage.set("c", b"4").unwrap();
    carried_out(storage.take_journal(), &mut mirror);
    assert_eq!(mirror.len(), 2);
    assert_eq!(storage.list().unwrap().len(), 2);
}

#[test]
fn a_service_hands_back_its_store_with_what_it_did() {
    let mut service = NoteService::new(MemoryStorage::new());
    let first = service.create("one").unwrap();
    service.create("two").unwrap();
    service.delete_by_index(1).unwrap();

    let mut storage = service.into_storage();
    let journal = storage.take_journal();
    assert_eq!(journal.len(), 3);
    assert!(matches!(&journal[0], Change::Write(k, _) if *k == first.id));
    assert!(matches!(&journal[2], Change::Remove(k) if *k == first.id));
    assert_eq!(storage.list().unwrap().len(), 1);
}

#[test]
fn reconcile_says_what_is_to_be_stored() {
    let mut home = Note::assemble("n", "draft").unwrap();
    let stored = home.into_bytes();

    let kept = notes::service::reconcile("n", None, &stored).unwrap();
    let loaded = Note::from_bytes(&kept).unwrap();
    assert_eq!(loaded.id().unwrap(), "n");
    assert_eq!(loaded.content().unwrap(), "draft");

    let same = notes::service::reconcile("n", Some(stored.clone()), &stored).unwrap();
    assert_eq!(Note::from_bytes(&same).unwrap().content().unwrap(), "draft");

    let mut elsewhere = Note::from_bytes(&stored).unwrap();
    elsewhere.update("final").unwrap();
    let joined =
        notes::service::reconcile("n", Some(stored.clone()), &elsewhere.into_bytes()).unwrap();
    let loaded = Note::from_bytes(&joined).unwrap();
    assert_eq!(loaded.id().unwrap(), "n");
    assert_eq!(loaded.content().unwrap(), "final");

    match notes::service::reconcile("m", Some(stored.clone()), &stored) {
        Err(NoteError::NotFound(id)) => assert_eq!(id, "m"),
        _ => panic!("expected NotFound"),
    }
    assert!(matches!(
        notes::service::reconcile("n", Some(stored.clone()), b"junk"),
        Err(NoteError::DeserializationError(_))
    ));
    assert!(matches!(
        notes::service::reconcile("n", Some(b"junk".to_vec()), &stored),
        Err(NoteError::DeserializationError(_))
    ));
    let mut other = Note::assemble("other", "text").unwrap();
    match notes::service::reconcile("n", Some(other.into_bytes()), &stored) {
        Ok(bytes) => assert_eq!(Note::from_bytes(&bytes).unwrap().id().unwrap(), "n"),
        Err(NoteError::MissingId) | Err(NoteError::DocumentError(_)) => {}
        Err(_) => panic!("expected a join under the identifier or its refusal"),
    }
}

#[test]
fn a_corrupt_record_under_the_identifier_stops_a_merge() {
    let mut storage = MemoryStorage::new();
    storage.set("n", b"garbage").unwrap();
    let mut service = NoteService::new(storage);
    let mut incoming = Note::assemble("n", "text").unwrap();
    assert!(matches!(
        service.merge_replica("n", &incoming.into_bytes()),
        Err(NoteError::DeserializationError(_))
    ));
    assert_eq!(
        service.storage().get("n").unwrap(),
        Some(b"garbage".to_vec())
    );
}

#[test]
fn a_list_is_rendered_with_one_based_numbers() {
    let mut repository = Notes::new();
    assert_eq!(
        notes::notes::render_listing(&repository.list().unwrap()),
        "No notes yet. Create one with: qot get milk"
    );
    repository.create("get milk").unwrap();
    assert_eq!(
        notes::notes::render_listing(&repository.list().unwrap()),
        "1. get milk"
    );
    for i in 2..=11 {
        repository.create(&format!("note {}", i)).unwrap();
    }
    let text = notes::notes::render_listing(&repository.list().unwrap());
    let lines: Vec<&str> = text.split('\n').collect();
    assert_eq!(lines.len(), 11);
    assert_eq!(lines[0], "1. get milk");
    assert_eq!(lines[1], "2. note 2");
    assert_eq!(lines[9], "10. note 10");
    assert_eq!(lines[10], "11. note 11");
}

#[test]
fn a_drawn_identifier_is_taken_in_once() {
    let mut service = NoteService::new(MemoryStorage::new());
    let shown = service.create_as("k1".to_string(), "first").unwrap();
    assert_eq!(shown.id, "k1");
    assert_eq!(shown.content, "first");
    let stored = service.storage().get("k1").unwrap().unwrap();
    assert_eq!(Note::from_bytes(&stored).unwrap().content().unwrap(), "first");

    assert!(matches!(
        service.create_as("k1".to_string(), "second"),
        Err(NoteError::DocumentError(_))
    ));
    assert_eq!(service.storage().get("k1").unwrap(), Some(stored.clone()));

    let mut fresh = NoteService::new(service.into_storage());
    assert!(matches!(
        fresh.create_as("k1".to_string(), "third"),
        Err(NoteError::DocumentError(_))
    ));
    assert_eq!(fresh.storage().get("k1").unwrap(), Some(stored));
    assert_eq!(fresh.create_as("k0".to_string(), "zeroth").unwrap().id, "k0");
    let listed = fresh.list().unwrap();
    assert_eq!(listed.len(), 2);
    assert_eq!(listed[0].id, "k0");
    assert_eq!(listed[1].id, "k1");
}

#[test]
fn join_as_stores_what_the_engine_joined() {
    let mut home = Note::assemble("n", "draft").unwrap();
    let stored = home.into_bytes();
    let mut elsewhere = Note::from_bytes(&stored).unwrap();
    elsewhere.update("final").unwrap();

    let ours = Note::from_bytes(&stored).unwrap();
    let bytes = notes::service::join_as("n", ours, &mut elsewhere).unwrap();
    assert!(!bytes.is_empty());
    let joined = Note::from_bytes(&bytes).unwrap();
    assert_eq!(joined.id().unwrap(), "n");
    assert_eq!(joined.content().unwrap(), "final");
    assert_eq!(elsewhere.content().unwrap(), "final");

    let ours = Note::from_bytes(&stored).unwrap();
    assert!(matches!(
        notes::service::join_as("m", ours, &mut elsewhere),
        Err(NoteError::MissingId)
    ));
}
