use automerge::transaction::Transactable;
use automerge::{AutoCommit, ObjType, ROOT};
use notes::crdt_note::Note;
use notes::error::NoteError;
use notes::notes::Notes;
use notes::service::{select, NoteService};
use notes::storage::{MemoryStorage, Storage};
use uuid::Uuid;

fn empty_service() -> NoteService<MemoryStorage> {
    NoteService::new(MemoryStorage::new())
}

fn contents(service: &mut NoteService<MemoryStorage>) -> Vec<String> {
    service
        .list()
        .unwrap()
        .into_iter()
        .map(|n| n.content)
        .collect()
}

#[test]
fn identifiers_are_well_formed_and_distinct() {
    let mut seen: Vec<String> = Vec::new();
    for _ in 0..200 {
        let id = Note::new("same content").unwrap().id().unwrap();
        assert_eq!(id.len(), 36);
        let parsed = Uuid::parse_str(&id).unwrap();
        assert_eq!(parsed.get_version_num(), 7);
        assert_eq!(parsed.to_string(), id);
        for (i, c) in id.chars().enumerate() {
            if i == 8 || i == 13 || i == 18 || i == 23 {
                assert_eq!(c, '-');
            } else {
                assert!(c.is_ascii_digit() || ('a'..='f').contains(&c));
            }
        }
        assert_eq!(id.chars().nth(14), Some('7'));
        assert!(!seen.contains(&id));
        seen.push(id);
    }
}

#[test]
fn identifiers_ascend_in_creation_order() {
    let mut notes = Notes::new();
    let mut created: Vec<String> = Vec::new();
    for i in 0..50 {
        created.push(notes.create(&format!("note {}", i)).unwrap().id);
    }
    for pair in created.windows(2) {
        assert!(pair[0] < pair[1]);
    }
    let listed: Vec<String> = notes.list().unwrap().into_iter().map(|n| n.id).collect();
    assert_eq!(listed, created);
}

#[test]
fn round_trip_keeps_identifier_and_content() {
    for content in ["", "plain", "line 1\nline 2", "snow \u{2603} and \u{1F600}"] {
        let mut note = Note::new(content).unwrap();
        let id = note.id().unwrap();
        let bytes = note.into_bytes();
        let loaded = Note::from_bytes(&bytes).unwrap();
        assert_eq!(loaded.id().unwrap(), id);
        assert_eq!(loaded.content().unwrap(), content);
        assert_eq!(note.id().unwrap(), id);
        assert_eq!(note.content().unwrap(), content);
    }
}

#[test]
fn merge_with_itself_changes_nothing() {
    let mut note = Note::new("stay as you are").unwrap();
    let id = note.id().unwrap();
    let bytes = note.into_bytes();
    for _ in 0..3 {
        let mut copy = Note::from_bytes(&bytes).unwrap();
        note.merge(&mut copy).unwrap();
        assert_eq!(note.id().unwrap(), id);
        assert_eq!(note.content().unwrap(), "stay as you are");
        assert_eq!(copy.content().unwrap(), "stay as you are");
    }
}

#[test]
fn merge_brings_in_a_later_edit() {
    let mut home = Note::new("get milk").unwrap();
    let id = home.id().unwrap();
    let bytes = home.into_bytes();

    let mut replica = Note::from_bytes(&bytes).unwrap();
    replica.update("get oat milk").unwrap();
    assert_eq!(replica.content().unwrap(), "get oat milk");
    assert_eq!(replica.id().unwrap(), id);

    home.merge(&mut replica).unwrap();
    assert_eq!(home.content().unwrap(), "get oat milk");
    assert_eq!(home.id().unwrap(), id);
}

#[test]
fn divergent_replicas_converge() {
    let mut a = Note::new("shared").unwrap();
    let bytes = a.into_bytes();
    let mut b = Note::from_bytes(&bytes).unwrap();

    a.update("shared, edited here").unwrap();
    b.update("edited there, shared").unwrap();

    let mut b_copy = Note::from_bytes(&b.into_bytes()).unwrap();
    let mut a_copy = Note::from_bytes(&a.into_bytes()).unwrap();
    a.merge(&mut b_copy).unwrap();
    b.merge(&mut a_copy).unwrap();

    assert_eq!(a.content().unwrap(), b.content().unwrap());
    assert_eq!(a.id().unwrap(), b.id().unwrap());
}

#[test]
fn update_replaces_content_and_keeps_identifier() {
    let mut note = Note::new("before").unwrap();
    let id = note.id().unwrap();
    note.update("after").unwrap();
    assert_eq!(note.content().unwrap(), "after");
    assert_eq!(note.id().unwrap(), id);
    note.update("").unwrap();
    assert_eq!(note.content().unwrap(), "");
    let loaded = Note::from_bytes(&note.into_bytes()).unwrap();
    assert_eq!(loaded.content().unwrap(), "");
    assert_eq!(loaded.id().unwrap(), id);
}

#[test]
fn assemble_uses_the_given_identifier() {
    let note = Note::assemble("my-own-id", "text").unwrap();
    assert_eq!(note.id().unwrap(), "my-own-id");
    assert_eq!(note.content().unwrap(), "text");
}

#[test]
fn malformed_bytes_are_a_deserialization_error() {
    assert!(matches!(
        Note::from_bytes(b"not a document"),
        Err(NoteError::DeserializationError(_))
    ));
}

#[test]
fn document_without_identifier_is_missing_id() {
    let mut doc = AutoCommit::new();
    let text = doc.put_object(ROOT, "content", ObjType::Text).unwrap();
    doc.update_text(&text, "orphan").unwrap();
    assert!(matches!(
        Note::from_bytes(&doc.save()),
        Err(NoteError::MissingId)
    ));
}

#[test]
fn identifier_of_wrong_shape_is_missing_id() {
    let mut doc = AutoCommit::new();
    doc.put(ROOT, "id", 42_i64).unwrap();
    let text = doc.put_object(ROOT, "content", ObjType::Text).unwrap();
    doc.update_text(&text, "numbered").unwrap();
    assert!(matches!(
        Note::from_bytes(&doc.save()),
        Err(NoteError::MissingId)
    ));
}

#[test]
fn document_without_content_is_missing_content() {
    let mut doc = AutoCommit::new();
    doc.put(ROOT, "id", "some-id").unwrap();
    assert!(matches!(
        Note::from_bytes(&doc.save()),
        Err(NoteError::MissingContent)
    ));
}

#[test]
fn scalar_content_is_missing_content() {
    let mut doc = AutoCommit::new();
    doc.put(ROOT, "id", "some-id").unwrap();
    doc.put(ROOT, "content", "a scalar, not a text").unwrap();
    assert!(matches!(
        Note::from_bytes(&doc.save()),
        Err(NoteError::MissingContent)
    ));
}

#[test]
fn empty_document_is_missing_id() {
    let mut doc = AutoCommit::new();
    assert!(matches!(
        Note::from_bytes(&doc.save()),
        Err(NoteError::MissingId)
    ));
}

#[test]
fn three_notes_are_listed_in_creation_order() {
    let mut service = empty_service();
    service.create("First note").unwrap();
    service.create("Second note").unwrap();
    service.create("Third note").unwrap();
    assert_eq!(
        contents(&mut service),
        vec!["First note", "Second note", "Third note"]
    );
}

#[test]
fn deleting_the_second_of_three() {
    let mut service = empty_service();
    service.create("First note").unwrap();
    service.create("Second note").unwrap();
    service.create("Third note").unwrap();
    assert_eq!(service.delete_by_index(2).unwrap(), "Second note");
    assert_eq!(contents(&mut service), vec!["First note", "Third note"]);
}

#[test]
fn unknown_identifier_and_empty_store_fail_with_typed_errors() {
    let notes = Notes::new();
    match notes.get("unknown-id") {
        Err(NoteError::NotFound(id)) => assert_eq!(id, "unknown-id"),
        _ => panic!("expected NotFound"),
    }
    let mut service = empty_service();
    match service.delete_by_index(1) {
        Err(NoteError::IndexOutOfRange(asked, available)) => {
            assert_eq!(asked, 1);
            assert_eq!(available, 0);
        }
        _ => panic!("expected IndexOutOfRange"),
    }
}

#[test]
fn out_of_range_delete_leaves_the_store_unchanged() {
    let mut service = empty_service();
    let a = service.create("a").unwrap();
    let b = service.create("b").unwrap();
    let before_a = service.storage().get(&a.id).unwrap();
    let before_b = service.storage().get(&b.id).unwrap();

    for index in [0, 3, 4, usize::MAX] {
        match service.delete_by_index(index) {
            Err(NoteError::IndexOutOfRange(asked, available)) => {
                assert_eq!(asked, index);
                assert_eq!(available, 2);
            }
            _ => panic!("expected IndexOutOfRange"),
        }
        assert_eq!(service.storage().list().unwrap().len(), 2);
        assert_eq!(service.storage().get(&a.id).unwrap(), before_a);
        assert_eq!(service.storage().get(&b.id).unwrap(), before_b);
    }
    assert_eq!(contents(&mut service), vec!["a", "b"]);
}

#[test]
fn delete_removes_exactly_one_position_and_keeps_order() {
    for k in 1..=5 {
        let mut service = empty_service();
        let names = ["one", "two", "three", "four", "five"];
        let mut ids = Vec::new();
        for name in names {
            ids.push(service.create(name).unwrap().id);
        }
        assert_eq!(service.delete_by_index(k).unwrap(), names[k - 1]);

        let mut expected: Vec<&str> = names.to_vec();
        expected.remove(k - 1);
        assert_eq!(contents(&mut service), expected);

        assert!(service.storage().get(&ids[k - 1]).unwrap().is_none());
        assert_eq!(service.storage().list().unwrap().len(), 4);
    }
}

#[test]
fn select_picks_the_one_based_position() {
    let mut notes = Notes::new();
    let first = notes.create("first").unwrap();
    let second = notes.create("second").unwrap();
    let shown = notes.list().unwrap();

    assert_eq!(
        select(&shown, 1).unwrap(),
        (first.id.clone(), "first".to_string())
    );
    assert_eq!(
        select(&shown, 2).unwrap(),
        (second.id.clone(), "second".to_string())
    );
    assert!(matches!(
        select(&shown, 0),
        Err(NoteError::IndexOutOfRange(0, 2))
    ));
    assert!(matches!(
        select(&shown, 3),
        Err(NoteError::IndexOutOfRange(3, 2))
    ));
}

#[test]
fn a_source_hands_out_only_what_comes_after() {
    let mut source = notes::identity::IdSource::new();
    assert_eq!(source.accept("b".to_string()).unwrap(), "b");
    assert!(matches!(
        source.accept("a".to_string()),
        Err(NoteError::DocumentError(_))
    ));
    assert!(matches!(
        source.accept("b".to_string()),
        Err(NoteError::DocumentError(_))
    ));
    assert_eq!(source.accept("ba".to_string()).unwrap(), "ba");
    assert_eq!(source.accept("c".to_string()).unwrap(), "c");
}

#[test]
fn a_source_makes_ascending_identifiers() {
    let mut source = notes::identity::IdSource::new();
    let mut latest = source.next().unwrap();
    assert!(Uuid::parse_str(&latest).is_ok());
    for _ in 0..200 {
        let id = source.next().unwrap();
        assert!(latest < id);
        latest = id;
    }
}

#[test]
fn saved_bytes_are_never_empty() {
    let mut note = Note::new("").unwrap();
    assert!(!note.into_bytes().is_empty());
    let mut notes = Notes::new();
    let shown = notes.create("kept").unwrap();
    let bytes = notes.get_bytes(&shown.id).unwrap();
    assert!(!bytes.is_empty());

    let mut elsewhere = Notes::new();
    let read_back = elsewhere.add(&bytes).unwrap();
    assert_eq!(read_back.id, shown.id);
    assert_eq!(read_back.content, "kept");
}
