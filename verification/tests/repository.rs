use notes::error::NoteError;
use notes::notes::{Note, Notes};

#[test]
fn test_note() {
    let expected_content = "hello, world";
    let note_crdt = notes::crdt_note::Note::new(expected_content).unwrap();

    let note: Note = Note::try_from(&note_crdt).unwrap();

    assert_eq!(note.content, expected_content);
    assert!(note.id.len() > 0);
}

#[test]
fn test_notes_create() {
    let expected_content = "hello, world";
    let mut notes = Notes::new();

    let note = notes.create(expected_content);
    assert!(note.is_ok_and(|n| n.content == expected_content));
}

#[test]
fn test_notes_get() {
    let expected_content = "hello, world";
    let mut notes = Notes::new();
    let note_id = notes.create(expected_content).unwrap().id;

    let note = notes.get(&note_id);
    assert!(note.is_ok_and(|n| n.content == expected_content))
}

#[test]
fn test_notes_list() {
    let mut notes = Notes::new();

    let empty_list = notes.list().unwrap();
    assert_eq!(empty_list.len(), 0);

    let note1 = notes.create("First note").unwrap();
    let note2 = notes.create("Second note").unwrap();
    let note3 = notes.create("Third note").unwrap();

    let list = notes.list().unwrap();
    assert_eq!(list.len(), 3);

    assert_eq!(list[0].id, note1.id);
    assert_eq!(list[0].content, "First note");

    assert_eq!(list[1].id, note2.id);
    assert_eq!(list[1].content, "Second note");

    assert_eq!(list[2].id, note3.id);
    assert_eq!(list[2].content, "Third note");
}

#[test]
fn test_notes_delete() {
    let mut notes = Notes::new();

    let note = notes.create("Test note").unwrap();
    let note_id = note.id.clone();

    assert!(notes.get(&note_id).is_ok());
    assert_eq!(notes.list().unwrap().len(), 1);

    let result = notes.delete(&note_id);
    assert!(result.is_ok());

    assert!(notes.get(&note_id).is_err());
    assert_eq!(notes.list().unwrap().len(), 0);

    let result = notes.delete(&note_id);
    assert!(result.is_err());
    match result {
        Err(NoteError::NotFound(_)) => (),
        _ => panic!("Expected NotFound error"),
    }
}
