use notes::crdt_note::Note;
use notes::error::NoteError;
use uuid::Uuid;

#[test]
fn test_new_id_and_content() {
    let note = Note::new("Hello, World!").unwrap();

    let id = note.id().unwrap();
    assert!(!id.is_empty(), "Note id should not be empty");
    assert!(
        Uuid::parse_str(&id).is_ok(),
        "Note id should be a valid UUID"
    );

    assert_eq!(note.content().unwrap(), "Hello, World!");
}

#[test]
fn test_into_and_from() {
    let mut first = Note::new("Test content").unwrap();
    let first_id = first.id().unwrap();
    let first_content = first.content().unwrap();

    let bytes = first.into_bytes();
    assert!(!bytes.is_empty(), "Serialized bytes should not be empty");

    let restored = Note::from_bytes(&bytes).unwrap();
    assert_eq!(
        restored.id().unwrap(),
        first_id,
        "Restored note should have same id"
    );
    assert_eq!(
        restored.content().unwrap(),
        first_content,
        "Restored note should have same content"
    );
}

#[test]
fn test_merge() {
    let mut note1 = Note::new("First note").unwrap();
    let mut note2 = Note::new("Second note").unwrap();

    note1.merge(&mut note2).unwrap();

    let content = note1.content().unwrap();
    assert!(
        content.contains("First note") || content.contains("Second note"),
        "Merged content should contain text from one of the notes"
    );

    assert!(!note1.id().unwrap().is_empty());
}

#[test]
fn test_note_creation() {
    let expected_content = "hello, world";
    let note = Note::new(expected_content);
    assert!(note.is_ok());

    let note = note.unwrap();
    let content = note.content();
    assert!(content.is_ok());
    assert_eq!(content.unwrap(), expected_content);

    let id = note.id();
    assert!(id.is_ok());
    assert!(id.unwrap().len() > 0);
}

#[test]
fn test_note_id_is_unique() {
    let note1 = Note::new("first").unwrap();
    let note2 = Note::new("second").unwrap();

    let id1 = note1.id().unwrap();
    let id2 = note2.id().unwrap();

    assert_ne!(id1, id2);
}

#[test]
fn test_note_serialization() {
    let expected_content = "test content";
    let mut note = Note::new(expected_content).unwrap();
    let first_id = note.id().unwrap();

    let bytes = note.into_bytes();
    assert!(bytes.len() > 0);

    let restored_note = Note::from_bytes(&bytes);
    assert!(restored_note.is_ok());

    let restored_note = restored_note.unwrap();
    assert_eq!(restored_note.id().unwrap(), first_id);
    assert_eq!(restored_note.content().unwrap(), expected_content);
}

#[test]
fn test_empty_content() {
    let note = Note::new("");
    assert!(note.is_ok());

    let note = note.unwrap();
    assert_eq!(note.content().unwrap(), "");
}

#[test]
fn test_multiline_content() {
    let content = "line 1\nline 2\nline 3";
    let note = Note::new(content).unwrap();
    assert_eq!(note.content().unwrap(), content);
}

#[test]
fn lib_test_merge() {
    let mut note1 = Note::new("initial content").unwrap();
    let note1_id = note1.id().unwrap();

    let note1_bytes = note1.into_bytes();

    let mut note2 = Note::from_bytes(&note1_bytes).unwrap();
    assert_eq!(note2.id().unwrap(), note1_id);

    assert_eq!(note1.content().unwrap(), "initial content");
    assert_eq!(note2.content().unwrap(), "initial content");

    let note2_bytes = note2.into_bytes();

    let mut incoming = Note::from_bytes(&note2_bytes).unwrap();
    let result = note1.merge(&mut incoming);
    assert!(result.is_ok());

    assert_eq!(note1.content().unwrap(), "initial content");
    assert_eq!(note1.id().unwrap(), note1_id);
}

#[test]
fn test_error_display() {
    let error = NoteError::MissingId;
    assert_eq!(error.message(), "id not found");

    let error = NoteError::DocumentError("test error".to_string());
    assert_eq!(error.message(), "Document error: test error");
}

#[test]
fn test_note_crdt() {
    let expected_content = "hello, world";
    let result = Note::new(expected_content);
    assert!(result.is_ok());

    let note_crdt = result.unwrap();
    let content = note_crdt.content();
    assert!(content.is_ok_and(|c| c == expected_content));

    let id = note_crdt.id();
    assert!(id.is_ok_and(|i| i.len() > 0))
}
