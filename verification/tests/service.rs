use notes::service::NoteService;
use notes::storage::MemoryStorage;

fn service() -> NoteService<MemoryStorage> {
    NoteService::new(MemoryStorage::new())
}

#[test]
fn test_list_returns_notes_sorted_by_creation_time() {
    let mut service = service();

    let note1 = service.create("First note").unwrap();
    let note2 = service.create("Second note").unwrap();
    let note3 = service.create("Third note").unwrap();

    let notes = service.list().unwrap();

    assert_eq!(notes.len(), 3);

    assert_eq!(notes[0].id, note1.id);
    assert_eq!(notes[0].content, "First note");

    assert_eq!(notes[1].id, note2.id);
    assert_eq!(notes[1].content, "Second note");

    assert_eq!(notes[2].id, note3.id);
    assert_eq!(notes[2].content, "Third note");
}

#[test]
fn test_delete_by_index() {
    let mut service = service();

    service.create("First note").unwrap();
    service.create("Second note").unwrap();
    service.create("Third note").unwrap();

    assert_eq!(service.list().unwrap().len(), 3);

    let deleted_content = service.delete_by_index(2).unwrap();
    assert_eq!(deleted_content, "Second note");

    let notes = service.list().unwrap();
    assert_eq!(notes.len(), 2);
    assert_eq!(notes[0].content, "First note");
    assert_eq!(notes[1].content, "Third note");
}

#[test]
fn test_delete_by_index_out_of_range() {
    let mut service = service();

    service.create("Only note").unwrap();

    let result = service.delete_by_index(0);
    assert!(result.is_err());
    assert!(result.unwrap_err().message().contains("out of range"));

    let result = service.delete_by_index(2);
    assert!(result.is_err());
    assert!(result.unwrap_err().message().contains("out of range"));

    assert_eq!(service.list().unwrap().len(), 1);
}
