use notes::storage::{FileSystemStorage, MemoryStorage, Storage};

#[test]
fn test_storage_can_initialize() {
    let storage = FileSystemStorage::new("/tmp/qot");
    assert_eq!(storage.notes_dir(), "/tmp/qot/notes");
}

#[test]
fn test_get_nonexistent_returns_none() {
    let storage = MemoryStorage::new();
    let result = storage.get("nonexistent-uuid");
    assert!(result.is_ok());
    assert!(result.unwrap().is_none());
}

#[test]
fn test_set_and_get() {
    let mut storage = MemoryStorage::new();
    let uuid = "test-uuid-123";
    let data = b"test data";

    storage.set(uuid, data).unwrap();
    let retrieved = storage.get(uuid).unwrap();

    assert_eq!(retrieved, Some(data.to_vec()));
}

#[test]
fn test_list_returns_notes() {
    let mut storage = MemoryStorage::new();

    let uuid1 = "test-list-uuid-1";
    let uuid2 = "test-list-uuid-2";
    let uuid3 = "test-list-uuid-3";

    storage.set(uuid1, b"data1").unwrap();
    storage.set(uuid2, b"data2").unwrap();
    storage.set(uuid3, b"data3").unwrap();

    let list = storage.list().unwrap();
    assert_eq!(list.len(), 3);
    assert!(list.contains(&uuid1.to_string()));
    assert!(list.contains(&uuid2.to_string()));
    assert!(list.contains(&uuid3.to_string()));
}

#[test]
fn test_delete() {
    let mut storage = MemoryStorage::new();
    let uuid = "uuid-to-delete";

    storage.set(uuid, b"data").unwrap();
    assert!(storage.get(uuid).unwrap().is_some());

    storage.delete(uuid).unwrap();
    assert!(storage.get(uuid).unwrap().is_none());

    let list = storage.list().unwrap();
    assert!(!list.contains(&uuid.to_string()));
}
