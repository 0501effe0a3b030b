use raftstore::error::StoreError;
use raftstore::model::SnapshotRange;
use raftstore::snapshot::SnapshotStore;

#[test]
fn snapshot_is_readable_after_finalize() {
    let mut store = SnapshotStore::new();
    let mut install = store.begin_install(7, 99, 3).ok().unwrap();
    install.write_chunk(b"hello ");
    install.write_chunk(b"");
    install.write_chunk(b"world");
    assert_eq!(install.meta(), SnapshotRange { id: 7, last_included_index: 99, last_included_term: 3 });
    assert!(!store.contains(7));
    assert!(matches!(store.read(7), Err(StoreError::IndexOutOfRange)));
    assert_eq!(
        store.finalize(install),
        Ok(SnapshotRange { id: 7, last_included_index: 99, last_included_term: 3 })
    );
    assert!(store.contains(7));
    assert_eq!(store.read(7), Ok(b"hello world".to_vec()));
}

#[test]
fn snapshot_identifier_is_used_once() {
    let mut store = SnapshotStore::new();
    let first = store.begin_install(1, 10, 1).ok().unwrap();
    let mut second = store.begin_install(1, 20, 2).ok().unwrap();
    second.write_chunk(b"second");
    assert!(store.finalize(first).is_ok());
    assert_eq!(store.finalize(second), Err(StoreError::InvariantViolation));
    assert_eq!(store.read(1), Ok(Vec::new()));
    assert!(matches!(store.begin_install(1, 30, 3), Err(StoreError::InvariantViolation)));
    assert!(store.begin_install(2, 30, 3).is_ok());
}

#[test]
fn snapshot_is_deleted() {
    let mut store = SnapshotStore::new();
    for id in [3u64, 1, 2] {
        let mut install = store.begin_install(id, id * 10, 1).ok().unwrap();
        install.write_chunk(&[id as u8; 4]);
        store.finalize(install).unwrap();
    }
    assert_eq!(store.delete(1), Ok(()));
    assert!(!store.contains(1));
    assert_eq!(store.read(3), Ok(vec![3u8; 4]));
    assert_eq!(store.read(2), Ok(vec![2u8; 4]));
    assert_eq!(store.delete(1), Err(StoreError::IndexOutOfRange));
    assert_eq!(store.delete(9), Err(StoreError::IndexOutOfRange));
    assert_eq!(store.delete(3), Ok(()));
    assert_eq!(store.read(2), Ok(vec![2u8; 4]));
    assert_eq!(store.delete(2), Ok(()));
    assert!(!store.contains(2));
    let again = store.begin_install(1, 5, 1).ok().unwrap();
    assert!(store.finalize(again).is_ok());
    assert_eq!(store.read(1), Ok(Vec::new()));
}
