use quickwit::cache::{CacheState, DiskCapacity, StorageWithLocalStorageCache};
use quickwit::storage::RamStorage;
use quickwit::ErrorKind;

fn ram() -> RamStorage {
    RamStorage::new("ram://test".to_string())
}

#[test]
fn put_then_get_all_yields_identical_bytes() {
    let mut storage = ram();
    let path = "write_and_read_all".to_string();
    storage.put(&path, b"abcdef".to_vec());
    let payload = storage.get_all(&path).unwrap();
    assert_eq!(payload, b"abcdef".to_vec());
}

#[test]
fn put_then_get_slice_yields_the_sub_range() {
    let mut storage = ram();
    let path = "write_and_read_slice".to_string();
    storage.put(&path, b"abcdefghiklmnopqrstuvxyz".to_vec());
    let payload = storage.get_slice(&path, 3, 6).unwrap();
    assert_eq!(payload, b"def".to_vec());
    // Full range and empty range are both sub-ranges.
    assert_eq!(storage.get_slice(&path, 0, 24).unwrap().len(), 24);
    assert_eq!(storage.get_slice(&path, 5, 5).unwrap().len(), 0);
    // A range past the end is rejected.
    assert_eq!(storage.get_slice(&path, 0, 25), Err(ErrorKind::InvalidArgument));
}

#[test]
fn get_missing_file_is_not_found() {
    let storage = ram();
    let path = "missingfile".to_string();
    assert_eq!(storage.get_all(&path), Err(ErrorKind::NotFound));
    assert_eq!(storage.get_slice(&path, 0, 3), Err(ErrorKind::NotFound));
    assert_eq!(storage.file_num_bytes(&path), Err(ErrorKind::NotFound));
    assert!(!storage.file_exists(&path));
}

#[test]
fn delete_missing_file_is_a_no_op() {
    let mut storage = ram();
    let path = "a".to_string();
    storage.put(&path, b"x".to_vec());
    let missing = "missing_file".to_string();
    storage.delete(&missing);
    storage.delete(&missing);
    // The stored object is untouched.
    assert_eq!(storage.get_all(&path).unwrap(), b"x".to_vec());
    assert_eq!(storage.list_paths().len(), 1);
}

#[test]
fn write_and_delete() {
    let mut storage = ram();
    let path = "write_and_delete".to_string();
    storage.put(&path, b"abcdefghijklmnopqrstuvwxyz".to_vec());
    assert!(storage.file_exists(&path));
    assert_eq!(storage.file_num_bytes(&path).unwrap(), 26);
    storage.delete(&path);
    assert!(!storage.file_exists(&path));
    assert_eq!(storage.get_slice(&path, 0, 3), Err(ErrorKind::NotFound));
}

#[test]
fn put_overwrites_previous_object() {
    let mut storage = ram();
    let path = "overwrite".to_string();
    storage.put(&path, b"old".to_vec());
    storage.put(&path, b"newer".to_vec());
    assert_eq!(storage.get_all(&path).unwrap(), b"newer".to_vec());
    assert_eq!(storage.list_paths().len(), 1);
    assert_eq!(storage.uri(), "ram://test");
}

#[test]
fn cache_serves_authoritative_bytes() {
    let mut remote = ram();
    let path = "object".to_string();
    remote.put(&path, b"0123456789".to_vec());
    let mut cache = StorageWithLocalStorageCache::new(
        remote,
        DiskCapacity { max_num_files: 4, max_num_bytes: 1024 },
    );
    // Miss, then hit: both reads return the remote bytes.
    assert_eq!(cache.get_all(&path).unwrap(), b"0123456789".to_vec());
    assert_eq!(cache.get_all(&path).unwrap(), b"0123456789".to_vec());
    assert_eq!(cache.get_slice(&path, 2, 5).unwrap(), b"234".to_vec());
    assert_eq!(cache.get_slice(&path, 0, 11), Err(ErrorKind::InvalidArgument));
    let missing = "missing".to_string();
    assert_eq!(cache.get_all(&missing), Err(ErrorKind::NotFound));
}

#[test]
fn cache_eviction_respects_both_capacities() {
    let mut cache = StorageWithLocalStorageCache::new(
        ram(),
        DiskCapacity { max_num_files: 2, max_num_bytes: 8 },
    );
    cache.put(&"a".to_string(), b"aaaa".to_vec());
    cache.put(&"b".to_string(), b"bbbb".to_vec());
    cache.put(&"c".to_string(), b"cccc".to_vec());
    let items = cache.get_items();
    // At most two files and eight bytes stay cached; the least
    // recently used object was evicted.
    assert_eq!(items.len(), 2);
    let total: usize = items.iter().map(|it| it.1).sum();
    assert!(total <= 8);
    assert_eq!(items[0].0, "b");
    assert_eq!(items[1].0, "c");
    // Every object is still readable through the cache.
    assert_eq!(cache.get_all(&"a".to_string()).unwrap(), b"aaaa".to_vec());
}

#[test]
fn oversized_object_flows_through_without_admission() {
    let mut cache = StorageWithLocalStorageCache::new(
        ram(),
        DiskCapacity { max_num_files: 4, max_num_bytes: 4 },
    );
    cache.put(&"big".to_string(), b"0123456789".to_vec());
    assert_eq!(cache.get_items().len(), 0);
    assert_eq!(cache.get_all(&"big".to_string()).unwrap(), b"0123456789".to_vec());
}

#[test]
fn cache_delete_evicts_and_removes() {
    let mut cache = StorageWithLocalStorageCache::new(
        ram(),
        DiskCapacity { max_num_files: 4, max_num_bytes: 64 },
    );
    let path = "object".to_string();
    cache.put(&path, b"abc".to_vec());
    assert_eq!(cache.get_items().len(), 1);
    cache.delete(&path);
    assert_eq!(cache.get_items().len(), 0);
    assert_eq!(cache.get_all(&path), Err(ErrorKind::NotFound));
}

#[test]
fn cache_state_discards_stale_items() {
    let state = CacheState {
        remote_storage_uri: "s3://bucket/idx".to_string(),
        local_storage_uri: "file:///var/cache".to_string(),
        disk_capacity: DiskCapacity { max_num_files: 10, max_num_bytes: 1000 },
        ram_capacity: 100,
        items: vec![
            ("kept".to_string(), 3),
            ("resized".to_string(), 5),
            ("vanished".to_string(), 7),
        ],
    };
    // On disk, one file is intact, one changed size, one is gone.
    let on_disk = vec![("kept".to_string(), 3), ("resized".to_string(), 6)];
    let healed = state.retain_present_items(&on_disk);
    assert_eq!(healed.items, vec![("kept".to_string(), 3)]);
    assert_eq!(healed.remote_storage_uri, "s3://bucket/idx");
    assert_eq!(healed.disk_capacity, DiskCapacity { max_num_files: 10, max_num_bytes: 1000 });
}
