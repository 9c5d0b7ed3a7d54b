use quickwit::checkpoint::CheckpointDelta;
use quickwit::gc::garbage_collect_index;
use quickwit::lifecycle::{
    create_index, delete_index, delete_splits_with_files, reset_index, upload_and_publish_split,
};
use quickwit::metastore::{IndexMetadata, Metastore};
use quickwit::split::{split_file, FooterOffsets, SplitMetadata, SplitState};
use quickwit::storage::RamStorage;
use quickwit::ErrorKind;

fn meta(index_id: &str) -> IndexMetadata {
    IndexMetadata {
        index_id: index_id.to_string(),
        index_uri: format!("ram://indexes/{}", index_id),
        index_config: "{\"type\":\"default\"}".to_string(),
        checkpoint: 0,
    }
}

fn split(split_id: &str, index_id: &str, now: u64) -> SplitMetadata {
    SplitMetadata {
        split_id: split_id.to_string(),
        index_id: index_id.to_string(),
        replaced_split_ids: Vec::new(),
        num_docs: 4,
        size_in_bytes: 512,
        time_range: None,
        create_timestamp: now,
        update_timestamp: now,
        tags: Vec::new(),
        footer_offsets: FooterOffsets { start: 400, end: 512 },
        split_state: SplitState::New,
    }
}

fn ids(list: &[&str]) -> Vec<String> {
    list.iter().map(|s| s.to_string()).collect()
}

#[test]
fn published_split_file_is_present() {
    let mut store = Metastore::new();
    let mut storage = RamStorage::new("ram://indexes/my-index".to_string());
    let index_id = "my-index".to_string();
    create_index(&mut store, meta("my-index")).unwrap();
    store.stage_split(&index_id, split("s1", "my-index", 0)).unwrap();

    upload_and_publish_split(
        &mut store,
        &mut storage,
        &index_id,
        &"s1".to_string(),
        b"split-bytes".to_vec(),
        CheckpointDelta { from: 0, to: 1 },
        1,
    )
    .unwrap();

    // The published split has its file on storage.
    assert!(storage.file_exists(&split_file(&"s1".to_string())));
    let published = store
        .list_splits(&index_id, SplitState::Published, None, &Vec::new())
        .unwrap();
    assert_eq!(published.len(), 1);
}

#[test]
fn conflicting_publish_leaves_file_for_gc() {
    let mut store = Metastore::new();
    let mut storage = RamStorage::new("ram://indexes/my-index".to_string());
    let index_id = "my-index".to_string();
    create_index(&mut store, meta("my-index")).unwrap();
    store.stage_split(&index_id, split("s1", "my-index", 0)).unwrap();

    // A publish whose delta does not start at the checkpoint fails;
    // the uploaded file stays in place and the split stays staged.
    let r = upload_and_publish_split(
        &mut store,
        &mut storage,
        &index_id,
        &"s1".to_string(),
        b"split-bytes".to_vec(),
        CheckpointDelta { from: 3, to: 4 },
        1,
    );
    assert_eq!(r, Err(ErrorKind::PreconditionFailed));
    assert!(storage.file_exists(&split_file(&"s1".to_string())));
    let staged = store.list_splits(&index_id, SplitState::Staged, None, &Vec::new()).unwrap();
    assert_eq!(staged.len(), 1);
}

#[test]
fn delete_index_dry_run_lists_split_files() {
    let mut store = Metastore::new();
    let mut storage = RamStorage::new("ram://indexes/my-index".to_string());
    let index_id = "my-index".to_string();
    create_index(&mut store, meta("my-index")).unwrap();
    store.stage_split(&index_id, split("s1", "my-index", 0)).unwrap();
    upload_and_publish_split(
        &mut store,
        &mut storage,
        &index_id,
        &"s1".to_string(),
        vec![0u8; 512],
        CheckpointDelta { from: 0, to: 1 },
        1,
    )
    .unwrap();

    // The dry run lists exactly one `.split` file and changes nothing.
    let entries = delete_index(&mut store, &mut storage, &index_id, true, 2).unwrap();
    assert_eq!(entries.len(), 1);
    assert_eq!(entries[0].file_name, "s1.split");
    assert_eq!(entries[0].file_size_in_bytes, 512);
    assert!(storage.file_exists(&"s1.split".to_string()));
    assert!(store.index_metadata(&index_id).is_ok());

    // The real deletion removes the file and the index row.
    let removed = delete_index(&mut store, &mut storage, &index_id, false, 2).unwrap();
    assert_eq!(removed.len(), 1);
    assert!(!storage.file_exists(&"s1.split".to_string()));
    assert!(matches!(store.index_metadata(&index_id), Err(ErrorKind::NotFound)));
}

#[test]
fn create_then_delete_leaves_storage_empty() {
    let mut store = Metastore::new();
    let mut storage = RamStorage::new("ram://indexes/my-index".to_string());
    let index_id = "my-index".to_string();
    create_index(&mut store, meta("my-index")).unwrap();
    delete_index(&mut store, &mut storage, &index_id, false, 1).unwrap();
    assert_eq!(storage.list_paths().len(), 0);
    assert!(matches!(store.index_metadata(&index_id), Err(ErrorKind::NotFound)));
}

#[test]
fn reset_index_keeps_the_row_and_clears_splits() {
    let mut store = Metastore::new();
    let mut storage = RamStorage::new("ram://indexes/my-index".to_string());
    let index_id = "my-index".to_string();
    create_index(&mut store, meta("my-index")).unwrap();
    store.stage_split(&index_id, split("s1", "my-index", 0)).unwrap();
    upload_and_publish_split(
        &mut store,
        &mut storage,
        &index_id,
        &"s1".to_string(),
        b"x".to_vec(),
        CheckpointDelta { from: 0, to: 1 },
        1,
    )
    .unwrap();

    reset_index(&mut store, &mut storage, &index_id, 2).unwrap();
    assert!(store.index_metadata(&index_id).is_ok());
    assert_eq!(store.list_all_splits(&index_id).unwrap().len(), 0);
    assert!(!storage.file_exists(&"s1.split".to_string()));
}

#[test]
fn delete_splits_with_files_reports_entries() {
    let mut store = Metastore::new();
    let mut storage = RamStorage::new("ram://indexes/my-index".to_string());
    let index_id = "my-index".to_string();
    create_index(&mut store, meta("my-index")).unwrap();
    store.stage_split(&index_id, split("s1", "my-index", 0)).unwrap();
    storage.put(&"s1.split".to_string(), vec![0u8; 512]);
    store.mark_splits_for_deletion(&index_id, &ids(&["s1"]), 1).unwrap();

    let splits = store.list_all_splits(&index_id).unwrap();
    let entries = delete_splits_with_files(&mut store, &mut storage, &index_id, &splits).unwrap();
    assert_eq!(entries.len(), 1);
    assert_eq!(entries[0].file_name, "s1.split");
    assert!(!storage.file_exists(&"s1.split".to_string()));
    assert_eq!(store.list_all_splits(&index_id).unwrap().len(), 0);
}

#[test]
fn gc_spares_splits_within_grace_period() {
    let mut store = Metastore::new();
    let mut storage = RamStorage::new("ram://indexes/my-index".to_string());
    let index_id = "my-index".to_string();
    create_index(&mut store, meta("my-index")).unwrap();
    // Staged at t=0, its file already uploaded; grace period 2s.
    store.stage_split(&index_id, split("s1", "my-index", 0)).unwrap();
    storage.put(&"s1.split".to_string(), vec![0u8; 512]);

    // At t=1 the split is inside the grace period: nothing happens.
    let at_one = garbage_collect_index(&mut store, &mut storage, &index_id, 2, false, 1).unwrap();
    assert_eq!(at_one.len(), 0);
    assert!(storage.file_exists(&"s1.split".to_string()));
    assert_eq!(store.list_all_splits(&index_id).unwrap().len(), 1);

    // At t=3 a dry run reports the split's file without removing it.
    let dry = garbage_collect_index(&mut store, &mut storage, &index_id, 2, true, 3).unwrap();
    assert_eq!(dry.len(), 1);
    assert_eq!(dry[0].file_name, "s1.split");
    assert!(storage.file_exists(&"s1.split".to_string()));

    // At t=3 a real pass removes the file and the catalog entry.
    let real = garbage_collect_index(&mut store, &mut storage, &index_id, 2, false, 3).unwrap();
    assert_eq!(real.len(), 1);
    assert!(!storage.file_exists(&"s1.split".to_string()));
    assert_eq!(store.list_all_splits(&index_id).unwrap().len(), 0);
}

#[test]
fn gc_removes_dangling_files_and_spares_published() {
    let mut store = Metastore::new();
    let mut storage = RamStorage::new("ram://indexes/my-index".to_string());
    let index_id = "my-index".to_string();
    create_index(&mut store, meta("my-index")).unwrap();
    store.stage_split(&index_id, split("live", "my-index", 0)).unwrap();
    upload_and_publish_split(
        &mut store,
        &mut storage,
        &index_id,
        &"live".to_string(),
        b"live-bytes".to_vec(),
        CheckpointDelta { from: 0, to: 1 },
        0,
    )
    .unwrap();
    // A file no split references is dangling and eligible.
    storage.put(&"orphan.split".to_string(), b"zzz".to_vec());

    let removed =
        garbage_collect_index(&mut store, &mut storage, &index_id, 100, false, 10).unwrap();
    assert_eq!(removed.len(), 1);
    assert_eq!(removed[0].file_name, "orphan.split");
    assert!(!storage.file_exists(&"orphan.split".to_string()));
    // The published split and its file survive.
    assert!(storage.file_exists(&"live.split".to_string()));
    assert_eq!(store.list_all_splits(&index_id).unwrap().len(), 1);
}

#[test]
fn gc_with_zero_grace_collects_immediately() {
    let mut store = Metastore::new();
    let mut storage = RamStorage::new("ram://indexes/my-index".to_string());
    let index_id = "my-index".to_string();
    create_index(&mut store, meta("my-index")).unwrap();
    store.stage_split(&index_id, split("s1", "my-index", 0)).unwrap();
    storage.put(&"s1.split".to_string(), b"x".to_vec());
    let removed =
        garbage_collect_index(&mut store, &mut storage, &index_id, 0, false, 1).unwrap();
    assert_eq!(removed.len(), 1);
    assert_eq!(store.list_all_splits(&index_id).unwrap().len(), 0);
}

#[test]
fn gc_with_grace_beyond_all_timestamps_spares_everything() {
    let mut store = Metastore::new();
    let mut storage = RamStorage::new("ram://indexes/my-index".to_string());
    let index_id = "my-index".to_string();
    create_index(&mut store, meta("my-index")).unwrap();
    store.stage_split(&index_id, split("s1", "my-index", 5)).unwrap();
    storage.put(&"s1.split".to_string(), b"x".to_vec());
    let removed =
        garbage_collect_index(&mut store, &mut storage, &index_id, u64::MAX, false, 10).unwrap();
    assert_eq!(removed.len(), 0);
    assert_eq!(store.list_all_splits(&index_id).unwrap().len(), 1);
    assert!(storage.file_exists(&"s1.split".to_string()));
}

#[test]
fn gc_on_missing_index_is_not_found() {
    let mut store = Metastore::new();
    let mut storage = RamStorage::new("ram://indexes/ghost".to_string());
    let r = garbage_collect_index(&mut store, &mut storage, &"ghost".to_string(), 2, false, 3);
    assert!(matches!(r, Err(ErrorKind::NotFound)));
}
