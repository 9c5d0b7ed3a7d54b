use quickwit::checkpoint::CheckpointDelta;
use quickwit::metastore::{IndexMetadata, Metastore};
use quickwit::split::{FooterOffsets, SplitMetadata, SplitState, TimeRange};
use quickwit::ErrorKind;

fn meta(index_id: &str) -> IndexMetadata {
    IndexMetadata {
        index_id: index_id.to_string(),
        index_uri: format!("ram://indexes/{}", index_id),
        index_config: "{\"type\":\"default\"}".to_string(),
        checkpoint: 0,
    }
}

fn split(split_id: &str, index_id: &str) -> SplitMetadata {
    SplitMetadata {
        split_id: split_id.to_string(),
        index_id: index_id.to_string(),
        replaced_split_ids: Vec::new(),
        num_docs: 4,
        size_in_bytes: 512,
        time_range: None,
        create_timestamp: 0,
        update_timestamp: 0,
        tags: Vec::new(),
        footer_offsets: FooterOffsets { start: 400, end: 512 },
        split_state: SplitState::New,
    }
}

fn ids(list: &[&str]) -> Vec<String> {
    list.iter().map(|s| s.to_string()).collect()
}

#[test]
fn create_index_on_existing_index_fails() {
    let mut store = Metastore::new();
    assert!(store.create_index(meta("my-index")).is_ok());
    let second = store.create_index(meta("my-index"));
    assert_eq!(second, Err(ErrorKind::AlreadyExists));
    // The catalog is unchanged: the original metadata is still served.
    let m = store.index_metadata(&"my-index".to_string()).unwrap();
    assert_eq!(m.checkpoint, 0);
    assert_eq!(m.index_uri, "ram://indexes/my-index");
}

#[test]
fn stage_publish_list_round_trip() {
    let mut store = Metastore::new();
    let index_id = "my-index".to_string();
    store.create_index(meta("my-index")).unwrap();
    store.stage_split(&index_id, split("split-one", "my-index")).unwrap();

    let staged = store
        .list_splits(&index_id, SplitState::Staged, None, &Vec::new())
        .unwrap();
    assert_eq!(staged.len(), 1);
    assert_eq!(staged[0].split_id, "split-one");

    store
        .publish_splits(&index_id, &ids(&["split-one"]), CheckpointDelta { from: 0, to: 7 }, 11)
        .unwrap();

    let published = store
        .list_splits(&index_id, SplitState::Published, None, &Vec::new())
        .unwrap();
    assert_eq!(published.len(), 1);
    assert_eq!(published[0].split_id, "split-one");
    assert_eq!(published[0].update_timestamp, 11);
    assert_eq!(store.index_metadata(&index_id).unwrap().checkpoint, 7);
}

#[test]
fn publish_conflict_leaves_splits_staged() {
    let mut store = Metastore::new();
    let index_id = "my-index".to_string();
    store.create_index(meta("my-index")).unwrap();
    store.stage_split(&index_id, split("a", "my-index")).unwrap();
    store.stage_split(&index_id, split("b", "my-index")).unwrap();

    // Two publishers race with the same `delta.from`: the first commit
    // wins, the second gets a typed conflict and its split stays staged.
    let first = store.publish_splits(&index_id, &ids(&["a"]), CheckpointDelta { from: 0, to: 5 }, 1);
    let second =
        store.publish_splits(&index_id, &ids(&["b"]), CheckpointDelta { from: 0, to: 5 }, 2);
    assert!(first.is_ok());
    assert_eq!(second, Err(ErrorKind::PreconditionFailed));

    let staged = store
        .list_splits(&index_id, SplitState::Staged, None, &Vec::new())
        .unwrap();
    assert_eq!(staged.len(), 1);
    assert_eq!(staged[0].split_id, "b");
    assert_eq!(store.index_metadata(&index_id).unwrap().checkpoint, 5);
}

#[test]
fn chained_deltas_compose_like_one() {
    let mut store = Metastore::new();
    let index_id = "my-index".to_string();
    store.create_index(meta("my-index")).unwrap();
    store.stage_split(&index_id, split("a", "my-index")).unwrap();
    store.stage_split(&index_id, split("b", "my-index")).unwrap();

    store.publish_splits(&index_id, &ids(&["a"]), CheckpointDelta { from: 0, to: 3 }, 1).unwrap();
    store.publish_splits(&index_id, &ids(&["b"]), CheckpointDelta { from: 3, to: 9 }, 2).unwrap();
    // [0,3) then [3,9) end where a single [0,9) would.
    assert_eq!(store.index_metadata(&index_id).unwrap().checkpoint, 9);
}

#[test]
fn publish_requires_staged_splits() {
    let mut store = Metastore::new();
    let index_id = "my-index".to_string();
    store.create_index(meta("my-index")).unwrap();
    store.stage_split(&index_id, split("a", "my-index")).unwrap();
    store.publish_splits(&index_id, &ids(&["a"]), CheckpointDelta { from: 0, to: 1 }, 1).unwrap();

    // Publishing an already published split is a precondition failure.
    let again =
        store.publish_splits(&index_id, &ids(&["a"]), CheckpointDelta { from: 1, to: 2 }, 2);
    assert_eq!(again, Err(ErrorKind::PreconditionFailed));

    // Publishing a missing split is not found.
    let missing =
        store.publish_splits(&index_id, &ids(&["ghost"]), CheckpointDelta { from: 1, to: 2 }, 2);
    assert_eq!(missing, Err(ErrorKind::NotFound));
}

#[test]
fn mark_splits_for_deletion_is_idempotent() {
    let mut store = Metastore::new();
    let index_id = "my-index".to_string();
    store.create_index(meta("my-index")).unwrap();
    store.stage_split(&index_id, split("a", "my-index")).unwrap();

    store.mark_splits_for_deletion(&index_id, &ids(&["a"]), 5).unwrap();
    let once = store.list_all_splits(&index_id).unwrap();
    assert_eq!(once[0].split_state, SplitState::ScheduledForDeletion);
    assert_eq!(once[0].update_timestamp, 5);

    // The second call is a no-op: even the timestamp stays.
    store.mark_splits_for_deletion(&index_id, &ids(&["a"]), 99).unwrap();
    let twice = store.list_all_splits(&index_id).unwrap();
    assert_eq!(twice[0].split_state, SplitState::ScheduledForDeletion);
    assert_eq!(twice[0].update_timestamp, 5);
}

#[test]
fn delete_splits_only_from_scheduled() {
    let mut store = Metastore::new();
    let index_id = "my-index".to_string();
    store.create_index(meta("my-index")).unwrap();
    store.stage_split(&index_id, split("a", "my-index")).unwrap();

    let premature = store.delete_splits(&index_id, &ids(&["a"]));
    assert_eq!(premature, Err(ErrorKind::PreconditionFailed));

    store.mark_splits_for_deletion(&index_id, &ids(&["a"]), 1).unwrap();
    store.delete_splits(&index_id, &ids(&["a"])).unwrap();
    assert_eq!(store.list_all_splits(&index_id).unwrap().len(), 0);

    let gone = store.delete_splits(&index_id, &ids(&["a"]));
    assert_eq!(gone, Err(ErrorKind::NotFound));
}

#[test]
fn delete_index_refuses_live_splits() {
    let mut store = Metastore::new();
    let index_id = "my-index".to_string();
    store.create_index(meta("my-index")).unwrap();
    store.stage_split(&index_id, split("a", "my-index")).unwrap();

    assert_eq!(store.delete_index(&index_id), Err(ErrorKind::PreconditionFailed));
    store.mark_splits_for_deletion(&index_id, &ids(&["a"]), 1).unwrap();
    store.delete_index(&index_id).unwrap();
    assert!(matches!(store.index_metadata(&index_id), Err(ErrorKind::NotFound)));
}

#[test]
fn list_splits_prunes_by_time_range() {
    let mut store = Metastore::new();
    let index_id = "my-index".to_string();
    store.create_index(meta("my-index")).unwrap();

    let mut early = split("early", "my-index");
    early.time_range = Some(TimeRange { start: 0, end: 99 });
    let mut late = split("late", "my-index");
    late.time_range = Some(TimeRange { start: 200, end: 299 });
    let open = split("open", "my-index");

    store.stage_split(&index_id, early).unwrap();
    store.stage_split(&index_id, late).unwrap();
    store.stage_split(&index_id, open).unwrap();
    store
        .publish_splits(
            &index_id,
            &ids(&["early", "late", "open"]),
            CheckpointDelta { from: 0, to: 1 },
            1,
        )
        .unwrap();

    // A query over [50, 150] keeps the overlapping split and the split
    // without a time range, which may contain any timestamp.
    let hits = store
        .list_splits(
            &index_id,
            SplitState::Published,
            Some(TimeRange { start: 50, end: 150 }),
            &Vec::new(),
        )
        .unwrap();
    let got: Vec<&str> = hits.iter().map(|s| s.split_id.as_str()).collect();
    assert_eq!(got, vec!["early", "open"]);

    // A query with no range keeps everything.
    let all = store
        .list_splits(&index_id, SplitState::Published, None, &Vec::new())
        .unwrap();
    assert_eq!(all.len(), 3);
}

#[test]
fn list_splits_prunes_by_tags() {
    let mut store = Metastore::new();
    let index_id = "my-index".to_string();
    store.create_index(meta("my-index")).unwrap();

    let mut tagged = split("tagged", "my-index");
    tagged.tags = ids(&["city:paris", "device:rpi"]);
    let bare = split("bare", "my-index");
    store.stage_split(&index_id, tagged).unwrap();
    store.stage_split(&index_id, bare).unwrap();
    store
        .publish_splits(&index_id, &ids(&["tagged", "bare"]), CheckpointDelta { from: 0, to: 1 }, 1)
        .unwrap();

    // Matching tags keep the tagged split; an untagged split always
    // passes the filter.
    let paris = store
        .list_splits(&index_id, SplitState::Published, None, &ids(&["city:paris", "device:rpi"]))
        .unwrap();
    assert_eq!(paris.len(), 2);

    // A tag that matches nothing keeps only the untagged split.
    let conakry = store
        .list_splits(&index_id, SplitState::Published, None, &ids(&["city:conakry"]))
        .unwrap();
    assert_eq!(conakry.len(), 1);
    assert_eq!(conakry[0].split_id, "bare");
}

#[test]
fn list_splits_with_zero_splits() {
    let mut store = Metastore::new();
    let index_id = "my-index".to_string();
    store.create_index(meta("my-index")).unwrap();
    let none = store
        .list_splits(&index_id, SplitState::Published, None, &Vec::new())
        .unwrap();
    assert_eq!(none.len(), 0);
    assert!(matches!(
        store.list_splits(&"missing".to_string(), SplitState::Published, None, &Vec::new()),
        Err(ErrorKind::NotFound)
    ));
}

#[test]
fn stage_split_rejects_duplicate_id() {
    let mut store = Metastore::new();
    let index_id = "my-index".to_string();
    store.create_index(meta("my-index")).unwrap();
    store.stage_split(&index_id, split("a", "my-index")).unwrap();
    let dup = store.stage_split(&index_id, split("a", "my-index"));
    assert_eq!(dup, Err(ErrorKind::AlreadyExists));
    let orphan = store.stage_split(&"missing".to_string(), split("b", "my-index"));
    assert_eq!(orphan, Err(ErrorKind::NotFound));
}

#[test]
fn publish_rejects_backward_delta() {
    let mut store = Metastore::new();
    let index_id = "my-index".to_string();
    store.create_index(meta("my-index")).unwrap();
    store.stage_split(&index_id, split("a", "my-index")).unwrap();
    let bad = store.publish_splits(&index_id, &ids(&["a"]), CheckpointDelta { from: 5, to: 2 }, 1);
    assert_eq!(bad, Err(ErrorKind::InvalidArgument));
}
