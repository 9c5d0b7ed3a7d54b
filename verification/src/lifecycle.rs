//! Split lifecycle engine: the operations that keep the catalog and the
//! index storage consistent — uploading and publishing, deleting splits
//! together with their files, resetting and deleting whole indexes.

use vstd::prelude::*;

use crate::checkpoint::CheckpointDelta;
use crate::metastore::{
    all_listed_in_state, delete_transform, has_all_splits, has_index, id_in_list, index_idx,
    lemma_index_idx, mark_transform, publish_transform, split_ids_unique, IndexView, Metastore,
    IndexMetadata,
};
use crate::split::{
    split_file, split_views, spec_split_file, string_views, FileEntry, SplitMetadata, SplitState,
    SplitView,
};
use crate::storage::RamStorage;
use crate::ErrorKind;

verus! {

/// The storage file names of a list of splits, as a set.
pub open spec fn split_file_set(splits: Seq<SplitView>) -> Set<Seq<char>> {
    Set::new(
        |p: Seq<char>|
            exists|k: int| 0 <= k < splits.len() && p == spec_split_file(splits[k].split_id),
    )
}

/// The split ids of a list of splits, in order.
pub open spec fn ids_of(splits: Seq<SplitView>) -> Seq<Seq<char>> {
    splits.map_values(|s: SplitView| s.split_id)
}

/// The file entries of a list of splits, in order: each split's file
/// name and size.
pub open spec fn entries_match(entries: Seq<FileEntry>, splits: Seq<SplitView>) -> bool {
    &&& entries.len() == splits.len()
    &&& forall|k: int|
        0 <= k < splits.len() ==> (#[trigger] entries[k]).file_name@ == spec_split_file(
            splits[k].split_id,
        ) && entries[k].file_size_in_bytes == splits[k].size_in_bytes
}

/// Every published split of the list has its file present on storage.
pub open spec fn published_files_present(
    splits: Seq<SplitView>,
    store: Map<Seq<char>, Seq<u8>>,
) -> bool {
    forall|k: int|
        0 <= k < splits.len() && (#[trigger] splits[k]).split_state == SplitState::Published
            ==> store.contains_key(spec_split_file(splits[k].split_id))
}

/// Split file names collide only for equal split ids.
pub proof fn lemma_split_file_injective(a: Seq<char>, b: Seq<char>)
    requires
        spec_split_file(a) == spec_split_file(b),
    ensures
        a == b,
{
    assert(spec_split_file(a).len() == a.len() + ".split"@.len());
    assert(spec_split_file(b).len() == b.len() + ".split"@.len());
    assert(a.len() == b.len());
    assert forall|i: int| 0 <= i < a.len() implies a[i] == b[i] by {
        assert(spec_split_file(a)[i] == a[i]);
        assert(spec_split_file(b)[i] == b[i]);
    }
    assert(a =~= b);
}

/// Staging keeps every published file present: the staged split is not
/// published, and no file moves.
pub proof fn lemma_stage_preserves_published_files(
    splits: Seq<SplitView>,
    staged: SplitView,
    store: Map<Seq<char>, Seq<u8>>,
)
    requires
        published_files_present(splits, store),
        staged.split_state == SplitState::Staged,
    ensures
        published_files_present(splits.push(staged), store),
{
    let t = splits.push(staged);
    assert forall|k: int|
        0 <= k < t.len() && (#[trigger] t[k]).split_state == SplitState::Published implies
        store.contains_key(spec_split_file(t[k].split_id)) by {
        assert(k < splits.len() && t[k] == splits[k]);
    }
}

/// Marking splits for deletion keeps every published file present: a
/// marked split is no longer published, the others are untouched, and no
/// file moves.
pub proof fn lemma_mark_preserves_published_files(
    splits: Seq<SplitView>,
    ids: Seq<Seq<char>>,
    now: u64,
    store: Map<Seq<char>, Seq<u8>>,
)
    requires
        published_files_present(splits, store),
    ensures
        published_files_present(mark_transform(splits, ids, now), store),
{
    let t = mark_transform(splits, ids, now);
    assert forall|k: int|
        0 <= k < t.len() && (#[trigger] t[k]).split_state == SplitState::Published implies
        store.contains_key(spec_split_file(t[k].split_id)) by {
        assert(t[k] == splits[k] && splits[k].split_state == SplitState::Published);
    }
}

/// Deleting scheduled splits together with their files keeps every
/// published file present: only files of scheduled splits disappear,
/// and with unique split ids those are never the file of a published
/// split.
pub proof fn lemma_delete_preserves_published_files(
    splits: Seq<SplitView>,
    ids: Seq<Seq<char>>,
    store: Map<Seq<char>, Seq<u8>>,
    removed: Seq<SplitView>,
)
    requires
        published_files_present(splits, store),
        split_ids_unique(splits),
        all_listed_in_state(splits, ids, SplitState::ScheduledForDeletion),
        forall|k: int|
            0 <= k < removed.len() ==> id_in_list(ids, (#[trigger] removed[k]).split_id),
    ensures
        published_files_present(
            delete_transform(splits, ids),
            store.remove_keys(split_file_set(removed)),
        ),
{
    let t = delete_transform(splits, ids);
    let st = store.remove_keys(split_file_set(removed));
    assert forall|k: int|
        0 <= k < t.len() && (#[trigger] t[k]).split_state == SplitState::Published implies
        st.contains_key(spec_split_file(t[k].split_id)) by {
        assert(t.contains(t[k]));
        splits.lemma_filter_contains_rev(crate::metastore::delete_keep_pred(ids), t[k]);
        let q = choose|q: int| 0 <= q < splits.len() && splits[q] == t[k];
        assert(!id_in_list(ids, splits[q].split_id));
        assert(store.contains_key(spec_split_file(t[k].split_id)));
        if split_file_set(removed).contains(spec_split_file(t[k].split_id)) {
            let w = choose|w: int|
                0 <= w < removed.len() && spec_split_file(t[k].split_id) == spec_split_file(
                    removed[w].split_id,
                );
            lemma_split_file_injective(t[k].split_id, removed[w].split_id);
            assert(id_in_list(ids, t[k].split_id));
        }
    }
}

/// Creates an index in the catalog. The command fails with
/// `AlreadyExists` when an index with that id is already present.
pub fn create_index(metastore: &mut Metastore, index_metadata: IndexMetadata) -> (r: Result<
    (),
    ErrorKind,
>)
    requires
        old(metastore).wf(),
    ensures
        final(metastore).wf(),
        has_index(old(metastore)@, index_metadata.index_id@) ==> r == Err::<(), ErrorKind>(
            ErrorKind::AlreadyExists,
        ) && final(metastore)@ == old(metastore)@,
        !has_index(old(metastore)@, index_metadata.index_id@) ==> r == Ok::<(), ErrorKind>(())
            && final(metastore)@ =~= old(metastore)@.push(
            IndexView {
                index_id: index_metadata.index_id@,
                index_uri: index_metadata.index_uri@,
                index_config: index_metadata.index_config@,
                checkpoint: index_metadata.checkpoint,
                splits: Seq::empty(),
            },
        ),
{
    metastore.create_index(index_metadata)
}

/// Uploads a split file and only then publishes the split, atomically
/// with the checkpoint advance. When publishing fails the uploaded file
/// is left in place and the split remains staged; the next garbage
/// collection pass is responsible for it. Every published file that was
/// present stays present.
pub fn upload_and_publish_split(
    metastore: &mut Metastore,
    storage: &mut RamStorage,
    index_id: &String,
    split_id: &String,
    payload: Vec<u8>,
    delta: CheckpointDelta,
    now: u64,
) -> (r: Result<(), ErrorKind>)
    requires
        old(metastore).wf(),
        old(storage).wf(),
    ensures
        final(metastore).wf(),
        final(storage).wf(),
        final(storage)@ =~= old(storage)@.insert(spec_split_file(split_id@), payload@),
        ({
            let m = old(metastore)@;
            let ids = seq![split_id@];
            if !has_index(m, index_id@) {
                r == Err::<(), ErrorKind>(ErrorKind::NotFound) && final(metastore)@ == m
            } else {
                let j = index_idx(m, index_id@);
                if !delta.wf() {
                    r == Err::<(), ErrorKind>(ErrorKind::InvalidArgument) && final(metastore)@
                        == m
                } else if !has_all_splits(m[j].splits, ids) {
                    r == Err::<(), ErrorKind>(ErrorKind::NotFound) && final(metastore)@ == m
                } else if !all_listed_in_state(m[j].splits, ids, SplitState::Staged) {
                    r == Err::<(), ErrorKind>(ErrorKind::PreconditionFailed) && final(metastore)@
                        == m
                } else if delta.from != m[j].checkpoint {
                    r == Err::<(), ErrorKind>(ErrorKind::PreconditionFailed) && final(metastore)@
                        == m
                } else {
                    r == Ok::<(), ErrorKind>(()) && final(metastore)@ =~= m.update(
                        j,
                        IndexView {
                            checkpoint: delta.to,
                            splits: publish_transform(m[j].splits, ids, now),
                            ..m[j]
                        },
                    )
                }
            }
        }),
        has_index(old(metastore)@, index_id@) && published_files_present(
            old(metastore)@[index_idx(old(metastore)@, index_id@)].splits,
            old(storage)@,
        ) ==> published_files_present(
            final(metastore)@[index_idx(old(metastore)@, index_id@)].splits,
            final(storage)@,
        ),
{
    let file_name = split_file(split_id);
    storage.put(&file_name, payload);
    let mut ids: Vec<String> = Vec::new();
    ids.push(split_id.clone());
    proof {
        assert(string_views(ids@) =~= seq![split_id@]);
    }
    let r = metastore.publish_splits(index_id, &ids, delta, now);
    proof {
        let m = old(metastore)@;
        if has_index(m, index_id@) {
            let j = index_idx(m, index_id@);
            if published_files_present(m[j].splits, old(storage)@) {
                let t = final(metastore)@[j].splits;
                assert forall|k: int|
                    0 <= k < t.len() && (#[trigger] t[k]).split_state == SplitState::Published
                        implies final(storage)@.contains_key(spec_split_file(t[k].split_id)) by {
                    if r is Ok {
                        let s = m[j].splits;
                        assert(t == publish_transform(s, seq![split_id@], now));
                        assert(t[k] == if id_in_list(seq![split_id@], s[k].split_id) {
                            crate::metastore::published_split(s[k], now)
                        } else {
                            s[k]
                        });
                        if id_in_list(seq![split_id@], s[k].split_id) {
                            assert(s[k].split_id == split_id@);
                        } else {
                            assert(old(storage)@.contains_key(spec_split_file(t[k].split_id)));
                        }
                    } else {
                        assert(t[k] == m[j].splits[k]);
                        assert(old(storage)@.contains_key(spec_split_file(t[k].split_id)));
                    }
                }
            }
        }
    }
    r
}

/// Deletes the files of the given splits and then removes their catalog
/// entries. The files disappear first, so a failure of the catalog
/// removal leaves the remaining splits scheduled for deletion for the
/// next pass; the file entries of the splits are returned on success.
pub fn delete_splits_with_files(
    metastore: &mut Metastore,
    storage: &mut RamStorage,
    index_id: &String,
    splits: &Vec<SplitMetadata>,
) -> (r: Result<Vec<FileEntry>, ErrorKind>)
    requires
        old(metastore).wf(),
        old(storage).wf(),
    ensures
        final(metastore).wf(),
        final(storage).wf(),
        final(storage)@ =~= old(storage)@.remove_keys(split_file_set(split_views(splits@))),
        ({
            let m = old(metastore)@;
            let ids = ids_of(split_views(splits@));
            if !has_index(m, index_id@) {
                r == Err::<Vec<FileEntry>, ErrorKind>(ErrorKind::NotFound) && final(metastore)@
                    == m
            } else {
                let j = index_idx(m, index_id@);
                if !has_all_splits(m[j].splits, ids) {
                    r == Err::<Vec<FileEntry>, ErrorKind>(ErrorKind::NotFound) && final(
                        metastore)@ == m
                } else if !all_listed_in_state(m[j].splits, ids, SplitState::ScheduledForDeletion) {
                    r == Err::<Vec<FileEntry>, ErrorKind>(ErrorKind::PreconditionFailed)
                        && final(metastore)@ == m
                } else {
                    &&& final(metastore)@ =~= m.update(
                        j,
                        IndexView { splits: delete_transform(m[j].splits, ids), ..m[j] },
                    )
                    &&& r matches Ok(entries) && entries_match(entries@, split_views(splits@))
                }
            }
        }),
{
    let ghost sviews = split_views(splits@);
    let mut ids: Vec<String> = Vec::new();
    let mut entries: Vec<FileEntry> = Vec::new();
    let mut k: usize = 0;
    while k < splits.len()
        invariant
            k <= splits@.len(),
            old(storage).wf(),
            storage.wf(),
            sviews == split_views(splits@),
            storage@ =~= old(storage)@.remove_keys(split_file_set(sviews.take(k as int))),
            storage.spec_uri() == old(storage).spec_uri(),
            ids@.len() == k,
            forall|q: int| 0 <= q < k ==> (#[trigger] ids@[q])@ == sviews[q].split_id,
            entries@.len() == k,
            forall|q: int|
                0 <= q < k ==> (#[trigger] entries@[q]).file_name@ == spec_split_file(
                    sviews[q].split_id,
                ) && entries@[q].file_size_in_bytes == sviews[q].size_in_bytes,
        decreases splits@.len() - k,
    {
        let file_name = split_file(&splits[k].split_id);
        let ghost prevstore = storage@;
        storage.delete(&file_name);
        proof {
            assert(storage@ =~= old(storage)@.remove_keys(split_file_set(sviews.take(k + 1))))
                by {
                let tk = sviews.take(k + 1);
                let tp = sviews.take(k as int);
                assert forall|p: Seq<char>| #[trigger] split_file_set(tk).contains(p) <==> (
                split_file_set(tp).contains(p) || p == spec_split_file(
                    sviews[k as int].split_id,
                )) by {
                    if split_file_set(tk).contains(p) {
                        let w = choose|w: int|
                            0 <= w < tk.len() && p == spec_split_file((#[trigger] tk[w]).split_id);
                        if w < k {
                            assert(tp[w] == tk[w]);
                            assert(split_file_set(tp).contains(p));
                        } else {
                            assert(tk[w] == sviews[k as int]);
                        }
                    }
                    if split_file_set(tp).contains(p) {
                        let w = choose|w: int|
                            0 <= w < tp.len() && p == spec_split_file((#[trigger] tp[w]).split_id);
                        assert(tk[w] == tp[w]);
                        assert(split_file_set(tk).contains(p));
                    }
                    if p == spec_split_file(sviews[k as int].split_id) {
                        assert(tk[k as int] == sviews[k as int]);
                        assert(split_file_set(tk).contains(p));
                    }
                }
            }
        }
        ids.push(splits[k].split_id.clone());
        entries.push(FileEntry::from_split(&splits[k]));
        k = k + 1;
    }
    proof {
        assert(sviews.take(splits@.len() as int) =~= sviews);
        assert(string_views(ids@) =~= ids_of(sviews));
    }
    match metastore.delete_splits(index_id, &ids) {
        Ok(()) => Ok(entries),
        Err(e) => Err(e),
    }
}

/// Marking a split list with its own ids schedules every split for
/// deletion.
pub proof fn lemma_mark_all_scheduled(splits: Seq<SplitView>, now: u64)
    ensures
        forall|k: int|
            0 <= k < splits.len() ==> (#[trigger] mark_transform(splits, ids_of(splits), now)[
                k
            ]).split_state == SplitState::ScheduledForDeletion,
        forall|k: int|
            0 <= k < splits.len() ==> (#[trigger] mark_transform(splits, ids_of(splits), now)[
                k
            ]).split_id == splits[k].split_id,
{
    let ids = ids_of(splits);
    let t = mark_transform(splits, ids, now);
    assert forall|k: int| 0 <= k < splits.len() implies (#[trigger] t[k]).split_state
        == SplitState::ScheduledForDeletion && t[k].split_id == splits[k].split_id by {
        assert(ids[k] == splits[k].split_id);
        assert(id_in_list(ids, splits[k].split_id));
    }
}

/// Clears the index: every split is marked for deletion, the split
/// files are removed from storage, and the catalog entries follow. The
/// index row itself stays, with no splits left.
pub fn reset_index(
    metastore: &mut Metastore,
    storage: &mut RamStorage,
    index_id: &String,
    now: u64,
) -> (r: Result<(), ErrorKind>)
    requires
        old(metastore).wf(),
        old(storage).wf(),
    ensures
        final(metastore).wf(),
        final(storage).wf(),
        ({
            let m = old(metastore)@;
            if !has_index(m, index_id@) {
                r == Err::<(), ErrorKind>(ErrorKind::NotFound) && final(metastore)@ == m && final(
                    storage)@ == old(storage)@
            } else {
                let j = index_idx(m, index_id@);
                &&& r == Ok::<(), ErrorKind>(())
                &&& final(metastore)@ =~= m.update(
                    j,
                    IndexView { splits: Seq::empty(), ..m[j] },
                )
                &&& final(storage)@ =~= old(storage)@.remove_keys(split_file_set(m[j].splits))
            }
        }),
{
    let splits = match metastore.list_all_splits(index_id) {
        Err(e) => {
            return Err(ErrorKind::NotFound);
        },
        Ok(v) => v,
    };
    let ghost m = old(metastore)@;
    let ghost j = index_idx(m, index_id@);
    let ghost sviews = m[j].splits;
    let mut ids: Vec<String> = Vec::new();
    let mut k: usize = 0;
    while k < splits.len()
        invariant
            k <= splits@.len(),
            sviews == split_views(splits@),
            ids@.len() == k,
            forall|q: int| 0 <= q < k ==> (#[trigger] ids@[q])@ == sviews[q].split_id,
        decreases splits@.len() - k,
    {
        ids.push(splits[k].split_id.clone());
        k = k + 1;
    }
    proof {
        assert(string_views(ids@) =~= ids_of(sviews));
        assert(has_all_splits(sviews, ids_of(sviews))) by {
            assert forall|q: int| 0 <= q < ids_of(sviews).len() implies crate::metastore::has_split(
                sviews,
                #[trigger] ids_of(sviews)[q],
            ) by {
                assert(sviews[q].split_id == ids_of(sviews)[q]);
            }
        }
    }
    match metastore.mark_splits_for_deletion(index_id, &ids, now) {
        Err(e) => {
            proof {
                assert(false);
            }
            return Err(e);
        },
        Ok(()) => {},
    }
    let ghost m1 = metastore@;
    let ghost marked = mark_transform(sviews, ids_of(sviews), now);
    proof {
        lemma_index_idx(m1, index_id@, j);
        lemma_mark_all_scheduled(sviews, now);
        assert(has_all_splits(marked, ids_of(sviews))) by {
            assert forall|q: int| 0 <= q < ids_of(sviews).len() implies crate::metastore::has_split(
                marked,
                #[trigger] ids_of(sviews)[q],
            ) by {
                assert(marked[q].split_id == sviews[q].split_id);
            }
        }
        assert(all_listed_in_state(marked, ids_of(sviews), SplitState::ScheduledForDeletion));
    }
    match delete_splits_with_files(metastore, storage, index_id, &splits) {
        Err(e) => {
            proof {
                assert(false);
            }
            return Err(e);
        },
        Ok(_) => {},
    }
    proof {
        assert(delete_transform(marked, ids_of(sviews)).len() == 0) by {
            lemma_mark_all_scheduled(sviews, now);
            assert(marked.all(
                |x: SplitView| !(crate::metastore::delete_keep_pred(ids_of(sviews)))(x),
            )) by {
                assert forall|q: int| 0 <= q < marked.len() implies id_in_list(
                    ids_of(sviews),
                    (#[trigger] marked[q]).split_id,
                ) by {
                    assert(marked[q].split_id == sviews[q].split_id);
                    assert(ids_of(sviews)[q] == sviews[q].split_id);
                }
            }
            marked.lemma_all_neg_filter_empty(crate::metastore::delete_keep_pred(ids_of(sviews)));
        }
        assert(delete_transform(marked, ids_of(sviews)) =~= Seq::<SplitView>::empty());
        assert(metastore@ =~= m.update(j, IndexView { splits: Seq::empty(), ..m[j] }));
    }
    Ok(())
}

/// Deletes the index. In a dry run the file entries of every split are
/// reported and nothing changes. Otherwise every split is marked for
/// deletion, the split files and catalog entries are removed, and the
/// index row is removed last; the file entries of the removed splits
/// are returned.
pub fn delete_index(
    metastore: &mut Metastore,
    storage: &mut RamStorage,
    index_id: &String,
    dry_run: bool,
    now: u64,
) -> (r: Result<Vec<FileEntry>, ErrorKind>)
    requires
        old(metastore).wf(),
        old(storage).wf(),
    ensures
        final(metastore).wf(),
        final(storage).wf(),
        ({
            let m = old(metastore)@;
            if !has_index(m, index_id@) {
                r == Err::<Vec<FileEntry>, ErrorKind>(ErrorKind::NotFound) && final(metastore)@
                    == m && final(storage)@ == old(storage)@
            } else {
                let j = index_idx(m, index_id@);
                if dry_run {
                    &&& r matches Ok(entries) && entries_match(entries@, m[j].splits)
                    &&& final(metastore)@ == m
                    &&& final(storage)@ == old(storage)@
                } else {
                    &&& r matches Ok(entries) && entries_match(entries@, m[j].splits)
                    &&& final(metastore)@ =~= m.remove(j)
                    &&& final(storage)@ =~= old(storage)@.remove_keys(
                        split_file_set(m[j].splits),
                    )
                }
            }
        }),
{
    let splits = match metastore.list_all_splits(index_id) {
        Err(e) => {
            return Err(ErrorKind::NotFound);
        },
        Ok(v) => v,
    };
    let ghost m = old(metastore)@;
    let ghost j = index_idx(m, index_id@);
    let ghost sviews = m[j].splits;
    let mut entries: Vec<FileEntry> = Vec::new();
    let mut k: usize = 0;
    while k < splits.len()
        invariant
            k <= splits@.len(),
            sviews == split_views(splits@),
            entries@.len() == k,
            forall|q: int|
                0 <= q < k ==> (#[trigger] entries@[q]).file_name@ == spec_split_file(
                    sviews[q].split_id,
                ) && entries@[q].file_size_in_bytes == sviews[q].size_in_bytes,
        decreases splits@.len() - k,
    {
        entries.push(FileEntry::from_split(&splits[k]));
        k = k + 1;
    }
    if dry_run {
        return Ok(entries);
    }
    match reset_index(metastore, storage, index_id, now) {
        Err(e) => {
            proof {
                assert(false);
            }
            return Err(e);
        },
        Ok(()) => {},
    }
    let ghost m1 = metastore@;
    proof {
        lemma_index_idx(m1, index_id@, j);
        assert(crate::metastore::all_in_state(m1[j].splits, SplitState::ScheduledForDeletion));
    }
    match metastore.delete_index(index_id) {
        Err(e) => {
            proof {
                assert(false);
            }
            Err(e)
        },
        Ok(()) => {
            proof {
                assert(metastore@ =~= m.remove(j));
            }
            Ok(entries)
        },
    }
}


/// When the storage holds nothing but split files of the catalog,
/// deleting the index leaves the storage empty: creating an index and
/// deleting it leaves no file under the index URI.
pub proof fn lemma_delete_clears_covered_storage(
    store: Map<Seq<char>, Seq<u8>>,
    splits: Seq<SplitView>,
)
    requires
        forall|p: Seq<char>| store.dom().contains(p) ==> split_file_set(splits).contains(p),
    ensures
        store.remove_keys(split_file_set(splits)).dom() =~= Set::<Seq<char>>::empty(),
{
}

} // verus!
