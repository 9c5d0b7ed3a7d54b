//! Garbage collection: reconciles the files under an index URI with the
//! catalog under a grace period, removing stale staged or scheduled
//! splits together with their files, and dangling files no split
//! references.

use vstd::prelude::*;

use crate::lifecycle::{delete_splits_with_files, entries_match, ids_of, split_file_set};
use crate::metastore::{
    all_listed_in_state, delete_keep_pred, delete_transform, has_all_splits, has_index,
    id_in_list, index_idx, lemma_index_idx, lemma_split_idx, mark_transform, split_ids_unique,
    IndexView, Metastore,
};
use crate::split::{
    split_file, split_views, spec_split_file, string_views, FileEntry, SplitMetadata, SplitState,
    SplitView,
};
use crate::storage::RamStorage;
use crate::ErrorKind;

verus! {

/// A split is a garbage-collection candidate when it is staged or
/// scheduled for deletion and its last update is older than the grace
/// period: such a split is no longer protected by an uploader that may
/// be mid-publish.
pub open spec fn is_gc_candidate(s: SplitView, grace: u64, now: u64) -> bool {
    &&& (s.split_state == SplitState::Staged || s.split_state
        == SplitState::ScheduledForDeletion)
    &&& s.update_timestamp + grace < now
}

/// The candidate predicate as a function of the split alone.
pub open spec fn gc_candidate_pred(grace: u64, now: u64) -> spec_fn(SplitView) -> bool {
    |s: SplitView| is_gc_candidate(s, grace, now)
}

/// The predicate keeping the splits garbage collection spares.
pub open spec fn gc_keep_pred(grace: u64, now: u64) -> spec_fn(SplitView) -> bool {
    |s: SplitView| !is_gc_candidate(s, grace, now)
}

/// The set of a list of paths.
pub open spec fn path_set(ps: Seq<Seq<char>>) -> Set<Seq<char>> {
    Set::new(|p: Seq<char>| exists|k: int| 0 <= k < ps.len() && p == ps[k])
}

/// The dangling files of a storage with respect to a split list: the
/// stored paths that are no split's file.
pub open spec fn dangling_set(
    store: Map<Seq<char>, Seq<u8>>,
    splits: Seq<SplitView>,
) -> Set<Seq<char>> {
    Set::new(|p: Seq<char>| store.dom().contains(p) && !split_file_set(splits).contains(p))
}

/// The predicate keeping the paths no split references.
pub open spec fn dangling_pred(splits: Seq<SplitView>) -> spec_fn(Seq<char>) -> bool {
    |p: Seq<char>| !split_file_set(splits).contains(p)
}

/// Extending a path list by one path extends its set by that path.
pub proof fn lemma_path_set_take_step(ps: Seq<Seq<char>>, k: int)
    requires
        0 <= k < ps.len(),
    ensures
        path_set(ps.take(k + 1)) =~= path_set(ps.take(k)).insert(ps[k]),
{
    let tk = ps.take(k + 1);
    let tp = ps.take(k);
    assert forall|p: Seq<char>| #[trigger] path_set(tk).contains(p) <==> (path_set(tp).contains(p)
        || p == ps[k]) by {
        if path_set(tk).contains(p) {
            let w = choose|w: int| 0 <= w < tk.len() && p == #[trigger] tk[w];
            if w < k {
                assert(tp[w] == tk[w]);
                assert(path_set(tp).contains(p));
            } else {
                assert(tk[w] == ps[k]);
            }
        }
        if path_set(tp).contains(p) {
            let w = choose|w: int| 0 <= w < tp.len() && p == #[trigger] tp[w];
            assert(tk[w] == tp[w]);
            assert(path_set(tk).contains(p));
        }
        if p == ps[k] {
            assert(tk[k] == ps[k]);
            assert(path_set(tk).contains(p));
        }
    }
}

/// Marking splits and then deleting them by the same ids removes
/// exactly the named splits: the survivors were never touched by the
/// marking.
pub proof fn lemma_delete_after_mark(s: Seq<SplitView>, ids: Seq<Seq<char>>, now: u64)
    ensures
        delete_transform(mark_transform(s, ids, now), ids) == delete_transform(s, ids),
    decreases s.len(),
{
    reveal(Seq::filter);
    let t = mark_transform(s, ids, now);
    if s.len() == 0 {
        assert(t =~= s);
    } else {
        lemma_delete_after_mark(s.drop_last(), ids, now);
        assert(t.drop_last() =~= mark_transform(s.drop_last(), ids, now));
        assert(t.last().split_id == s.last().split_id);
        if !id_in_list(ids, s.last().split_id) {
            assert(t.last() == s.last());
        }
    }
}

/// Two predicates that agree on every element of a sequence filter it
/// identically.
pub proof fn lemma_filter_pred_equiv<A>(s: Seq<A>, p: spec_fn(A) -> bool, q: spec_fn(A) -> bool)
    requires
        forall|k: int| 0 <= k < s.len() ==> p(#[trigger] s[k]) == q(s[k]),
    ensures
        s.filter(p) == s.filter(q),
    decreases s.len(),
{
    reveal(Seq::filter);
    if s.len() > 0 {
        assert(forall|k: int| 0 <= k < s.drop_last().len() ==> #[trigger] s.drop_last()[k]
            == s[k]);
        lemma_filter_pred_equiv(s.drop_last(), p, q);
    }
}

/// On a split list with unique ids, bearing the id of some candidate is
/// the same as being a candidate.
pub proof fn lemma_candidate_ids(s: Seq<SplitView>, grace: u64, now: u64)
    requires
        split_ids_unique(s),
    ensures
        forall|k: int|
            0 <= k < s.len() ==> (id_in_list(
                ids_of(s.filter(gc_candidate_pred(grace, now))),
                (#[trigger] s[k]).split_id,
            ) <==> is_gc_candidate(s[k], grace, now)),
{
    let cands = s.filter(gc_candidate_pred(grace, now));
    let ids = ids_of(cands);
    assert forall|k: int| 0 <= k < s.len() implies (id_in_list(
        ids,
        (#[trigger] s[k]).split_id,
    ) <==> is_gc_candidate(s[k], grace, now)) by {
        if id_in_list(ids, s[k].split_id) {
            let w = choose|w: int| 0 <= w < ids.len() && ids[w] == s[k].split_id;
            assert(cands[w].split_id == s[k].split_id);
            assert(cands.contains(cands[w]));
            s.lemma_filter_contains_rev(gc_candidate_pred(grace, now), cands[w]);
            let q = choose|q: int| 0 <= q < s.len() && s[q] == cands[w];
            lemma_split_idx(s, s[k].split_id, k);
            lemma_split_idx(s, s[k].split_id, q);
            s.lemma_filter_pred(gc_candidate_pred(grace, now), w);
            assert(is_gc_candidate(s[k], grace, now));
        }
        if is_gc_candidate(s[k], grace, now) {
            s.lemma_filter_contains(gc_candidate_pred(grace, now), k);
            let w = choose|w: int| 0 <= w < cands.len() && cands[w] == s[k];
            assert(ids[w] == s[k].split_id);
        }
    }
}

/// Whether the path is the file of one of the splits.
pub fn is_referenced(splits: &Vec<SplitMetadata>, path: &String) -> (r: bool)
    ensures
        r == split_file_set(split_views(splits@)).contains(path@),
{
    let ghost sviews = split_views(splits@);
    let mut q: usize = 0;
    while q < splits.len()
        invariant
            q <= splits@.len(),
            sviews == split_views(splits@),
            forall|w: int| 0 <= w < q ==> path@ != spec_split_file((#[trigger] sviews[w]).split_id),
        decreases splits@.len() - q,
    {
        let name = split_file(&splits[q].split_id);
        if name == *path {
            assert(path@ == spec_split_file(sviews[q as int].split_id));
            return true;
        }
        q = q + 1;
    }
    assert(!split_file_set(sviews).contains(path@));
    false
}

/// Whether the split may be garbage collected at `now` under the grace
/// period.
pub fn is_candidate_split(meta: &SplitMetadata, grace_period: u64, now: u64) -> (r: bool)
    ensures
        r == is_gc_candidate(meta@, grace_period, now),
{
    let stale = now > grace_period && meta.update_timestamp < now - grace_period;
    match meta.split_state {
        SplitState::Staged => stale,
        SplitState::ScheduledForDeletion => stale,
        _ => false,
    }
}

/// What a garbage-collection pass reports: the file entries of the
/// candidate splits, in catalog order, followed by the dangling files,
/// in storage order, each with its stored size.
pub open spec fn gc_entries_match(
    entries: Seq<FileEntry>,
    cands: Seq<SplitView>,
    store: Map<Seq<char>, Seq<u8>>,
    paths: Seq<Seq<char>>,
    splits: Seq<SplitView>,
) -> bool {
    let dps = paths.filter(dangling_pred(splits));
    &&& entries.len() == cands.len() + dps.len()
    &&& entries_match(entries.take(cands.len() as int), cands)
    &&& forall|q: int|
        0 <= q < dps.len() ==> (#[trigger] entries[cands.len() + q]).file_name@ == dps[q]
            && entries[cands.len() + q].file_size_in_bytes == store[dps[q]].len()
}

/// Reconciles storage against the catalog. Candidates are the staged
/// and scheduled splits older than the grace period; dangling files are
/// the stored files no split references — the storage keeps no
/// modification times, so a dangling file is always eligible. In a dry
/// run the union is
/// reported and nothing changes. Otherwise staged candidates are marked
/// for deletion, the candidates' files and catalog entries and every
/// dangling file are removed, and the same union is reported.
///
/// Afterwards (not in a dry run) every remaining file belongs to a
/// remaining split, and no staged or scheduled split older than the
/// grace period remains.
#[verifier::loop_isolation(false)]
#[verifier::rlimit(50)]
pub fn garbage_collect_index(
    metastore: &mut Metastore,
    storage: &mut RamStorage,
    index_id: &String,
    grace_period: u64,
    dry_run: bool,
    now: u64,
) -> (r: Result<Vec<FileEntry>, ErrorKind>)
    requires
        old(metastore).wf(),
        old(storage).wf(),
    ensures
        final(metastore).wf(),
        final(storage).wf(),
        ({
            let m = old(metastore)@;
            let store0 = old(storage)@;
            if !has_index(m, index_id@) {
                r == Err::<Vec<FileEntry>, ErrorKind>(ErrorKind::NotFound) && final(metastore)@
                    == m && final(storage)@ == store0
            } else {
                let j = index_idx(m, index_id@);
                let s = m[j].splits;
                let cands = s.filter(gc_candidate_pred(grace_period, now));
                let remaining = s.filter(gc_keep_pred(grace_period, now));
                &&& r matches Ok(entries) && gc_entries_match(
                    entries@,
                    cands,
                    store0,
                    old(storage).spec_paths(),
                    s,
                )
                &&& if dry_run {
                    final(metastore)@ == m && final(storage)@ == store0
                } else {
                    &&& final(metastore)@ =~= m.update(
                        j,
                        IndexView { splits: remaining, ..m[j] },
                    )
                    &&& final(storage)@ =~= store0.remove_keys(
                        split_file_set(cands).union(dangling_set(store0, s)),
                    )
                    &&& forall|p: Seq<char>|
                        final(storage)@.contains_key(p) ==> split_file_set(remaining).contains(p)
                    &&& forall|k: int|
                        0 <= k < remaining.len() ==> !is_gc_candidate(
                            #[trigger] remaining[k],
                            grace_period,
                            now,
                        )
                }
            }
        }),
{
    let splits = match metastore.list_all_splits(index_id) {
        Err(e) => {
            return Err(ErrorKind::NotFound);
        },
        Ok(v) => v,
    };
    let ghost m = old(metastore)@;
    let ghost j = index_idx(m, index_id@);
    let ghost s = m[j].splits;
    let ghost cpred = gc_candidate_pred(grace_period, now);
    let ghost cands = s.filter(cpred);
    let mut candidates: Vec<SplitMetadata> = Vec::new();
    let mut cand_ids: Vec<String> = Vec::new();
    let mut entries: Vec<FileEntry> = Vec::new();
    let mut k: usize = 0;
    while k < splits.len()
        invariant
            k <= splits@.len(),
            s == split_views(splits@),
            split_views(candidates@) == s.take(k as int).filter(cpred),
            cand_ids@.len() == candidates@.len(),
            forall|q: int|
                0 <= q < cand_ids@.len() ==> (#[trigger] cand_ids@[q])@ == split_views(
                    candidates@,
                )[q].split_id,
            entries@.len() == candidates@.len(),
            entries_match(entries@, split_views(candidates@)),
        decreases splits@.len() - k,
    {
        proof {
            crate::lemma_filter_take_step(s, cpred, k as int);
        }
        if is_candidate_split(&splits[k], grace_period, now) {
            let ghost prevc = candidates@;
            let ghost preve = entries@;
            candidates.push(splits[k].clone());
            cand_ids.push(splits[k].split_id.clone());
            entries.push(FileEntry::from_split(&splits[k]));
            proof {
                assert(split_views(candidates@) =~= split_views(prevc).push(s[k as int]));
            }
        }
        k = k + 1;
    }
    proof {
        assert(s.take(splits@.len() as int) =~= s);
        assert(string_views(cand_ids@) =~= ids_of(cands));
    }
    let ghost cl = cands.len();
    let paths = storage.list_paths();
    let ghost pseq = storage.spec_paths();
    let ghost dpred = dangling_pred(s);
    let ghost dps = pseq.filter(dpred);
    let mut dangling: Vec<String> = Vec::new();
    let mut i: usize = 0;
    while i < paths.len()
        invariant
            i <= paths@.len(),
            paths@.len() == pseq.len(),
            forall|q: int| 0 <= q < paths@.len() ==> (#[trigger] paths@[q])@ == pseq[q],
            string_views(dangling@) == pseq.take(i as int).filter(dpred),
            entries@.len() == cl + dangling@.len(),
            entries_match(entries@.take(cl as int), cands),
            forall|q: int|
                0 <= q < dangling@.len() ==> (#[trigger] entries@[cl + q]).file_name@
                    == string_views(dangling@)[q] && entries@[cl + q].file_size_in_bytes
                    == storage@[string_views(dangling@)[q]].len(),
        decreases paths@.len() - i,
    {
        proof {
            crate::lemma_filter_take_step(pseq, dpred, i as int);
        }
        if !is_referenced(&splits, &paths[i]) {
            let size = match storage.file_num_bytes(&paths[i]) {
                Ok(n) => n,
                Err(_) => {
                    proof {
                        assert(storage@.contains_key(pseq[i as int]));
                        assert(false);
                    }
                    0
                },
            };
            let ghost prevd = dangling@;
            let ghost preve = entries@;
            dangling.push(paths[i].clone());
            entries.push(FileEntry { file_name: paths[i].clone(), file_size_in_bytes: size });
            proof {
                assert(string_views(dangling@) =~= string_views(prevd).push(pseq[i as int]));
                assert(entries@.take(cl as int) =~= preve.take(cl as int));
            }
        }
        i = i + 1;
    }
    proof {
        assert(pseq.take(paths@.len() as int) =~= pseq);
        assert(entries@.take(cl as int).len() == cl);
    }
    if dry_run {
        return Ok(entries);
    }
    proof {
        lemma_candidate_ids(s, grace_period, now);
        assert(has_all_splits(s, ids_of(cands))) by {
            assert forall|w: int| 0 <= w < ids_of(cands).len() implies crate::metastore::has_split(
                s,
                #[trigger] ids_of(cands)[w],
            ) by {
                assert(cands.contains(cands[w]));
                s.lemma_filter_contains_rev(cpred, cands[w]);
                let q = choose|q: int| 0 <= q < s.len() && s[q] == cands[w];
                assert(s[q].split_id == ids_of(cands)[w]);
            }
        }
    }
    match metastore.mark_splits_for_deletion(index_id, &cand_ids, now) {
        Err(e) => {
            proof {
                assert(false);
            }
            return Err(e);
        },
        Ok(()) => {},
    }
    let ghost idsv = ids_of(cands);
    let ghost marked = mark_transform(s, idsv, now);
    let ghost m1 = metastore@;
    proof {
        lemma_index_idx(m1, index_id@, j);
        assert(forall|q: int| 0 <= q < marked.len() ==> (#[trigger] marked[q]).split_id
            == s[q].split_id);
        assert(has_all_splits(marked, idsv)) by {
            assert forall|w: int| 0 <= w < idsv.len() implies crate::metastore::has_split(
                marked,
                #[trigger] idsv[w],
            ) by {
                assert(cands.contains(cands[w]));
                s.lemma_filter_contains_rev(cpred, cands[w]);
                let q = choose|q: int| 0 <= q < s.len() && s[q] == cands[w];
                assert(marked[q].split_id == idsv[w]);
            }
        }
        assert(all_listed_in_state(marked, idsv, SplitState::ScheduledForDeletion)) by {
            assert forall|q: int|
                0 <= q < marked.len() && id_in_list(idsv, (#[trigger] marked[q]).split_id)
                    implies marked[q].split_state == SplitState::ScheduledForDeletion by {
                assert(id_in_list(idsv, s[q].split_id));
                assert(is_gc_candidate(s[q], grace_period, now));
            }
        }
    }
    let ghost store0 = old(storage)@;
    match delete_splits_with_files(metastore, storage, index_id, &candidates) {
        Err(e) => {
            proof {
                assert(false);
            }
            return Err(e);
        },
        Ok(_) => {},
    }
    let ghost store1 = storage@;
    let ghost remaining = s.filter(gc_keep_pred(grace_period, now));
    proof {
        lemma_delete_after_mark(s, idsv, now);
        lemma_filter_pred_equiv(s, delete_keep_pred(idsv), gc_keep_pred(grace_period, now));
        assert(delete_transform(marked, idsv) == remaining);
        assert(metastore@ =~= m.update(j, IndexView { splits: remaining, ..m[j] }));
    }
    let mut d: usize = 0;
    while d < dangling.len()
        invariant
            d <= dangling@.len(),
            storage.wf(),
            storage@ =~= store1.remove_keys(path_set(string_views(dangling@).take(d as int))),
        decreases dangling@.len() - d,
    {
        proof {
            lemma_path_set_take_step(string_views(dangling@), d as int);
        }
        storage.delete(&dangling[d]);
        d = d + 1;
    }
    proof {
        let dviews = string_views(dangling@);
        assert(dviews.take(dangling@.len() as int) =~= dviews);
        assert(dviews == dps);
        let dang = dangling_set(store0, s);
        assert(path_set(dviews) =~= dang.intersect(store0.dom())) by {
            assert forall|p: Seq<char>| #[trigger] path_set(dviews).contains(p) <==> (
            dang.contains(p) && store0.dom().contains(p)) by {
                if path_set(dviews).contains(p) {
                    let w = choose|w: int| 0 <= w < dviews.len() && p == #[trigger] dviews[w];
                    assert(dps.contains(dps[w]));
                    pseq.lemma_filter_contains_rev(dpred, dps[w]);
                    let q = choose|q: int| 0 <= q < pseq.len() && pseq[q] == dps[w];
                    pseq.lemma_filter_pred(dpred, w);
                    assert(store0.contains_key(pseq[q]));
                }
                if dang.contains(p) && store0.dom().contains(p) {
                    let q = choose|q: int| 0 <= q < pseq.len() && pseq[q] == p;
                    pseq.lemma_filter_contains(dpred, q);
                    let w = choose|w: int| 0 <= w < dps.len() && dps[w] == pseq[q];
                    assert(dviews[w] == p);
                    assert(path_set(dviews).contains(p));
                }
            }
        }
        assert(storage@ =~= store0.remove_keys(split_file_set(cands).union(dang)));
        assert forall|p: Seq<char>| storage@.contains_key(p) implies split_file_set(
            remaining,
        ).contains(p) by {
            assert(store0.dom().contains(p));
            assert(!split_file_set(cands).contains(p));
            assert(!dang.contains(p));
            assert(split_file_set(s).contains(p));
            let q = choose|q: int|
                0 <= q < s.len() && p == spec_split_file((#[trigger] s[q]).split_id);
            if is_gc_candidate(s[q], grace_period, now) {
                s.lemma_filter_contains(cpred, q);
                let w = choose|w: int| 0 <= w < cands.len() && cands[w] == s[q];
                assert(split_file_set(cands).contains(p));
            } else {
                s.lemma_filter_contains(gc_keep_pred(grace_period, now), q);
                let w = choose|w: int| 0 <= w < remaining.len() && remaining[w] == s[q];
                assert(split_file_set(remaining).contains(p));
            }
        }
        assert forall|k2: int| 0 <= k2 < remaining.len() implies !is_gc_candidate(
            #[trigger] remaining[k2],
            grace_period,
            now,
        ) by {
            s.lemma_filter_pred(gc_keep_pred(grace_period, now), k2);
        }
    }
    Ok(entries)
}

} // verus!
