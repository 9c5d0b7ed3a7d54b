//! The metastore: the authoritative catalog of indexes and split
//! metadata, with the split state machine and the checkpoint that
//! publishing advances atomically.

use vstd::prelude::*;

use crate::checkpoint::CheckpointDelta;
use crate::split::{
    split_views, string_views, SplitMetadata, SplitState, SplitView, TimeRange,
};
use crate::ErrorKind;

verus! {

broadcast use vstd::std_specs::vec::group_vec_axioms;

/// Identity and configuration of one index.
pub struct IndexMetadata {
    pub index_id: String,
    pub index_uri: String,
    pub index_config: String,
    pub checkpoint: u64,
}

impl IndexMetadata {
    /// Copies the metadata field by field.
    pub fn clone_meta(&self) -> (r: IndexMetadata)
        ensures
            r == *self,
    {
        IndexMetadata {
            index_id: self.index_id.clone(),
            index_uri: self.index_uri.clone(),
            index_config: self.index_config.clone(),
            checkpoint: self.checkpoint,
        }
    }
}

/// One index and the splits it owns.
pub struct IndexState {
    pub metadata: IndexMetadata,
    pub splits: Vec<SplitMetadata>,
}

/// Mathematical abstraction of one index of the catalog.
pub struct IndexView {
    pub index_id: Seq<char>,
    pub index_uri: Seq<char>,
    pub index_config: Seq<char>,
    pub checkpoint: u64,
    pub splits: Seq<SplitView>,
}

impl View for IndexState {
    type V = IndexView;

    open spec fn view(&self) -> IndexView {
        IndexView {
            index_id: self.metadata.index_id@,
            index_uri: self.metadata.index_uri@,
            index_config: self.metadata.index_config@,
            checkpoint: self.metadata.checkpoint,
            splits: split_views(self.splits@),
        }
    }
}

/// The catalog. Logically a single writer: every mutating operation
/// either commits in full or leaves the catalog unchanged.
pub struct Metastore {
    indexes: Vec<IndexState>,
}

impl View for Metastore {
    type V = Seq<IndexView>;

    closed spec fn view(&self) -> Seq<IndexView> {
        self.indexes@.map_values(|x: IndexState| x@)
    }
}

/// Whether the catalog holds an index with the given id.
pub open spec fn has_index(m: Seq<IndexView>, index_id: Seq<char>) -> bool {
    exists|i: int| 0 <= i < m.len() && m[i].index_id == index_id
}

/// The position of the index with the given id.
pub open spec fn index_idx(m: Seq<IndexView>, index_id: Seq<char>) -> int {
    choose|i: int| 0 <= i < m.len() && m[i].index_id == index_id
}

/// Whether a split list holds a split with the given id.
pub open spec fn has_split(splits: Seq<SplitView>, split_id: Seq<char>) -> bool {
    exists|k: int| 0 <= k < splits.len() && splits[k].split_id == split_id
}

/// The position of the split with the given id.
pub open spec fn split_idx(splits: Seq<SplitView>, split_id: Seq<char>) -> int {
    choose|k: int| 0 <= k < splits.len() && splits[k].split_id == split_id
}

/// Whether an id occurs in an id list.
pub open spec fn id_in_list(ids: Seq<Seq<char>>, id: Seq<char>) -> bool {
    exists|j: int| 0 <= j < ids.len() && ids[j] == id
}

/// Every id of the list names a split of the list of splits.
pub open spec fn has_all_splits(splits: Seq<SplitView>, ids: Seq<Seq<char>>) -> bool {
    forall|j: int| 0 <= j < ids.len() ==> has_split(splits, #[trigger] ids[j])
}

/// Every split named by the id list is in the given state.
pub open spec fn all_listed_in_state(
    splits: Seq<SplitView>,
    ids: Seq<Seq<char>>,
    state: SplitState,
) -> bool {
    forall|k: int|
        0 <= k < splits.len() && id_in_list(ids, (#[trigger] splits[k]).split_id)
            ==> splits[k].split_state == state
}

/// Every split of the list is in the given state.
pub open spec fn all_in_state(splits: Seq<SplitView>, state: SplitState) -> bool {
    forall|k: int| 0 <= k < splits.len() ==> (#[trigger] splits[k]).split_state == state
}

/// No two splits of the list share an id.
pub open spec fn split_ids_unique(splits: Seq<SplitView>) -> bool {
    forall|a: int, b: int|
        0 <= a < b < splits.len() ==> (#[trigger] splits[a]).split_id != (
        #[trigger] splits[b]).split_id
}

/// Catalog well-formedness: index ids are unique, and split ids are
/// unique within each index.
pub open spec fn catalog_wf(m: Seq<IndexView>) -> bool {
    &&& forall|a: int, b: int|
        0 <= a < b < m.len() ==> (#[trigger] m[a]).index_id != (#[trigger] m[b]).index_id
    &&& forall|i: int| 0 <= i < m.len() ==> split_ids_unique((#[trigger] m[i]).splits)
}

/// The split as it stands after publishing at the given time.
pub open spec fn published_split(s: SplitView, now: u64) -> SplitView {
    SplitView { split_state: SplitState::Published, update_timestamp: now, ..s }
}

/// The split as it stands after being marked for deletion at the given
/// time. A split already scheduled for deletion is left untouched.
pub open spec fn marked_split(s: SplitView, now: u64) -> SplitView {
    SplitView { split_state: SplitState::ScheduledForDeletion, update_timestamp: now, ..s }
}

/// The split list after publishing the named splits.
pub open spec fn publish_transform(
    splits: Seq<SplitView>,
    ids: Seq<Seq<char>>,
    now: u64,
) -> Seq<SplitView> {
    splits.map_values(
        |s: SplitView|
            if id_in_list(ids, s.split_id) {
                published_split(s, now)
            } else {
                s
            },
    )
}

/// The split list after marking the named splits for deletion. Splits
/// already scheduled for deletion are untouched, so the operation is
/// idempotent.
pub open spec fn mark_transform(
    splits: Seq<SplitView>,
    ids: Seq<Seq<char>>,
    now: u64,
) -> Seq<SplitView> {
    splits.map_values(
        |s: SplitView|
            if id_in_list(ids, s.split_id) && s.split_state != SplitState::ScheduledForDeletion {
                marked_split(s, now)
            } else {
                s
            },
    )
}

/// The split list after removing the named splits.
pub open spec fn delete_transform(splits: Seq<SplitView>, ids: Seq<Seq<char>>) -> Seq<SplitView> {
    splits.filter(|s: SplitView| !id_in_list(ids, s.split_id))
}

/// Whether an id occurs in a list of strings.
pub fn contains_id(ids: &Vec<String>, id: &String) -> (r: bool)
    ensures
        r == id_in_list(string_views(ids@), id@),
{
    let mut j: usize = 0;
    while j < ids.len()
        invariant
            j <= ids@.len(),
            forall|q: int| 0 <= q < j ==> ids@[q]@ != id@,
        decreases ids@.len() - j,
    {
        if ids[j] == *id {
            assert(string_views(ids@)[j as int] == id@);
            return true;
        }
        j = j + 1;
    }
    assert(forall|q: int| 0 <= q < ids@.len() ==> string_views(ids@)[q] == ids@[q]@);
    false
}

/// Finds the position of the split with the given id.
pub fn find_split(splits: &Vec<SplitMetadata>, split_id: &String) -> (r: Option<usize>)
    ensures
        match r {
            Some(k) => k < splits@.len() && splits@[k as int]@.split_id == split_id@,
            None => !has_split(split_views(splits@), split_id@),
        },
{
    let mut k: usize = 0;
    while k < splits.len()
        invariant
            k <= splits@.len(),
            forall|q: int| 0 <= q < k ==> splits@[q]@.split_id != split_id@,
        decreases splits@.len() - k,
    {
        if splits[k].split_id == *split_id {
            return Some(k);
        }
        k = k + 1;
    }
    assert(forall|q: int| 0 <= q < splits@.len() ==> split_views(splits@)[q] == splits@[q]@);
    None
}

impl Metastore {
    /// The catalog invariant.
    pub open spec fn wf(&self) -> bool {
        catalog_wf(self@)
    }

    /// An empty catalog.
    pub fn new() -> (r: Metastore)
        ensures
            r.wf(),
            r@ =~= Seq::<IndexView>::empty(),
    {
        Metastore { indexes: Vec::new() }
    }

    fn find_index(&self, index_id: &String) -> (r: Option<usize>)
        ensures
            match r {
                Some(i) => i < self@.len() && self@[i as int].index_id == index_id@,
                None => !has_index(self@, index_id@),
            },
    {
        let mut i: usize = 0;
        while i < self.indexes.len()
            invariant
                i <= self.indexes@.len(),
                self@ == self.indexes@.map_values(|x: IndexState| x@),
                forall|q: int| 0 <= q < i ==> self.indexes@[q].metadata.index_id@ != index_id@,
            decreases self.indexes@.len() - i,
        {
            if self.indexes[i].metadata.index_id == *index_id {
                assert(self@[i as int].index_id == index_id@);
                return Some(i);
            }
            i = i + 1;
        }
        assert(forall|q: int| 0 <= q < self@.len() ==> self@[q] == self.indexes@[q]@);
        None
    }

    /// Creates an index. Fails with `AlreadyExists`, leaving the catalog
    /// unchanged, when an index with that id is already present; the new
    /// index starts with no splits.
    pub fn create_index(&mut self, meta: IndexMetadata) -> (r: Result<(), ErrorKind>)
        requires
            old(self).wf(),
        ensures
            final(self).wf(),
            has_index(old(self)@, meta.index_id@) ==> r == Err::<(), ErrorKind>(
                ErrorKind::AlreadyExists,
            ) && final(self)@ == old(self)@,
            !has_index(old(self)@, meta.index_id@) ==> r == Ok::<(), ErrorKind>(()) && final(
                self)@ =~= old(self)@.push(
                IndexView {
                    index_id: meta.index_id@,
                    index_uri: meta.index_uri@,
                    index_config: meta.index_config@,
                    checkpoint: meta.checkpoint,
                    splits: Seq::empty(),
                },
            ),
    {
        match self.find_index(&meta.index_id) {
            Some(_) => Err(ErrorKind::AlreadyExists),
            None => {
                let ghost before = self.indexes@;
                let st = IndexState { metadata: meta, splits: Vec::new() };
                self.indexes.push(st);
                proof {
                    assert(self@ =~= before.map_values(|x: IndexState| x@).push(st@));
                    assert(split_views(st.splits@) =~= Seq::<SplitView>::empty());
                }
                Ok(())
            },
        }
    }

    /// Returns a snapshot of the metadata of the index, or `NotFound`.
    pub fn index_metadata(&self, index_id: &String) -> (r: Result<IndexMetadata, ErrorKind>)
        requires
            self.wf(),
        ensures
            match r {
                Ok(meta) => {
                    &&& has_index(self@, index_id@)
                    &&& meta.index_id@ == index_id@
                    &&& meta.index_uri@ == self@[index_idx(self@, index_id@)].index_uri
                    &&& meta.index_config@ == self@[index_idx(self@, index_id@)].index_config
                    &&& meta.checkpoint == self@[index_idx(self@, index_id@)].checkpoint
                },
                Err(e) => e == ErrorKind::NotFound && !has_index(self@, index_id@),
            },
    {
        match self.find_index(index_id) {
            Some(i) => {
                proof {
                    lemma_index_idx(self@, index_id@, i as int);
                }
                Ok(self.indexes[i].metadata.clone_meta())
            },
            None => Err(ErrorKind::NotFound),
        }
    }

    /// Deletes the index. Fails with `NotFound` when the index is
    /// missing, and with `PreconditionFailed`, leaving the catalog
    /// unchanged, when the index still owns a split that is not
    /// scheduled for deletion; on success the index row disappears
    /// together with its remaining scheduled-for-deletion splits.
    #[verifier::loop_isolation(false)]
    pub fn delete_index(&mut self, index_id: &String) -> (r: Result<(), ErrorKind>)
        requires
            old(self).wf(),
        ensures
            final(self).wf(),
            ({
                let m = old(self)@;
                if !has_index(m, index_id@) {
                    r == Err::<(), ErrorKind>(ErrorKind::NotFound) && final(self)@ == m
                } else {
                    let j = index_idx(m, index_id@);
                    if !all_in_state(m[j].splits, SplitState::ScheduledForDeletion) {
                        r == Err::<(), ErrorKind>(ErrorKind::PreconditionFailed) && final(self)@
                            == m
                    } else {
                        r == Ok::<(), ErrorKind>(()) && final(self)@ =~= m.remove(j)
                    }
                }
            }),
    {
        match self.find_index(index_id) {
            None => Err(ErrorKind::NotFound),
            Some(i) => {
                proof {
                    lemma_index_idx(self@, index_id@, i as int);
                }
                let splits = &self.indexes[i].splits;
                let mut k: usize = 0;
                while k < splits.len()
                    invariant
                        k <= splits@.len(),
                        forall|q: int|
                            0 <= q < k ==> (#[trigger] splits@[q])@.split_state
                                == SplitState::ScheduledForDeletion,
                    decreases splits@.len() - k,
                {
                    match splits[k].split_state {
                        SplitState::ScheduledForDeletion => {},
                        _ => {
                            assert(self@[i as int].splits[k as int].split_state
                                != SplitState::ScheduledForDeletion);
                            return Err(ErrorKind::PreconditionFailed);
                        },
                    }
                    k = k + 1;
                }
                assert(forall|q: int|
                    0 <= q < splits@.len() ==> self@[i as int].splits[q] == (
                    #[trigger] splits@[q])@);
                let ghost before = self.indexes@;
                self.indexes.remove(i);
                proof {
                    assert(self@ =~= before.map_values(|x: IndexState| x@).remove(i as int));
                }
                Ok(())
            },
        }
    }

    /// Stages a split: the split enters the catalog in the `Staged`
    /// state. Fails with `NotFound` when the index is missing and with
    /// `AlreadyExists` when the index already holds a split with that
    /// id, in either case leaving the catalog unchanged.
    #[verifier::loop_isolation(false)]
    pub fn stage_split(&mut self, index_id: &String, split: SplitMetadata) -> (r: Result<
        (),
        ErrorKind,
    >)
        requires
            old(self).wf(),
        ensures
            final(self).wf(),
            ({
                let m = old(self)@;
                if !has_index(m, index_id@) {
                    r == Err::<(), ErrorKind>(ErrorKind::NotFound) && final(self)@ == m
                } else {
                    let j = index_idx(m, index_id@);
                    if has_split(m[j].splits, split@.split_id) {
                        r == Err::<(), ErrorKind>(ErrorKind::AlreadyExists) && final(self)@ == m
                    } else {
                        r == Ok::<(), ErrorKind>(()) && final(self)@ =~= m.update(
                            j,
                            IndexView {
                                splits: m[j].splits.push(
                                    SplitView { split_state: SplitState::Staged, ..split@ },
                                ),
                                ..m[j]
                            },
                        )
                    }
                }
            }),
    {
        let i = match self.find_index(index_id) {
            None => {
                return Err(ErrorKind::NotFound);
            },
            Some(i) => i,
        };
        proof {
            lemma_index_idx(self@, index_id@, i as int);
        }
        match find_split(&self.indexes[i].splits, &split.split_id) {
            Some(k) => {
                proof {
                    assert(self@[i as int].splits[k as int].split_id == split@.split_id);
                }
                Err(ErrorKind::AlreadyExists)
            },
            None => {
                let ghost before = self@;
                let mut st = self.indexes.remove(i);
                let ghost orig = st@;
                let mut staged = split;
                staged.split_state = SplitState::Staged;
                st.splits.push(staged);
                proof {
                    assert(split_views(st.splits@) =~= orig.splits.push(staged@));
                }
                self.indexes.insert(i, st);
                proof {
                    assert(self@ =~= before.update(
                        i as int,
                        IndexView { splits: orig.splits.push(staged@), ..orig },
                    ));
                }
                Ok(())
            },
        }
    }

    /// Publishes staged splits atomically with a checkpoint advance.
    /// The named splits must all be staged, and the delta must start at
    /// the current checkpoint; on any failure neither the split states
    /// nor the checkpoint change. On success every named split becomes
    /// `Published` with its update timestamp set to `now`, and the
    /// checkpoint moves to the end of the delta.
    #[verifier::loop_isolation(false)]
    pub fn publish_splits(
        &mut self,
        index_id: &String,
        split_ids: &Vec<String>,
        delta: CheckpointDelta,
        now: u64,
    ) -> (r: Result<(), ErrorKind>)
        requires
            old(self).wf(),
        ensures
            final(self).wf(),
            ({
                let m = old(self)@;
                let ids = string_views(split_ids@);
                if !has_index(m, index_id@) {
                    r == Err::<(), ErrorKind>(ErrorKind::NotFound) && final(self)@ == m
                } else {
                    let j = index_idx(m, index_id@);
                    if !delta.wf() {
                        r == Err::<(), ErrorKind>(ErrorKind::InvalidArgument) && final(self)@ == m
                    } else if !has_all_splits(m[j].splits, ids) {
                        r == Err::<(), ErrorKind>(ErrorKind::NotFound) && final(self)@ == m
                    } else if !all_listed_in_state(m[j].splits, ids, SplitState::Staged) {
                        r == Err::<(), ErrorKind>(ErrorKind::PreconditionFailed) && final(self)@
                            == m
                    } else if delta.from != m[j].checkpoint {
                        r == Err::<(), ErrorKind>(ErrorKind::PreconditionFailed) && final(self)@
                            == m
                    } else {
                        r == Ok::<(), ErrorKind>(()) && final(self)@ =~= m.update(
                            j,
                            IndexView {
                                checkpoint: delta.to,
                                splits: publish_transform(m[j].splits, ids, now),
                                ..m[j]
                            },
                        )
                    }
                }
            }),
    {
        let i = match self.find_index(index_id) {
            None => {
                return Err(ErrorKind::NotFound);
            },
            Some(i) => i,
        };
        proof {
            lemma_index_idx(self@, index_id@, i as int);
        }
        if delta.from > delta.to {
            return Err(ErrorKind::InvalidArgument);
        }
        let ghost ids = string_views(split_ids@);
        let mut j: usize = 0;
        while j < split_ids.len()
            invariant
                j <= split_ids@.len(),
                forall|q: int| 0 <= q < j ==> has_split(self@[i as int].splits, #[trigger] ids[q]),
            decreases split_ids@.len() - j,
        {
            match find_split(&self.indexes[i].splits, &split_ids[j]) {
                None => {
                    assert(!has_split(self@[i as int].splits, ids[j as int]));
                    return Err(ErrorKind::NotFound);
                },
                Some(k) => {
                    proof {
                        assert(self@[i as int].splits[k as int].split_id == ids[j as int]);
                    }
                },
            }
            j = j + 1;
        }
        let splits = &self.indexes[i].splits;
        let mut k: usize = 0;
        while k < splits.len()
            invariant
                k <= splits@.len(),
                splits == &self.indexes@[i as int].splits,
                forall|q: int|
                    0 <= q < k && id_in_list(ids, (#[trigger] self@[i as int].splits[q]).split_id)
                        ==> self@[i as int].splits[q].split_state == SplitState::Staged,
            decreases splits@.len() - k,
        {
            if contains_id(split_ids, &splits[k].split_id) {
                match splits[k].split_state {
                    SplitState::Staged => {},
                    _ => {
                        assert(id_in_list(ids, self@[i as int].splits[k as int].split_id));
                        return Err(ErrorKind::PreconditionFailed);
                    },
                }
            }
            k = k + 1;
        }
        assert(all_listed_in_state(self@[i as int].splits, ids, SplitState::Staged));
        if delta.from != self.indexes[i].metadata.checkpoint {
            return Err(ErrorKind::PreconditionFailed);
        }
        let ghost before = self@;
        let mut st = self.indexes.remove(i);
        let ghost orig = st@;
        let mut k: usize = 0;
        while k < st.splits.len()
            invariant
                k <= st.splits@.len(),
                st.splits@.len() == orig.splits.len(),
                st.metadata == old(self).indexes@[i as int].metadata,
                forall|q: int|
                    k <= q < st.splits@.len() ==> split_views(st.splits@)[q] == orig.splits[q],
                forall|q: int|
                    0 <= q < k ==> split_views(st.splits@)[q] == (if id_in_list(
                        ids,
                        orig.splits[q].split_id,
                    ) {
                        published_split(orig.splits[q], now)
                    } else {
                        orig.splits[q]
                    }),
            decreases st.splits@.len() - k,
    {
            proof {
                assert(split_views(st.splits@)[k as int] == st.splits@[k as int]@);
                assert(st.splits@[k as int]@ == orig.splits[k as int]);
            }
            if contains_id(split_ids, &st.splits[k].split_id) {
                proof {
                    assert(id_in_list(ids, orig.splits[k as int].split_id));
                }
                let mut meta = st.splits[k].clone();
                meta.split_state = SplitState::Published;
                meta.update_timestamp = now;
                let ghost prev = st.splits@;
                st.splits.set(k, meta);
                proof {
                    assert(meta@ == published_split(orig.splits[k as int], now));
                    assert forall|q: int| 0 <= q <= k implies split_views(st.splits@)[q] == (
                    if id_in_list(ids, orig.splits[q].split_id) {
                        published_split(orig.splits[q], now)
                    } else {
                        orig.splits[q]
                    }) by {
                        if q == k {
                            assert(split_views(st.splits@)[q] == meta@);
                        } else {
                            assert(split_views(st.splits@)[q] == split_views(prev)[q]);
                        }
                    }
                }
            } else {
                proof {
                    assert(!id_in_list(ids, orig.splits[k as int].split_id));
                    assert forall|q: int| 0 <= q <= k implies split_views(st.splits@)[q] == (
                    if id_in_list(ids, orig.splits[q].split_id) {
                        published_split(orig.splits[q], now)
                    } else {
                        orig.splits[q]
                    }) by {
                        if q == k {
                            assert(split_views(st.splits@)[q] == orig.splits[q]);
                        }
                    }
                }
            }
            k = k + 1;
        }
        st.metadata.checkpoint = delta.to;
        proof {
            assert(split_views(st.splits@) =~= publish_transform(orig.splits, ids, now));
        }
        self.indexes.insert(i, st);
        proof {
            assert(self@ =~= before.update(
                i as int,
                IndexView {
                    checkpoint: delta.to,
                    splits: publish_transform(orig.splits, ids, now),
                    ..orig
                },
            ));
        }
        Ok(())
    }

    /// Marks the named splits for deletion. Fails with `NotFound`,
    /// leaving the catalog unchanged, when the index or any named split
    /// is missing. Splits already scheduled for deletion are left
    /// untouched, so repeating the call changes nothing.
    #[verifier::loop_isolation(false)]
    pub fn mark_splits_for_deletion(
        &mut self,
        index_id: &String,
        split_ids: &Vec<String>,
        now: u64,
    ) -> (r: Result<(), ErrorKind>)
        requires
            old(self).wf(),
        ensures
            final(self).wf(),
            ({
                let m = old(self)@;
                let ids = string_views(split_ids@);
                if !has_index(m, index_id@) {
                    r == Err::<(), ErrorKind>(ErrorKind::NotFound) && final(self)@ == m
                } else {
                    let j = index_idx(m, index_id@);
                    if !has_all_splits(m[j].splits, ids) {
                        r == Err::<(), ErrorKind>(ErrorKind::NotFound) && final(self)@ == m
                    } else {
                        r == Ok::<(), ErrorKind>(()) && final(self)@ =~= m.update(
                            j,
                            IndexView { splits: mark_transform(m[j].splits, ids, now), ..m[j] },
                        )
                    }
                }
            }),
    {
        let i = match self.find_index(index_id) {
            None => {
                return Err(ErrorKind::NotFound);
            },
            Some(i) => i,
        };
        proof {
            lemma_index_idx(self@, index_id@, i as int);
        }
        let ghost ids = string_views(split_ids@);
        let mut j: usize = 0;
        while j < split_ids.len()
            invariant
                j <= split_ids@.len(),
                forall|q: int| 0 <= q < j ==> has_split(self@[i as int].splits, #[trigger] ids[q]),
            decreases split_ids@.len() - j,
        {
            match find_split(&self.indexes[i].splits, &split_ids[j]) {
                None => {
                    assert(!has_split(self@[i as int].splits, ids[j as int]));
                    return Err(ErrorKind::NotFound);
                },
                Some(k) => {
                    proof {
                        assert(self@[i as int].splits[k as int].split_id == ids[j as int]);
                    }
                },
            }
            j = j + 1;
        }
        let ghost before = self@;
        let mut st = self.indexes.remove(i);
        let ghost orig = st@;
        let mut k: usize = 0;
        while k < st.splits.len()
            invariant
                k <= st.splits@.len(),
                st.splits@.len() == orig.splits.len(),
                st.metadata == old(self).indexes@[i as int].metadata,
                forall|q: int|
                    k <= q < st.splits@.len() ==> split_views(st.splits@)[q] == orig.splits[q],
                forall|q: int|
                    0 <= q < k ==> split_views(st.splits@)[q] == (if id_in_list(
                        ids,
                        orig.splits[q].split_id,
                    ) && orig.splits[q].split_state != SplitState::ScheduledForDeletion {
                        marked_split(orig.splits[q], now)
                    } else {
                        orig.splits[q]
                    }),
            decreases st.splits@.len() - k,
        {
            proof {
                assert(split_views(st.splits@)[k as int] == st.splits@[k as int]@);
                assert(st.splits@[k as int]@ == orig.splits[k as int]);
            }
            let already = match st.splits[k].split_state {
                SplitState::ScheduledForDeletion => true,
                _ => false,
            };
            if !already && contains_id(split_ids, &st.splits[k].split_id) {
                proof {
                    assert(id_in_list(ids, orig.splits[k as int].split_id));
                }
                let mut meta = st.splits[k].clone();
                meta.split_state = SplitState::ScheduledForDeletion;
                meta.update_timestamp = now;
                let ghost prev = st.splits@;
                st.splits.set(k, meta);
                proof {
                    assert(meta@ == marked_split(orig.splits[k as int], now));
                    assert forall|q: int| 0 <= q <= k implies split_views(st.splits@)[q] == (
                    if id_in_list(ids, orig.splits[q].split_id) && orig.splits[q].split_state
                        != SplitState::ScheduledForDeletion {
                        marked_split(orig.splits[q], now)
                    } else {
                        orig.splits[q]
                    }) by {
                        if q == k {
                            assert(split_views(st.splits@)[q] == meta@);
                        } else {
                            assert(split_views(st.splits@)[q] == split_views(prev)[q]);
                        }
                    }
                }
            } else {
                proof {
                    assert forall|q: int| 0 <= q <= k implies split_views(st.splits@)[q] == (
                    if id_in_list(ids, orig.splits[q].split_id) && orig.splits[q].split_state
                        != SplitState::ScheduledForDeletion {
                        marked_split(orig.splits[q], now)
                    } else {
                        orig.splits[q]
                    }) by {
                        if q == k {
                            assert(split_views(st.splits@)[q] == orig.splits[q]);
                        }
                    }
                }
            }
            k = k + 1;
        }
        proof {
            assert(split_views(st.splits@) =~= mark_transform(orig.splits, ids, now));
        }
        self.indexes.insert(i, st);
        proof {
            assert(self@ =~= before.update(
                i as int,
                IndexView { splits: mark_transform(orig.splits, ids, now), ..orig },
            ));
        }
        Ok(())
    }

    /// Removes the named splits from the catalog. Fails with `NotFound`
    /// when the index or any named split is missing, and with
    /// `PreconditionFailed` when any named split is not scheduled for
    /// deletion; in either case the catalog is unchanged.
    #[verifier::loop_isolation(false)]
    pub fn delete_splits(&mut self, index_id: &String, split_ids: &Vec<String>) -> (r: Result<
        (),
        ErrorKind,
    >)
        requires
            old(self).wf(),
        ensures
            final(self).wf(),
            ({
                let m = old(self)@;
                let ids = string_views(split_ids@);
                if !has_index(m, index_id@) {
                    r == Err::<(), ErrorKind>(ErrorKind::NotFound) && final(self)@ == m
                } else {
                    let j = index_idx(m, index_id@);
                    if !has_all_splits(m[j].splits, ids) {
                        r == Err::<(), ErrorKind>(ErrorKind::NotFound) && final(self)@ == m
                    } else if !all_listed_in_state(
                        m[j].splits,
                        ids,
                        SplitState::ScheduledForDeletion,
                    ) {
                        r == Err::<(), ErrorKind>(ErrorKind::PreconditionFailed) && final(self)@
                            == m
                    } else {
                        r == Ok::<(), ErrorKind>(()) && final(self)@ =~= m.update(
                            j,
                            IndexView { splits: delete_transform(m[j].splits, ids), ..m[j] },
                        )
                    }
                }
            }),
    {
        let i = match self.find_index(index_id) {
            None => {
                return Err(ErrorKind::NotFound);
            },
            Some(i) => i,
        };
        proof {
            lemma_index_idx(self@, index_id@, i as int);
        }
        let ghost ids = string_views(split_ids@);
        let mut j: usize = 0;
        while j < split_ids.len()
            invariant
                j <= split_ids@.len(),
                forall|q: int| 0 <= q < j ==> has_split(self@[i as int].splits, #[trigger] ids[q]),
            decreases split_ids@.len() - j,
        {
            match find_split(&self.indexes[i].splits, &split_ids[j]) {
                None => {
                    assert(!has_split(self@[i as int].splits, ids[j as int]));
                    return Err(ErrorKind::NotFound);
                },
                Some(k) => {
                    proof {
                        assert(self@[i as int].splits[k as int].split_id == ids[j as int]);
                    }
                },
            }
            j = j + 1;
        }
        let splits = &self.indexes[i].splits;
        let mut k: usize = 0;
        while k < splits.len()
            invariant
                k <= splits@.len(),
                splits == &self.indexes@[i as int].splits,
                forall|q: int|
                    0 <= q < k && id_in_list(ids, (#[trigger] self@[i as int].splits[q]).split_id)
                        ==> self@[i as int].splits[q].split_state
                        == SplitState::ScheduledForDeletion,
            decreases splits@.len() - k,
        {
            if contains_id(split_ids, &splits[k].split_id) {
                match splits[k].split_state {
                    SplitState::ScheduledForDeletion => {},
                    _ => {
                        assert(id_in_list(ids, self@[i as int].splits[k as int].split_id));
                        return Err(ErrorKind::PreconditionFailed);
                    },
                }
            }
            k = k + 1;
        }
        assert(all_listed_in_state(
            self@[i as int].splits,
            ids,
            SplitState::ScheduledForDeletion,
        ));
        let ghost before = self@;
        let mut st = self.indexes.remove(i);
        let ghost orig = st@;
        let mut kept: Vec<SplitMetadata> = Vec::new();
        let mut k: usize = 0;
        while k < st.splits.len()
            invariant
                k <= st.splits@.len(),
                split_views(st.splits@) == orig.splits,
                st.metadata == old(self).indexes@[i as int].metadata,
                split_views(kept@) == orig.splits.take(k as int).filter(delete_keep_pred(ids)),
            decreases st.splits@.len() - k,
        {
            proof {
                crate::lemma_filter_take_step(orig.splits, delete_keep_pred(ids), k as int);
                assert(split_views(st.splits@)[k as int] == st.splits@[k as int]@);
            }
            if contains_id(split_ids, &st.splits[k].split_id) {
                proof {
                    assert(!delete_keep_pred(ids)(orig.splits[k as int]));
                }
            } else {
                let ghost prevkept = kept@;
                kept.push(st.splits[k].clone());
                proof {
                    assert(delete_keep_pred(ids)(orig.splits[k as int]));
                    assert(split_views(kept@) =~= split_views(prevkept).push(
                        orig.splits[k as int],
                    ));
                }
            }
            k = k + 1;
        }
        proof {
            assert(orig.splits.take(st.splits@.len() as int) =~= orig.splits);
            lemma_filter_unique(orig.splits, delete_keep_pred(ids));
        }
        st.splits = kept;
        self.indexes.insert(i, st);
        proof {
            assert(self@ =~= before.update(
                i as int,
                IndexView { splits: delete_transform(orig.splits, ids), ..orig },
            ));
        }
        Ok(())
    }

    /// Returns copies of the splits of the index that are in the given
    /// state, intersect the queried time range, and pass the tag
    /// filter, in catalog order. Fails with `NotFound` when the index
    /// is missing.
    #[verifier::loop_isolation(false)]
    pub fn list_splits(
        &self,
        index_id: &String,
        state: SplitState,
        time_range: Option<TimeRange>,
        tags: &Vec<String>,
    ) -> (r: Result<Vec<SplitMetadata>, ErrorKind>)
        requires
            self.wf(),
        ensures
            match r {
                Ok(v) => has_index(self@, index_id@) && split_views(v@) == self@[index_idx(
                    self@,
                    index_id@,
                )].splits.filter(split_filter_pred(state, time_range, string_views(tags@))),
                Err(e) => e == ErrorKind::NotFound && !has_index(self@, index_id@),
            },
    {
        let i = match self.find_index(index_id) {
            None => {
                return Err(ErrorKind::NotFound);
            },
            Some(i) => i,
        };
        proof {
            lemma_index_idx(self@, index_id@, i as int);
        }
        let ghost pred = split_filter_pred(state, time_range, string_views(tags@));
        let ghost all = self@[i as int].splits;
        let splits = &self.indexes[i].splits;
        let mut out: Vec<SplitMetadata> = Vec::new();
        let mut k: usize = 0;
        while k < splits.len()
            invariant
                k <= splits@.len(),
                splits == &self.indexes@[i as int].splits,
                all == split_views(splits@),
                split_views(out@) == all.take(k as int).filter(pred),
            decreases splits@.len() - k,
        {
            proof {
                crate::lemma_filter_take_step(all, pred, k as int);
                assert(all[k as int] == splits@[k as int]@);
            }
            if split_matches_query(&splits[k], state, time_range, tags) {
                let ghost prevout = out@;
                out.push(splits[k].clone());
                proof {
                    assert(split_views(out@) =~= split_views(prevout).push(all[k as int]));
                }
            }
            k = k + 1;
        }
        proof {
            assert(all.take(splits@.len() as int) =~= all);
        }
        Ok(out)
    }

    /// Returns copies of every split of the index, in every state, in
    /// catalog order. Fails with `NotFound` when the index is missing.
    #[verifier::loop_isolation(false)]
    pub fn list_all_splits(&self, index_id: &String) -> (r: Result<Vec<SplitMetadata>, ErrorKind>)
        requires
            self.wf(),
        ensures
            match r {
                Ok(v) => has_index(self@, index_id@) && split_views(v@) == self@[index_idx(
                    self@,
                    index_id@,
                )].splits,
                Err(e) => e == ErrorKind::NotFound && !has_index(self@, index_id@),
            },
    {
        let i = match self.find_index(index_id) {
            None => {
                return Err(ErrorKind::NotFound);
            },
            Some(i) => i,
        };
        proof {
            lemma_index_idx(self@, index_id@, i as int);
        }
        let splits = &self.indexes[i].splits;
        let mut out: Vec<SplitMetadata> = Vec::new();
        let mut k: usize = 0;
        while k < splits.len()
            invariant
                k <= splits@.len(),
                splits == &self.indexes@[i as int].splits,
                split_views(out@) =~= split_views(splits@).take(k as int),
            decreases splits@.len() - k,
        {
            out.push(splits[k].clone());
            proof {
                assert(split_views(out@) =~= split_views(splits@).take(k + 1));
            }
            k = k + 1;
        }
        proof {
            assert(split_views(splits@).take(splits@.len() as int) =~= split_views(splits@));
        }
        Ok(out)
    }
}


/// Whether the split passes the listing filter.
pub fn split_matches_query(
    meta: &SplitMetadata,
    state: SplitState,
    time_range: Option<TimeRange>,
    tags: &Vec<String>,
) -> (r: bool)
    ensures
        r == split_matches(meta@, state, time_range, string_views(tags@)),
{
    if !(meta.split_state == state) {
        return false;
    }
    let overlap = match (meta.time_range, time_range) {
        (Option::None, _) => true,
        (_, Option::None) => true,
        (Option::Some(s), Option::Some(q)) => s.start <= q.end && q.start <= s.end,
    };
    if !overlap {
        return false;
    }
    tags_overlap(&meta.tags, tags)
}

/// Whether the split's tags pass the tag filter.
pub fn tags_overlap(split_tags: &Vec<String>, query_tags: &Vec<String>) -> (r: bool)
    ensures
        r == tags_filter_matches(string_views(split_tags@), string_views(query_tags@)),
{
    if query_tags.len() == 0 {
        return true;
    }
    if split_tags.len() == 0 {
        return true;
    }
    let ghost stags = string_views(split_tags@);
    let mut i: usize = 0;
    while i < split_tags.len()
        invariant
            i <= split_tags@.len(),
            stags == string_views(split_tags@),
            forall|q: int|
                0 <= q < i ==> !id_in_list(string_views(query_tags@), #[trigger] stags[q]),
        decreases split_tags@.len() - i,
    {
        if contains_id(query_tags, &split_tags[i]) {
            assert(id_in_list(string_views(query_tags@), stags[i as int]));
            return true;
        }
        i = i + 1;
    }
    assert(forall|q: int| 0 <= q < stags.len() ==> stags[q] == split_tags@[q]@);
    false
}

/// Whether the split's time range intersects the queried range. A split
/// without a time range may contain any timestamp, and a query without a
/// range keeps every split.
pub open spec fn time_ranges_overlap(split_range: Option<TimeRange>, query: Option<TimeRange>) -> bool {
    match (split_range, query) {
        (Option::None, _) => true,
        (_, Option::None) => true,
        (Option::Some(s), Option::Some(q)) => s.start <= q.end && q.start <= s.end,
    }
}

/// Whether the split's tags pass the tag filter: an empty filter and a
/// split without tags always pass; otherwise the two tag sets must
/// intersect.
pub open spec fn tags_filter_matches(stags: Seq<Seq<char>>, qtags: Seq<Seq<char>>) -> bool {
    ||| qtags.len() == 0
    ||| stags.len() == 0
    ||| exists|i: int| 0 <= i < stags.len() && id_in_list(qtags, #[trigger] stags[i])
}

/// Whether a split is returned by a listing with the given state, time
/// range and tag filter.
pub open spec fn split_matches(
    s: SplitView,
    state: SplitState,
    range: Option<TimeRange>,
    qtags: Seq<Seq<char>>,
) -> bool {
    &&& s.split_state == state
    &&& time_ranges_overlap(s.time_range, range)
    &&& tags_filter_matches(s.tags, qtags)
}

/// The listing predicate, as a function of the split alone.
pub open spec fn split_filter_pred(
    state: SplitState,
    range: Option<TimeRange>,
    qtags: Seq<Seq<char>>,
) -> spec_fn(SplitView) -> bool {
    |s: SplitView| split_matches(s, state, range, qtags)
}

/// The predicate keeping the splits a deletion does not name.
pub open spec fn delete_keep_pred(ids: Seq<Seq<char>>) -> spec_fn(SplitView) -> bool {
    |s: SplitView| !id_in_list(ids, s.split_id)
}

/// Filtering a split list with unique ids yields a split list with
/// unique ids.
pub proof fn lemma_filter_unique(s: Seq<SplitView>, pred: spec_fn(SplitView) -> bool)
    requires
        split_ids_unique(s),
    ensures
        split_ids_unique(s.filter(pred)),
    decreases s.len(),
{
    reveal(Seq::filter);
    if s.len() > 0 {
        assert(forall|q: int| 0 <= q < s.drop_last().len() ==> #[trigger] s.drop_last()[q] == s[q]);
        lemma_filter_unique(s.drop_last(), pred);
        let f = s.filter(pred);
        let fp = s.drop_last().filter(pred);
        if pred(s.last()) {
            assert(f == fp.push(s.last()));
            assert forall|a: int, b: int| 0 <= a < b < f.len() implies (#[trigger] f[a]).split_id
                != (#[trigger] f[b]).split_id by {
                if b == f.len() - 1 {
                    assert(f[a] == fp[a]);
                    assert(fp.contains(fp[a]));
                    s.drop_last().lemma_filter_contains_rev(pred, fp[a]);
                    let q = choose|q: int|
                        0 <= q < s.drop_last().len() && s.drop_last()[q] == fp[a];
                    assert(s[q].split_id != s[s.len() - 1].split_id);
                } else {
                    assert(f[a] == fp[a] && f[b] == fp[b]);
                }
            }
        } else {
            assert(f == fp);
        }
    }
}

/// When index ids are unique, the position found for an id is the
/// position the `index_idx` choice denotes.
pub proof fn lemma_index_idx(m: Seq<IndexView>, index_id: Seq<char>, i: int)
    requires
        catalog_wf(m),
        0 <= i < m.len(),
        m[i].index_id == index_id,
    ensures
        has_index(m, index_id),
        index_idx(m, index_id) == i,
{
    let j = index_idx(m, index_id);
    if j != i {
        if j < i {
            assert(m[j].index_id != m[i].index_id);
        } else {
            assert(m[i].index_id != m[j].index_id);
        }
    }
}

/// When split ids are unique, the position found for an id is the
/// position the `split_idx` choice denotes.
pub proof fn lemma_split_idx(splits: Seq<SplitView>, split_id: Seq<char>, k: int)
    requires
        split_ids_unique(splits),
        0 <= k < splits.len(),
        splits[k].split_id == split_id,
    ensures
        has_split(splits, split_id),
        split_idx(splits, split_id) == k,
{
    let j = split_idx(splits, split_id);
    if j != k {
        if j < k {
            assert(splits[j].split_id != splits[k].split_id);
        } else {
            assert(splits[k].split_id != splits[j].split_id);
        }
    }
}


/// Marking splits for deletion is idempotent: a second marking with
/// the same ids, at any later time, changes nothing, because a split
/// already scheduled for deletion is left untouched.
pub proof fn lemma_mark_idempotent(
    splits: Seq<SplitView>,
    ids: Seq<Seq<char>>,
    now1: u64,
    now2: u64,
)
    ensures
        mark_transform(mark_transform(splits, ids, now1), ids, now2) == mark_transform(
            splits,
            ids,
            now1,
        ),
{
    let once = mark_transform(splits, ids, now1);
    let twice = mark_transform(once, ids, now2);
    assert forall|k: int| 0 <= k < splits.len() implies #[trigger] twice[k] == once[k] by {
        if id_in_list(ids, splits[k].split_id) && splits[k].split_state
            != SplitState::ScheduledForDeletion {
            assert(once[k].split_state == SplitState::ScheduledForDeletion);
        }
    }
    assert(twice =~= once);
}

/// A staged split then published is returned by a listing of the
/// published splits with no time or tag filter.
pub proof fn lemma_stage_publish_listed(splits: Seq<SplitView>, staged: SplitView, now: u64)
    requires
        staged.split_state == SplitState::Staged,
    ensures
        publish_transform(splits.push(staged), seq![staged.split_id], now).filter(
            split_filter_pred(SplitState::Published, Option::None, Seq::empty()),
        ).contains(published_split(staged, now)),
{
    let s1 = splits.push(staged);
    let s2 = publish_transform(s1, seq![staged.split_id], now);
    let n = splits.len() as int;
    assert(s1[n] == staged);
    assert(id_in_list(seq![staged.split_id], staged.split_id)) by {
        assert(seq![staged.split_id][0] == staged.split_id);
    }
    assert(s2[n] == published_split(staged, now));
    let pred = split_filter_pred(SplitState::Published, Option::None, Seq::empty());
    assert(pred(s2[n]));
    s2.lemma_filter_contains(pred, n);
}

} // verus!
