//! Local read-through cache: a bounded cache of whole objects fronting
//! a remote storage, with LRU eviction, write-through puts, and a
//! persistable description of its contents.

use vstd::prelude::*;

use crate::storage::{copy_bytes, RamStorage};
use crate::ErrorKind;

verus! {

broadcast use vstd::std_specs::vec::group_vec_axioms;

/// Capacity of the on-disk tier of a cache: a bound on the number of
/// cached files and one on their total size.
#[derive(Clone, Copy, Debug, PartialEq, Eq, Structural)]
pub struct DiskCapacity {
    /// Maximum number of files.
    pub max_num_files: usize,
    /// Maximum total size in bytes.
    pub max_num_bytes: usize,
}

/// Persistable description of a cache: where it fronts, where it
/// lives, its capacities, and the items it holds.
pub struct CacheState {
    pub remote_storage_uri: String,
    pub local_storage_uri: String,
    pub disk_capacity: DiskCapacity,
    pub ram_capacity: usize,
    pub items: Vec<(String, usize)>,
}

/// The path-and-size views of a list of cache items.
pub open spec fn item_views(s: Seq<(String, usize)>) -> Seq<(Seq<char>, usize)> {
    s.map_values(|it: (String, usize)| (it.0@, it.1))
}

/// Whether an item with this path and size is in the list.
pub open spec fn item_in_list(items: Seq<(Seq<char>, usize)>, it: (Seq<char>, usize)) -> bool {
    exists|k: int| 0 <= k < items.len() && items[k] == it
}

/// The items of a reread cache state that are still valid: present on
/// disk with an agreeing size.
pub open spec fn valid_item_pred(on_disk: Seq<(Seq<char>, usize)>) -> spec_fn(
    (String, usize),
) -> bool {
    |it: (String, usize)| item_in_list(on_disk, (it.0@, it.1))
}

/// Whether an item with this path and size is in the list of found
/// files.
pub fn find_item(on_disk: &Vec<(String, usize)>, path: &String, size: usize) -> (r: bool)
    ensures
        r == item_in_list(item_views(on_disk@), (path@, size)),
{
    let mut k: usize = 0;
    while k < on_disk.len()
        invariant
            k <= on_disk@.len(),
            forall|q: int| 0 <= q < k ==> #[trigger] item_views(on_disk@)[q] != (path@, size),
        decreases on_disk@.len() - k,
    {
        if on_disk[k].0 == *path && on_disk[k].1 == size {
            assert(item_views(on_disk@)[k as int] == (path@, size));
            return true;
        }
        assert(item_views(on_disk@)[k as int] != (path@, size));
        k = k + 1;
    }
    false
}

impl CacheState {
    /// Self-healing on startup: keeps only the recorded items that are
    /// still on disk with the recorded size, discarding the rest.
    #[verifier::loop_isolation(false)]
    pub fn retain_present_items(&self, on_disk: &Vec<(String, usize)>) -> (r: CacheState)
        ensures
            r.remote_storage_uri@ == self.remote_storage_uri@,
            r.local_storage_uri@ == self.local_storage_uri@,
            r.disk_capacity == self.disk_capacity,
            r.ram_capacity == self.ram_capacity,
            r.items@ == self.items@.filter(valid_item_pred(item_views(on_disk@))),
    {
        let ghost pred = valid_item_pred(item_views(on_disk@));
        let mut items: Vec<(String, usize)> = Vec::new();
        let mut k: usize = 0;
        while k < self.items.len()
            invariant
                k <= self.items@.len(),
                items@ == self.items@.take(k as int).filter(pred),
            decreases self.items@.len() - k,
        {
            proof {
                crate::lemma_filter_take_step(self.items@, pred, k as int);
            }
            if find_item(on_disk, &self.items[k].0, self.items[k].1) {
                items.push((self.items[k].0.clone(), self.items[k].1));
                proof {
                    assert((self.items@[k as int].0, self.items@[k as int].1)
                        == self.items@[k as int]);
                }
            }
            k = k + 1;
        }
        proof {
            assert(self.items@.take(self.items@.len() as int) =~= self.items@);
        }
        CacheState {
            remote_storage_uri: self.remote_storage_uri.clone(),
            local_storage_uri: self.local_storage_uri.clone(),
            disk_capacity: self.disk_capacity,
            ram_capacity: self.ram_capacity,
            items,
        }
    }
}

/// One cached object: a copy of the remote bytes under a path.
pub struct CacheEntry {
    pub path: String,
    pub bytes: Vec<u8>,
}

/// The total size of the cached objects.
pub open spec fn sum_sizes(s: Seq<CacheEntry>) -> int
    decreases s.len(),
{
    if s.len() == 0 {
        0
    } else {
        s[0].bytes@.len() + sum_sizes(s.drop_first())
    }
}

/// Appending an entry adds its size to the total.
pub proof fn lemma_sum_push(s: Seq<CacheEntry>, e: CacheEntry)
    ensures
        sum_sizes(s.push(e)) == sum_sizes(s) + e.bytes@.len(),
    decreases s.len(),
{
    if s.len() == 0 {
        assert(s.push(e).drop_first() =~= s);
    } else {
        assert(s.push(e).drop_first() =~= s.drop_first().push(e));
        lemma_sum_push(s.drop_first(), e);
    }
}

/// The total size is never negative.
pub proof fn lemma_sum_nonneg(s: Seq<CacheEntry>)
    ensures
        sum_sizes(s) >= 0,
    decreases s.len(),
{
    if s.len() > 0 {
        lemma_sum_nonneg(s.drop_first());
    }
}

/// A bounded cache of whole objects fronting a remote storage. Reads
/// are served from the cache when possible and always return the
/// authoritative remote bytes; writes go through to the remote first.
/// The least recently used objects are evicted whenever admitting one
/// would exceed the capacity.
pub struct StorageWithLocalStorageCache {
    remote: RamStorage,
    entries: Vec<CacheEntry>,
    capacity: DiskCapacity,
    num_bytes: usize,
}

impl StorageWithLocalStorageCache {
    /// What the remote storage holds.
    pub closed spec fn remote_view(&self) -> Map<Seq<char>, Seq<u8>> {
        self.remote@
    }

    /// The capacity the cache was created with.
    pub closed spec fn spec_capacity(&self) -> DiskCapacity {
        self.capacity
    }

    /// How many objects the cache holds.
    pub closed spec fn cached_file_count(&self) -> int {
        self.entries@.len() as int
    }

    /// The total size of the objects the cache holds.
    pub closed spec fn cached_byte_count(&self) -> int {
        sum_sizes(self.entries@)
    }

    /// Whether an object is cached under the path.
    pub closed spec fn caches(&self, path: Seq<char>) -> bool {
        exists|k: int| 0 <= k < self.entries@.len() && self.entries@[k].path@ == path
    }

    /// The cache invariant: paths are cached at most once, the byte
    /// accounting is exact, both capacity bounds hold, and every cached
    /// object is a copy of the remote object under its path.
    pub closed spec fn wf(&self) -> bool {
        &&& self.remote.wf()
        &&& forall|a: int, b: int|
            0 <= a < b < self.entries@.len() ==> (#[trigger] self.entries@[a]).path@ != (
            #[trigger] self.entries@[b]).path@
        &&& self.num_bytes == sum_sizes(self.entries@)
        &&& self.entries@.len() <= self.capacity.max_num_files
        &&& self.num_bytes <= self.capacity.max_num_bytes
        &&& forall|k: int|
            0 <= k < self.entries@.len() ==> self.remote_view().contains_key(
                (#[trigger] self.entries@[k]).path@,
            ) && self.entries@[k].bytes@ == self.remote_view()[self.entries@[k].path@]
    }

    /// At the end of every operation the cache respects its capacity:
    /// at most `max_num_files` objects, of at most `max_num_bytes` in
    /// total.
    pub proof fn lemma_within_capacity(&self)
        requires
            self.wf(),
        ensures
            self.cached_file_count() <= self.spec_capacity().max_num_files,
            self.cached_byte_count() <= self.spec_capacity().max_num_bytes,
    {
    }

    /// Creates an empty cache in front of a remote storage.
    pub fn new(remote: RamStorage, capacity: DiskCapacity) -> (r: StorageWithLocalStorageCache)
        requires
            remote.wf(),
        ensures
            r.wf(),
            r.remote_view() == remote@,
            r.cached_file_count() == 0,
    {
        StorageWithLocalStorageCache { remote, entries: Vec::new(), capacity, num_bytes: 0 }
    }

    fn find_entry(&self, path: &String) -> (r: Option<usize>)
        ensures
            match r {
                Some(k) => k < self.entries@.len() && self.entries@[k as int].path@ == path@,
                None => !self.caches(path@),
            },
    {
        let mut k: usize = 0;
        while k < self.entries.len()
            invariant
                k <= self.entries@.len(),
                forall|q: int| 0 <= q < k ==> (#[trigger] self.entries@[q]).path@ != path@,
            decreases self.entries@.len() - k,
        {
            if self.entries[k].path == *path {
                return Some(k);
            }
            k = k + 1;
        }
        None
    }

    /// Removes the cached object under the path, if any, keeping the
    /// accounting exact.
    #[verifier::loop_isolation(false)]
    fn evict_path(&mut self, path: &String)
        requires
            old(self).wf(),
        ensures
            final(self).wf(),
            final(self).remote_view() == old(self).remote_view(),
            final(self).spec_capacity() == old(self).spec_capacity(),
            !final(self).caches(path@),
            forall|p: Seq<char>| final(self).caches(p) ==> old(self).caches(p),
    {
        match self.find_entry(path) {
            None => {},
            Some(k) => {
                proof {
                    lemma_sum_remove_prefix(self.entries@, k as int);
                    lemma_sum_nonneg(self.entries@.remove(k as int));
                }
                let e = self.entries.remove(k);
                self.num_bytes = self.num_bytes - e.bytes.len();
                proof {
                    let t = self.entries@;
                    assert forall|p: Seq<char>| self.caches(p) implies old(self).caches(p) by {
                        let w = choose|w: int| 0 <= w < t.len() && t[w].path@ == p;
                        let w0 = if w < k as int { w } else { w + 1 };
                        assert(old(self).entries@[w0].path@ == p);
                    }
                    assert(!self.caches(path@)) by {
                        if self.caches(path@) {
                            let w = choose|w: int| 0 <= w < t.len() && t[w].path@ == path@;
                            let w0 = if w < k as int { w } else { w + 1 };
                            assert(old(self).entries@[w0].path@ == old(self).entries@[
                                k as int].path@);
                        }
                    }
                }
            },
        }
    }

    /// Installs an object in the cache after evicting the least recently
    /// used objects until it fits. An object larger than the byte
    /// capacity, or any object when no file may be cached, is not
    /// admitted.
    #[verifier::loop_isolation(false)]
    fn install(&mut self, path: &String, bytes: Vec<u8>)
        requires
            old(self).wf(),
            !old(self).caches(path@),
            old(self).remote_view().contains_key(path@),
            old(self).remote_view()[path@] == bytes@,
        ensures
            final(self).wf(),
            final(self).remote_view() == old(self).remote_view(),
            final(self).spec_capacity() == old(self).spec_capacity(),
    {
        if self.capacity.max_num_files == 0 || bytes.len() > self.capacity.max_num_bytes {
            return ;
        }
        while self.entries.len() >= self.capacity.max_num_files || self.num_bytes
            > self.capacity.max_num_bytes - bytes.len()
            invariant
                self.wf(),
                !self.caches(path@),
                self.remote_view() == old(self).remote_view(),
                self.spec_capacity() == old(self).spec_capacity(),
            decreases self.entries@.len(),
        {
            let ghost pre = self.entries@;
            proof {
                lemma_sum_nonneg(pre.drop_first());
                assert(pre.remove(0) =~= pre.drop_first());
                lemma_sum_remove_prefix(pre, 0);
            }
            let e = self.entries.remove(0);
            self.num_bytes = self.num_bytes - e.bytes.len();
            proof {
                let t = self.entries@;
                assert(forall|k: int| 0 <= k < t.len() ==> #[trigger] t[k] == pre[k + 1]);
                assert(!self.caches(path@)) by {
                    if self.caches(path@) {
                        let w = choose|w: int| 0 <= w < t.len() && t[w].path@ == path@;
                        assert(pre[w + 1].path@ == path@);
                        assert(self.caches_in(pre, path@));
                    }
                }
            }
        }
        let size = bytes.len();
        let entry = CacheEntry { path: path.clone(), bytes };
        let ghost prev = self.entries@;
        proof {
            lemma_sum_push(prev, entry);
        }
        self.entries.push(entry);
        self.num_bytes = self.num_bytes + size;
        proof {
            assert forall|a: int, b: int| 0 <= a < b < self.entries@.len() implies (
            #[trigger] self.entries@[a]).path@ != (#[trigger] self.entries@[b]).path@ by {
                if b == self.entries@.len() - 1 {
                    assert(prev[a].path@ != path@) by {
                        if prev[a].path@ == path@ {
                            assert(self.caches_in(prev, path@));
                        }
                    }
                }
            }
        }
    }

    /// Whether some entry of the list carries the path.
    spec fn caches_in(&self, entries: Seq<CacheEntry>, path: Seq<char>) -> bool {
        exists|k: int| 0 <= k < entries.len() && entries[k].path@ == path
    }

    /// Writes through to the remote storage and then places the object
    /// in the cache, subject to eviction. The capacity bounds hold when
    /// it returns.
    pub fn put(&mut self, path: &String, payload: Vec<u8>)
        requires
            old(self).wf(),
        ensures
            final(self).wf(),
            final(self).remote_view() =~= old(self).remote_view().insert(path@, payload@),
            final(self).spec_capacity() == old(self).spec_capacity(),
    {
        let bytes = copy_bytes(&payload);
        self.remote.put(path, payload);
        proof {
            assert(self.entries@ == old(self).entries@);
        }
        self.refresh_and_admit(path, bytes);
    }

    /// Replaces any stale cached copy and admits the fresh bytes.
    fn refresh_and_admit(&mut self, path: &String, bytes: Vec<u8>)
        requires
            old(self).remote.wf(),
            old(self).num_bytes == sum_sizes(old(self).entries@),
            old(self).entries@.len() <= old(self).capacity.max_num_files,
            old(self).num_bytes <= old(self).capacity.max_num_bytes,
            forall|a: int, b: int|
                0 <= a < b < old(self).entries@.len() ==> (#[trigger] old(self).entries@[
                a]).path@ != (#[trigger] old(self).entries@[b]).path@,
            forall|k: int|
                0 <= k < old(self).entries@.len() ==> (#[trigger] old(self).entries@[k]).path@
                    == path@ || (old(self).remote_view().contains_key(
                    old(self).entries@[k].path@,
                ) && old(self).entries@[k].bytes@ == old(self).remote_view()[old(
                    self,
                ).entries@[k].path@]),
            old(self).remote_view().contains_key(path@),
            old(self).remote_view()[path@] == bytes@,
        ensures
            final(self).wf(),
            final(self).remote_view() == old(self).remote_view(),
            final(self).spec_capacity() == old(self).spec_capacity(),
    {
        match self.find_entry(path) {
            None => {},
            Some(k) => {
                proof {
                    lemma_sum_remove_prefix(self.entries@, k as int);
                    lemma_sum_nonneg(self.entries@.remove(k as int));
                }
                let e = self.entries.remove(k);
                self.num_bytes = self.num_bytes - e.bytes.len();
            },
        }
        proof {
            let t = self.entries@;
            assert(!self.caches(path@)) by {
                if exists|w: int| 0 <= w < t.len() && t[w].path@ == path@ {
                    let w = choose|w: int| 0 <= w < t.len() && t[w].path@ == path@;
                    assert(false);
                }
            }
        }
        self.install(path, bytes);
    }

    /// Returns the whole object, from the cache when present, from the
    /// remote otherwise; a missed object is admitted on the way out.
    /// The bytes returned are always the authoritative remote bytes.
    pub fn get_all(&mut self, path: &String) -> (r: Result<Vec<u8>, ErrorKind>)
        requires
            old(self).wf(),
        ensures
            final(self).wf(),
            final(self).remote_view() == old(self).remote_view(),
            final(self).spec_capacity() == old(self).spec_capacity(),
            match r {
                Ok(data) => final(self).remote_view().contains_key(path@) && data@ == final(
                    self).remote_view()[path@],
                Err(e) => e == ErrorKind::NotFound && !final(self).remote_view().contains_key(
                    path@),
            },
    {
        match self.find_entry(path) {
            Some(k) => Ok(copy_bytes(&self.entries[k].bytes)),
            None => {
                let data = match self.remote.get_all(path) {
                    Err(e) => {
                        return Err(e);
                    },
                    Ok(d) => d,
                };
                let copy = copy_bytes(&data);
                self.install(path, data);
                Ok(copy)
            },
        }
    }

    /// Returns the bytes in `start..end` of the object, from the cached
    /// copy when present, from the remote otherwise. The bytes returned
    /// are always the authoritative remote bytes for that range.
    pub fn get_slice(&mut self, path: &String, start: usize, end: usize) -> (r: Result<
        Vec<u8>,
        ErrorKind,
    >)
        requires
            old(self).wf(),
        ensures
            final(self).wf(),
            final(self).remote_view() == old(self).remote_view(),
            final(self).spec_capacity() == old(self).spec_capacity(),
            match r {
                Ok(data) => final(self).remote_view().contains_key(path@) && start <= end
                    <= final(self).remote_view()[path@].len() && data@ == final(
                    self).remote_view()[path@].subrange(start as int, end as int),
                Err(e) => {
                    &&& e == ErrorKind::NotFound ==> !final(self).remote_view().contains_key(
                        path@)
                    &&& e == ErrorKind::InvalidArgument ==> final(self).remote_view().contains_key(
                        path@) && !(start <= end <= final(self).remote_view()[path@].len())
                    &&& (e == ErrorKind::NotFound || e == ErrorKind::InvalidArgument)
                },
            },
    {
        match self.find_entry(path) {
            Some(k) => {
                let data = &self.entries[k].bytes;
                if start > end || end > data.len() {
                    return Err(ErrorKind::InvalidArgument);
                }
                let mut out: Vec<u8> = Vec::new();
                let mut q: usize = start;
                while q < end
                    invariant
                        start <= q <= end <= data@.len(),
                        out@ =~= data@.subrange(start as int, q as int),
                    decreases end - q,
                {
                    out.push(data[q]);
                    assert(out@ =~= data@.subrange(start as int, q + 1));
                    q = q + 1;
                }
                Ok(out)
            },
            None => self.remote.get_slice(path, start, end),
        }
    }

    /// Evicts the object from the cache and deletes it remotely.
    /// Deleting a missing object is a success.
    pub fn delete(&mut self, path: &String)
        requires
            old(self).wf(),
        ensures
            final(self).wf(),
            final(self).remote_view() =~= old(self).remote_view().remove(path@),
            final(self).spec_capacity() == old(self).spec_capacity(),
            !final(self).caches(path@),
    {
        self.evict_path(path);
        let ghost mid = *self;
        self.remote.delete(path);
        proof {
            assert(self.entries@ == mid.entries@);
            assert forall|k: int| 0 <= k < self.entries@.len() implies self.remote_view(
            ).contains_key((#[trigger] self.entries@[k]).path@) && self.entries@[k].bytes@
                == self.remote_view()[self.entries@[k].path@] by {
                assert(self.entries@[k].path@ != path@) by {
                    if self.entries@[k].path@ == path@ {
                        assert(mid.caches(path@));
                    }
                }
            }
        }
    }

    /// The cached items, least recently used first: each path with the
    /// size of its cached object.
    pub fn get_items(&self) -> (r: Vec<(String, usize)>)
        ensures
            r@.len() == self.cached_file_count(),
            forall|k: int|
                0 <= k < r@.len() ==> (#[trigger] r@[k]).0@ == self.entry_path(k)
                    && r@[k].1 == self.entry_size(k),
    {
        let mut out: Vec<(String, usize)> = Vec::new();
        let mut k: usize = 0;
        while k < self.entries.len()
            invariant
                k <= self.entries@.len(),
                out@.len() == k,
                forall|q: int|
                    0 <= q < k ==> (#[trigger] out@[q]).0@ == self.entries@[q].path@ && out@[q].1
                        == self.entries@[q].bytes@.len(),
            decreases self.entries@.len() - k,
        {
            out.push((self.entries[k].path.clone(), self.entries[k].bytes.len()));
            k = k + 1;
        }
        out
    }

    /// The path of the cached object at a position.
    pub closed spec fn entry_path(&self, k: int) -> Seq<char> {
        self.entries@[k].path@
    }

    /// The size of the cached object at a position.
    pub closed spec fn entry_size(&self, k: int) -> int {
        self.entries@[k].bytes@.len() as int
    }
}

/// Removing an entry subtracts its size from the total.
pub proof fn lemma_sum_remove_prefix(s: Seq<CacheEntry>, k: int)
    requires
        0 <= k < s.len(),
    ensures
        sum_sizes(s.remove(k)) == sum_sizes(s) - s[k].bytes@.len(),
    decreases s.len(),
{
    if k == 0 {
        assert(s.remove(0) =~= s.drop_first());
    } else {
        assert(s.remove(k).drop_first() =~= s.drop_first().remove(k - 1));
        lemma_sum_remove_prefix(s.drop_first(), k - 1);
    }
}

} // verus!
