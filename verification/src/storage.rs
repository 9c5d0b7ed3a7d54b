//! In-memory byte-range storage backend.
//!
//! A backend instance is scoped to one root URI; every path handed to it is
//! relative to that root, so the files it holds are exactly "the files under
//! the index URI" when the instance was resolved for an index.

use vstd::prelude::*;

use crate::ErrorKind;

verus! {

broadcast use vstd::std_specs::vec::group_vec_axioms;

/// One stored object: a relative path and its payload.
pub struct StoredObject {
    pub path: String,
    pub bytes: Vec<u8>,
}

/// In-memory storage backend: a flat namespace of relative paths, each
/// holding a byte payload. Viewed as a finite map from path (as a character
/// sequence) to contents (as a byte sequence).
pub struct RamStorage {
    uri: String,
    objects: Vec<StoredObject>,
}

/// The map described by an association list of stored objects, later
/// entries overriding earlier ones.
pub open spec fn assoc_view(s: Seq<StoredObject>) -> Map<Seq<char>, Seq<u8>>
    decreases s.len(),
{
    if s.len() == 0 {
        Map::empty()
    } else {
        assoc_view(s.drop_last()).insert(s.last().path@, s.last().bytes@)
    }
}

/// Whether some entry of the association list carries the given path.
pub open spec fn assoc_has_path(s: Seq<StoredObject>, path: Seq<char>) -> bool {
    exists|i: int| 0 <= i < s.len() && s[i].path@ == path
}

/// No two entries share a path.
pub open spec fn paths_unique(s: Seq<StoredObject>) -> bool {
    forall|i: int, j: int| 0 <= i < j < s.len() ==> s[i].path@ != s[j].path@
}

pub proof fn lemma_assoc_dom(s: Seq<StoredObject>)
    ensures
        forall|k: Seq<char>| #[trigger] assoc_view(s).contains_key(k) <==> assoc_has_path(s, k),
    decreases s.len(),
{
    if s.len() > 0 {
        lemma_assoc_dom(s.drop_last());
        assert forall|k: Seq<char>| #[trigger] assoc_view(s).contains_key(k) implies assoc_has_path(
            s,
            k,
        ) by {
            if k == s.last().path@ {
                assert(0 <= s.len() - 1 < s.len() && s[s.len() - 1].path@ == k);
            } else {
                assert(assoc_view(s.drop_last()).contains_key(k));
                assert(assoc_has_path(s.drop_last(), k));
                let i = choose|i: int| 0 <= i < s.drop_last().len() && s.drop_last()[i].path@ == k;
                assert(s.drop_last()[i] == s[i]);
                assert(0 <= i < s.len() && s[i].path@ == k);
            }
        }
        assert forall|k: Seq<char>| assoc_has_path(s, k) implies #[trigger] assoc_view(
            s,
        ).contains_key(k) by {
            let i = choose|i: int| 0 <= i < s.len() && s[i].path@ == k;
            if i < s.len() - 1 {
                assert(s.drop_last()[i] == s[i]);
                assert(0 <= i < s.drop_last().len() && s.drop_last()[i].path@ == k);
                assert(assoc_has_path(s.drop_last(), k));
                assert(assoc_view(s.drop_last()).contains_key(k));
            }
        }
    }
}

pub proof fn lemma_assoc_at(s: Seq<StoredObject>, i: int)
    requires
        paths_unique(s),
        0 <= i < s.len(),
    ensures
        assoc_view(s).contains_key(s[i].path@),
        assoc_view(s)[s[i].path@] == s[i].bytes@,
    decreases s.len(),
{
    if i == s.len() - 1 {
        lemma_assoc_dom(s);
    } else {
        assert(s.drop_last()[i] == s[i]);
        lemma_assoc_at(s.drop_last(), i);
        assert(s[i].path@ != s.last().path@);
    }
}

pub proof fn lemma_assoc_update(s: Seq<StoredObject>, i: int, obj: StoredObject)
    requires
        paths_unique(s),
        0 <= i < s.len(),
        obj.path@ == s[i].path@,
    ensures
        assoc_view(s.update(i, obj)) =~= assoc_view(s).insert(obj.path@, obj.bytes@),
    decreases s.len(),
{
    let t = s.update(i, obj);
    if i == s.len() - 1 {
        assert(t.drop_last() =~= s.drop_last());
    } else {
        assert(t.drop_last() =~= s.drop_last().update(i, obj));
        assert(s.drop_last()[i] == s[i]);
        lemma_assoc_update(s.drop_last(), i, obj);
        assert(s[i].path@ != s.last().path@);
        assert(t.last() == s.last());
    }
}

pub proof fn lemma_assoc_remove(s: Seq<StoredObject>, i: int)
    requires
        paths_unique(s),
        0 <= i < s.len(),
    ensures
        assoc_view(s.remove(i)) =~= assoc_view(s).remove(s[i].path@),
    decreases s.len(),
{
    let t = s.remove(i);
    if i == s.len() - 1 {
        assert(t =~= s.drop_last());
        lemma_assoc_dom(s.drop_last());
        assert(!assoc_has_path(s.drop_last(), s[i].path@));
        assert(assoc_view(s.drop_last()).remove(s[i].path@) =~= assoc_view(s.drop_last()));
    } else {
        assert(t.drop_last() =~= s.drop_last().remove(i));
        assert(s.drop_last()[i] == s[i]);
        lemma_assoc_remove(s.drop_last(), i);
        assert(s[i].path@ != s.last().path@);
        assert(t.last() == s.last());
    }
}

impl View for RamStorage {
    type V = Map<Seq<char>, Seq<u8>>;

    closed spec fn view(&self) -> Map<Seq<char>, Seq<u8>> {
        assoc_view(self.objects@)
    }
}

/// Copies a byte buffer element by element.
pub fn copy_bytes(src: &Vec<u8>) -> (r: Vec<u8>)
    ensures
        r@ == src@,
{
    let mut out: Vec<u8> = Vec::new();
    let mut i: usize = 0;
    while i < src.len()
        invariant
            i <= src.len(),
            out@ =~= src@.take(i as int),
        decreases src.len() - i,
    {
        out.push(src[i]);
        i = i + 1;
    }
    assert(out@ =~= src@);
    out
}

impl RamStorage {
    /// The paths of the stored objects, in insertion order.
    pub closed spec fn spec_paths(&self) -> Seq<Seq<char>> {
        self.objects@.map_values(|o: StoredObject| o.path@)
    }

    /// Internal consistency: no path stored twice.
    pub closed spec fn wf(&self) -> bool {
        paths_unique(self.objects@)
    }

    /// The root URI this backend was resolved for.
    pub closed spec fn spec_uri(&self) -> Seq<char> {
        self.uri@
    }

    pub fn new(uri: String) -> (r: RamStorage)
        ensures
            r.wf(),
            r@ =~= Map::<Seq<char>, Seq<u8>>::empty(),
            r.spec_uri() == uri@,
    {
        RamStorage { uri, objects: Vec::new() }
    }

    pub fn uri(&self) -> (r: &String)
        ensures
            r@ == self.spec_uri(),
    {
        &self.uri
    }

    fn find(&self, path: &String) -> (r: Option<usize>)
        requires
            self.wf(),
        ensures
            match r {
                Some(i) => i < self.objects@.len() && self.objects@[i as int].path@ == path@,
                None => !self@.contains_key(path@),
            },
    {
        proof {
            lemma_assoc_dom(self.objects@);
        }
        let mut i: usize = 0;
        while i < self.objects.len()
            invariant
                i <= self.objects@.len(),
                forall|j: int| 0 <= j < i ==> self.objects@[j].path@ != path@,
            decreases self.objects@.len() - i,
        {
            if self.objects[i].path == *path {
                return Some(i);
            }
            i = i + 1;
        }
        None
    }

    /// Whether an object is stored under the path.
    pub fn file_exists(&self, path: &String) -> (r: bool)
        requires
            self.wf(),
        ensures
            r == self@.contains_key(path@),
    {
        proof {
            lemma_assoc_dom(self.objects@);
        }
        match self.find(path) {
            Some(i) => {
                proof {
                    lemma_assoc_at(self.objects@, i as int);
                }
                true
            },
            None => false,
        }
    }

    /// Stores the payload under the path, replacing any previous object.
    pub fn put(&mut self, path: &String, payload: Vec<u8>)
        requires
            old(self).wf(),
        ensures
            final(self).wf(),
            final(self)@ =~= old(self)@.insert(path@, payload@),
            final(self).spec_uri() == old(self).spec_uri(),
    {
        let obj = StoredObject { path: path.clone(), bytes: payload };
        match self.find(path) {
            Some(i) => {
                proof {
                    lemma_assoc_update(self.objects@, i as int, obj);
                    let t = self.objects@.update(i as int, obj);
                    assert forall|a: int, b: int| 0 <= a < b < t.len() implies t[a].path@
                        != t[b].path@ by {
                        assert(self.objects@[a].path@ != self.objects@[b].path@);
                    }
                }
                self.objects.set(i, obj);
            },
            None => {
                proof {
                    lemma_assoc_dom(self.objects@);
                    let t = self.objects@.push(obj);
                    assert(t.drop_last() =~= self.objects@);
                    assert forall|a: int, b: int| 0 <= a < b < t.len() implies t[a].path@
                        != t[b].path@ by {
                        if b < t.len() - 1 {
                            assert(self.objects@[a].path@ != self.objects@[b].path@);
                        } else {
                            assert(self.objects@[a].path@ != path@);
                        }
                    }
                }
                self.objects.push(obj);
            },
        }
    }

    /// Returns the whole payload stored under the path.
    pub fn get_all(&self, path: &String) -> (r: Result<Vec<u8>, ErrorKind>)
        requires
            self.wf(),
        ensures
            match r {
                Ok(data) => self@.contains_key(path@) && data@ == self@[path@],
                Err(e) => e == ErrorKind::NotFound && !self@.contains_key(path@),
            },
    {
        match self.find(path) {
            Some(i) => {
                proof {
                    lemma_assoc_at(self.objects@, i as int);
                }
                Ok(copy_bytes(&self.objects[i].bytes))
            },
            None => Err(ErrorKind::NotFound),
        }
    }

    /// Returns the bytes in `start..end` of the object stored under the path.
    pub fn get_slice(&self, path: &String, start: usize, end: usize) -> (r: Result<
        Vec<u8>,
        ErrorKind,
    >)
        requires
            self.wf(),
        ensures
            match r {
                Ok(data) => self@.contains_key(path@) && start <= end <= self@[path@].len()
                    && data@ == self@[path@].subrange(start as int, end as int),
                Err(e) => {
                    &&& e == ErrorKind::NotFound ==> !self@.contains_key(path@)
                    &&& e == ErrorKind::InvalidArgument ==> self@.contains_key(path@) && !(start
                        <= end <= self@[path@].len())
                    &&& (e == ErrorKind::NotFound || e == ErrorKind::InvalidArgument)
                },
            },
    {
        match self.find(path) {
            Some(i) => {
                proof {
                    lemma_assoc_at(self.objects@, i as int);
                }
                let data = &self.objects[i].bytes;
                if start > end || end > data.len() {
                    return Err(ErrorKind::InvalidArgument);
                }
                let mut out: Vec<u8> = Vec::new();
                let mut k: usize = start;
                while k < end
                    invariant
                        start <= k <= end <= data@.len(),
                        out@ =~= data@.subrange(start as int, k as int),
                    decreases end - k,
                {
                    out.push(data[k]);
                    assert(out@ =~= data@.subrange(start as int, k + 1));
                    k = k + 1;
                }
                Ok(out)
            },
            None => Err(ErrorKind::NotFound),
        }
    }

    /// Removes the object stored under the path. Deleting a missing path is
    /// a success, and leaves the storage unchanged.
    pub fn delete(&mut self, path: &String)
        requires
            old(self).wf(),
        ensures
            final(self).wf(),
            final(self)@ =~= old(self)@.remove(path@),
            final(self).spec_uri() == old(self).spec_uri(),
    {
        match self.find(path) {
            Some(i) => {
                proof {
                    lemma_assoc_remove(self.objects@, i as int);
                    let t = self.objects@.remove(i as int);
                    assert forall|a: int, b: int| 0 <= a < b < t.len() implies t[a].path@
                        != t[b].path@ by {
                        let a0 = if a < i as int { a } else { a + 1 };
                        let b0 = if b < i as int { b } else { b + 1 };
                        assert(t[a] == self.objects@[a0]);
                        assert(t[b] == self.objects@[b0]);
                        assert(self.objects@[a0].path@ != self.objects@[b0].path@);
                    }
                }
                self.objects.remove(i);
            },
            None => {
                proof {
                    lemma_assoc_dom(self.objects@);
                    assert(old(self)@.remove(path@) =~= old(self)@);
                }
            },
        }
    }

    /// The size in bytes of the object stored under the path.
    pub fn file_num_bytes(&self, path: &String) -> (r: Result<u64, ErrorKind>)
        requires
            self.wf(),
        ensures
            match r {
                Ok(n) => self@.contains_key(path@) && n == self@[path@].len(),
                Err(e) => e == ErrorKind::NotFound && !self@.contains_key(path@),
            },
    {
        match self.find(path) {
            Some(i) => {
                proof {
                    lemma_assoc_at(self.objects@, i as int);
                }
                Ok(self.objects[i].bytes.len() as u64)
            },
            None => Err(ErrorKind::NotFound),
        }
    }

    /// Lists the paths of every stored object, in insertion order. The
    /// returned paths are exactly the keys of the storage view.
    pub fn list_paths(&self) -> (r: Vec<String>)
        requires
            self.wf(),
        ensures
            r@.len() == self.spec_paths().len(),
            forall|i: int| 0 <= i < r@.len() ==> r@[i]@ == self.spec_paths()[i],
            forall|i: int, j: int| 0 <= i < j < r@.len() ==> r@[i]@ != r@[j]@,
            forall|k: Seq<char>| #[trigger]
                self@.contains_key(k) <==> exists|i: int| 0 <= i < r@.len() && r@[i]@ == k,
    {
        proof {
            lemma_assoc_dom(self.objects@);
        }
        let mut out: Vec<String> = Vec::new();
        let mut i: usize = 0;
        while i < self.objects.len()
            invariant
                i <= self.objects@.len(),
                out@.len() == i,
                forall|j: int| 0 <= j < i ==> out@[j]@ == self.objects@[j].path@,
            decreases self.objects@.len() - i,
        {
            out.push(self.objects[i].path.clone());
            i = i + 1;
        }
        assert forall|k: Seq<char>| #[trigger] self@.contains_key(k) implies exists|i: int|
            0 <= i < out@.len() && out@[i]@ == k by {
            let i = choose|i: int| 0 <= i < self.objects@.len() && self.objects@[i].path@ == k;
            assert(out@[i]@ == k);
        }
        assert forall|k: Seq<char>| (exists|i: int| 0 <= i < out@.len() && out@[i]@ == k) implies #[trigger]
            self@.contains_key(k) by {
            let i = choose|i: int| 0 <= i < out@.len() && out@[i]@ == k;
            assert(self.objects@[i].path@ == k);
        }
        out
    }
}


/// Round trip through the storage: after `put`, the whole payload is
/// read back unchanged, and any sub-range reads back as the matching
/// sub-range of the payload.
pub proof fn lemma_put_get_round_trip(
    store: Map<Seq<char>, Seq<u8>>,
    path: Seq<char>,
    bytes: Seq<u8>,
)
    ensures
        store.insert(path, bytes).contains_key(path),
        store.insert(path, bytes)[path] == bytes,
        forall|a: int, b: int|
            0 <= a <= b <= bytes.len() ==> store.insert(path, bytes)[path].subrange(a, b)
                == bytes.subrange(a, b),
{
}

} // verus!
