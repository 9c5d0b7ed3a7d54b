//! The storage URI resolver: maps a URI scheme to a storage backend
//! kind, and interns URIs so that repeated resolution of the same URI
//! yields the same handle — the way shared backends keep one connection
//! pool per URI.

use vstd::prelude::*;

use crate::ErrorKind;

verus! {

broadcast use vstd::std_specs::vec::group_vec_axioms;

/// The storage backends a URI scheme can name.
#[derive(Clone, Copy, Debug, PartialEq, Eq, Structural)]
pub enum StorageBackend {
    /// `file://` — the local filesystem.
    LocalFile,
    /// `s3://` — an S3-compatible object store.
    S3Compatible,
    /// `ram://` — the in-memory backend.
    Ram,
}

/// Whether the string starts with the given prefix.
#[verifier::loop_isolation(false)]
pub fn str_starts_with(s: &String, prefix: &str) -> (r: bool)
    ensures
        r == prefix@.is_prefix_of(s@),
{
    let pn = prefix.unicode_len();
    let sn = s.as_str().unicode_len();
    if pn > sn {
        return false;
    }
    let mut i: usize = 0;
    while i < pn
        invariant
            i <= pn,
            pn == prefix@.len(),
            sn == s@.len(),
            pn <= sn,
            forall|q: int| 0 <= q < i ==> prefix@[q] == s@[q],
        decreases pn - i,
    {
        if prefix.get_char(i) != s.as_str().get_char(i) {
            assert(!prefix@.is_prefix_of(s@)) by {
                if prefix@.is_prefix_of(s@) {
                    assert(prefix@[i as int] == s@.subrange(0, prefix@.len() as int)[i as int]);
                }
            }
            return false;
        }
        i = i + 1;
    }
    assert(prefix@ =~= s@.subrange(0, prefix@.len() as int));
    true
}

/// Resolves the backend kind a URI names by its scheme. A URI with an
/// unknown scheme is rejected as an invalid argument.
pub fn resolve_scheme(uri: &String) -> (r: Result<StorageBackend, ErrorKind>)
    ensures
        r == (if "ram://"@.is_prefix_of(uri@) {
            Ok::<StorageBackend, ErrorKind>(StorageBackend::Ram)
        } else if "file://"@.is_prefix_of(uri@) {
            Ok::<StorageBackend, ErrorKind>(StorageBackend::LocalFile)
        } else if "s3://"@.is_prefix_of(uri@) {
            Ok::<StorageBackend, ErrorKind>(StorageBackend::S3Compatible)
        } else {
            Err::<StorageBackend, ErrorKind>(ErrorKind::InvalidArgument)
        }),
{
    if str_starts_with(uri, "ram://") {
        Ok(StorageBackend::Ram)
    } else if str_starts_with(uri, "file://") {
        Ok(StorageBackend::LocalFile)
    } else if str_starts_with(uri, "s3://") {
        Ok(StorageBackend::S3Compatible)
    } else {
        Err(ErrorKind::InvalidArgument)
    }
}

/// Scopes a relative path under a prefix, the way a child URI shares a
/// parent's backend while all its paths live under the prefix.
pub fn scoped_path(prefix: &String, path: &String) -> (r: String)
    ensures
        r@ == prefix@ + "/"@ + path@,
{
    prefix.clone().concat("/").concat(path.as_str())
}

/// A process-wide registry of resolved storage URIs. Resolving a URI
/// yields a handle, and resolving the same URI again yields the same
/// handle, so that every consumer of the URI shares one backend
/// instance.
pub struct StorageUriResolver {
    uris: Vec<String>,
}

impl StorageUriResolver {
    /// The resolved URIs, in resolution order.
    pub closed spec fn spec_uris(&self) -> Seq<Seq<char>> {
        self.uris@.map_values(|u: String| u@)
    }

    /// No URI is interned twice.
    pub open spec fn wf(&self) -> bool {
        forall|a: int, b: int|
            0 <= a < b < self.spec_uris().len() ==> self.spec_uris()[a] != self.spec_uris()[b]
    }

    /// An empty registry.
    pub fn new() -> (r: StorageUriResolver)
        ensures
            r.wf(),
            r.spec_uris() =~= Seq::<Seq<char>>::empty(),
    {
        StorageUriResolver { uris: Vec::new() }
    }

    /// Resolves a URI to its handle, interning it on first use. A URI
    /// with an unknown scheme is rejected; the handle of a URI never
    /// changes once resolved.
    #[verifier::loop_isolation(false)]
    pub fn resolve(&mut self, uri: &String) -> (r: Result<usize, ErrorKind>)
        requires
            old(self).wf(),
        ensures
            final(self).wf(),
            ({
                let known = "ram://"@.is_prefix_of(uri@) || "file://"@.is_prefix_of(uri@)
                    || "s3://"@.is_prefix_of(uri@);
                if !known {
                    r == Err::<usize, ErrorKind>(ErrorKind::InvalidArgument) && final(
                        self).spec_uris() == old(self).spec_uris()
                } else if exists|j: int|
                    0 <= j < old(self).spec_uris().len() && old(self).spec_uris()[j] == uri@ {
                    {
                        let j = choose|j: int|
                            0 <= j < old(self).spec_uris().len() && old(self).spec_uris()[j]
                                == uri@;
                        r == Ok::<usize, ErrorKind>(j as usize) && final(self).spec_uris() == old(
                            self).spec_uris()
                    }
                } else {
                    r == Ok::<usize, ErrorKind>(old(self).spec_uris().len() as usize) && final(
                        self).spec_uris() =~= old(self).spec_uris().push(uri@)
                }
            }),
    {
        match resolve_scheme(uri) {
            Err(e) => {
                return Err(e);
            },
            Ok(_) => {},
        }
        let mut i: usize = 0;
        while i < self.uris.len()
            invariant
                i <= self.uris@.len(),
                forall|q: int| 0 <= q < i ==> self.spec_uris()[q] != uri@,
            decreases self.uris@.len() - i,
        {
            if self.uris[i] == *uri {
                proof {
                    let j = choose|j: int|
                        0 <= j < self.spec_uris().len() && self.spec_uris()[j] == uri@;
                    assert(self.spec_uris()[i as int] == uri@);
                    if j != i {
                        if j < i {
                            assert(self.spec_uris()[j] != self.spec_uris()[i as int]);
                        } else {
                            assert(self.spec_uris()[i as int] != self.spec_uris()[j]);
                        }
                    }
                }
                return Ok(i);
            }
            i = i + 1;
        }
        let handle = self.uris.len();
        let ghost before = self.uris@;
        self.uris.push(uri.clone());
        proof {
            assert(self.spec_uris() =~= before.map_values(|u: String| u@).push(uri@));
        }
        Ok(handle)
    }
}

} // verus!
