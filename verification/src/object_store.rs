//! Abstract blob store: put/get/get-range/remove by path.
//!
//! Objects are opaque byte strings keyed by byte-string paths. The in-memory
//! implementation backs tests; remote stores implement the same trait at the
//! I/O boundary.

use crate::error::{Error, Result};
use crate::kv_map::KvMap;
use crate::bytes_util::subrange_to_vec;
use vstd::prelude::*;

verus! {

/// Blob store abstraction: a map from paths to objects.
pub trait ObjectStore: Sized {
    /// The stored objects by path.
    spec fn view_map(&self) -> Map<Seq<u8>, Seq<u8>>;

    /// Internal well-formedness.
    spec fn inv(&self) -> bool;

    /// Store an object, replacing any previous object at the path. Failable,
    /// as every store operation is; on failure nothing is stored.
    fn put(&mut self, path: &[u8], obj: Vec<u8>) -> (r: Result<()>)
        requires
            old(self).inv(),
        ensures
            final(self).inv(),
            r is Ok ==> final(self).view_map() == old(self).view_map().insert(path@, obj@),
            r is Err ==> final(self).view_map() == old(self).view_map(),
    ;

    /// Fetch a whole object.
    fn get(&self, path: &[u8]) -> (r: Result<Vec<u8>>)
        requires
            self.inv(),
        ensures
            self.view_map().contains_key(path@) ==> (r matches Ok(v) && v@ == self.view_map()[
                path@
            ]),
            !self.view_map().contains_key(path@) ==> (r matches Err(e) && e matches
                Error::ObjectNotFound(p) && p@ == path@),
    ;

    /// Fetch `[start, end)` of an object. Out-of-range bounds are refused.
    fn get_range(&self, path: &[u8], start: usize, end: usize) -> (r: Result<Vec<u8>>)
        requires
            self.inv(),
        ensures
            !self.view_map().contains_key(path@) ==> (r matches Err(e) && e matches
                Error::ObjectNotFound(p) && p@ == path@),
            self.view_map().contains_key(path@) && start <= end <= self.view_map()[path@].len()
                ==> (r matches Ok(v) && v@ == self.view_map()[path@].subrange(
                start as int,
                end as int,
            )),
            self.view_map().contains_key(path@) && !(start <= end <= self.view_map()[
                path@
            ].len()) ==> r == Err::<Vec<u8>, Error>(Error::ObjectRange),
    ;

    /// Remove an object; absent paths are an error.
    fn remove(&mut self, path: &[u8]) -> (r: Result<()>)
        requires
            old(self).inv(),
        ensures
            final(self).inv(),
            final(self).view_map() == old(self).view_map().remove(path@),
            old(self).view_map().contains_key(path@) ==> r is Ok,
            !old(self).view_map().contains_key(path@) ==> (r matches Err(e) && e matches
                Error::ObjectNotFound(p) && p@ == path@),
    ;
}

/// In-memory object store.
pub struct MemObjectStore {
    objects: KvMap,
}

impl Default for MemObjectStore {
    fn default() -> (r: Self)
        ensures
            r.inv(),
            r.view_map() == Map::<Seq<u8>, Seq<u8>>::empty(),
    {
        MemObjectStore { objects: KvMap::new() }
    }
}

impl ObjectStore for MemObjectStore {
    closed spec fn view_map(&self) -> Map<Seq<u8>, Seq<u8>> {
        self.objects@
    }

    closed spec fn inv(&self) -> bool {
        self.objects.wf()
    }

    fn put(&mut self, path: &[u8], obj: Vec<u8>) -> (r: Result<()>) {
        let key = crate::bytes_util::bytes_to_vec(path);
        self.objects.insert(key, obj);
        Ok(())
    }

    fn get(&self, path: &[u8]) -> (r: Result<Vec<u8>>) {
        match self.objects.get(path) {
            Some(v) => Ok(crate::bytes_util::bytes_to_vec(v.as_slice())),
            None => Err(Error::ObjectNotFound(crate::bytes_util::bytes_to_vec(path))),
        }
    }

    fn get_range(&self, path: &[u8], start: usize, end: usize) -> (r: Result<Vec<u8>>) {
        match self.objects.get(path) {
            Some(v) => {
                if start > end || end > v.len() {
                    return Err(Error::ObjectRange);
                }
                Ok(subrange_to_vec(v.as_slice(), start, end))
            },
            None => Err(Error::ObjectNotFound(crate::bytes_util::bytes_to_vec(path))),
        }
    }

    fn remove(&mut self, path: &[u8]) -> (r: Result<()>) {
        if self.objects.remove(path) {
            Ok(())
        } else {
            Err(Error::ObjectNotFound(crate::bytes_util::bytes_to_vec(path)))
        }
    }
}

} // verus!
