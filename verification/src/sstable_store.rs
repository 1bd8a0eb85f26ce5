//! SSTable store: fetches metadata and blocks from an object store.
//!
//! Paths: data at `{prefix}/data/{id:020}.data`, meta at
//! `{prefix}/meta/{id:020}.meta`. Data is written first and meta last, so a
//! reader that sees the meta object finds every referenced data byte.
//!
//! No block or meta cache is modelled: every read goes through to the
//! object store, so a cached deployment behaves identically as long as the
//! cache returns what was stored. The cache policy knob is carried for
//! callers but has no observable effect here; in a concurrent deployment it
//! decides whether misses fill a shared block cache in a single flight.

use crate::block::{spec_block_encodes, Block};
use crate::error::{Error, Result};
use crate::object_store::ObjectStore;
use crate::sstable::{spec_meta_encoding, spec_parse_meta, Sstable, SstableMeta, sstable_meta_v_wf};
use vstd::prelude::*;

verus! {

/// Whether a read may populate caches on a miss.
#[derive(Clone, Copy, Debug, PartialEq, Eq, Structural)]
pub enum CachePolicy {
    /// Fill caches on miss.
    Fill,
    /// Read without filling.
    NotFill,
    /// Bypass caches entirely.
    Disable,
}

/// A zero-padded decimal rendering, `k` digits wide.
pub open spec fn spec_dec(x: u64, k: nat) -> Seq<u8>
    decreases k,
{
    if k == 0 {
        Seq::<u8>::empty()
    } else {
        spec_dec(x / 10, (k - 1) as nat).push((48 + x % 10) as u8)
    }
}

fn dec_rec(x: u64, k: usize) -> (r: Vec<u8>)
    ensures
        r@ == spec_dec(x, k as nat),
        r@.len() == k,
    decreases k,
{
    if k == 0 {
        Vec::new()
    } else {
        let mut v = dec_rec(x / 10, k - 1);
        v.push(48 + (x % 10) as u8);
        v
    }
}

/// The path of an SSTable's data object.
pub open spec fn spec_data_path(prefix: Seq<u8>, id: u64) -> Seq<u8> {
    prefix + seq![47u8, 100u8, 97u8, 116u8, 97u8, 47u8] + spec_dec(id, 20) + seq![
        46u8,
        100u8,
        97u8,
        116u8,
        97u8,
    ]
}

/// The path of an SSTable's meta object.
pub open spec fn spec_meta_path(prefix: Seq<u8>, id: u64) -> Seq<u8> {
    prefix + seq![47u8, 109u8, 101u8, 116u8, 97u8, 47u8] + spec_dec(id, 20) + seq![
        46u8,
        109u8,
        101u8,
        116u8,
        97u8,
    ]
}

/// A table's meta and data objects live at distinct paths.
pub proof fn lemma_paths_distinct(prefix: Seq<u8>, id: u64)
    ensures
        spec_meta_path(prefix, id) != spec_data_path(prefix, id),
{
    let mp = spec_meta_path(prefix, id);
    let dp = spec_data_path(prefix, id);
    let sep_m = seq![47u8, 109u8, 101u8, 116u8, 97u8, 47u8];
    let sep_d = seq![47u8, 100u8, 97u8, 116u8, 97u8, 47u8];
    assert(mp[prefix.len() as int + 1] == 109) by {
        assert((prefix + sep_m)[prefix.len() as int + 1] == sep_m[1]);
        assert(mp[prefix.len() as int + 1] == (prefix + sep_m)[prefix.len() as int + 1]);
    }
    assert(dp[prefix.len() as int + 1] == 100) by {
        assert((prefix + sep_d)[prefix.len() as int + 1] == sep_d[1]);
        assert(dp[prefix.len() as int + 1] == (prefix + sep_d)[prefix.len() as int + 1]);
    }
    if mp == dp {
        assert(mp[prefix.len() as int + 1] == dp[prefix.len() as int + 1]);
    }
}

/// Options for an SSTable store.
pub struct SstableStoreOptions<S: ObjectStore> {
    /// Path prefix for all objects.
    pub path: Vec<u8>,
    /// The backing object store.
    pub object_store: S,
    /// Budget for meta caching in a concurrent deployment.
    pub meta_cache_capacity: usize,
}

/// Owns an object store handle and resolves SSTable ids to object paths.
pub struct SstableStore<S: ObjectStore> {
    path: Vec<u8>,
    object_store: S,
}

impl<S: ObjectStore> SstableStore<S> {
    pub closed spec fn spec_prefix(&self) -> Seq<u8> {
        self.path@
    }

    /// The stored objects by path.
    pub closed spec fn spec_objects(&self) -> Map<Seq<u8>, Seq<u8>> {
        self.object_store.view_map()
    }

    pub closed spec fn inv(&self) -> bool {
        self.object_store.inv()
    }

    pub fn new(options: SstableStoreOptions<S>) -> (r: Self)
        requires
            options.object_store.inv(),
        ensures
            r.inv(),
            r.spec_prefix() == options.path@,
            r.spec_objects() == options.object_store.view_map(),
    {
        SstableStore { path: options.path, object_store: options.object_store }
    }

    /// The path of the data object of SSTable `id`.
    pub fn data_path(&self, id: u64) -> (r: Vec<u8>)
        ensures
            r@ == spec_data_path(self.spec_prefix(), id),
    {
        let mut r = crate::bytes_util::bytes_to_vec(self.path.as_slice());
        let sep: [u8; 6] = [47, 100, 97, 116, 97, 47];
        r.extend_from_slice(sep.as_slice());
        let digits = dec_rec(id, 20);
        r.extend_from_slice(digits.as_slice());
        let ext: [u8; 5] = [46, 100, 97, 116, 97];
        r.extend_from_slice(ext.as_slice());
        proof {
            assert(r@ =~= spec_data_path(self.spec_prefix(), id));
        }
        r
    }

    /// The path of the meta object of SSTable `id`.
    pub fn meta_path(&self, id: u64) -> (r: Vec<u8>)
        ensures
            r@ == spec_meta_path(self.spec_prefix(), id),
    {
        let mut r = crate::bytes_util::bytes_to_vec(self.path.as_slice());
        let sep: [u8; 6] = [47, 109, 101, 116, 97, 47];
        r.extend_from_slice(sep.as_slice());
        let digits = dec_rec(id, 20);
        r.extend_from_slice(digits.as_slice());
        let ext: [u8; 5] = [46, 109, 101, 116, 97];
        r.extend_from_slice(ext.as_slice());
        proof {
            assert(r@ =~= spec_meta_path(self.spec_prefix(), id));
        }
        r
    }

    /// Store an SSTable: write the data object first and the meta object
    /// last, so a partial failure never leaves a meta object whose data is
    /// missing.
    pub fn put(&mut self, sstable: &Sstable, data: Vec<u8>, _policy: CachePolicy) -> (r: Result<()>)
        requires
            old(self).inv(),
            sstable_meta_v_wf(sstable.meta@),
        ensures
            final(self).inv(),
            final(self).spec_prefix() == old(self).spec_prefix(),
            r is Ok ==> final(self).spec_objects() == old(self).spec_objects().insert(
                spec_data_path(old(self).spec_prefix(), sstable.id),
                data@,
            ).insert(
                spec_meta_path(old(self).spec_prefix(), sstable.id),
                spec_meta_encoding(sstable.meta@.block_metas, sstable.meta@.bloom_filter),
            ),
            // A failure leaves either nothing or only the data object: the
            // meta object is never stored without its data.
            r is Err ==> final(self).spec_objects() == old(self).spec_objects() || final(
                self
            ).spec_objects() == old(self).spec_objects().insert(
                spec_data_path(old(self).spec_prefix(), sstable.id),
                data@,
            ),
    {
        let dpath = self.data_path(sstable.id);
        match self.object_store.put(dpath.as_slice(), data) {
            Ok(_) => {},
            Err(e) => {
                return Err(e);
            },
        }
        let meta_bytes = sstable.meta.encode();
        let mpath = self.meta_path(sstable.id);
        match self.object_store.put(mpath.as_slice(), meta_bytes) {
            Ok(_) => {},
            Err(e) => {
                return Err(e);
            },
        }
        Ok(())
    }

    /// Fetch and decode the meta object of SSTable `id`.
    pub fn meta(&self, id: u64) -> (r: Result<SstableMeta>)
        requires
            self.inv(),
        ensures
            !self.spec_objects().contains_key(spec_meta_path(self.spec_prefix(), id)) ==> (r
                matches Err(e) && e matches Error::ObjectNotFound(_)),
            self.spec_objects().contains_key(spec_meta_path(self.spec_prefix(), id)) ==> {
                let bytes = self.spec_objects()[spec_meta_path(self.spec_prefix(), id)];
                match spec_parse_meta(bytes) {
                    Some(mb) => r matches Ok(m) && m@.block_metas == mb.0 && m@.bloom_filter
                        == mb.1,
                    None => r is Err,
                }
            },
    {
        let mpath = self.meta_path(id);
        let bytes = match self.object_store.get(mpath.as_slice()) {
            Ok(b) => b,
            Err(e) => {
                return Err(e);
            },
        };
        SstableMeta::decode(bytes.as_slice())
    }

    /// Fetch and decode block `index` of an SSTable: a ranged read over the
    /// block's data range, then a block decode.
    pub fn block(&self, sstable: &Sstable, index: usize, _policy: CachePolicy) -> (r: Result<
        Block,
    >)
        requires
            self.inv(),
            index < sstable.meta@.block_metas.len(),
        ensures
            ({
                let m = sstable.meta@.block_metas[index as int];
                let dp = spec_data_path(self.spec_prefix(), sstable.id);
                forall|es: Seq<(Seq<u8>, Seq<u8>)>|
                    self.spec_objects().contains_key(dp) && 0 <= m.offset && m.offset + m.len
                        <= usize::MAX && m.offset + m.len <= self.spec_objects()[dp].len()
                        && #[trigger] spec_block_encodes(
                        self.spec_objects()[dp].subrange(m.offset, m.offset + m.len),
                        es,
                    ) ==> (r matches Ok(b) && b.spec_entries() == es)
            }),
    {
        proof {
            assert(sstable.meta.block_metas@[index as int]@ == sstable.meta@.block_metas[
                index as int
            ]);
        }
        let meta = &sstable.meta.block_metas[index];
        if meta.offset > usize::MAX - meta.len {
            return Err(Error::ObjectRange);
        }
        let dpath = self.data_path(sstable.id);
        let bytes = match self.object_store.get_range(
            dpath.as_slice(),
            meta.offset,
            meta.offset + meta.len,
        ) {
            Ok(b) => b,
            Err(e) => {
                return Err(e);
            },
        };
        Block::decode(bytes.as_slice())
    }

    /// Remove an SSTable: the meta object first, invalidating the read
    /// path, then the data object. Succeeds exactly when both objects are
    /// present; a failed second step leaves the meta gone and the data
    /// still present.
    pub fn remove(&mut self, id: u64) -> (r: Result<()>)
        requires
            old(self).inv(),
        ensures
            final(self).inv(),
            final(self).spec_prefix() == old(self).spec_prefix(),
            ({
                let mp = spec_meta_path(old(self).spec_prefix(), id);
                let dp = spec_data_path(old(self).spec_prefix(), id);
                &&& (!old(self).spec_objects().contains_key(mp) ==> (r matches Err(e) && e matches
                    Error::ObjectNotFound(_)) && final(self).spec_objects() == old(
                    self
                ).spec_objects())
                &&& (old(self).spec_objects().contains_key(mp) && !old(
                    self
                ).spec_objects().contains_key(dp) ==> (r matches Err(e) && e matches
                    Error::ObjectNotFound(_)) && final(self).spec_objects() == old(
                    self
                ).spec_objects().remove(mp))
                &&& (old(self).spec_objects().contains_key(mp) && old(
                    self
                ).spec_objects().contains_key(dp) ==> r is Ok && final(self).spec_objects() == old(
                    self
                ).spec_objects().remove(mp).remove(dp))
            }),
    {
        proof {
            lemma_paths_distinct(self.spec_prefix(), id);
        }
        let mpath = self.meta_path(id);
        let ghost pre = self.spec_objects();
        match self.object_store.remove(mpath.as_slice()) {
            Ok(_) => {},
            Err(e) => {
                proof {
                    assert(self.spec_objects() =~= pre);
                }
                return Err(e);
            },
        }
        let dpath = self.data_path(id);
        match self.object_store.remove(dpath.as_slice()) {
            Ok(_) => {},
            Err(e) => {
                proof {
                    assert(!pre.remove(mpath@).contains_key(dpath@));
                    assert(!pre.contains_key(dpath@));
                    assert(self.spec_objects() =~= pre.remove(mpath@));
                }
                return Err(e);
            },
        }
        Ok(())
    }
}

} // verus!
