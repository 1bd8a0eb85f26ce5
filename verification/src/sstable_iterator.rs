//! Cursor over an SSTable, fetching blocks from the store on demand.
//!
//! `Random(key)` binary-searches the block metas using each block's last
//! key as the predicate — a block whose last key is below the target cannot
//! hold it — then seeks inside the selected block; a miss at the end of a
//! block rolls into the next block's first entry. Exhausting a block
//! forward or backward moves to the adjacent block's first or last entry.
//!
//! The positional contracts are conditioned on the store's image of the
//! table: whenever the store holds a data object that decodes, block by
//! block, to sorted contents matching the metas, the cursor lands exactly
//! where the decoded table says — `Random` on the least entry at or above
//! the target, `next` and `prev` on the flat successor and predecessor
//! across block boundaries.

use crate::block::{spec_block_encodes, BlockIterator};
use crate::bytes_util::{
    compare_bytes, lemma_lex_le_lt_trans, lemma_lex_lt_trans, lemma_lex_trichotomy, lex_le, lex_lt,
};
use crate::error::Result;
use crate::iterator::{entries_sorted, is_lower_bound, Seek, StorageIterator};
use crate::object_store::ObjectStore;
use crate::sstable::{lemma_block_entry_le_last, spec_sst_blocks_wf, BlockMetaV, Sstable};
use crate::sstable_store::{spec_data_path, CachePolicy, SstableStore};
use vstd::prelude::*;

verus! {

/// The store holds the table's data object, and the object decodes, block
/// by block, into `blocks` under the table's metas.
pub open spec fn table_image<S: ObjectStore>(
    sst: Sstable,
    store: SstableStore<S>,
    blocks: Seq<Seq<(Seq<u8>, Seq<u8>)>>,
) -> bool {
    let dp = spec_data_path(store.spec_prefix(), sst.id);
    &&& store.spec_objects().contains_key(dp)
    &&& store.spec_objects()[dp].len() <= usize::MAX
    &&& spec_sst_blocks_wf(store.spec_objects()[dp], sst.meta@.block_metas, blocks)
}

/// The recorded block last keys strictly ascend.
pub open spec fn last_keys_sorted(metas: Seq<BlockMetaV>) -> bool {
    forall|i: int, j: int|
        0 <= i < j < metas.len() ==> lex_lt(
            (#[trigger] metas[i]).last_key,
            (#[trigger] metas[j]).last_key,
        )
}

/// Under a decoding image the block last keys strictly ascend, since the
/// blocks' contents do across block boundaries.
proof fn lemma_image_last_keys_sorted(
    data: Seq<u8>,
    metas: Seq<BlockMetaV>,
    blocks: Seq<Seq<(Seq<u8>, Seq<u8>)>>,
)
    requires
        spec_sst_blocks_wf(data, metas, blocks),
    ensures
        last_keys_sorted(metas),
{
    assert forall|i: int, j: int| 0 <= i < j < metas.len() implies lex_lt(
        (#[trigger] metas[i]).last_key,
        (#[trigger] metas[j]).last_key,
    ) by {
        assert(metas[i].last_key == blocks[i].last().0);
        assert(metas[j].last_key == blocks[j].last().0);
        assert(lex_lt(blocks[i][blocks[i].len() - 1].0, blocks[j][blocks[j].len() - 1].0));
    }
}

/// Cursor over an SSTable; blocks are fetched through the store as the
/// cursor crosses block boundaries.
pub struct SstableIterator {
    /// SSTable to iterate on.
    sstable: Sstable,
    /// Current block index; the block count is the invalid state.
    offset: usize,
    /// Cursor inside the current block.
    iterator: Option<BlockIterator>,
    /// Cache policy handed to block fetches.
    cache_policy: CachePolicy,
}

impl SstableIterator {
    pub closed spec fn spec_sstable(&self) -> Sstable {
        self.sstable
    }

    pub closed spec fn spec_offset(&self) -> int {
        self.offset as int
    }

    /// The decoded entries of the block under the cursor.
    pub closed spec fn spec_block(&self) -> Seq<(Seq<u8>, Seq<u8>)>
        recommends
            self.spec_valid(),
    {
        self.iterator->Some_0.spec_entries()
    }

    /// The cursor inside the block under the cursor.
    pub closed spec fn spec_block_pos(&self) -> int
        recommends
            self.spec_valid(),
    {
        self.iterator->Some_0.spec_pos()
    }

    pub open spec fn spec_valid(&self) -> bool {
        self.spec_offset() < self.spec_sstable().meta@.block_metas.len()
    }

    /// The cursor stands on entry `p` of block `i` of the decoded table.
    pub open spec fn at_coord(&self, blocks: Seq<Seq<(Seq<u8>, Seq<u8>)>>, i: int, p: int) -> bool {
        &&& self.spec_valid()
        &&& self.spec_offset() == i
        &&& 0 <= i < blocks.len()
        &&& self.spec_block() == blocks[i]
        &&& 0 <= p < blocks[i].len()
        &&& self.spec_block_pos() == p
    }

    pub closed spec fn inv(&self) -> bool {
        &&& self.offset <= self.sstable.meta@.block_metas.len()
        &&& self.spec_valid() ==> {
            &&& self.iterator is Some
            &&& self.iterator->Some_0.inv()
            &&& 0 <= self.iterator->Some_0.spec_pos() < self.iterator->Some_0.spec_entries().len()
        }
    }

    /// A new cursor, initially invalid; position it with `seek`.
    pub fn new(sstable: Sstable, cache_policy: CachePolicy) -> (r: Self)
        ensures
            r.inv(),
            !r.spec_valid(),
            r.spec_sstable() == sstable,
    {
        let offset = sstable.meta.block_metas.len();
        SstableIterator { sstable, offset, iterator: None, cache_policy }
    }

    pub fn is_valid(&self) -> (r: bool)
        requires
            self.inv(),
        ensures
            r == self.spec_valid(),
    {
        self.offset < self.sstable.meta.block_metas.len()
    }

    /// The full key under the cursor.
    pub fn key(&self) -> (r: &[u8])
        requires
            self.inv(),
            self.spec_valid(),
        ensures
            r@ == self.spec_block()[self.spec_block_pos()].0,
    {
        match &self.iterator {
            Some(it) => it.key(),
            None => vstd::pervasive::unreached(),
        }
    }

    /// The value under the cursor.
    pub fn value(&self) -> (r: &[u8])
        requires
            self.inv(),
            self.spec_valid(),
        ensures
            r@ == self.spec_block()[self.spec_block_pos()].1,
    {
        match &self.iterator {
            Some(it) => it.value(),
            None => vstd::pervasive::unreached(),
        }
    }

    /// Invalidate after reaching an invalid state.
    fn invalid(&mut self)
        ensures
            final(self).inv(),
            !final(self).spec_valid(),
            final(self).spec_sstable() == old(self).spec_sstable(),
    {
        self.offset = self.sstable.meta.block_metas.len();
        self.iterator = None;
    }

    /// Fetch block `index` and position its cursor at the first or last
    /// entry. Whenever the store's image of the table decodes, the fetch
    /// succeeds and the cursor stands on the asked-for entry.
    fn load_block<S: ObjectStore>(
        &mut self,
        store: &SstableStore<S>,
        index: usize,
        to_last: bool,
    ) -> (r: Result<()>)
        requires
            store.inv(),
            index < old(self).spec_sstable().meta@.block_metas.len(),
        ensures
            final(self).inv(),
            final(self).spec_sstable() == old(self).spec_sstable(),
            forall|blocks: Seq<Seq<(Seq<u8>, Seq<u8>)>>|
                #[trigger] table_image(old(self).spec_sstable(), *store, blocks) ==> r is Ok
                    && final(self).at_coord(
                    blocks,
                    index as int,
                    if to_last {
                        blocks[index as int].len() - 1
                    } else {
                        0int
                    },
                ),
    {
        let ghost sst = self.sstable;
        let ghost dp = spec_data_path(store.spec_prefix(), sst.id);
        let ghost m = sst.meta@.block_metas[index as int];
        let res = store.block(&self.sstable, index, self.cache_policy);
        let block = match res {
            Ok(b) => b,
            Err(e) => {
                proof {
                    assert forall|blocks: Seq<Seq<(Seq<u8>, Seq<u8>)>>|
                        #[trigger] table_image(sst, *store, blocks) implies false by {
                        let data = store.spec_objects()[dp];
                        assert(m.offset + m.len <= data.len());
                        assert(spec_block_encodes(
                            data.subrange(m.offset, m.offset + m.len),
                            blocks[index as int],
                        ));
                    }
                }
                self.invalid();
                return Err(e);
            },
        };
        proof {
            assert forall|blocks: Seq<Seq<(Seq<u8>, Seq<u8>)>>|
                #[trigger] table_image(sst, *store, blocks) implies block.spec_entries() == blocks[
                index as int
            ] && blocks[index as int].len() > 0 && blocks.len()
                == sst.meta@.block_metas.len() by {
                let data = store.spec_objects()[dp];
                assert(m.offset + m.len <= data.len());
                assert(spec_block_encodes(
                    data.subrange(m.offset, m.offset + m.len),
                    blocks[index as int],
                ));
            }
        }
        let ghost bentries = block.spec_entries();
        let mut it = BlockIterator::new(block);
        let res = if to_last {
            it.seek(Seek::Last)
        } else {
            it.seek(Seek::First)
        };
        match res {
            Ok(_) => {},
            Err(e) => {
                self.invalid();
                return Err(e);
            },
        }
        if !it.is_valid() {
            proof {
                assert forall|blocks: Seq<Seq<(Seq<u8>, Seq<u8>)>>|
                    #[trigger] table_image(sst, *store, blocks) implies false by {
                    assert(bentries == blocks[index as int]);
                    assert(bentries.len() > 0);
                }
            }
            self.invalid();
            return Ok(());
        }
        self.offset = index;
        self.iterator = Some(it);
        Ok(())
    }

    /// Move to the next entry, rolling into the next block's first entry at
    /// a block boundary. Whenever the store's image of the table decodes
    /// and the cursor stood on an entry of it, the move succeeds and lands
    /// on the flat successor — the next entry of the block, the first entry
    /// of the next block, or the invalid state past the last entry.
    pub fn next<S: ObjectStore>(&mut self, store: &SstableStore<S>) -> (r: Result<()>)
        requires
            store.inv(),
            old(self).inv(),
            old(self).spec_valid(),
        ensures
            final(self).inv(),
            final(self).spec_sstable() == old(self).spec_sstable(),
            forall|blocks: Seq<Seq<(Seq<u8>, Seq<u8>)>>|
                #[trigger] table_image(old(self).spec_sstable(), *store, blocks) && old(
                    self,
                ).spec_offset() < blocks.len() && old(self).spec_block() == blocks[old(
                    self,
                ).spec_offset()] ==> r is Ok && (if old(self).spec_block_pos() + 1 < blocks[old(
                    self,
                ).spec_offset()].len() {
                    final(self).at_coord(
                        blocks,
                        old(self).spec_offset(),
                        old(self).spec_block_pos() + 1,
                    )
                } else if old(self).spec_offset() + 1 < blocks.len() {
                    final(self).at_coord(blocks, old(self).spec_offset() + 1, 0)
                } else {
                    !final(self).spec_valid()
                }),
    {
        let ghost sst = self.sstable;
        let ghost oldoff = self.spec_offset();
        let ghost oldblock = self.spec_block();
        let ghost oldpos = self.spec_block_pos();
        let mut it = match self.iterator.take() {
            Some(it) => it,
            None => vstd::pervasive::unreached(),
        };
        match it.next() {
            Ok(_) => {},
            Err(e) => {
                self.invalid();
                return Err(e);
            },
        }
        if it.is_valid() {
            self.iterator = Some(it);
            return Ok(());
        }
        let count = self.sstable.meta.block_metas.len();
        if self.offset + 1 < count {
            let index = self.offset + 1;
            self.load_block(store, index, false)
        } else {
            proof {
                assert forall|blocks: Seq<Seq<(Seq<u8>, Seq<u8>)>>|
                    #[trigger] table_image(sst, *store, blocks) implies blocks.len()
                    == sst.meta@.block_metas.len() by {}
            }
            self.invalid();
            Ok(())
        }
    }

    /// Move to the previous entry, rolling into the previous block's last
    /// entry at a block boundary. Whenever the store's image of the table
    /// decodes and the cursor stood on an entry of it, the move succeeds
    /// and lands on the flat predecessor — the previous entry of the block,
    /// the last entry of the previous block, or the invalid state before
    /// the first entry.
    pub fn prev<S: ObjectStore>(&mut self, store: &SstableStore<S>) -> (r: Result<()>)
        requires
            store.inv(),
            old(self).inv(),
            old(self).spec_valid(),
        ensures
            final(self).inv(),
            final(self).spec_sstable() == old(self).spec_sstable(),
            forall|blocks: Seq<Seq<(Seq<u8>, Seq<u8>)>>|
                #[trigger] table_image(old(self).spec_sstable(), *store, blocks) && old(
                    self,
                ).spec_offset() < blocks.len() && old(self).spec_block() == blocks[old(
                    self,
                ).spec_offset()] ==> r is Ok && (if old(self).spec_block_pos() >= 1 {
                    final(self).at_coord(
                        blocks,
                        old(self).spec_offset(),
                        old(self).spec_block_pos() - 1,
                    )
                } else if old(self).spec_offset() >= 1 {
                    final(self).at_coord(
                        blocks,
                        old(self).spec_offset() - 1,
                        blocks[old(self).spec_offset() - 1].len() - 1,
                    )
                } else {
                    !final(self).spec_valid()
                }),
    {
        let ghost sst = self.sstable;
        let mut it = match self.iterator.take() {
            Some(it) => it,
            None => vstd::pervasive::unreached(),
        };
        match it.prev() {
            Ok(_) => {},
            Err(e) => {
                self.invalid();
                return Err(e);
            },
        }
        if it.is_valid() {
            self.iterator = Some(it);
            return Ok(());
        }
        if self.offset > 0 {
            let index = self.offset - 1;
            self.load_block(store, index, true)
        } else {
            self.invalid();
            Ok(())
        }
    }

    /// Position the cursor: `First` and `Last` on the table's first and
    /// last entry, `Random(key)` on the least entry whose full key is at
    /// least `key` (invalid when every key is below it), whenever the
    /// store's image of the table decodes.
    pub fn seek<S: ObjectStore>(&mut self, store: &SstableStore<S>, position: Seek<'_>) -> (r:
        Result<()>)
        requires
            store.inv(),
            old(self).inv(),
            old(self).spec_sstable().meta@.block_metas.len() > 0,
        ensures
            final(self).inv(),
            final(self).spec_sstable() == old(self).spec_sstable(),
            forall|blocks: Seq<Seq<(Seq<u8>, Seq<u8>)>>|
                #[trigger] table_image(old(self).spec_sstable(), *store, blocks) ==> r is Ok
                    && (match position {
                    Seek::First => final(self).at_coord(blocks, 0, 0),
                    Seek::Last => final(self).at_coord(
                        blocks,
                        blocks.len() - 1,
                        blocks[blocks.len() - 1].len() - 1,
                    ),
                    Seek::Random(key) => seek_lands_lower_bound(*final(self), blocks, key@),
                }),
    {
        match position {
            Seek::First => {
                let r = self.load_block(store, 0, false);
                r
            },
            Seek::Last => {
                let ghost sst = self.sstable;
                let last = self.sstable.meta.block_metas.len() - 1;
                let r = self.load_block(store, last, true);
                proof {
                    assert forall|blocks: Seq<Seq<(Seq<u8>, Seq<u8>)>>|
                        #[trigger] table_image(sst, *store, blocks) implies blocks.len()
                        == sst.meta@.block_metas.len() by {}
                }
                r
            },
            Seek::Random(key) => self.binary_seek(store, key),
        }
    }

    /// Binary search across the block metas using each block's last key as
    /// the predicate, then seek inside the selected block; on an
    /// end-of-block miss, roll into the next block's first entry.
    fn binary_seek<S: ObjectStore>(&mut self, store: &SstableStore<S>, key: &[u8]) -> (r: Result<
        (),
    >)
        requires
            store.inv(),
            old(self).inv(),
            old(self).spec_sstable().meta@.block_metas.len() > 0,
        ensures
            final(self).inv(),
            final(self).spec_sstable() == old(self).spec_sstable(),
            forall|blocks: Seq<Seq<(Seq<u8>, Seq<u8>)>>|
                #[trigger] table_image(old(self).spec_sstable(), *store, blocks) ==> r is Ok
                    && seek_lands_lower_bound(*final(self), blocks, key@),
    {
        let ghost sst = self.sstable;
        let ghost metas = sst.meta@.block_metas;
        let ghost dp = spec_data_path(store.spec_prefix(), sst.id);
        let count = self.sstable.meta.block_metas.len();
        // First block whose last key is at least the target; every earlier
        // block cannot hold it.
        let mut lo: usize = 0;
        let mut hi: usize = count;
        while lo < hi
            invariant
                lo <= hi <= count,
                count == metas.len(),
                sst == self.sstable,
                metas == sst.meta@.block_metas,
                self.inv(),
                last_keys_sorted(metas) ==> forall|i: int|
                    0 <= i < lo ==> lex_lt((#[trigger] metas[i]).last_key, key@),
                last_keys_sorted(metas) ==> forall|i: int|
                    hi <= i < count ==> lex_le(key@, (#[trigger] metas[i]).last_key),
            decreases hi - lo,
        {
            let mid = lo + (hi - lo) / 2;
            proof {
                assert(self.sstable.meta.block_metas@[mid as int]@ == metas[mid as int]);
            }
            match compare_bytes(self.sstable.meta.block_metas[mid].last_key.as_slice(), key) {
                core::cmp::Ordering::Less => {
                    proof {
                        if last_keys_sorted(metas) {
                            assert forall|i: int| 0 <= i < mid + 1 implies lex_lt(
                                (#[trigger] metas[i]).last_key,
                                key@,
                            ) by {
                                if i < mid {
                                    lemma_lex_lt_trans(
                                        metas[i].last_key,
                                        metas[mid as int].last_key,
                                        key@,
                                    );
                                }
                            }
                        }
                    }
                    lo = mid + 1;
                },
                _ => {
                    proof {
                        if last_keys_sorted(metas) {
                            assert forall|i: int| mid <= i < count implies lex_le(
                                key@,
                                (#[trigger] metas[i]).last_key,
                            ) by {
                                lemma_lex_trichotomy(metas[mid as int].last_key, key@);
                                if i > mid {
                                    lemma_lex_le_lt_trans(
                                        key@,
                                        metas[mid as int].last_key,
                                        metas[i].last_key,
                                    );
                                }
                            }
                        }
                    }
                    hi = mid;
                },
            }
        }
        if lo >= count {
            proof {
                assert forall|blocks: Seq<Seq<(Seq<u8>, Seq<u8>)>>|
                    #[trigger] table_image(sst, *store, blocks) implies all_keys_below(
                    blocks,
                    key@,
                ) by {
                    let data = store.spec_objects()[dp];
                    lemma_image_last_keys_sorted(data, metas, blocks);
                    assert forall|j: int, q: int|
                        0 <= j < blocks.len() && 0 <= q < blocks[j].len() implies lex_lt(
                        (#[trigger] blocks[j][q]).0,
                        key@,
                    ) by {
                        lemma_block_entry_le_last(data, metas, blocks, j, q);
                        lemma_lex_le_lt_trans(blocks[j][q].0, metas[j].last_key, key@);
                    }
                }
            }
            self.invalid();
            return Ok(());
        }
        match self.load_block(store, lo, false) {
            Ok(_) => {},
            Err(e) => {
                return Err(e);
            },
        }
        if !self.is_valid() {
            return Ok(());
        }
        let ghost loaded_block = self.spec_block();
        let mut it = match self.iterator.take() {
            Some(it) => it,
            None => vstd::pervasive::unreached(),
        };
        match it.seek(Seek::Random(key)) {
            Ok(_) => {},
            Err(e) => {
                self.invalid();
                return Err(e);
            },
        }
        if it.is_valid() {
            self.offset = lo;
            self.iterator = Some(it);
            proof {
                assert forall|blocks: Seq<Seq<(Seq<u8>, Seq<u8>)>>|
                    #[trigger] table_image(sst, *store, blocks) implies seek_lands_lower_bound(
                    *self,
                    blocks,
                    key@,
                ) by {
                    let data = store.spec_objects()[dp];
                    lemma_image_last_keys_sorted(data, metas, blocks);
                    let p = self.spec_block_pos();
                    assert(loaded_block == blocks[lo as int]);
                    assert(metas[lo as int].last_key == blocks[lo as int].last().0);
                    assert(entries_sorted(blocks[lo as int]));
                    assert(is_lower_bound(blocks[lo as int], key@, p));
                    assert forall|j: int, q: int|
                        0 <= j < blocks.len() && 0 <= q < blocks[j].len() && (j < lo || (j
                            == lo && q < p)) implies lex_lt((#[trigger] blocks[j][q]).0, key@) by {
                        if j < lo {
                            lemma_block_entry_le_last(data, metas, blocks, j, q);
                            lemma_lex_le_lt_trans(blocks[j][q].0, metas[j].last_key, key@);
                        }
                    }
                }
            }
            return Ok(());
        }
        // Miss at the end of the block: only possible when the store's
        // image does not decode, since the selected block's last key is at
        // least the target.
        proof {
            assert forall|blocks: Seq<Seq<(Seq<u8>, Seq<u8>)>>|
                #[trigger] table_image(sst, *store, blocks) implies false by {
                let data = store.spec_objects()[dp];
                lemma_image_last_keys_sorted(data, metas, blocks);
                let bl = blocks[lo as int];
                assert(loaded_block == bl);
                assert(metas[lo as int].last_key == blocks[lo as int].last().0);
                assert(entries_sorted(bl));
                assert(is_lower_bound(bl, key@, bl.len() as int));
                assert(lex_lt(bl[bl.len() - 1].0, key@));
                assert(metas[lo as int].last_key == bl.last().0);
                assert(lex_le(key@, metas[lo as int].last_key));
                lemma_lex_le_lt_trans(key@, metas[lo as int].last_key, key@);
                lemma_lex_trichotomy(key@, key@);
            }
        }
        if lo + 1 < count {
            self.load_block(store, lo + 1, false)
        } else {
            self.invalid();
            Ok(())
        }
    }
}

/// Every key of the decoded table is strictly below `key`.
pub open spec fn all_keys_below(blocks: Seq<Seq<(Seq<u8>, Seq<u8>)>>, key: Seq<u8>) -> bool {
    forall|j: int, q: int|
        0 <= j < blocks.len() && 0 <= q < blocks[j].len() ==> lex_lt(
            (#[trigger] blocks[j][q]).0,
            key,
        )
}

/// After a `Random(key)` seek the cursor is the table-wide lower bound:
/// invalid exactly when every key is below `key`; otherwise it stands on an
/// entry at least `key`, with every entry at an earlier block coordinate
/// strictly below `key`.
pub open spec fn seek_lands_lower_bound(
    it: SstableIterator,
    blocks: Seq<Seq<(Seq<u8>, Seq<u8>)>>,
    key: Seq<u8>,
) -> bool {
    &&& (!it.spec_valid() ==> all_keys_below(blocks, key))
    &&& (it.spec_valid() ==> {
        let i = it.spec_offset();
        let p = it.spec_block_pos();
        &&& it.at_coord(blocks, i, p)
        &&& lex_le(key, blocks[i][p].0)
        &&& forall|j: int, q: int|
            0 <= j < blocks.len() && 0 <= q < blocks[j].len() && (j < i || (j == i && q < p))
                ==> lex_lt((#[trigger] blocks[j][q]).0, key)
    })
}

} // verus!
