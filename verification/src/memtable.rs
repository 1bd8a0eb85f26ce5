//! Memtable: an ordered run of full-key/value-slot pairs, and its
//! MVCC-aware iterator.
//!
//! A value slot is one tag byte (0 = tombstone, 1 = present) followed by the
//! value bytes. The iterator fixes a snapshot timestamp and surfaces, for
//! each user key, its newest visible version, skipping user keys whose
//! newest visible version is a tombstone.

use crate::bytes_util::{bytes_eq, bytes_to_vec, compare_bytes, is_strict_prefix, lex_le, lex_lt};
use crate::error::Result;
use crate::iterator::{entries_sorted, is_lower_bound, kv_views};
use crate::keys::{full_key, spec_full_key, spec_timestamp, spec_user_key, timestamp, user_key};
use vstd::prelude::*;
use vstd::slice::slice_subrange;

verus! {

/// Structural shape of memtable entries: full keys carry a timestamp
/// suffix, slots carry a tag byte.
pub open spec fn entries_shaped(es: Seq<(Seq<u8>, Seq<u8>)>) -> bool {
    forall|i: int|
        0 <= i < es.len() ==> (#[trigger] es[i]).0.len() >= 8 && es[i].1.len() >= 1
}

/// The snapshot reads correctly: keys strictly ascending, user keys
/// non-decreasing, and timestamps strictly descending within a user key.
///
/// Byte order alone does not force the last two: a user key that is a
/// proper prefix of its successor, or timestamps whose little-endian
/// inverted bytes disagree with numeric order, break them.
pub open spec fn snapshot_orderly(es: Seq<(Seq<u8>, Seq<u8>)>) -> bool {
    &&& entries_sorted(es)
    &&& entries_shaped(es)
    &&& forall|i: int| 0 <= i < es.len() ==> spec_user_key(#[trigger] es[i].0).len() > 0
    &&& forall|i: int| 0 <= i < es.len() ==> ((#[trigger] es[i]).1[0] == 0 || es[i].1[0] == 1)
    &&& forall|i: int, j: int|
        0 <= i < j < es.len() ==> lex_le(
            spec_user_key(#[trigger] es[i].0),
            spec_user_key(#[trigger] es[j].0),
        )
    &&& forall|i: int, j: int|
        0 <= i < j < es.len() && spec_user_key(#[trigger] es[i].0) == spec_user_key(
            #[trigger] es[j].0,
        ) ==> spec_timestamp(es[i].0) > spec_timestamp(es[j].0)
}

/// Row `i` is visible at snapshot `ts`.
pub open spec fn row_visible(es: Seq<(Seq<u8>, Seq<u8>)>, ts: u64, i: int) -> bool {
    spec_timestamp(es[i].0) <= ts
}

/// Row `i` is the first visible version of its user key.
pub open spec fn is_first_visible(es: Seq<(Seq<u8>, Seq<u8>)>, ts: u64, i: int) -> bool {
    &&& 0 <= i < es.len()
    &&& row_visible(es, ts, i)
    &&& forall|j: int|
        0 <= j < i && spec_user_key(#[trigger] es[j].0) == spec_user_key(es[i].0)
            ==> !row_visible(es, ts, j)
}

/// Row `i` is surfaced by the iterator: the newest visible version of its
/// user key, and not a tombstone.
pub open spec fn is_surface(es: Seq<(Seq<u8>, Seq<u8>)>, ts: u64, i: int) -> bool {
    &&& is_first_visible(es, ts, i)
    &&& es[i].1[0] == 1
}

/// No user key of the snapshot is prefix-entangled with `target`: none is
/// a strict prefix of it, and it is a strict prefix of none. The full-key
/// format orders targeted seeks cleanly only on such snapshots.
pub open spec fn target_prefix_free(es: Seq<(Seq<u8>, Seq<u8>)>, target: Seq<u8>) -> bool {
    forall|i: int|
        0 <= i < es.len() ==> !is_strict_prefix(spec_user_key((#[trigger] es[i]).0), target)
            && !is_strict_prefix(target, spec_user_key(es[i].0))
}

/// Position `p` splits the snapshot by user key at `target`: every earlier
/// row's user key is strictly below it, every row from `p` on at least it.
pub open spec fn uk_split_at(es: Seq<(Seq<u8>, Seq<u8>)>, target: Seq<u8>, p: int) -> bool {
    &&& forall|j: int| 0 <= j < p ==> lex_lt(spec_user_key((#[trigger] es[j]).0), target)
    &&& forall|j: int| p <= j < es.len() ==> lex_le(target, spec_user_key((#[trigger] es[j]).0))
}

/// On a prefix-free snapshot a row's full key sits below the smallest full
/// key of `target` exactly as its user key sits below `target`.
proof fn lemma_row_uk_vs_target_fwd(es: Seq<(Seq<u8>, Seq<u8>)>, target: Seq<u8>, i: int)
    requires
        entries_shaped(es),
        target_prefix_free(es, target),
        0 <= i < es.len(),
    ensures
        lex_lt(es[i].0, spec_full_key(target, u64::MAX)) ==> lex_lt(
            spec_user_key(es[i].0),
            target,
        ),
        lex_le(spec_full_key(target, u64::MAX), es[i].0) ==> lex_le(
            target,
            spec_user_key(es[i].0),
        ),
    {
    let fk = es[i].0;
    let uk = spec_user_key(fk);
    crate::keys::lemma_full_key_decompose(fk);
    if uk == target {
        crate::keys::lemma_ts_suffix_min(
            target,
            crate::keys::spec_ts_suffix(spec_timestamp(fk)),
        );
        crate::bytes_util::lemma_lex_trichotomy(fk, spec_full_key(target, u64::MAX));
    } else {
        crate::keys::lemma_fk_order_is_uk_order(fk, target, u64::MAX);
        crate::bytes_util::lemma_lex_trichotomy(uk, target);
        crate::bytes_util::lemma_lex_trichotomy(fk, spec_full_key(target, u64::MAX));
        if fk == spec_full_key(target, u64::MAX) {
            assert(uk =~= target);
        }
    }
}

/// On a prefix-free snapshot a row's full key sits at or below the largest
/// full key of `target` exactly as its user key sits at or below `target`.
proof fn lemma_row_uk_vs_target_bwd(es: Seq<(Seq<u8>, Seq<u8>)>, target: Seq<u8>, i: int)
    requires
        entries_shaped(es),
        target_prefix_free(es, target),
        0 <= i < es.len(),
    ensures
        lex_le(es[i].0, spec_full_key(target, 0)) ==> lex_le(spec_user_key(es[i].0), target),
        lex_lt(spec_full_key(target, 0), es[i].0) ==> lex_lt(target, spec_user_key(es[i].0)),
    {
    let fk = es[i].0;
    let uk = spec_user_key(fk);
    crate::keys::lemma_full_key_decompose(fk);
    if uk == target {
        crate::keys::lemma_ts_suffix_max(
            target,
            crate::keys::spec_ts_suffix(spec_timestamp(fk)),
        );
        crate::bytes_util::lemma_lex_trichotomy(fk, spec_full_key(target, 0));
    } else {
        crate::keys::lemma_fk_order_is_uk_order(fk, target, 0);
        crate::bytes_util::lemma_lex_trichotomy(uk, target);
        crate::bytes_util::lemma_lex_trichotomy(fk, spec_full_key(target, 0));
        if fk == spec_full_key(target, 0) {
            assert(uk =~= target);
        }
    }
}

/// MVCC snapshot reads surface, for each user key with a visible version,
/// exactly its newest one: every other visible version of a surfaced row's
/// user key carries a strictly smaller timestamp, and a surfaced row is
/// never a tombstone.
pub proof fn lemma_surface_newest(es: Seq<(Seq<u8>, Seq<u8>)>, ts: u64, i: int, j: int)
    requires
        snapshot_orderly(es),
        is_surface(es, ts, i),
        0 <= j < es.len(),
        j != i,
        spec_user_key(es[j].0) == spec_user_key(es[i].0),
        row_visible(es, ts, j),
    ensures
        spec_timestamp(es[j].0) < spec_timestamp(es[i].0),
        es[i].1[0] == 1,
{
    if j < i {
        assert(!row_visible(es, ts, j));
    }
}

/// An ordered run of full-key/value-slot pairs.
///
/// Reads happen exclusively through the iterator; the iterator takes a
/// snapshot of the contents.
pub struct Memtable {
    entries: Vec<(Vec<u8>, Vec<u8>)>,
    /// Approximate byte budget, enforced by the caller.
    capacity: usize,
}

impl Memtable {
    pub closed spec fn view(&self) -> Seq<(Seq<u8>, Seq<u8>)> {
        kv_views(self.entries@)
    }

    pub closed spec fn wf(&self) -> bool {
        &&& entries_sorted(kv_views(self.entries@))
        &&& entries_shaped(kv_views(self.entries@))
    }

    pub fn new(capacity: usize) -> (r: Self)
        ensures
            r.wf(),
            r.view() == Seq::<(Seq<u8>, Seq<u8>)>::empty(),
    {
        let r = Memtable { entries: Vec::new(), capacity };
        proof {
            assert(r.view() =~= Seq::<(Seq<u8>, Seq<u8>)>::empty());
        }
        r
    }

    /// Position of the first full key at least `key`, by binary search.
    fn lower_bound(entries: &Vec<(Vec<u8>, Vec<u8>)>, key: &[u8]) -> (r: usize)
        requires
            entries_sorted(kv_views(entries@)),
        ensures
            is_lower_bound(kv_views(entries@), key@, r as int),
    {
        let ghost es = kv_views(entries@);
        let mut lo: usize = 0;
        let mut hi: usize = entries.len();
        while lo < hi
            invariant
                lo <= hi <= es.len(),
                es == kv_views(entries@),
                es.len() == entries@.len(),
                entries_sorted(es),
                forall|j: int| 0 <= j < lo ==> lex_lt(#[trigger] es[j].0, key@),
                forall|j: int| hi <= j < es.len() ==> lex_le(key@, #[trigger] es[j].0),
            decreases hi - lo,
        {
            let mid = lo + (hi - lo) / 2;
            match compare_bytes(entries[mid].0.as_slice(), key) {
                core::cmp::Ordering::Less => {
                    proof {
                        assert forall|j: int| 0 <= j < mid + 1 implies lex_lt(
                            #[trigger] es[j].0,
                            key@,
                        ) by {
                            if j < mid {
                                crate::bytes_util::lemma_lex_lt_trans(
                                    es[j].0,
                                    es[mid as int].0,
                                    key@,
                                );
                            }
                        }
                    }
                    lo = mid + 1;
                },
                _ => {
                    proof {
                        assert forall|j: int| mid <= j < es.len() implies lex_le(
                            key@,
                            #[trigger] es[j].0,
                        ) by {
                            if j > mid {
                                if key@ == es[mid as int].0 {
                                } else {
                                    crate::bytes_util::lemma_lex_lt_trans(
                                        key@,
                                        es[mid as int].0,
                                        es[j].0,
                                    );
                                }
                            }
                        }
                    }
                    hi = mid;
                },
            }
        }
        lo
    }

    /// Insert a version of `user_key` at `timestamp`; `None` writes a
    /// tombstone. An existing version at the same full key is replaced.
    pub fn put(&mut self, user_key: &[u8], value: Option<&[u8]>, timestamp: u64)
        requires
            old(self).wf(),
        ensures
            final(self).wf(),
            ({
                let fk = spec_full_key(user_key@, timestamp);
                let slot = match value {
                    Some(v) => seq![1u8] + v@,
                    None => seq![0u8],
                };
                exists|i: int|
                    {
                        &&& #[trigger] is_lower_bound(old(self).view(), fk, i)
                        &&& if i < old(self).view().len() && old(self).view()[i].0 == fk {
                            final(self).view() == old(self).view().update(i, (fk, slot))
                        } else {
                            final(self).view() == old(self).view().insert(i, (fk, slot))
                        }
                    }
            }),
    {
        let fk = full_key(user_key, timestamp);
        let mut slot: Vec<u8> = Vec::new();
        match value {
            Some(v) => {
                slot.push(1);
                slot.extend_from_slice(v);
                proof {
                    assert(slot@ =~= seq![1u8] + v@);
                }
            },
            None => {
                slot.push(0);
                proof {
                    assert(slot@ =~= seq![0u8]);
                }
            },
        }
        let i = Self::lower_bound(&self.entries, fk.as_slice());
        let ghost pre = kv_views(self.entries@);
        let ghost fkv = fk@;
        let ghost slotv = slot@;
        if i < self.entries.len() && bytes_eq(self.entries[i].0.as_slice(), fk.as_slice()) {
            self.entries.remove(i);
            self.entries.insert(i, (fk, slot));
            proof {
                assert(kv_views(self.entries@) =~= pre.update(i as int, (fkv, slotv)));
            }
        } else {
            self.entries.insert(i, (fk, slot));
            proof {
                assert(kv_views(self.entries@) =~= pre.insert(i as int, (fkv, slotv)));
            }
        }
        proof {
            let es = kv_views(self.entries@);
            let replaced = i < pre.len() && pre[i as int].0 == fkv;
            assert(entries_sorted(es) && entries_shaped(es)) by {
                assert forall|a: int, b: int| 0 <= a < b < es.len() implies lex_lt(
                    #[trigger] es[a].0,
                    #[trigger] es[b].0,
                ) by {
                    let ii = i as int;
                    if replaced {
                        assert(forall|m: int| 0 <= m < es.len() ==> (#[trigger] es[m]).0 == pre[m].0);
                    } else {
                        if a < ii && b == ii {
                            assert(lex_lt(pre[a].0, fkv));
                        } else if a == ii && b > ii {
                            assert(lex_le(fkv, pre[ii].0) && fkv != pre[ii].0);
                            crate::bytes_util::lemma_lex_trichotomy(fkv, pre[ii].0);
                            if b - 1 > ii {
                                crate::bytes_util::lemma_lex_lt_trans(fkv, pre[ii].0, pre[b - 1].0);
                            }
                        } else if a < ii && b > ii {
                            assert(es[a].0 == pre[a].0 && es[b].0 == pre[b - 1].0);
                        } else if a > ii {
                            assert(es[a].0 == pre[a - 1].0 && es[b].0 == pre[b - 1].0);
                        }
                    }
                }
            }
            assert(is_lower_bound(pre, fkv, i as int));
            let fk2 = spec_full_key(user_key@, timestamp);
            let slot2 = match value {
                Some(v) => seq![1u8] + v@,
                None => seq![0u8],
            };
            assert(fkv == fk2 && slotv == slot2);
            assert(pre == old(self).view());
            assert(is_lower_bound(old(self).view(), fk2, i as int));
            assert(if i < old(self).view().len() && old(self).view()[i as int].0 == fk2 {
                kv_views(self.entries@) == old(self).view().update(i as int, (fk2, slot2))
            } else {
                kv_views(self.entries@) == old(self).view().insert(i as int, (fk2, slot2))
            });
        }
    }

    pub fn len(&self) -> (r: usize)
        ensures
            r == self.view().len(),
    {
        self.entries.len()
    }

    /// Copy of the pair at position `i`.
    pub fn entry_at(&self, i: usize) -> (r: (Vec<u8>, Vec<u8>))
        requires
            i < self.view().len(),
        ensures
            r.0@ == self.view()[i as int].0,
            r.1@ == self.view()[i as int].1,
    {
        let k = bytes_to_vec(self.entries[i].0.as_slice());
        let v = bytes_to_vec(self.entries[i].1.as_slice());
        (k, v)
    }

    /// The byte budget; enforced by the caller freezing the memtable.
    pub closed spec fn spec_capacity(&self) -> usize {
        self.capacity
    }

    pub fn capacity(&self) -> (r: usize)
        ensures
            r == self.spec_capacity(),
    {
        self.capacity
    }
}

/// Where to position an MVCC cursor.
pub enum MemtableSeek<'a> {
    /// The smallest visible user key.
    First,
    /// The largest visible user key.
    Last,
    /// The smallest visible user key at least the target.
    RandomForward(&'a [u8]),
    /// The largest visible user key at most the target.
    RandomBackward(&'a [u8]),
}

/// The largest visible row below `hi`, starting the search at a known
/// visible row `j`.
proof fn lemma_find_last_visible(es: Seq<(Seq<u8>, Seq<u8>)>, ts: u64, j: int, hi: int) -> (r: int)
    requires
        0 <= j < hi <= es.len(),
        row_visible(es, ts, j),
    ensures
        j <= r < hi,
        row_visible(es, ts, r),
        forall|m: int| r < m < hi ==> !row_visible(es, ts, m),
    decreases hi - j,
{
    if exists|m: int| j < m < hi && row_visible(es, ts, m) {
        let m = choose|m: int| j < m < hi && row_visible(es, ts, m);
        lemma_find_last_visible(es, ts, m, hi)
    } else {
        j
    }
}

/// MVCC-aware cursor over a memtable snapshot.
pub struct MemtableIterator {
    /// Snapshot of the memtable contents.
    entries: Vec<(Vec<u8>, Vec<u8>)>,
    /// Snapshot timestamp: versions above it are invisible.
    timestamp: u64,
    /// Cursor; `entries.len()` is the invalid state.
    pos: usize,
    /// The user key whose remaining versions the forward scan skips.
    key: Vec<u8>,
}

impl MemtableIterator {
    pub closed spec fn spec_entries(&self) -> Seq<(Seq<u8>, Seq<u8>)> {
        kv_views(self.entries@)
    }

    pub closed spec fn spec_ts(&self) -> u64 {
        self.timestamp
    }

    pub closed spec fn spec_pos(&self) -> int {
        self.pos as int
    }

    /// The user key whose remaining versions the forward scan skips.
    pub closed spec fn spec_key(&self) -> Seq<u8> {
        self.key@
    }

    pub closed spec fn inv(&self) -> bool {
        &&& self.pos <= self.entries@.len()
        &&& entries_sorted(kv_views(self.entries@))
        &&& entries_shaped(kv_views(self.entries@))
    }

    pub open spec fn spec_valid(&self) -> bool {
        self.spec_pos() < self.spec_entries().len()
    }

    /// Take a snapshot of the memtable at the given timestamp.
    pub fn new(memtable: &Memtable, timestamp: u64) -> (r: Self)
        requires
            memtable.wf(),
        ensures
            r.inv(),
            r.spec_entries() == memtable.view(),
            r.spec_ts() == timestamp,
    {
        let n = memtable.len();
        let mut entries: Vec<(Vec<u8>, Vec<u8>)> = Vec::new();
        let mut i: usize = 0;
        while i < n
            invariant
                i <= n,
                n == memtable.view().len(),
                memtable.wf(),
                kv_views(entries@) =~= memtable.view().take(i as int),
            decreases n - i,
        {
            let (k, v) = memtable.entry_at(i);
            entries.push((k, v));
            proof {
                assert(kv_views(entries@) =~= kv_views(entries@.drop_last()).push(
                    (entries@.last().0@, entries@.last().1@),
                ));
                assert(memtable.view().take(i + 1) =~= memtable.view().take(i as int).push(
                    memtable.view()[i as int],
                ));
            }
            i += 1;
        }
        proof {
            assert(memtable.view().take(n as int) =~= memtable.view());
        }
        let pos = entries.len();
        MemtableIterator { entries, timestamp, pos, key: Vec::new() }
    }

    /// The full key at row `i`.
    fn row_fk(&self, i: usize) -> (r: &[u8])
        requires
            self.inv(),
            i < self.spec_entries().len(),
        ensures
            r@ == self.spec_entries()[i as int].0,
            r@.len() >= 8,
    {
        proof {
            assert(self.entries@[i as int].0@ == kv_views(self.entries@)[i as int].0);
        }
        self.entries[i].0.as_slice()
    }

    /// The value slot at row `i`.
    fn row_slot(&self, i: usize) -> (r: &[u8])
        requires
            self.inv(),
            i < self.spec_entries().len(),
        ensures
            r@ == self.spec_entries()[i as int].1,
            r@.len() >= 1,
    {
        proof {
            assert(self.entries@[i as int].1@ == kv_views(self.entries@)[i as int].1);
        }
        self.entries[i].1.as_slice()
    }

    /// The user key at the cursor.
    pub fn key(&self) -> (r: &[u8])
        requires
            self.inv(),
            self.spec_valid(),
        ensures
            r@ == spec_user_key(self.spec_entries()[self.spec_pos()].0),
    {
        user_key(self.row_fk(self.pos))
    }

    /// The full key at the cursor.
    pub fn full_key(&self) -> (r: &[u8])
        requires
            self.inv(),
            self.spec_valid(),
        ensures
            r@ == self.spec_entries()[self.spec_pos()].0,
    {
        self.row_fk(self.pos)
    }

    /// The value bytes at the cursor, without the slot tag.
    pub fn value(&self) -> (r: &[u8])
        requires
            self.inv(),
            self.spec_valid(),
        ensures
            r@ == self.spec_entries()[self.spec_pos()].1.skip(1),
    {
        let slot = self.row_slot(self.pos);
        let r = slice_subrange(slot, 1, slot.len());
        proof {
            assert(r@ =~= self.spec_entries()[self.spec_pos()].1.skip(1));
        }
        r
    }

    pub fn is_valid(&self) -> (r: bool)
        requires
            self.inv(),
        ensures
            r == self.spec_valid(),
    {
        self.pos < self.entries.len()
    }

    /// The forward scan's semantics hold when it starts at the beginning,
    /// or anchored on a visible row carrying the skip key.
    pub open spec fn scan_anchored(&self) -> bool {
        snapshot_orderly(self.spec_entries()) && (self.spec_pos() == 0 || (self.spec_pos()
            < self.spec_entries().len() && row_visible(
            self.spec_entries(),
            self.spec_ts(),
            self.spec_pos(),
        ) && spec_user_key(self.spec_entries()[self.spec_pos()].0) == self.spec_key()))
    }

    /// The forward scan's semantics also hold when it starts at the
    /// user-key boundary of `target`, with no skip key: every earlier row's
    /// user key is strictly below the target, every later one at least it.
    pub open spec fn scan_split(&self, target: Seq<u8>) -> bool {
        &&& snapshot_orderly(self.spec_entries())
        &&& self.spec_key().len() == 0
        &&& 0 <= self.spec_pos() <= self.spec_entries().len()
        &&& uk_split_at(self.spec_entries(), target, self.spec_pos())
    }

    /// Scan forward from the cursor to the next surfaced row. `target` is
    /// the user key a seek asked for; the result reports whether a visible
    /// version of it was seen.
    ///
    /// On a covered orderly scan the cursor lands exactly on the next
    /// surfaced row; a surfaced row is passed over only if it carries the
    /// skip key itself.
    fn next_inner(&mut self, target: &[u8]) -> (found: bool)
        requires
            old(self).inv(),
        ensures
            final(self).inv(),
            final(self).spec_entries() == old(self).spec_entries(),
            final(self).spec_ts() == old(self).spec_ts(),
            final(self).spec_pos() >= old(self).spec_pos(),
            found ==> exists|m: int|
                0 <= m < old(self).spec_entries().len() && row_visible(
                    old(self).spec_entries(),
                    old(self).spec_ts(),
                    m,
                ) && spec_user_key((#[trigger] old(self).spec_entries()[m]).0) == target@,
            final(self).spec_valid() ==> (forall|m: int|
                old(self).spec_pos() <= m <= final(self).spec_pos() && row_visible(
                    old(self).spec_entries(),
                    old(self).spec_ts(),
                    m,
                ) && spec_user_key((#[trigger] old(self).spec_entries()[m]).0) == target@
                    ==> found),
            !final(self).spec_valid() ==> (forall|m: int|
                old(self).spec_pos() <= m < old(self).spec_entries().len() && row_visible(
                    old(self).spec_entries(),
                    old(self).spec_ts(),
                    m,
                ) && spec_user_key((#[trigger] old(self).spec_entries()[m]).0) == target@
                    ==> found),
            old(self).scan_anchored() || old(self).scan_split(target@) ==> {
                let es = old(self).spec_entries();
                let ts = old(self).spec_ts();
                let k0 = old(self).spec_key();
                &&& (final(self).spec_valid() ==> is_surface(es, ts, final(self).spec_pos()))
                &&& (final(self).spec_valid() ==> final(self).spec_key() == spec_user_key(
                    es[final(self).spec_pos()].0,
                ))
                &&& (final(self).spec_valid() ==> (row_visible(es, ts, old(self).spec_pos())
                    && old(self).spec_valid() && spec_user_key(es[old(self).spec_pos()].0) == k0
                    ==> final(self).spec_pos() > old(self).spec_pos()))
                &&& (forall|m: int|
                    old(self).spec_pos() <= m < final(self).spec_pos() && is_surface(es, ts, m)
                        ==> spec_user_key(#[trigger] es[m].0) == k0)
                &&& (!final(self).spec_valid() ==> (forall|m: int|
                    old(self).spec_pos() <= m < es.len() && is_surface(es, ts, m)
                        ==> spec_user_key(#[trigger] es[m].0) == k0))
            },
    {
        let ghost es = kv_views(self.entries@);
        let ghost ts = self.timestamp;
        let ghost p0 = self.pos as int;
        let ghost k0 = self.key@;
        let ghost cov = old(self).scan_anchored();
        let ghost spl = old(self).scan_split(target@);
        let n = self.entries.len();
        let mut found = false;
        loop
            invariant
                self.inv(),
                n == self.entries@.len(),
                kv_views(self.entries@) == es,
                self.timestamp == ts,
                es == old(self).spec_entries(),
                ts == old(self).spec_ts(),
                p0 == old(self).spec_pos(),
                k0 == old(self).spec_key(),
                cov == old(self).scan_anchored(),
                spl == old(self).scan_split(target@),
                p0 <= self.pos as int <= n,
                cov || spl ==> (forall|j: int|
                    p0 <= j < self.pos as int && row_visible(es, ts, j) && (forall|j2: int|
                        j < j2 < self.pos as int ==> !row_visible(es, ts, j2)) ==> spec_user_key(
                        #[trigger] es[j].0,
                    ) == self.key@),
                cov || spl ==> (self.key@ == k0 || exists|j: int|
                    p0 <= j < self.pos as int && row_visible(es, ts, j) && spec_user_key(
                        #[trigger] es[j].0,
                    ) == self.key@),
                cov || spl ==> (forall|m: int|
                    p0 <= m < self.pos as int && is_surface(es, ts, m) ==> spec_user_key(
                        #[trigger] es[m].0,
                    ) == k0),
                found ==> exists|j: int|
                    0 <= j < n && row_visible(es, ts, j) && spec_user_key((#[trigger] es[j]).0)
                        == target@,
                forall|m: int|
                    p0 <= m < self.pos as int && row_visible(es, ts, m) && spec_user_key(
                        (#[trigger] es[m]).0,
                    ) == target@ ==> found,
            decreases n - self.pos,
        {
            if self.pos >= n {
                return found;
            }
            let row_ts = timestamp(self.row_fk(self.pos));
            let visible = self.timestamp >= row_ts;
            let uk = bytes_to_vec(user_key(self.row_fk(self.pos)));
            if visible && bytes_eq(target, uk.as_slice()) {
                found = true;
                proof {
                    assert(row_visible(es, ts, self.pos as int) && spec_user_key(
                        es[self.pos as int].0,
                    ) == target@);
                }
            }
            let tomb = self.row_slot(self.pos)[0] == 0;
            let ghost pre_key = self.key@;
            if visible && tomb {
                // A tombstone hides the older versions of this user key.
                let uk2 = bytes_to_vec(uk.as_slice());
                self.key = uk2;
            }
            let same = bytes_eq(uk.as_slice(), self.key.as_slice());
            let ghost c = self.pos as int;
            if visible && !same {
                // The newest visible version of a fresh user key, and not a
                // tombstone: surface it.
                proof {
                    if cov || spl {
                        assert(self.key@ == pre_key);
                        assert(!tomb);
                        assert(es[c].1[0] != 0);
                        assert(is_surface(es, ts, c)) by {
                            assert forall|j: int|
                                0 <= j < c && spec_user_key(#[trigger] es[j].0) == spec_user_key(
                                    es[c].0,
                                ) implies !row_visible(es, ts, j) by {
                                if row_visible(es, ts, j) {
                                    if j < p0 && spl && !cov {
                                        // Below the user-key boundary the
                                        // user keys sit strictly below the
                                        // target, at or above it at least at
                                        // it.
                                        assert(lex_lt(spec_user_key(es[j].0), target@));
                                        assert(lex_le(target@, spec_user_key(es[c].0)));
                                        crate::bytes_util::lemma_lex_le_lt_trans(
                                            target@,
                                            spec_user_key(es[c].0),
                                            target@,
                                        );
                                        if target@ == spec_user_key(es[c].0) {
                                        } else {
                                            crate::bytes_util::lemma_lex_lt_trans(
                                                spec_user_key(es[j].0),
                                                target@,
                                                spec_user_key(es[c].0),
                                            );
                                        }
                                        crate::bytes_util::lemma_lex_trichotomy(
                                            spec_user_key(es[j].0),
                                            spec_user_key(es[c].0),
                                        );
                                    } else if j < p0 {
                                        // Sandwich through the anchor row.
                                        assert(p0 > 0 && p0 < es.len());
                                        assert(lex_le(
                                            spec_user_key(es[j].0),
                                            spec_user_key(es[p0].0),
                                        ));
                                        assert(lex_le(
                                            spec_user_key(es[p0].0),
                                            spec_user_key(es[c].0),
                                        ) || p0 == c);
                                        crate::bytes_util::lemma_lex_trichotomy(
                                            spec_user_key(es[j].0),
                                            spec_user_key(es[p0].0),
                                        );
                                        crate::bytes_util::lemma_lex_trichotomy(
                                            spec_user_key(es[p0].0),
                                            spec_user_key(es[c].0),
                                        );
                                        assert(spec_user_key(es[p0].0) == spec_user_key(es[c].0));
                                        assert(k0 == spec_user_key(es[c].0));
                                        if pre_key == k0 {
                                            assert(spec_user_key(es[c].0) == pre_key);
                                        } else {
                                            let j2 = choose|j2: int|
                                                p0 <= j2 < c && row_visible(es, ts, j2)
                                                    && spec_user_key(#[trigger] es[j2].0)
                                                    == pre_key;
                                            crate::bytes_util::lemma_lex_trichotomy(
                                                spec_user_key(es[j2].0),
                                                spec_user_key(es[c].0),
                                            );
                                            assert(lex_le(
                                                spec_user_key(es[p0].0),
                                                spec_user_key(es[j2].0),
                                            ) || p0 == j2);
                                            assert(lex_le(
                                                spec_user_key(es[j2].0),
                                                spec_user_key(es[c].0),
                                            ));
                                            crate::bytes_util::lemma_lex_trichotomy(
                                                spec_user_key(es[p0].0),
                                                spec_user_key(es[j2].0),
                                            );
                                            assert(spec_user_key(es[j2].0) == spec_user_key(
                                                es[c].0,
                                            ));
                                        }
                                    } else {
                                        let r = lemma_find_last_visible(es, ts, j, c);
                                        assert(lex_le(
                                            spec_user_key(es[j].0),
                                            spec_user_key(es[r].0),
                                        ) || j == r);
                                        assert(lex_le(
                                            spec_user_key(es[r].0),
                                            spec_user_key(es[c].0),
                                        ) || r == c);
                                        crate::bytes_util::lemma_lex_trichotomy(
                                            spec_user_key(es[j].0),
                                            spec_user_key(es[r].0),
                                        );
                                        crate::bytes_util::lemma_lex_trichotomy(
                                            spec_user_key(es[r].0),
                                            spec_user_key(es[c].0),
                                        );
                                        assert(spec_user_key(es[r].0) == spec_user_key(es[c].0));
                                        assert(spec_user_key(es[r].0) == self.key@);
                                    }
                                }
                            }
                        }
                    }
                }
                self.key = uk;
                return found;
            }
            proof {
                if cov || spl {
                    if row_visible(es, ts, c) {
                        assert(spec_user_key(es[c].0) == self.key@);
                        if is_surface(es, ts, c) {
                            // A surfaced row is passed over only under the
                            // original skip key.
                            assert(es[c].1[0] == 1);
                            if self.key@ != k0 {
                                let j2 = choose|j2: int|
                                    p0 <= j2 < c && row_visible(es, ts, j2) && spec_user_key(
                                        #[trigger] es[j2].0,
                                    ) == self.key@;
                                assert(!row_visible(es, ts, j2));
                                assert(false);
                            }
                        }
                    } else {
                        assert(!is_surface(es, ts, c));
                    }
                }
            }
            self.pos = self.pos + 1;
        }
    }

    /// Scan backward to the previous surfaced row, starting at the cursor.
    ///
    /// On an orderly snapshot the cursor lands exactly on the closest
    /// surfaced row at or below its starting position, or goes invalid when
    /// none is left.
    fn prev_inner(&mut self, target: &[u8]) -> (found: bool)
        requires
            old(self).inv(),
        ensures
            final(self).inv(),
            final(self).spec_entries() == old(self).spec_entries(),
            final(self).spec_ts() == old(self).spec_ts(),
            found ==> exists|m: int|
                0 <= m < old(self).spec_entries().len() && row_visible(
                    old(self).spec_entries(),
                    old(self).spec_ts(),
                    m,
                ) && spec_user_key((#[trigger] old(self).spec_entries()[m]).0) == target@,
            final(self).spec_valid() ==> (forall|m: int|
                final(self).spec_pos() <= m <= old(self).spec_pos() && m < old(
                    self,
                ).spec_entries().len() && row_visible(
                    old(self).spec_entries(),
                    old(self).spec_ts(),
                    m,
                ) && spec_user_key((#[trigger] old(self).spec_entries()[m]).0) == target@
                    ==> found),
            !final(self).spec_valid() ==> (forall|m: int|
                0 <= m <= old(self).spec_pos() && m < old(self).spec_entries().len()
                    && row_visible(old(self).spec_entries(), old(self).spec_ts(), m)
                    && spec_user_key((#[trigger] old(self).spec_entries()[m]).0) == target@
                    ==> found),
            snapshot_orderly(old(self).spec_entries()) ==> {
                let es = old(self).spec_entries();
                let ts = old(self).spec_ts();
                &&& (final(self).spec_valid() ==> is_surface(es, ts, final(self).spec_pos())
                    && final(self).spec_pos() <= old(self).spec_pos())
                &&& (final(self).spec_valid() ==> final(self).spec_key() == spec_user_key(
                    es[final(self).spec_pos()].0,
                ))
                &&& (final(self).spec_valid() ==> (forall|m: int|
                    final(self).spec_pos() < m <= old(self).spec_pos() && m < es.len()
                        ==> !is_surface(es, ts, m)))
                &&& (!final(self).spec_valid() ==> (forall|m: int|
                    0 <= m <= old(self).spec_pos() && m < es.len() ==> !is_surface(es, ts, m)))
            },
    {
        let ghost es = kv_views(self.entries@);
        let ghost ts = self.timestamp;
        let ghost p0 = self.pos as int;
        let ghost orderly = snapshot_orderly(es);
        let n = self.entries.len();
        let mut c: usize = if self.pos >= n {
            n
        } else {
            self.pos + 1
        };
        // `c` is one past the row under inspection.
        let mut found = false;
        loop
            invariant
                self.inv(),
                n == self.entries@.len(),
                kv_views(self.entries@) == es,
                self.timestamp == ts,
                es == old(self).spec_entries(),
                ts == old(self).spec_ts(),
                p0 == old(self).spec_pos(),
                orderly == snapshot_orderly(es),
                c <= n,
                c as int <= p0 + 1,
                orderly ==> (forall|m: int|
                    c as int <= m <= p0 && m < n ==> !is_surface(es, ts, m)),
                found ==> exists|j: int|
                    0 <= j < n && row_visible(es, ts, j) && spec_user_key((#[trigger] es[j]).0)
                        == target@,
                forall|m: int|
                    c as int <= m <= p0 && m < n && row_visible(es, ts, m) && spec_user_key(
                        (#[trigger] es[m]).0,
                    ) == target@ ==> found,
            decreases c,
        {
            if c == 0 {
                self.pos = n;
                return found;
            }
            let i = c - 1;
            let fk = self.row_fk(i);
            let row_ts = timestamp(fk);
            let visible = self.timestamp >= row_ts;
            let uk = user_key(fk);
            if visible && bytes_eq(target, uk) {
                found = true;
                proof {
                    assert(row_visible(es, ts, i as int) && spec_user_key(es[i as int].0)
                        == target@);
                }
            }
            if visible {
                // Walk back to the newest visible version of this user key.
                let ghost run_hi = i as int;
                let mut s: usize = i;
                let mut stop = false;
                while s > 0 && !stop
                    invariant
                        self.inv(),
                        n == self.entries@.len(),
                        kv_views(self.entries@) == es,
                        self.timestamp == ts,
                        orderly == snapshot_orderly(es),
                        s <= run_hi < n,
                        run_hi == i as int,
                        row_visible(es, ts, run_hi),
                        forall|j: int|
                            s as int <= j <= run_hi ==> spec_user_key(#[trigger] es[j].0)
                                == spec_user_key(es[run_hi].0) && row_visible(es, ts, j),
                        stop ==> s > 0 && (spec_user_key(es[s - 1].0) != spec_user_key(
                            es[run_hi].0,
                        ) || !row_visible(es, ts, s - 1)),
                    decreases s + (if stop {
                        0int
                    } else {
                        1int
                    }),
                {
                    let pfk = self.row_fk(s - 1);
                    let pts = timestamp(pfk);
                    let puk = user_key(pfk);
                    let same = bytes_eq(puk, user_key(self.row_fk(i)));
                    if !same || pts > self.timestamp {
                        stop = true;
                    } else {
                        s = s - 1;
                    }
                }
                // `s` is the newest visible version of the user key.
                proof {
                    if orderly {
                        let si = s as int;
                        assert(row_visible(es, ts, si));
                        assert(is_first_visible(es, ts, si)) by {
                            assert forall|j: int|
                                0 <= j < si && spec_user_key(#[trigger] es[j].0) == spec_user_key(
                                    es[si].0,
                                ) implies !row_visible(es, ts, j) by {
                                if row_visible(es, ts, j) {
                                    // The run is contiguous, so the row just
                                    // below `s` shares the user key; the walk
                                    // stopped because it was invisible, and
                                    // timestamps descend within the key.
                                    assert(spec_user_key(es[si].0) == spec_user_key(
                                        es[run_hi].0,
                                    ));
                                    assert(lex_le(
                                        spec_user_key(es[j].0),
                                        spec_user_key(es[si - 1].0),
                                    ) || j == si - 1);
                                    assert(lex_le(
                                        spec_user_key(es[si - 1].0),
                                        spec_user_key(es[si].0),
                                    ));
                                    crate::bytes_util::lemma_lex_trichotomy(
                                        spec_user_key(es[j].0),
                                        spec_user_key(es[si - 1].0),
                                    );
                                    crate::bytes_util::lemma_lex_trichotomy(
                                        spec_user_key(es[si - 1].0),
                                        spec_user_key(es[si].0),
                                    );
                                    assert(spec_user_key(es[si - 1].0) == spec_user_key(
                                        es[si].0,
                                    ));
                                    assert(!row_visible(es, ts, si - 1));
                                    assert(spec_timestamp(es[j].0) > spec_timestamp(
                                        es[si - 1].0,
                                    ) || j == si - 1);
                                    assert(row_visible(es, ts, si - 1));
                                }
                            }
                        }
                    }
                }
                let stag = self.row_slot(s)[0];
                let landed_key = bytes_to_vec(user_key(self.row_fk(s)));
                if stag == 1 {
                    self.pos = s;
                    self.key = landed_key;
                    proof {
                        assert forall|m: int|
                            s as int <= m <= i as int && row_visible(es, ts, m) && spec_user_key(
                                (#[trigger] es[m]).0,
                            ) == target@ implies found by {
                            assert(spec_user_key(es[m].0) == spec_user_key(es[run_hi].0));
                            assert(row_visible(es, ts, run_hi));
                        }
                        if orderly {
                            assert(is_surface(es, ts, s as int));
                            assert forall|m: int|
                                (s as int) < m <= p0 && m < n implies !is_surface(es, ts, m) by {
                                if (s as int) < m && m <= i as int {
                                    if is_surface(es, ts, m) {
                                        assert(spec_user_key(es[m].0) == spec_user_key(
                                            es[run_hi].0,
                                        ));
                                        assert(row_visible(es, ts, s as int));
                                    }
                                }
                            }
                        }
                    }
                    return found;
                }
                // The user key's newest visible version is a tombstone: skip
                // the whole user key.
                self.key = landed_key;
                proof {
                    if orderly {
                        assert forall|m: int| (s as int) <= m <= i as int implies !is_surface(
                            es,
                            ts,
                            m,
                        ) by {
                            if (s as int) < m <= i as int {
                                assert(spec_user_key(es[m].0) == spec_user_key(es[run_hi].0));
                                assert(row_visible(es, ts, s as int));
                            } else {
                                assert(es[s as int].1[0] == 0);
                            }
                        }
                    }
                }
                proof {
                    assert forall|m: int|
                        s as int <= m <= i as int && row_visible(es, ts, m) && spec_user_key(
                            (#[trigger] es[m]).0,
                        ) == target@ implies found by {
                        assert(spec_user_key(es[m].0) == spec_user_key(es[run_hi].0));
                        assert(row_visible(es, ts, run_hi));
                    }
                }
                c = s;
            } else {
                proof {
                    if orderly {
                        assert(!is_surface(es, ts, i as int));
                    }
                }
                c = i;
            }
        }
    }

    /// Move to the next surfaced row. The cursor must be valid.
    pub fn next(&mut self) -> (r: Result<()>)
        requires
            old(self).inv(),
            old(self).spec_valid(),
            snapshot_orderly(old(self).spec_entries()) ==> is_surface(
                old(self).spec_entries(),
                old(self).spec_ts(),
                old(self).spec_pos(),
            ) && old(self).spec_key() == spec_user_key(
                old(self).spec_entries()[old(self).spec_pos()].0,
            ),
        ensures
            final(self).inv(),
            final(self).spec_entries() == old(self).spec_entries(),
            final(self).spec_ts() == old(self).spec_ts(),
            r is Ok,
            snapshot_orderly(old(self).spec_entries()) ==> {
                let es = old(self).spec_entries();
                let ts = old(self).spec_ts();
                &&& (final(self).spec_valid() ==> is_surface(es, ts, final(self).spec_pos())
                    && final(self).spec_pos() > old(self).spec_pos())
                &&& (final(self).spec_valid() ==> final(self).spec_key() == spec_user_key(
                    es[final(self).spec_pos()].0,
                ))
                &&& (forall|m: int|
                    old(self).spec_pos() < m < final(self).spec_pos() ==> !is_surface(es, ts, m))
                &&& (!final(self).spec_valid() ==> (forall|m: int|
                    old(self).spec_pos() < m < es.len() ==> !is_surface(es, ts, m)))
            },
    {
        let ghost es = kv_views(self.entries@);
        let ghost ts = self.timestamp;
        let ghost p0 = self.pos as int;
        let ghost k0 = self.key@;
        self.next_inner(&[]);
        proof {
            if snapshot_orderly(es) {
                // No other surfaced row shares the skip key: the starting row
                // is its user key's newest visible version.
                assert forall|m: int|
                    p0 < m < es.len() && is_surface(es, ts, m) implies spec_user_key(es[m].0)
                    != k0 by {
                    if spec_user_key(es[m].0) == k0 {
                        assert(row_visible(es, ts, p0));
                        assert(spec_user_key(es[p0].0) == spec_user_key(es[m].0));
                    }
                }
            }
        }
        Ok(())
    }

    /// Move to the previous surfaced row. The cursor must be valid.
    pub fn prev(&mut self) -> (r: Result<()>)
        requires
            old(self).inv(),
            old(self).spec_valid(),
        ensures
            final(self).inv(),
            final(self).spec_entries() == old(self).spec_entries(),
            final(self).spec_ts() == old(self).spec_ts(),
            r is Ok,
            snapshot_orderly(old(self).spec_entries()) ==> {
                let es = old(self).spec_entries();
                let ts = old(self).spec_ts();
                &&& (final(self).spec_valid() ==> is_surface(es, ts, final(self).spec_pos())
                    && final(self).spec_pos() < old(self).spec_pos())
                &&& (final(self).spec_valid() ==> final(self).spec_key() == spec_user_key(
                    es[final(self).spec_pos()].0,
                ))
                &&& (final(self).spec_valid() ==> (forall|m: int|
                    final(self).spec_pos() < m < old(self).spec_pos() ==> !is_surface(es, ts, m)))
                &&& (!final(self).spec_valid() ==> (forall|m: int|
                    0 <= m < old(self).spec_pos() ==> !is_surface(es, ts, m)))
            },
    {
        if self.pos == 0 {
            let n = self.entries.len();
            self.pos = n;
            return Ok(());
        }
        self.pos = self.pos - 1;
        let _ = self.prev_inner(&[]);
        Ok(())
    }

    /// Position the cursor.
    ///
    /// `First` and `Last` land on the smallest and largest surfaced rows and
    /// report whether one exists. The targeted seeks scan from the target
    /// user key and report whether a visible version of the exact target was
    /// seen.
    pub fn seek(&mut self, position: MemtableSeek<'_>) -> (r: Result<bool>)
        requires
            old(self).inv(),
        ensures
            final(self).inv(),
            final(self).spec_entries() == old(self).spec_entries(),
            final(self).spec_ts() == old(self).spec_ts(),
            r is Ok,
            snapshot_orderly(old(self).spec_entries()) ==> {
                let es = old(self).spec_entries();
                let ts = old(self).spec_ts();
                match position {
                    MemtableSeek::First => {
                        &&& (final(self).spec_valid() ==> is_surface(es, ts, final(self).spec_pos())
                            && (forall|m: int|
                            0 <= m < final(self).spec_pos() ==> !is_surface(es, ts, m)))
                        &&& (!final(self).spec_valid() ==> (forall|m: int|
                            0 <= m < es.len() ==> !is_surface(es, ts, m)))
                        &&& r == Ok::<bool, crate::error::Error>(final(self).spec_valid())
                    },
                    MemtableSeek::Last => {
                        &&& (final(self).spec_valid() ==> is_surface(es, ts, final(self).spec_pos())
                            && (forall|m: int|
                            final(self).spec_pos() < m < es.len() ==> !is_surface(es, ts, m)))
                        &&& (!final(self).spec_valid() ==> (forall|m: int|
                            0 <= m < es.len() ==> !is_surface(es, ts, m)))
                        &&& r == Ok::<bool, crate::error::Error>(final(self).spec_valid())
                    },
                    MemtableSeek::RandomForward(target) => {
                        &&& (r == Ok::<bool, crate::error::Error>(true) ==> exists|m: int|
                            0 <= m < es.len() && row_visible(es, ts, m) && spec_user_key(
                                (#[trigger] es[m]).0,
                            ) == target@)
                        &&& (final(self).spec_valid() ==> lex_le(
                            spec_full_key(target@, u64::MAX),
                            es[final(self).spec_pos()].0,
                        ))
                        &&& (target_prefix_free(es, target@) ==> {
                            &&& (final(self).spec_valid() ==> is_surface(
                                es,
                                ts,
                                final(self).spec_pos(),
                            ) && lex_le(target@, spec_user_key(es[final(self).spec_pos()].0)) && (
                            forall|m: int|
                                0 <= m < final(self).spec_pos() && is_surface(es, ts, m)
                                    ==> lex_lt(spec_user_key(#[trigger] es[m].0), target@)))
                            &&& (!final(self).spec_valid() ==> (forall|m: int|
                                0 <= m < es.len() && is_surface(es, ts, m) ==> lex_lt(
                                    spec_user_key(#[trigger] es[m].0),
                                    target@,
                                )))
                            &&& r == Ok::<bool, crate::error::Error>(
                                exists|m: int|
                                    0 <= m < es.len() && row_visible(es, ts, m) && spec_user_key(
                                        (#[trigger] es[m]).0,
                                    ) == target@,
                            )
                        })
                    },
                    MemtableSeek::RandomBackward(target) => {
                        &&& (r == Ok::<bool, crate::error::Error>(true) ==> exists|m: int|
                            0 <= m < es.len() && row_visible(es, ts, m) && spec_user_key(
                                (#[trigger] es[m]).0,
                            ) == target@)
                        &&& (final(self).spec_valid() ==> is_surface(es, ts, final(self).spec_pos())
                            && lex_le(es[final(self).spec_pos()].0, spec_full_key(target@, 0)))
                        &&& (target_prefix_free(es, target@) ==> {
                            &&& (final(self).spec_valid() ==> lex_le(
                                spec_user_key(es[final(self).spec_pos()].0),
                                target@,
                            ) && (forall|m: int|
                                final(self).spec_pos() < m < es.len() && is_surface(es, ts, m)
                                    ==> lex_lt(target@, spec_user_key(#[trigger] es[m].0))))
                            &&& (!final(self).spec_valid() ==> (forall|m: int|
                                0 <= m < es.len() && is_surface(es, ts, m) ==> lex_lt(
                                    target@,
                                    spec_user_key(#[trigger] es[m].0),
                                )))
                            &&& r == Ok::<bool, crate::error::Error>(
                                exists|m: int|
                                    0 <= m < es.len() && row_visible(es, ts, m) && spec_user_key(
                                        (#[trigger] es[m]).0,
                                    ) == target@,
                            )
                        })
                    },
                }
            },
    {
        match position {
            MemtableSeek::First => {
                let ghost es = kv_views(self.entries@);
                self.key = Vec::new();
                self.pos = 0;
                let _ = self.next_inner(&[]);
                proof {
                    if snapshot_orderly(es) {
                        assert forall|m: int|
                            0 <= m < self.pos as int implies !is_surface(es, self.spec_ts(), m) by {
                            if is_surface(es, self.spec_ts(), m) {
                                assert(spec_user_key(es[m].0).len() > 0);
                            }
                        }
                        if !self.spec_valid() {
                            assert forall|m: int| 0 <= m < es.len() implies !is_surface(
                                es,
                                self.spec_ts(),
                                m,
                            ) by {
                                if is_surface(es, self.spec_ts(), m) {
                                    assert(spec_user_key(es[m].0).len() > 0);
                                }
                            }
                        }
                    }
                }
                let v = self.is_valid();
                Ok(v)
            },
            MemtableSeek::Last => {
                self.key = Vec::new();
                let n = self.entries.len();
                self.pos = n;
                let _ = self.prev_inner(&[]);
                let v = self.is_valid();
                Ok(v)
            },
            MemtableSeek::RandomForward(target) => {
                let ghost es = kv_views(self.entries@);
                let ghost ts = self.timestamp;
                self.key = Vec::new();
                let fk = full_key(target, u64::MAX);
                let start = Memtable::lower_bound(&self.entries, fk.as_slice());
                self.pos = start;
                let ghost mid = *self;
                proof {
                    if snapshot_orderly(es) && target_prefix_free(es, target@) {
                        assert forall|j: int| 0 <= j < start as int implies lex_lt(
                            spec_user_key((#[trigger] es[j]).0),
                            target@,
                        ) by {
                            lemma_row_uk_vs_target_fwd(es, target@, j);
                        }
                        assert forall|j: int| start as int <= j < es.len() implies lex_le(
                            target@,
                            spec_user_key((#[trigger] es[j]).0),
                        ) by {
                            if j > start as int {
                                crate::bytes_util::lemma_lex_le_lt_trans(
                                    fk@,
                                    es[start as int].0,
                                    es[j].0,
                                );
                            }
                            lemma_row_uk_vs_target_fwd(es, target@, j);
                        }
                        assert(mid.scan_split(target@));
                    }
                }
                let found = self.next_inner(target);
                proof {
                    if snapshot_orderly(es) && self.spec_valid() {
                        let p = self.spec_pos();
                        assert(lex_le(fk@, es[start as int].0));
                        if p > start as int {
                            crate::bytes_util::lemma_lex_le_lt_trans(
                                fk@,
                                es[start as int].0,
                                es[p].0,
                            );
                        }
                    }
                    if snapshot_orderly(es) && target_prefix_free(es, target@) {
                        assert(mid.scan_split(target@));
                        let has = exists|m: int|
                            0 <= m < es.len() && row_visible(es, ts, m) && spec_user_key(
                                (#[trigger] es[m]).0,
                            ) == target@;
                        if self.spec_valid() {
                            let p = self.spec_pos();
                            assert(lex_le(target@, spec_user_key(es[p].0)));
                            assert forall|m: int|
                                0 <= m < p && is_surface(es, ts, m) implies lex_lt(
                                spec_user_key(#[trigger] es[m].0),
                                target@,
                            ) by {
                                if m >= start as int {
                                    assert(spec_user_key(es[m].0) == mid.spec_key());
                                    assert(spec_user_key(es[m].0).len() > 0);
                                    assert(false);
                                }
                            }
                            if has {
                                let v = choose|m: int|
                                    0 <= m < es.len() && row_visible(es, ts, m) && spec_user_key(
                                        (#[trigger] es[m]).0,
                                    ) == target@;
                                assert(start as int <= v) by {
                                    crate::bytes_util::lemma_lex_trichotomy(
                                        spec_user_key(es[v].0),
                                        target@,
                                    );
                                }
                                if spec_user_key(es[p].0) == target@ {
                                    assert(row_visible(es, ts, p));
                                    assert(found);
                                } else {
                                    assert(v <= p) by {
                                        if v > p {
                                            assert(lex_le(
                                                spec_user_key(es[p].0),
                                                spec_user_key(es[v].0),
                                            ));
                                            crate::bytes_util::lemma_lex_le_lt_trans(
                                                target@,
                                                spec_user_key(es[p].0),
                                                target@,
                                            );
                                            crate::bytes_util::lemma_lex_trichotomy(
                                                target@,
                                                target@,
                                            );
                                        }
                                    }
                                    assert(found);
                                }
                            }
                            assert(found ==> has);
                            assert(found == has);
                        } else {
                            assert forall|m: int|
                                0 <= m < es.len() && is_surface(es, ts, m) implies lex_lt(
                                spec_user_key(#[trigger] es[m].0),
                                target@,
                            ) by {
                                if m >= start as int {
                                    assert(spec_user_key(es[m].0) == mid.spec_key());
                                    assert(spec_user_key(es[m].0).len() > 0);
                                    assert(false);
                                }
                            }
                            if has {
                                let v = choose|m: int|
                                    0 <= m < es.len() && row_visible(es, ts, m) && spec_user_key(
                                        (#[trigger] es[m]).0,
                                    ) == target@;
                                assert(start as int <= v) by {
                                    crate::bytes_util::lemma_lex_trichotomy(
                                        spec_user_key(es[v].0),
                                        target@,
                                    );
                                }
                                assert(found);
                            }
                            assert(found == has);
                        }
                    }
                }
                Ok(found)
            },
            MemtableSeek::RandomBackward(target) => {
                let ghost es = kv_views(self.entries@);
                let ghost ts = self.timestamp;
                self.key = Vec::new();
                let fk = full_key(target, 0);
                let start = Memtable::lower_bound(&self.entries, fk.as_slice());
                // Position at the last row at most the target.
                let n = self.entries.len();
                if start >= n {
                    self.pos = if n == 0 {
                        n
                    } else {
                        n - 1
                    };
                    if n == 0 {
                        return Ok(false);
                    }
                    proof {
                        assert(lex_lt(es[n - 1].0, fk@));
                        let sp = self.pos as int;
                        assert(forall|j: int| sp < j < n ==> lex_le(fk@, (#[trigger] es[j]).0));
                    }
                } else if lex_le_probe(self.row_fk(start), fk.as_slice()) {
                    self.pos = start;
                    proof {
                        let sp = self.pos as int;
                        assert forall|j: int| sp < j < n implies lex_le(
                            fk@,
                            (#[trigger] es[j]).0,
                        ) by {
                            crate::bytes_util::lemma_lex_le_lt_trans(fk@, es[sp].0, es[j].0);
                        }
                    }
                } else if start == 0 {
                    self.pos = n;
                    proof {
                        if snapshot_orderly(es) && target_prefix_free(es, target@) {
                            assert forall|m: int| 0 <= m < es.len() implies lex_lt(
                                target@,
                                spec_user_key(#[trigger] es[m].0),
                            ) by {
                                if m > 0 {
                                    crate::bytes_util::lemma_lex_le_lt_trans(
                                        fk@,
                                        es[0].0,
                                        es[m].0,
                                    );
                                    crate::bytes_util::lemma_lex_trichotomy(fk@, es[0].0);
                                }
                                lemma_row_uk_vs_target_bwd(es, target@, m);
                                crate::bytes_util::lemma_lex_trichotomy(fk@, es[m].0);
                            }
                            assert forall|m: int|
                                !(0 <= m < es.len() && row_visible(es, ts, m) && spec_user_key(
                                    (#[trigger] es[m]).0,
                                ) == target@) by {
                                if 0 <= m < es.len() && spec_user_key(es[m].0) == target@ {
                                    crate::bytes_util::lemma_lex_trichotomy(
                                        target@,
                                        spec_user_key(es[m].0),
                                    );
                                }
                            }
                        }
                    }
                    return Ok(false);
                } else {
                    self.pos = start - 1;
                    proof {
                        assert(lex_lt(es[start - 1].0, fk@));
                        let sp = self.pos as int;
                        assert forall|j: int| sp < j < n implies lex_le(
                            fk@,
                            (#[trigger] es[j]).0,
                        ) by {
                            if j > start as int {
                                crate::bytes_util::lemma_lex_le_lt_trans(
                                    fk@,
                                    es[start as int].0,
                                    es[j].0,
                                );
                            }
                        }
                    }
                }
                let ghost s2 = self.pos as int;
                proof {
                    assert(s2 < n && lex_le(es[s2].0, fk@));
                    if snapshot_orderly(es) && target_prefix_free(es, target@) {
                        // Rows at or below the positioned row sit at or
                        // below the target's user key; rows above it sit
                        // strictly above.
                        assert forall|j: int| 0 <= j <= s2 implies lex_le(
                            spec_user_key((#[trigger] es[j]).0),
                            target@,
                        ) by {
                            if j < s2 {
                                if es[s2].0 == fk@ {
                                } else {
                                    crate::bytes_util::lemma_lex_lt_trans(es[j].0, es[s2].0, fk@);
                                }
                            }
                            lemma_row_uk_vs_target_bwd(es, target@, j);
                        }
                        assert forall|j: int| s2 < j < es.len() implies lex_lt(
                            target@,
                            spec_user_key((#[trigger] es[j]).0),
                        ) by {
                            assert(lex_le(fk@, es[j].0));
                            assert(lex_lt(fk@, es[j].0)) by {
                                if fk@ == es[j].0 {
                                    assert(lex_le(es[s2].0, es[j].0));
                                    assert(lex_lt(es[s2].0, es[j].0));
                                    crate::bytes_util::lemma_lex_trichotomy(es[s2].0, es[j].0);
                                }
                            }
                            lemma_row_uk_vs_target_bwd(es, target@, j);
                        }
                    }
                }
                let found = self.prev_inner(target);
                proof {
                    if snapshot_orderly(es) && self.spec_valid() {
                        let p = self.spec_pos();
                        if p < s2 {
                            assert(lex_lt(es[p].0, es[s2].0));
                            if es[s2].0 == fk@ {
                            } else {
                                crate::bytes_util::lemma_lex_lt_trans(es[p].0, es[s2].0, fk@);
                            }
                        }
                    }
                    if snapshot_orderly(es) && target_prefix_free(es, target@) {
                        let has = exists|m: int|
                            0 <= m < es.len() && row_visible(es, ts, m) && spec_user_key(
                                (#[trigger] es[m]).0,
                            ) == target@;
                        assert forall|m: int|
                            s2 < m < es.len() implies !(row_visible(es, ts, m) && spec_user_key(
                            (#[trigger] es[m]).0,
                        ) == target@) by {
                            if spec_user_key(es[m].0) == target@ {
                                crate::bytes_util::lemma_lex_trichotomy(
                                    target@,
                                    spec_user_key(es[m].0),
                                );
                            }
                        }
                        if self.spec_valid() {
                            let p = self.spec_pos();
                            assert(lex_le(spec_user_key(es[p].0), target@));
                            assert forall|m: int|
                                p < m < es.len() && is_surface(es, ts, m) implies lex_lt(
                                target@,
                                spec_user_key(#[trigger] es[m].0),
                            ) by {
                                if m <= s2 {
                                    assert(!is_surface(es, ts, m));
                                }
                            }
                            if has {
                                let v = choose|m: int|
                                    0 <= m < es.len() && row_visible(es, ts, m) && spec_user_key(
                                        (#[trigger] es[m]).0,
                                    ) == target@;
                                assert(v <= s2);
                                if v >= p {
                                    assert(found);
                                } else {
                                    assert(lex_le(spec_user_key(es[v].0), spec_user_key(es[p].0)));
                                    crate::bytes_util::lemma_lex_le_lt_trans(
                                        target@,
                                        spec_user_key(es[p].0),
                                        target@,
                                    );
                                    assert(spec_user_key(es[p].0) == target@) by {
                                        crate::bytes_util::lemma_lex_trichotomy(
                                            spec_user_key(es[p].0),
                                            target@,
                                        );
                                    }
                                    assert(row_visible(es, ts, p));
                                    assert(found);
                                }
                            }
                            assert(found == has);
                        } else {
                            assert forall|m: int|
                                0 <= m < es.len() && is_surface(es, ts, m) implies lex_lt(
                                target@,
                                spec_user_key(#[trigger] es[m].0),
                            ) by {
                                if m <= s2 {
                                    assert(!is_surface(es, ts, m));
                                }
                            }
                            if has {
                                let v = choose|m: int|
                                    0 <= m < es.len() && row_visible(es, ts, m) && spec_user_key(
                                        (#[trigger] es[m]).0,
                                    ) == target@;
                                assert(v <= s2);
                                assert(found);
                            }
                            assert(found == has);
                        }
                    }
                }
                Ok(found)
            },
        }
    }
}

/// Compare for the backward-seek boundary.
fn lex_le_probe(a: &[u8], b: &[u8]) -> (r: bool)
    ensures
        r == lex_le(a@, b@),
{
    match compare_bytes(a, b) {
        core::cmp::Ordering::Greater => false,
        _ => true,
    }
}

} // verus!
