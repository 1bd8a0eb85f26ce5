//! In-memory per-group raft log indices and kv side-channel.
//!
//! `MemStates` maps each raft group to a `MemState`: a dense array of
//! `EntryIndex` records starting at `first_index`, a mask watermark, and a
//! small kv map. `indices[i]` corresponds to raft index `first_index + i`.

use crate::bytes_util::bytes_to_vec;
use crate::error::{Error, Result};
use crate::kv_map::KvMap;
use vstd::prelude::*;

verus! {

/// Locates one raft entry's payload within a log file's compressed data
/// segment.
#[derive(Clone, Debug, PartialEq, Eq)]
pub struct EntryIndex {
    /// Prevents log entries with lower terms added from GC shadowing those
    /// with the same indices but with higher terms.
    pub term: u64,
    pub ctx: Vec<u8>,
    pub file_id: u64,
    pub block_offset: usize,
    pub block_len: usize,
    pub offset: usize,
    pub len: usize,
}

/// Field-wise equality of entry indices, comparing the context by contents.
pub open spec fn ei_matches(a: EntryIndex, b: EntryIndex) -> bool {
    &&& a.term == b.term
    &&& a.ctx@ == b.ctx@
    &&& a.file_id == b.file_id
    &&& a.block_offset == b.block_offset
    &&& a.block_len == b.block_len
    &&& a.offset == b.offset
    &&& a.len == b.len
}

/// Pointwise `ei_matches` between two index sequences.
pub open spec fn eis_match(a: Seq<EntryIndex>, b: Seq<EntryIndex>) -> bool {
    a.len() == b.len() && forall|i: int| 0 <= i < a.len() ==> ei_matches(#[trigger] a[i], b[i])
}

impl EntryIndex {
    /// Field-wise copy.
    pub fn duplicate(&self) -> (r: Self)
        ensures
            ei_matches(r, *self),
    {
        EntryIndex {
            term: self.term,
            ctx: bytes_to_vec(self.ctx.as_slice()),
            file_id: self.file_id,
            block_offset: self.block_offset,
            block_len: self.block_len,
            offset: self.offset,
            len: self.len,
        }
    }
}

/// State of one raft group.
pub struct MemState {
    first_index: u64,
    mask_index: u64,
    indices: Vec<EntryIndex>,
    kvs: KvMap,
}

impl MemState {
    pub closed spec fn spec_first_index(&self) -> u64 {
        self.first_index
    }

    pub closed spec fn spec_mask_index(&self) -> u64 {
        self.mask_index
    }

    pub closed spec fn spec_indices(&self) -> Seq<EntryIndex> {
        self.indices@
    }

    pub closed spec fn spec_kvs(&self) -> Map<Seq<u8>, Seq<u8>> {
        self.kvs@
    }

    /// One past the last raft index the group holds.
    pub open spec fn spec_next_index(&self) -> int {
        self.spec_first_index() + self.spec_indices().len()
    }

    pub closed spec fn wf(&self) -> bool {
        &&& self.first_index + self.indices@.len() <= u64::MAX
        &&& self.kvs.wf()
    }

    /// The group state equals the given components.
    pub open spec fn is_state(
        &self,
        first: u64,
        mask: u64,
        ind: Seq<EntryIndex>,
        kvs: Map<Seq<u8>, Seq<u8>>,
    ) -> bool {
        &&& self.spec_first_index() == first
        &&& self.spec_mask_index() == mask
        &&& self.spec_indices() == ind
        &&& self.spec_kvs() == kvs
    }

    fn new() -> (r: Self)
        ensures
            r.wf(),
            r.is_state(0, 0, Seq::<EntryIndex>::empty(), Map::<Seq<u8>, Seq<u8>>::empty()),
    {
        let r = MemState { first_index: 0, mask_index: 0, indices: Vec::new(), kvs: KvMap::new() };
        proof {
            assert(r.spec_indices() =~= Seq::<EntryIndex>::empty());
        }
        r
    }
}

/// Merge `ind` into `s` starting at position `off`: positions past the end
/// of `s` are appended verbatim; an overlapped position is overwritten only
/// if the incoming term is at least the existing term.
pub open spec fn spec_merge_indices(s: Seq<EntryIndex>, off: int, ind: Seq<EntryIndex>) -> Seq<
    EntryIndex,
>
    recommends
        0 <= off <= s.len(),
{
    Seq::new(
        vstd::math::max(s.len() as int, off + ind.len()) as nat,
        |p: int|
            if p < off {
                s[p]
            } else if p < s.len() {
                if p - off < ind.len() {
                    if s[p].term > ind[p - off].term {
                        s[p]
                    } else {
                        ind[p - off]
                    }
                } else {
                    s[p]
                }
            } else {
                ind[p - off]
            },
    )
}

/// Append semantics over a group's model: the new `(first_index, indices)`
/// pair, or the gap error.
pub open spec fn spec_append(
    first: u64,
    s: Seq<EntryIndex>,
    fi: u64,
    ind: Seq<EntryIndex>,
) -> Result<(u64, Seq<EntryIndex>)>
    recommends
        ind.len() > 0,
        first + s.len() <= u64::MAX,
        fi + ind.len() <= u64::MAX,
{
    let next = first + s.len();
    if next == 0 {
        Ok((fi, ind))
    } else if fi > next {
        Err(Error::RaftLogGap { start: next as u64, end: fi })
    } else if fi < first && ind.len() <= first - fi {
        Ok((first, s))
    } else if fi < first {
        Ok((first, spec_merge_indices(s, 0, ind.skip(first - fi))))
    } else {
        Ok((first, spec_merge_indices(s, fi - first, ind)))
    }
}

/// Truncate semantics: the retained prefix, or the gap error.
pub open spec fn spec_truncate(first: u64, s: Seq<EntryIndex>, index: u64) -> Result<
    Seq<EntryIndex>,
> {
    if index < first {
        Err(Error::RaftLogGap { start: index, end: first })
    } else if index >= first + s.len() {
        Ok(s)
    } else {
        Ok(s.take(index - first))
    }
}

/// Compact semantics: the new `(first_index, indices)` pair.
pub open spec fn spec_compact(first: u64, s: Seq<EntryIndex>, index: u64) -> (u64, Seq<
    EntryIndex,
>) {
    if index <= first {
        (first, s)
    } else if index > first + s.len() {
        (0, Seq::<EntryIndex>::empty())
    } else {
        (index as u64, s.skip(index - first))
    }
}

/// Mask semantics: the new `(first_index, mask_index, indices)` triple.
pub open spec fn spec_mask(first: u64, mask: u64, s: Seq<EntryIndex>, index: u64) -> (
    u64,
    u64,
    Seq<EntryIndex>,
) {
    if index > first + s.len() {
        (0, 0, Seq::<EntryIndex>::empty())
    } else {
        (first, index, s)
    }
}

/// Range-read semantics with strict bounds.
pub open spec fn spec_entries(first: u64, s: Seq<EntryIndex>, index: u64, max_len: int) -> Result<
    Seq<EntryIndex>,
> {
    if index < first {
        Err(Error::RaftLogGap { start: index, end: first })
    } else if index >= first + s.len() {
        Err(Error::RaftLogGap { start: (first + s.len()) as u64, end: index })
    } else {
        let start = index - first;
        let end = vstd::math::min(start + max_len, s.len() as int);
        Ok(s.subrange(start, end))
    }
}

/// Tolerant range-read semantics: clamp to the unmasked range; an empty
/// clamped range reads as `(0, empty)`.
pub open spec fn spec_may_entries(
    first: u64,
    mask: u64,
    s: Seq<EntryIndex>,
    index: u64,
    max_len: int,
    unmask: bool,
) -> (u64, Seq<EntryIndex>) {
    let lo = if unmask {
        first as int
    } else {
        vstd::math::max(mask as int, first as int)
    };
    let start_index = vstd::math::max(index as int, lo);
    let end_index = vstd::math::min(index + max_len, first + s.len());
    if start_index >= end_index {
        (0, Seq::<EntryIndex>::empty())
    } else {
        (start_index as u64, s.subrange(start_index - first, end_index - first))
    }
}

/// Merging the same batch twice changes nothing after the first merge.
pub proof fn lemma_merge_idempotent(s: Seq<EntryIndex>, off: int, ind: Seq<EntryIndex>)
    requires
        0 <= off <= s.len(),
    ensures
        spec_merge_indices(spec_merge_indices(s, off, ind), off, ind) == spec_merge_indices(
            s,
            off,
            ind,
        ),
{
    let m1 = spec_merge_indices(s, off, ind);
    let m2 = spec_merge_indices(m1, off, ind);
    assert(m1.len() == vstd::math::max(s.len() as int, off + ind.len()));
    assert(m2.len() == m1.len());
    assert forall|p: int| 0 <= p < m1.len() implies m2[p] == m1[p] by {
        if off <= p < off + ind.len() {
            assert(m1[p].term >= ind[p - off].term);
        }
    }
    assert(m2 =~= m1);
}

/// Raft append is idempotent: appending the same `(first_index, indices)`
/// batch onto the state the first append produced leaves that state as it
/// is.
pub proof fn lemma_append_idempotent(first: u64, s: Seq<EntryIndex>, fi: u64, ind: Seq<EntryIndex>)
    requires
        ind.len() > 0,
        first + s.len() <= u64::MAX,
        fi + ind.len() <= u64::MAX,
    ensures
        spec_append(first, s, fi, ind) matches Ok(fs) ==> spec_append(fs.0, fs.1, fi, ind)
            == Ok::<(u64, Seq<EntryIndex>), Error>(fs),
{
    let next = first + s.len();
    if next == 0 {
        // First append made the state (fi, ind); the second is a pure
        // overlap at offset 0 with equal terms everywhere.
        assert(spec_merge_indices(ind, 0, ind) =~= ind);
        assert(spec_append(first, s, fi, ind) == Ok::<(u64, Seq<EntryIndex>), Error>((fi, ind)));
        assert(spec_append(fi, ind, fi, ind) == Ok::<(u64, Seq<EntryIndex>), Error>((fi, ind)));
    } else if fi > next {
        // Gap: nothing to show.
    } else if fi < first && ind.len() <= first - fi {
        // Batch fully outdated: the first append was a no-op.
        assert(spec_append(first, s, fi, ind) == Ok::<(u64, Seq<EntryIndex>), Error>((first, s)));
    } else if fi < first {
        let ind2 = ind.skip(first - fi);
        let m1 = spec_merge_indices(s, 0, ind2);
        lemma_merge_idempotent(s, 0, ind2);
        assert(m1.len() >= s.len());
        assert(spec_append(first, s, fi, ind) == Ok::<(u64, Seq<EntryIndex>), Error>((first, m1)));
        assert(spec_append(first, m1, fi, ind) == Ok::<(u64, Seq<EntryIndex>), Error>(
            (first, spec_merge_indices(m1, 0, ind2)),
        ));
    } else {
        let off = fi - first;
        let m1 = spec_merge_indices(s, off, ind);
        lemma_merge_idempotent(s, off, ind);
        assert(m1.len() >= s.len());
        assert(first + m1.len() >= fi);
        assert(spec_append(first, s, fi, ind) == Ok::<(u64, Seq<EntryIndex>), Error>((first, m1)));
        assert(spec_append(first, m1, fi, ind) == Ok::<(u64, Seq<EntryIndex>), Error>(
            (first, spec_merge_indices(m1, off, ind)),
        ));
    }
}

/// Raft compact is idempotent, and a compact at or below an already applied
/// index is a no-op.
pub proof fn lemma_compact_idempotent(first: u64, s: Seq<EntryIndex>, i: u64, j: u64)
    requires
        j <= i,
    ensures
        ({
            let c1 = spec_compact(first, s, i);
            spec_compact(c1.0, c1.1, i) == c1 && spec_compact(c1.0, c1.1, j) == c1
        }),
{
    let c1 = spec_compact(first, s, i);
    if i <= first {
    } else if i > first + s.len() {
        assert(spec_compact(c1.0, c1.1, i) == c1);
        assert(spec_compact(c1.0, c1.1, j) == c1) by {
            if j > 0 {
                assert(spec_compact(0, Seq::<EntryIndex>::empty(), j) == (
                    0u64,
                    Seq::<EntryIndex>::empty(),
                ));
            }
        }
    } else {
    }
}

/// Per-group states, keyed by group id.
pub struct MemStates {
    states: Vec<(u64, MemState)>,
}

impl Default for MemStates {
    fn default() -> (r: Self)
        ensures
            r.wf(),
            r.spec_groups().len() == 0,
    {
        MemStates { states: Vec::new() }
    }
}

impl MemStates {
    pub closed spec fn spec_groups(&self) -> Seq<(u64, MemState)> {
        self.states@
    }

    pub open spec fn has_group(&self, g: u64) -> bool {
        exists|i: int| 0 <= i < self.spec_groups().len() && (#[trigger] self.spec_groups()[i]).0
            == g
    }

    pub open spec fn spec_index_of(&self, g: u64) -> int {
        choose|i: int| 0 <= i < self.spec_groups().len() && (#[trigger] self.spec_groups()[i]).0
            == g
    }

    pub open spec fn spec_state(&self, g: u64) -> MemState {
        self.spec_groups()[self.spec_index_of(g)].1
    }

    pub open spec fn wf(&self) -> bool {
        &&& forall|i: int, j: int|
            0 <= i < j < self.spec_groups().len() ==> (#[trigger] self.spec_groups()[i]).0 != (
            #[trigger] self.spec_groups()[j]).0
        &&& forall|i: int|
            0 <= i < self.spec_groups().len() ==> (#[trigger] self.spec_groups()[i]).1.wf()
    }

    /// All groups of `pre` unchanged, and `group` freshly registered with
    /// empty state.
    pub open spec fn group_added(&self, pre: MemStates, group: u64) -> bool {
        &&& forall|g: u64| #[trigger] self.has_group(g) <==> (pre.has_group(g) || g == group)
        &&& forall|g: u64|
            g != group && pre.has_group(g) ==> #[trigger] self.spec_state(g)
                == pre.spec_state(g)
        &&& self.has_group(group)
        &&& self.spec_state(group).is_state(
            0,
            0,
            Seq::<EntryIndex>::empty(),
            Map::<Seq<u8>, Seq<u8>>::empty(),
        )
    }

    /// All groups outside `group` unchanged, and `group` set to the given
    /// components.
    pub open spec fn group_set_to(
        &self,
        pre: MemStates,
        group: u64,
        first: u64,
        mask: u64,
        ind: Seq<EntryIndex>,
        kvs: Map<Seq<u8>, Seq<u8>>,
    ) -> bool {
        &&& forall|g: u64| #[trigger] self.has_group(g) <==> pre.has_group(g)
        &&& forall|g: u64|
            g != group && pre.has_group(g) ==> #[trigger] self.spec_state(g)
                == pre.spec_state(g)
        &&& self.has_group(group)
        &&& self.spec_state(group).is_state(first, mask, ind, kvs)
    }

    proof fn lemma_index_at(&self, g: u64, i: int)
        requires
            self.wf(),
            0 <= i < self.spec_groups().len(),
            self.spec_groups()[i].0 == g,
        ensures
            self.has_group(g),
            self.spec_index_of(g) == i,
            self.spec_state(g) == self.spec_groups()[i].1,
    {
        assert(self.has_group(g));
        let j = self.spec_index_of(g);
        if j != i {
            if j < i {
                assert(self.spec_groups()[j].0 != self.spec_groups()[i].0);
            } else {
                assert(self.spec_groups()[i].0 != self.spec_groups()[j].0);
            }
        }
    }

    /// `post` differs from `pre` only at position `i`, replaced by
    /// `(group, st)` where `pre` already held `group` at `i`.
    proof fn lemma_replace_at(pre: MemStates, post: MemStates, i: int, group: u64, st: MemState)
        requires
            pre.wf(),
            0 <= i < pre.spec_groups().len(),
            pre.spec_groups()[i].0 == group,
            post.spec_groups() == pre.spec_groups().update(i, (group, st)),
            st.wf(),
        ensures
            post.wf(),
            post.has_group(group),
            post.spec_state(group) == st,
            forall|g: u64| #[trigger] post.has_group(g) <==> pre.has_group(g),
            forall|g: u64|
                g != group && pre.has_group(g) ==> #[trigger] post.spec_state(g)
                    == pre.spec_state(g),
    {
        assert forall|g: u64| #[trigger] post.has_group(g) <==> pre.has_group(g) by {
            if post.has_group(g) {
                let j = choose|j: int|
                    0 <= j < post.spec_groups().len() && (#[trigger] post.spec_groups()[j]).0
                        == g;
                assert(pre.spec_groups()[j].0 == g);
            }
            if pre.has_group(g) {
                let j = choose|j: int|
                    0 <= j < pre.spec_groups().len() && (#[trigger] pre.spec_groups()[j]).0 == g;
                assert(post.spec_groups()[j].0 == g);
            }
        }
        post.lemma_index_at(group, i);
        assert forall|g: u64| g != group && pre.has_group(g) implies #[trigger] post.spec_state(g)
            == pre.spec_state(g) by {
            let j = choose|j: int|
                0 <= j < pre.spec_groups().len() && (#[trigger] pre.spec_groups()[j]).0 == g;
            pre.lemma_index_at(g, j);
            assert(post.spec_groups()[j].0 == g);
            post.lemma_index_at(g, j);
        }
    }

    pub fn new() -> (r: Self)
        ensures
            r.wf(),
            r.spec_groups().len() == 0,
            forall|g: u64| !r.has_group(g),
    {
        MemStates { states: Vec::new() }
    }

    /// Index of the group in the backing vector.
    fn find_group(&self, group: u64) -> (r: Option<usize>)
        requires
            self.wf(),
        ensures
            match r {
                Some(i) => {
                    &&& i < self.spec_groups().len()
                    &&& self.spec_groups()[i as int].0 == group
                    &&& self.has_group(group)
                    &&& self.spec_index_of(group) == i
                    &&& self.spec_state(group) == self.spec_groups()[i as int].1
                },
                None => !self.has_group(group),
            },
    {
        let n = self.states.len();
        let mut i: usize = 0;
        while i < n
            invariant
                self.wf(),
                i <= n,
                n == self.spec_groups().len(),
                forall|j: int| 0 <= j < i ==> (#[trigger] self.spec_groups()[j]).0 != group,
            decreases n - i,
        {
            if self.states[i].0 == group {
                proof {
                    self.lemma_index_at(group, i as int);
                }
                return Some(i);
            }
            i += 1;
        }
        proof {
            if self.has_group(group) {
                let j = choose|j: int|
                    0 <= j < self.spec_groups().len() && (#[trigger] self.spec_groups()[j]).0
                        == group;
                assert(false);
            }
        }
        None
    }

    /// Register a new group with empty state.
    pub fn add_group(&mut self, group: u64) -> (r: Result<()>)
        requires
            old(self).wf(),
        ensures
            final(self).wf(),
            old(self).has_group(group) ==> r == Err::<(), Error>(
                Error::GroupAlreadyExists(group),
            ) && final(self).spec_groups() == old(self).spec_groups(),
            !old(self).has_group(group) ==> r is Ok && final(self).group_added(*old(self), group),
    {
        if self.find_group(group).is_some() {
            return Err(Error::GroupAlreadyExists(group));
        }
        let st = MemState::new();
        let ghost pre = *self;
        self.states.push((group, st));
        proof {
            let n = pre.spec_groups().len();
            assert(self.spec_groups() =~= pre.spec_groups().push((group, st)));
            assert forall|i: int, j: int|
                0 <= i < j < self.spec_groups().len() implies (
            #[trigger] self.spec_groups()[i]).0 != (#[trigger] self.spec_groups()[j]).0 by {
                if j == n {
                    assert(pre.spec_groups()[i].0 != group);
                }
            }
            self.lemma_index_at(group, n as int);
            assert forall|g: u64| #[trigger] self.has_group(g) <==> pre.has_group(g) || g
                == group by {
                if self.has_group(g) && g != group {
                    let j = choose|j: int|
                        0 <= j < self.spec_groups().len() && (#[trigger] self.spec_groups()[j]).0
                            == g;
                    assert(pre.spec_groups()[j].0 == g);
                }
                if pre.has_group(g) {
                    let j = choose|j: int|
                        0 <= j < pre.spec_groups().len() && (#[trigger] pre.spec_groups()[j]).0
                            == g;
                    assert(self.spec_groups()[j].0 == g);
                }
            }
            assert forall|g: u64| g != group && pre.has_group(g) implies #[trigger] self.spec_state(
                g,
            ) == pre.spec_state(g) by {
                let j = choose|j: int|
                    0 <= j < pre.spec_groups().len() && (#[trigger] pre.spec_groups()[j]).0 == g;
                pre.lemma_index_at(g, j);
                assert(self.spec_groups()[j].0 == g);
                self.lemma_index_at(g, j);
            }
        }
        Ok(())
    }

    /// Register a group if absent; report whether it was added.
    pub fn may_add_group(&mut self, group: u64) -> (r: bool)
        requires
            old(self).wf(),
        ensures
            final(self).wf(),
            r == !old(self).has_group(group),
            old(self).has_group(group) ==> final(self).spec_groups() == old(self).spec_groups(),
            !old(self).has_group(group) ==> final(self).group_added(*old(self), group),
    {
        match self.add_group(group) {
            Ok(_) => true,
            Err(_) => false,
        }
    }

    /// Clear a group's state and bar it from further appends.
    ///
    /// The group stays registered: a removed group must never be used again.
    pub fn remove_group(&mut self, group: u64) -> (r: Result<()>)
        requires
            old(self).wf(),
        ensures
            final(self).wf(),
            !old(self).has_group(group) ==> r == Err::<(), Error>(Error::GroupNotExists(group))
                && final(self).spec_groups() == old(self).spec_groups(),
            old(self).has_group(group) ==> r is Ok && final(self).group_set_to(
                *old(self),
                group,
                u64::MAX,
                old(self).spec_state(group).spec_mask_index(),
                Seq::<EntryIndex>::empty(),
                Map::<Seq<u8>, Seq<u8>>::empty(),
            ),
    {
        let idx = match self.find_group(group) {
            Some(i) => i,
            None => {
                return Err(Error::GroupNotExists(group));
            },
        };
        let ghost pre = *self;
        let (g, mut state) = self.states.remove(idx);
        state.first_index = u64::MAX;
        state.indices.clear();
        state.kvs.clear();
        self.states.insert(idx, (g, state));
        proof {
            assert(self.spec_groups() =~= pre.spec_groups().update(idx as int, (g, state)));
            Self::lemma_replace_at(pre, *self, idx as int, group, state);
            assert(state.spec_indices() =~= Seq::<EntryIndex>::empty());
        }
        Ok(())
    }

    /// The term recorded for `index`, or `None` when out of range.
    pub fn term(&self, group: u64, index: u64) -> (r: Result<Option<u64>>)
        requires
            self.wf(),
        ensures
            !self.has_group(group) ==> r == Err::<Option<u64>, Error>(Error::GroupNotExists(group)),
            self.has_group(group) ==> {
                let st = self.spec_state(group);
                if index < st.spec_first_index() || index >= st.spec_next_index() {
                    r == Ok::<Option<u64>, Error>(None)
                } else {
                    r == Ok::<Option<u64>, Error>(
                        Some(st.spec_indices()[index - st.spec_first_index()].term),
                    )
                }
            },
    {
        let idx = match self.find_group(group) {
            Some(i) => i,
            None => {
                return Err(Error::GroupNotExists(group));
            },
        };
        let state = &self.states[idx].1;
        if index < state.first_index || index - state.first_index >= state.indices.len() as u64 {
            Ok(None)
        } else {
            let i = (index - state.first_index) as usize;
            Ok(Some(state.indices[i].term))
        }
    }

    /// The context bytes recorded for `index`, or `None` when out of range.
    pub fn ctx(&self, group: u64, index: u64) -> (r: Result<Option<Vec<u8>>>)
        requires
            self.wf(),
        ensures
            !self.has_group(group) ==> r == Err::<Option<Vec<u8>>, Error>(
                Error::GroupNotExists(group),
            ),
            self.has_group(group) ==> {
                let st = self.spec_state(group);
                if index < st.spec_first_index() || index >= st.spec_next_index() {
                    r == Ok::<Option<Vec<u8>>, Error>(None)
                } else {
                    r matches Ok(o) && o matches Some(c) && c@ == st.spec_indices()[index
                        - st.spec_first_index()].ctx@
                }
            },
    {
        let idx = match self.find_group(group) {
            Some(i) => i,
            None => {
                return Err(Error::GroupNotExists(group));
            },
        };
        let state = &self.states[idx].1;
        if index < state.first_index || index - state.first_index >= state.indices.len() as u64 {
            Ok(None)
        } else {
            let i = (index - state.first_index) as usize;
            Ok(Some(bytes_to_vec(state.indices[i].ctx.as_slice())))
        }
    }

    /// The first visible index: `Err` carries it when the group holds no
    /// visible entries.
    pub fn first_index(&self, group: u64, unmask: bool) -> (r: Result<
        core::result::Result<u64, u64>,
    >)
        requires
            self.wf(),
        ensures
            !self.has_group(group) ==> r == Err::<core::result::Result<u64, u64>, Error>(
                Error::GroupNotExists(group),
            ),
            self.has_group(group) ==> {
                let st = self.spec_state(group);
                let lo = if unmask || st.spec_first_index() > st.spec_mask_index() {
                    st.spec_first_index()
                } else {
                    st.spec_mask_index()
                };
                if st.spec_next_index() <= lo {
                    r == Ok::<core::result::Result<u64, u64>, Error>(Err(lo))
                } else {
                    r == Ok::<core::result::Result<u64, u64>, Error>(Ok(lo))
                }
            },
    {
        let idx = match self.find_group(group) {
            Some(i) => i,
            None => {
                return Err(Error::GroupNotExists(group));
            },
        };
        let state = &self.states[idx].1;
        let lo = if unmask || state.first_index > state.mask_index {
            state.first_index
        } else {
            state.mask_index
        };
        if state.first_index + state.indices.len() as u64 <= lo {
            Ok(Err(lo))
        } else {
            Ok(Ok(lo))
        }
    }

    /// One past the last visible index: `Err` carries it when the group
    /// holds no visible entries.
    pub fn next_index(&self, group: u64, unmask: bool) -> (r: Result<
        core::result::Result<u64, u64>,
    >)
        requires
            self.wf(),
        ensures
            !self.has_group(group) ==> r == Err::<core::result::Result<u64, u64>, Error>(
                Error::GroupNotExists(group),
            ),
            self.has_group(group) ==> {
                let st = self.spec_state(group);
                let lo = if unmask || st.spec_first_index() > st.spec_mask_index() {
                    st.spec_first_index()
                } else {
                    st.spec_mask_index()
                };
                let next = st.spec_next_index() as u64;
                if next <= lo {
                    r == Ok::<core::result::Result<u64, u64>, Error>(Err(next))
                } else {
                    r == Ok::<core::result::Result<u64, u64>, Error>(Ok(next))
                }
            },
    {
        let idx = match self.find_group(group) {
            Some(i) => i,
            None => {
                return Err(Error::GroupNotExists(group));
            },
        };
        let state = &self.states[idx].1;
        let lo = if unmask || state.first_index > state.mask_index {
            state.first_index
        } else {
            state.mask_index
        };
        let next = state.first_index + state.indices.len() as u64;
        if next <= lo {
            Ok(Err(next))
        } else {
            Ok(Ok(next))
        }
    }

    /// Store a kv pair in the group's side channel.
    pub fn put(&mut self, group: u64, key: Vec<u8>, value: Vec<u8>) -> (r: Result<()>)
        requires
            old(self).wf(),
        ensures
            final(self).wf(),
            !old(self).has_group(group) ==> r == Err::<(), Error>(Error::GroupNotExists(group))
                && final(self).spec_groups() == old(self).spec_groups(),
            old(self).has_group(group) ==> r is Ok && final(self).group_set_to(
                *old(self),
                group,
                old(self).spec_state(group).spec_first_index(),
                old(self).spec_state(group).spec_mask_index(),
                old(self).spec_state(group).spec_indices(),
                old(self).spec_state(group).spec_kvs().insert(key@, value@),
            ),
    {
        let idx = match self.find_group(group) {
            Some(i) => i,
            None => {
                return Err(Error::GroupNotExists(group));
            },
        };
        let ghost pre = *self;
        let (g, mut state) = self.states.remove(idx);
        state.kvs.insert(key, value);
        self.states.insert(idx, (g, state));
        proof {
            assert(self.spec_groups() =~= pre.spec_groups().update(idx as int, (g, state)));
            Self::lemma_replace_at(pre, *self, idx as int, group, state);
        }
        Ok(())
    }

    /// Delete a kv pair from the group's side channel.
    pub fn delete(&mut self, group: u64, key: Vec<u8>) -> (r: Result<()>)
        requires
            old(self).wf(),
        ensures
            final(self).wf(),
            !old(self).has_group(group) ==> r == Err::<(), Error>(Error::GroupNotExists(group))
                && final(self).spec_groups() == old(self).spec_groups(),
            old(self).has_group(group) ==> r is Ok && final(self).group_set_to(
                *old(self),
                group,
                old(self).spec_state(group).spec_first_index(),
                old(self).spec_state(group).spec_mask_index(),
                old(self).spec_state(group).spec_indices(),
                old(self).spec_state(group).spec_kvs().remove(key@),
            ),
    {
        let idx = match self.find_group(group) {
            Some(i) => i,
            None => {
                return Err(Error::GroupNotExists(group));
            },
        };
        let ghost pre = *self;
        let (g, mut state) = self.states.remove(idx);
        state.kvs.remove(key.as_slice());
        self.states.insert(idx, (g, state));
        proof {
            assert(self.spec_groups() =~= pre.spec_groups().update(idx as int, (g, state)));
            Self::lemma_replace_at(pre, *self, idx as int, group, state);
        }
        Ok(())
    }

    /// Append raft log indices.
    ///
    /// An empty group accepts any `first_index`. A batch starting past the
    /// group's next index is a gap and is refused. Leading indices older
    /// than `first_index` are dropped; indices past the next index are
    /// appended verbatim; an overlapped index is overwritten only if the
    /// incoming term is at least the existing term.
    pub fn append(&mut self, group: u64, first_index: u64, indices: Vec<EntryIndex>) -> (r: Result<
        (),
    >)
        requires
            old(self).wf(),
            indices@.len() > 0,
            first_index + indices@.len() <= u64::MAX,
        ensures
            final(self).wf(),
            !old(self).has_group(group) ==> r == Err::<(), Error>(Error::GroupNotExists(group))
                && final(self).spec_groups() == old(self).spec_groups(),
            old(self).has_group(group) ==> {
                let st = old(self).spec_state(group);
                match spec_append(
                    st.spec_first_index(),
                    st.spec_indices(),
                    first_index,
                    indices@,
                ) {
                    Ok(fs) => r is Ok && final(self).group_set_to(
                        *old(self),
                        group,
                        fs.0,
                        st.spec_mask_index(),
                        fs.1,
                        st.spec_kvs(),
                    ),
                    Err(e) => r == Err::<(), Error>(e) && final(self).spec_groups() == old(
                        self,
                    ).spec_groups(),
                }
            },
    {
        let ghost fi0 = first_index;
        let ghost ind0 = indices@;
        let mut first_index = first_index;
        let mut indices = indices;
        let idx = match self.find_group(group) {
            Some(i) => i,
            None => {
                return Err(Error::GroupNotExists(group));
            },
        };
        let ghost pre = *self;
        let (g, mut state) = self.states.remove(idx);
        let ghost st0 = state;

        let mut state_next: u64 = state.first_index + state.indices.len() as u64;

        if state_next == 0 {
            // Empty group: accept any first index.
            state.first_index = first_index;
            state_next = first_index;
        } else if first_index > state_next {
            self.states.insert(idx, (g, state));
            proof {
                assert(self.spec_groups() =~= pre.spec_groups());
            }
            return Err(Error::RaftLogGap { start: state_next, end: first_index });
        } else if first_index < state.first_index {
            // Ignore outdated leading indices.
            let k64 = state.first_index - first_index;
            if k64 >= indices.len() as u64 {
                self.states.insert(idx, (g, state));
                proof {
                    assert(self.spec_groups() =~= pre.spec_groups().update(
                        idx as int,
                        (g, state),
                    ));
                    Self::lemma_replace_at(pre, *self, idx as int, group, state);
                }
                return Ok(());
            }
            let k = k64 as usize;
            indices = indices.split_off(k);
            first_index = state.first_index;
        }

        let ghost ind2 = indices@;
        let ghost s0 = state.indices@;
        let off = (first_index - state.first_index) as usize;
        let ghost off_g = off as int;
        let ghost merged = spec_merge_indices(s0, off_g, ind2);
        proof {
            assert(off_g + (state_next - first_index) == s0.len());
            assert(state.first_index + off_g + ind2.len() == fi0 + ind0.len());
        }

        // Directly append new indices.
        let m = (state_next - first_index) as usize;
        if m < indices.len() {
            let mut tail = indices.split_off(m);
            state.indices.append(&mut tail);
        }

        // Update overlapping indices, newest term wins ties.
        proof {
            assert(indices@ =~= ind2.take(indices@.len() as int));
            assert(state.indices@.len() == merged.len());
            assert forall|p: int|
                off_g + indices@.len() <= p < merged.len() implies state.indices@[p]
                == merged[p] by {
                if p >= s0.len() {
                    assert(state.indices@[p] == ind2[p - off_g]);
                } else {
                    assert(p - off_g >= indices@.len());
                    assert(state.indices@[p] == s0[p]);
                }
            }
        }
        let ghost first_adj = state.first_index;
        proof {
            assert(first_adj + s0.len() <= u64::MAX);
            assert(first_adj + off_g + ind2.len() == fi0 + ind0.len());
        }
        while indices.len() > 0
            invariant
                off_g == off,
                0 <= off_g,
                indices@.len() <= ind2.len(),
                off_g + indices@.len() <= s0.len(),
                state.first_index == first_adj,
                state.mask_index == st0.spec_mask_index(),
                state.kvs == st0.kvs,
                st0.kvs.wf(),
                first_adj + s0.len() <= u64::MAX,
                first_adj + off_g + ind2.len() == fi0 + ind0.len(),
                fi0 + ind0.len() <= u64::MAX,
                merged == spec_merge_indices(s0, off_g, ind2),
                indices@ == ind2.take(indices@.len() as int),
                state.indices@.len() == merged.len(),
                forall|p: int|
                    0 <= p < off_g + indices@.len() && p < s0.len() ==> state.indices@[p] == s0[p],
                forall|p: int|
                    off_g + indices@.len() <= p < merged.len() ==> state.indices@[p] == merged[p],
            decreases indices@.len(),
        {
            let n = indices.len();
            let total = state.indices.len();
            let e = indices.pop().unwrap();
            proof {
                assert(off_g + n <= merged.len());
            }
            let pos = off + n - 1;
            proof {
                assert(e == ind2.take(n as int)[n - 1]);
                assert(e == ind2[n - 1]);
                assert(indices@ =~= ind2.take(indices@.len() as int));
                assert(state.indices@[pos as int] == s0[pos as int]);
            }
            if state.indices[pos].term <= e.term {
                let ghost before = state.indices@;
                state.indices.remove(pos);
                state.indices.insert(pos, e);
                proof {
                    assert(state.indices@ =~= before.update(pos as int, e));
                }
            }
            proof {
                assert(merged[pos as int] == (if s0[pos as int].term > ind2[n - 1].term {
                    s0[pos as int]
                } else {
                    ind2[n - 1]
                }));
            }
        }
        proof {
            assert(state.indices@ =~= merged);
            assert(state.first_index + merged.len() <= u64::MAX) by {
                assert(merged.len() == vstd::math::max(s0.len() as int, off_g + ind2.len()));
            }
        }
        self.states.insert(idx, (g, state));
        proof {
            assert(self.spec_groups() =~= pre.spec_groups().update(idx as int, (g, state)));
            Self::lemma_replace_at(pre, *self, idx as int, group, state);
            let st = pre.spec_state(group);
            assert(st == st0);
            if st0.spec_next_index() == 0 {
                assert(s0 =~= Seq::<EntryIndex>::empty());
                assert(merged =~= ind0);
            } else if fi0 < st0.spec_first_index() {
                assert(ind2 =~= ind0.skip(st0.spec_first_index() - fi0));
            }
        }
        Ok(())
    }

    /// Truncate raft log of the given group from the given index on.
    pub fn truncate(&mut self, group: u64, index: u64) -> (r: Result<()>)
        requires
            old(self).wf(),
        ensures
            final(self).wf(),
            !old(self).has_group(group) ==> r == Err::<(), Error>(Error::GroupNotExists(group))
                && final(self).spec_groups() == old(self).spec_groups(),
            old(self).has_group(group) ==> {
                let st = old(self).spec_state(group);
                match spec_truncate(st.spec_first_index(), st.spec_indices(), index) {
                    Ok(s2) => r is Ok && final(self).group_set_to(
                        *old(self),
                        group,
                        st.spec_first_index(),
                        st.spec_mask_index(),
                        s2,
                        st.spec_kvs(),
                    ),
                    Err(e) => r == Err::<(), Error>(e) && final(self).spec_groups() == old(
                        self,
                    ).spec_groups(),
                }
            },
    {
        let idx = match self.find_group(group) {
            Some(i) => i,
            None => {
                return Err(Error::GroupNotExists(group));
            },
        };
        let ghost pre = *self;
        let (g, mut state) = self.states.remove(idx);

        if index < state.first_index {
            let first = state.first_index;
            self.states.insert(idx, (g, state));
            proof {
                assert(self.spec_groups() =~= pre.spec_groups());
            }
            return Err(Error::RaftLogGap { start: index, end: first });
        }
        if index - state.first_index < state.indices.len() as u64 {
            // Tolerate truncation past the end as a no-op.
            let len = (index - state.first_index) as usize;
            state.indices.truncate(len);
        }
        self.states.insert(idx, (g, state));
        proof {
            assert(self.spec_groups() =~= pre.spec_groups().update(idx as int, (g, state)));
            Self::lemma_replace_at(pre, *self, idx as int, group, state);
            let st = pre.spec_state(group);
            if index < st.spec_next_index() {
                assert(state.spec_indices() =~= st.spec_indices().take(
                    index - st.spec_first_index(),
                ));
            }
        }
        Ok(())
    }

    /// Compact any indices before the given index.
    ///
    /// Idempotent: an index at or before `first_index` is a no-op. An index
    /// past the next index clears all indices and resets `first_index` to 0.
    pub fn compact(&mut self, group: u64, index: u64) -> (r: Result<()>)
        requires
            old(self).wf(),
        ensures
            final(self).wf(),
            !old(self).has_group(group) ==> r == Err::<(), Error>(Error::GroupNotExists(group))
                && final(self).spec_groups() == old(self).spec_groups(),
            old(self).has_group(group) ==> {
                let st = old(self).spec_state(group);
                let fs = spec_compact(st.spec_first_index(), st.spec_indices(), index);
                r is Ok && final(self).group_set_to(
                    *old(self),
                    group,
                    fs.0,
                    st.spec_mask_index(),
                    fs.1,
                    st.spec_kvs(),
                )
            },
    {
        let idx = match self.find_group(group) {
            Some(i) => i,
            None => {
                return Err(Error::GroupNotExists(group));
            },
        };
        let ghost pre = *self;
        let (g, mut state) = self.states.remove(idx);

        if index <= state.first_index {
            // Outdated compact command.
        } else if index - state.first_index > state.indices.len() as u64 {
            // Past the end: clear all indices and accept anyway.
            state.indices.clear();
            state.first_index = 0;
        } else {
            let len = (index - state.first_index) as usize;
            let tail = state.indices.split_off(len);
            state.indices = tail;
            state.first_index = index;
        }
        self.states.insert(idx, (g, state));
        proof {
            assert(self.spec_groups() =~= pre.spec_groups().update(idx as int, (g, state)));
            Self::lemma_replace_at(pre, *self, idx as int, group, state);
            let st = pre.spec_state(group);
            let fs = spec_compact(st.spec_first_index(), st.spec_indices(), index);
            assert(state.spec_indices() =~= fs.1);
        }
        Ok(())
    }

    /// Mask any indices before the given index.
    ///
    /// Masked indices are not deleted, but are visible only to reads that
    /// pass `unmask`.
    pub fn mask(&mut self, group: u64, index: u64) -> (r: Result<()>)
        requires
            old(self).wf(),
        ensures
            final(self).wf(),
            !old(self).has_group(group) ==> r == Err::<(), Error>(Error::GroupNotExists(group))
                && final(self).spec_groups() == old(self).spec_groups(),
            old(self).has_group(group) ==> {
                let st = old(self).spec_state(group);
                let fs = spec_mask(
                    st.spec_first_index(),
                    st.spec_mask_index(),
                    st.spec_indices(),
                    index,
                );
                r is Ok && final(self).group_set_to(
                    *old(self),
                    group,
                    fs.0,
                    fs.1,
                    fs.2,
                    st.spec_kvs(),
                )
            },
    {
        let idx = match self.find_group(group) {
            Some(i) => i,
            None => {
                return Err(Error::GroupNotExists(group));
            },
        };
        let ghost pre = *self;
        let (g, mut state) = self.states.remove(idx);

        if index > state.first_index && index - state.first_index > state.indices.len() as u64 {
            state.indices.clear();
            state.first_index = 0;
            state.mask_index = 0;
        } else {
            state.mask_index = index;
        }
        self.states.insert(idx, (g, state));
        proof {
            assert(self.spec_groups() =~= pre.spec_groups().update(idx as int, (g, state)));
            Self::lemma_replace_at(pre, *self, idx as int, group, state);
            let st = pre.spec_state(group);
            let fs = spec_mask(
                st.spec_first_index(),
                st.spec_mask_index(),
                st.spec_indices(),
                index,
            );
            assert(state.spec_indices() =~= fs.2);
        }
        Ok(())
    }

    /// Range read with strict bounds: reading behind `first_index` or at or
    /// past the next index is a gap error.
    pub fn entries(&self, group: u64, index: u64, max_len: usize) -> (r: Result<Vec<EntryIndex>>)
        requires
            self.wf(),
        ensures
            !self.has_group(group) ==> r == Err::<Vec<EntryIndex>, Error>(
                Error::GroupNotExists(group),
            ),
            self.has_group(group) ==> {
                let st = self.spec_state(group);
                match spec_entries(
                    st.spec_first_index(),
                    st.spec_indices(),
                    index,
                    max_len as int,
                ) {
                    Ok(es) => r matches Ok(v) && eis_match(v@, es),
                    Err(e) => r == Err::<Vec<EntryIndex>, Error>(e),
                }
            },
    {
        let idx = match self.find_group(group) {
            Some(i) => i,
            None => {
                return Err(Error::GroupNotExists(group));
            },
        };
        let state = &self.states[idx].1;
        if index < state.first_index {
            return Err(Error::RaftLogGap { start: index, end: state.first_index });
        }
        if index - state.first_index >= state.indices.len() as u64 {
            return Err(
                Error::RaftLogGap {
                    start: state.first_index + state.indices.len() as u64,
                    end: index,
                },
            );
        }
        let start = (index - state.first_index) as usize;
        let end = if max_len >= state.indices.len() - start {
            state.indices.len()
        } else {
            start + max_len
        };
        Ok(Self::dup_indices_range(&state.indices, start, end))
    }

    /// Tolerant range read: clamp to the visible range; an empty clamped
    /// range reads as `(0, [])`.
    pub fn may_entries(&self, group: u64, index: u64, max_len: usize, unmask: bool) -> (r: Result<
        (u64, Vec<EntryIndex>),
    >)
        requires
            self.wf(),
        ensures
            !self.has_group(group) ==> r == Err::<(u64, Vec<EntryIndex>), Error>(
                Error::GroupNotExists(group),
            ),
            self.has_group(group) ==> {
                let st = self.spec_state(group);
                let se = spec_may_entries(
                    st.spec_first_index(),
                    st.spec_mask_index(),
                    st.spec_indices(),
                    index,
                    max_len as int,
                    unmask,
                );
                r matches Ok(p) && p.0 == se.0 && eis_match(p.1@, se.1)
            },
    {
        let idx = match self.find_group(group) {
            Some(i) => i,
            None => {
                return Err(Error::GroupNotExists(group));
            },
        };
        let state = &self.states[idx].1;
        let lo = if unmask || state.first_index > state.mask_index {
            state.first_index
        } else {
            state.mask_index
        };
        let start_index = if index > lo {
            index
        } else {
            lo
        };
        let next = state.first_index + state.indices.len() as u64;
        let max_len64 = max_len as u64;
        let end_index = if max_len64 > u64::MAX - index {
            next
        } else if index + max_len64 < next {
            index + max_len64
        } else {
            next
        };
        if start_index >= end_index {
            return Ok((0, Vec::new()));
        }
        let start = (start_index - state.first_index) as usize;
        let end = (end_index - state.first_index) as usize;
        Ok((start_index, Self::dup_indices_range(&state.indices, start, end)))
    }

    /// Field-wise copy of `s[start..end]`.
    fn dup_indices_range(s: &Vec<EntryIndex>, start: usize, end: usize) -> (r: Vec<EntryIndex>)
        requires
            start <= end <= s@.len(),
        ensures
            eis_match(r@, s@.subrange(start as int, end as int)),
    {
        let mut r: Vec<EntryIndex> = Vec::new();
        let mut i: usize = start;
        while i < end
            invariant
                start <= i <= end <= s@.len(),
                r@.len() == i - start,
                forall|j: int|
                    0 <= j < r@.len() ==> ei_matches(#[trigger] r@[j], s@[start + j]),
            decreases end - i,
        {
            r.push(s[i].duplicate());
            i += 1;
        }
        r
    }

    /// Look up a kv pair in the group's side channel.
    pub fn get(&self, group: u64, key: Vec<u8>) -> (r: Result<Option<Vec<u8>>>)
        requires
            self.wf(),
        ensures
            !self.has_group(group) ==> r == Err::<Option<Vec<u8>>, Error>(
                Error::GroupNotExists(group),
            ),
            self.has_group(group) ==> {
                let kvs = self.spec_state(group).spec_kvs();
                if kvs.contains_key(key@) {
                    r matches Ok(o) && o matches Some(v) && v@ == kvs[key@]
                } else {
                    r == Ok::<Option<Vec<u8>>, Error>(None)
                }
            },
    {
        let idx = match self.find_group(group) {
            Some(i) => i,
            None => {
                return Err(Error::GroupNotExists(group));
            },
        };
        let state = &self.states[idx].1;
        match state.kvs.get(key.as_slice()) {
            Some(v) => Ok(Some(bytes_to_vec(v.as_slice()))),
            None => Ok(None),
        }
    }
}

} // verus!
