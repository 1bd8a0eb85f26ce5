//! Multi-group raft log store.
//!
//! Combines the append-only log for durability with the in-memory per-group
//! indices for reads. On open, every replayed entry is applied to the index
//! and kv state exactly as the live writer applies it.

use crate::error::{Error, Result};
use crate::raft_entry::{
    entry_image, record_decodable, spec_compact_payload, spec_delete_payload, spec_put_payload,
    Entry, RaftLogBatch,
};
use crate::raft_log::{Log, LogDir, LogOptions};
use crate::utils::lz4_of;
use vstd::bytes::{spec_u32_from_le_bytes, spec_u64_from_le_bytes};
use crate::raft_mem::{
    spec_append, spec_compact, spec_entries, spec_merge_indices, EntryIndex, MemStates,
};
use vstd::prelude::*;

verus! {


/// Abstract value of an entry index record.
pub struct EntryIndexV {
    pub term: u64,
    pub ctx: Seq<u8>,
    pub file_id: u64,
    pub block_offset: int,
    pub block_len: int,
    pub offset: int,
    pub len: int,
}

pub open spec fn eiv_of(e: EntryIndex) -> EntryIndexV {
    EntryIndexV {
        term: e.term,
        ctx: e.ctx@,
        file_id: e.file_id,
        block_offset: e.block_offset as int,
        block_len: e.block_len as int,
        offset: e.offset as int,
        len: e.len as int,
    }
}

pub open spec fn eivs_of(s: Seq<EntryIndex>) -> Seq<EntryIndexV> {
    s.map_values(|e: EntryIndex| eiv_of(e))
}

/// Abstract state of one raft group.
pub struct GroupV {
    pub first_index: u64,
    pub mask_index: u64,
    pub indices: Seq<EntryIndexV>,
    pub kvs: Map<Seq<u8>, Seq<u8>>,
}

pub open spec fn empty_group_v() -> GroupV {
    GroupV {
        first_index: 0,
        mask_index: 0,
        indices: Seq::<EntryIndexV>::empty(),
        kvs: Map::<Seq<u8>, Seq<u8>>::empty(),
    }
}

/// The abstract value of the whole per-group state.
pub open spec fn model_of(states: MemStates) -> Map<u64, GroupV> {
    Map::new(
        |g: u64| states.has_group(g),
        |g: u64|
            GroupV {
                first_index: states.spec_state(g).spec_first_index(),
                mask_index: states.spec_state(g).spec_mask_index(),
                indices: eivs_of(states.spec_state(g).spec_indices()),
                kvs: states.spec_state(g).spec_kvs(),
            },
    )
}

/// Abstract merge, the twin of `spec_merge_indices`.
pub open spec fn spec_merge_v(s: Seq<EntryIndexV>, off: int, ind: Seq<EntryIndexV>) -> Seq<
    EntryIndexV,
> {
    Seq::new(
        vstd::math::max(s.len() as int, off + ind.len()) as nat,
        |p: int|
            if p < off {
                s[p]
            } else if p < s.len() {
                if p - off < ind.len() {
                    if s[p].term > ind[p - off].term {
                        s[p]
                    } else {
                        ind[p - off]
                    }
                } else {
                    s[p]
                }
            } else {
                ind[p - off]
            },
    )
}

/// Abstract append, the twin of `spec_append`.
pub open spec fn spec_append_v(
    first: u64,
    s: Seq<EntryIndexV>,
    fi: u64,
    ind: Seq<EntryIndexV>,
) -> Result<(u64, Seq<EntryIndexV>)> {
    let next = first + s.len();
    if next == 0 {
        Ok((fi, ind))
    } else if fi > next {
        Err(Error::RaftLogGap { start: next as u64, end: fi })
    } else if fi < first && ind.len() <= first - fi {
        Ok((first, s))
    } else if fi < first {
        Ok((first, spec_merge_v(s, 0, ind.skip(first - fi))))
    } else {
        Ok((first, spec_merge_v(s, fi - first, ind)))
    }
}

/// Abstract compact, the twin of `spec_compact`.
pub open spec fn spec_compact_v(first: u64, s: Seq<EntryIndexV>, index: u64) -> (u64, Seq<
    EntryIndexV,
>) {
    if index <= first {
        (first, s)
    } else if index > first + s.len() {
        (0, Seq::<EntryIndexV>::empty())
    } else {
        (index as u64, s.skip(index - first))
    }
}

proof fn lemma_append_commutes(first: u64, s: Seq<EntryIndex>, fi: u64, ind: Seq<EntryIndex>)
    ensures
        match spec_append(first, s, fi, ind) {
            Ok(fs) => spec_append_v(first, eivs_of(s), fi, eivs_of(ind)) == Ok::<
                (u64, Seq<EntryIndexV>),
                Error,
            >((fs.0, eivs_of(fs.1))),
            Err(e) => spec_append_v(first, eivs_of(s), fi, eivs_of(ind)) == Err::<
                (u64, Seq<EntryIndexV>),
                Error,
            >(e),
        },
{
    let next = first + s.len();
    if next == 0 {
    } else if fi > next {
    } else if fi < first && ind.len() <= first - fi {
    } else if fi < first {
        let k = first - fi;
        assert(eivs_of(ind.skip(k as int)) =~= eivs_of(ind).skip(k as int));
        assert(eivs_of(spec_merge_indices(s, 0, ind.skip(k as int))) =~= spec_merge_v(
            eivs_of(s),
            0,
            eivs_of(ind).skip(k as int),
        ));
    } else {
        let off = fi - first;
        assert(eivs_of(spec_merge_indices(s, off as int, ind)) =~= spec_merge_v(
            eivs_of(s),
            off as int,
            eivs_of(ind),
        ));
    }
}

proof fn lemma_compact_commutes(first: u64, s: Seq<EntryIndex>, index: u64)
    ensures
        ({
            let fs = spec_compact(first, s, index);
            spec_compact_v(first, eivs_of(s), index) == (fs.0, eivs_of(fs.1))
        }),
{
    if index <= first {
    } else if index > first + s.len() {
        assert(eivs_of(Seq::<EntryIndex>::empty()) =~= Seq::<EntryIndexV>::empty());
    } else {
        assert(eivs_of(s.skip(index - first)) =~= eivs_of(s).skip(index - first));
    }
}

/// One replayed operation, as the live writer would apply it.
pub enum OpV {
    Append { group: u64, first_index: u64, indices: Seq<EntryIndexV> },
    Compact { group: u64, index: u64 },
    Put { group: u64, key: Seq<u8>, value: Seq<u8> },
    Delete { group: u64, key: Seq<u8> },
}

/// The per-entry lengths of a batch payload.
pub open spec fn payload_lens(payload: Seq<u8>, count: int) -> Seq<u32> {
    Seq::new(count as nat, |j: int| spec_u32_from_le_bytes(payload.subrange(28 + 4 * j, 32 + 4 * j)))
}

/// Parse one replayed record into the operation it carries.
pub open spec fn spec_parse_op(file_id: u64, write_offset: int, tag: u8, payload: Seq<u8>) -> Option<
    OpV,
> {
    if tag == 0 {
        if payload.len() < 28 {
            None
        } else {
            let count = spec_u32_from_le_bytes(payload.subrange(24, 28)) as int;
            let first_index = spec_u64_from_le_bytes(payload.subrange(16, 24));
            if count >= 1 && 28 + 4 * count <= payload.len() && first_index + count <= u64::MAX {
                Some(
                    OpV::Append {
                        group: spec_u64_from_le_bytes(payload.subrange(0, 8)),
                        first_index,
                        indices: Seq::new(
                            count as nat,
                            |i: int|
                                EntryIndexV {
                                    term: spec_u64_from_le_bytes(payload.subrange(8, 16)),
                                    ctx: Seq::<u8>::empty(),
                                    file_id,
                                    block_offset: write_offset + 37 + 4 * count,
                                    block_len: payload.len() - 28 - 4 * count,
                                    offset: crate::raft_entry::spec_offset_of(
                                        payload_lens(payload, count),
                                        i,
                                    ),
                                    len: payload_lens(payload, count)[i] as int,
                                },
                        ),
                    },
                )
            } else {
                None
            }
        }
    } else if tag == 1 {
        if payload.len() == 16 {
            Some(
                OpV::Compact {
                    group: spec_u64_from_le_bytes(payload.subrange(0, 8)),
                    index: spec_u64_from_le_bytes(payload.subrange(8, 16)),
                },
            )
        } else {
            None
        }
    } else if tag == 2 {
        if payload.len() < 16 {
            None
        } else {
            let klen = spec_u32_from_le_bytes(payload.subrange(8, 12)) as int;
            if 16 + klen <= payload.len() {
                Some(
                    OpV::Put {
                        group: spec_u64_from_le_bytes(payload.subrange(0, 8)),
                        key: payload.subrange(12, 12 + klen),
                        value: payload.subrange(16 + klen, payload.len() as int),
                    },
                )
            } else {
                None
            }
        }
    } else if tag == 3 {
        if payload.len() >= 12 && spec_u32_from_le_bytes(payload.subrange(8, 12)) as int
            == payload.len() - 12 {
            Some(
                OpV::Delete {
                    group: spec_u64_from_le_bytes(payload.subrange(0, 8)),
                    key: payload.subrange(12, payload.len() as int),
                },
            )
        } else {
            None
        }
    } else {
        None
    }
}

/// Apply one operation to the abstract state, creating the group
/// idempotently first, exactly as the live writer applies it.
pub open spec fn spec_apply(m: Map<u64, GroupV>, op: OpV) -> Option<Map<u64, GroupV>> {
    match op {
        OpV::Append { group, first_index, indices } => {
            let m1 = if m.contains_key(group) {
                m
            } else {
                m.insert(group, empty_group_v())
            };
            let st = m1[group];
            match spec_append_v(st.first_index, st.indices, first_index, indices) {
                Ok(fs) => Some(
                    m1.insert(
                        group,
                        GroupV {
                            first_index: fs.0,
                            mask_index: st.mask_index,
                            indices: fs.1,
                            kvs: st.kvs,
                        },
                    ),
                ),
                Err(_) => None,
            }
        },
        OpV::Compact { group, index } => {
            let m1 = if m.contains_key(group) {
                m
            } else {
                m.insert(group, empty_group_v())
            };
            let st = m1[group];
            let fs = spec_compact_v(st.first_index, st.indices, index);
            Some(
                m1.insert(
                    group,
                    GroupV {
                        first_index: fs.0,
                        mask_index: st.mask_index,
                        indices: fs.1,
                        kvs: st.kvs,
                    },
                ),
            )
        },
        OpV::Put { group, key, value } => {
            let m1 = if m.contains_key(group) {
                m
            } else {
                m.insert(group, empty_group_v())
            };
            let st = m1[group];
            Some(
                m1.insert(
                    group,
                    GroupV {
                        first_index: st.first_index,
                        mask_index: st.mask_index,
                        indices: st.indices,
                        kvs: st.kvs.insert(key, value),
                    },
                ),
            )
        },
        OpV::Delete { group, key } => {
            let m1 = if m.contains_key(group) {
                m
            } else {
                m.insert(group, empty_group_v())
            };
            let st = m1[group];
            Some(
                m1.insert(
                    group,
                    GroupV {
                        first_index: st.first_index,
                        mask_index: st.mask_index,
                        indices: st.indices,
                        kvs: st.kvs.remove(key),
                    },
                ),
            )
        },
    }
}

/// Every replayed record is a genuine entry image and sits at a position
/// whose envelope fits the address space: on such records recovery owes
/// success whenever the fold itself goes through.
pub open spec fn records_replayable(reps: Seq<(u64, int, u8, Seq<u8>)>) -> bool {
    forall|i: int|
        0 <= i < reps.len() ==> record_decodable((#[trigger] reps[i]).2, reps[i].3) && reps[i].1
            + reps[i].3.len() + 9 <= usize::MAX
}

/// Fold the replayed records over the abstract state.
pub open spec fn spec_replay_model(
    m: Map<u64, GroupV>,
    records: Seq<(u64, int, u8, Seq<u8>)>,
) -> Option<Map<u64, GroupV>>
    decreases records.len(),
{
    if records.len() == 0 {
        Some(m)
    } else {
        let rec = records.first();
        match spec_parse_op(rec.0, rec.1, rec.2, rec.3) {
            Some(op) => match spec_apply(m, op) {
                Some(m2) => spec_replay_model(m2, records.drop_first()),
                None => None,
            },
            None => None,
        }
    }
}


/// Creating a group idempotently inserts an empty group into the model.
proof fn lemma_model_add_group(pre: MemStates, post: MemStates, g: u64)
    requires
        pre.wf(),
        post.wf(),
        pre.has_group(g) ==> post.spec_groups() == pre.spec_groups(),
        !pre.has_group(g) ==> post.group_added(pre, g),
    ensures
        model_of(post) == (if model_of(pre).contains_key(g) {
            model_of(pre)
        } else {
            model_of(pre).insert(g, empty_group_v())
        }),
{
    if pre.has_group(g) {
        assert(model_of(post) =~= model_of(pre));
    } else {
        assert(eivs_of(Seq::<EntryIndex>::empty()) =~= Seq::<EntryIndexV>::empty());
        assert(model_of(post) =~= model_of(pre).insert(g, empty_group_v()));
    }
}

/// Replacing one group's components updates the model at that key.
proof fn lemma_model_group_update(
    pre: MemStates,
    post: MemStates,
    g: u64,
    first: u64,
    mask: u64,
    ind: Seq<EntryIndex>,
    kvs: Map<Seq<u8>, Seq<u8>>,
)
    requires
        pre.wf(),
        post.wf(),
        pre.has_group(g),
        post.group_set_to(pre, g, first, mask, ind, kvs),
    ensures
        model_of(post) == model_of(pre).insert(
            g,
            GroupV { first_index: first, mask_index: mask, indices: eivs_of(ind), kvs },
        ),
{
    assert(model_of(post) =~= model_of(pre).insert(
        g,
        GroupV { first_index: first, mask_index: mask, indices: eivs_of(ind), kvs },
    ));
}

/// Options for opening a raft log store.
#[derive(Clone, Debug)]
pub struct RaftLogStoreOptions {
    /// Where the log segments live; the caller loads and stores the
    /// directory there.
    pub log_dir_path: String,
    /// A log file is frozen once it grows past this size.
    pub log_file_capacity: usize,
    /// Budget for decompressed-segment caching in a concurrent deployment;
    /// the sequential store decompresses per read.
    pub block_cache_capacity: usize,
}

/// Multi-group raft log store: append-only log plus in-memory indices.
pub struct RaftLogStore {
    log: Log,
    states: MemStates,
}

impl RaftLogStore {
    pub closed spec fn spec_states(&self) -> MemStates {
        self.states
    }

    pub closed spec fn spec_log(&self) -> Log {
        self.log
    }

    pub closed spec fn wf(&self) -> bool {
        &&& self.log.wf()
        &&& self.states.wf()
    }

    /// Open the store over a log directory: replay every record of every
    /// file in write order and apply it to the in-memory state exactly as
    /// the live writer would, creating groups idempotently. On success the
    /// recovered state is the fold of the directory's replayed records.
    pub fn open(dir: LogDir, options: &RaftLogStoreOptions) -> (r: Result<RaftLogStore>)
        requires
            forall|i: int, j: int|
                0 <= i < j < dir.files@.len() ==> (#[trigger] dir.files@[i]).id < (
                #[trigger] dir.files@[j]).id,
            forall|i: int|
                0 <= i < dir.files@.len() ==> (#[trigger] dir.files@[i]).id < u64::MAX,
            options.log_file_capacity <= 0x1000_0000,
        ensures
            r matches Ok(s) ==> s.wf() && spec_replay_model(
                Map::<u64, GroupV>::empty(),
                crate::raft_log::spec_dir_replay(dir.files@),
            ) == Some(model_of(s.spec_states())),
            spec_replay_model(
                Map::<u64, GroupV>::empty(),
                crate::raft_log::spec_dir_replay(dir.files@),
            ) is Some && records_replayable(crate::raft_log::spec_dir_replay(dir.files@))
                ==> r is Ok,
    {
        let ghost dir_files = dir.files@;
        let (log, records) = Log::open(
            dir,
            LogOptions { log_file_capacity: options.log_file_capacity },
        );
        let mut states = MemStates::new();
        let ghost all = crate::raft_log::record_views(records@);
        proof {
            assert(model_of(states) =~= Map::<u64, GroupV>::empty());
            assert(all.skip(0) =~= all);
        }
        let n = records.len();
        let ghost good = spec_replay_model(Map::<u64, GroupV>::empty(), all) is Some
            && records_replayable(all);
        let mut ri: usize = 0;
        while ri < n
            invariant
                ri <= n,
                n == records@.len(),
                states.wf(),
                all == crate::raft_log::record_views(records@),
                dir_files == dir.files@,
                all == crate::raft_log::spec_dir_replay(dir_files),
                good == (spec_replay_model(Map::<u64, GroupV>::empty(), all) is Some
                    && records_replayable(all)),
                spec_replay_model(Map::<u64, GroupV>::empty(), all) == spec_replay_model(
                    model_of(states),
                    all.skip(ri as int),
                ),
            decreases n - ri,
        {
            let rec = &records[ri];
            let ghost rv = all[ri as int];
            let ghost m0 = model_of(states);
            proof {
                assert(rv == (rec.file_id, rec.offset as int, rec.tag, rec.payload@));
                assert(all.skip(ri as int).first() == rv);
                assert(all.skip(ri as int).drop_first() =~= all.skip(ri + 1));
            }
            let entry = match Entry::decode_payload(rec.tag, rec.payload.as_slice()) {
                Ok(e) => e,
                Err(e) => {
                    proof {
                        if good {
                            assert(record_decodable(all[ri as int].2, all[ri as int].3));
                            let w = choose|w: Entry|
                                #[trigger] entry_image(w, rec.tag, rec.payload@);
                            assert(w.wf() && rec.tag == w.spec_tag() && rec.payload@
                                == w.spec_payload());
                            assert(false);
                        }
                    }
                    return Err(e);
                },
            };
            match entry {
                Entry::RaftLogBatch(batch) => {
                    let group = batch.group();
                    let term = batch.term();
                    let first_index = batch.first_index();
                    let (dso, seg_len) = batch.data_segment_location();
                    if rec.offset > usize::MAX - 1 - dso {
                        proof {
                            if good {
                                assert(all[ri as int].1 + all[ri as int].3.len() + 9
                                    <= usize::MAX);
                                assert(false);
                            }
                        }
                        return Err(Error::Decode);
                    }
                    let block_offset = rec.offset + dso + 1;
                    let count = batch.len();
                    let ghost lens = batch.spec_lens();
                    let mut indices: Vec<EntryIndex> = Vec::new();
                    let mut i: usize = 0;
                    while i < count
                        invariant
                            i <= count,
                            count == batch.spec_lens().len(),
                            lens == batch.spec_lens(),
                            batch.shape_wf(),
                            indices@.len() == i,
                            forall|k: int|
                                0 <= k < i ==> {
                                    let e = #[trigger] indices@[k];
                                    &&& e.term == term
                                    &&& e.ctx@ == Seq::<u8>::empty()
                                    &&& e.file_id == rec.file_id
                                    &&& e.block_offset == block_offset
                                    &&& e.block_len == seg_len
                                    &&& e.offset == crate::raft_entry::spec_offset_of(lens, k)
                                    &&& e.len == lens[k]
                                },
                        decreases count - i,
                    {
                        let (offset, len) = batch.location(i);
                        indices.push(
                            EntryIndex {
                                term,
                                ctx: Vec::new(),
                                file_id: rec.file_id,
                                block_offset,
                                block_len: seg_len,
                                offset,
                                len,
                            },
                        );
                        i += 1;
                    }
                    let ghost op = OpV::Append {
                        group: batch.spec_group(),
                        first_index: batch.spec_first_index(),
                        indices: eivs_of(indices@),
                    };
                    proof {
                        batch.lemma_shape_bounds();
                        assert(payload_lens(rv.3, count as int) =~= batch.spec_lens());
                        assert(spec_parse_op(rv.0, rv.1, rv.2, rv.3) == Some(op)) by {
                            let want = spec_parse_op(rv.0, rv.1, rv.2, rv.3)->Some_0;
                            match want {
                                OpV::Append { group: g2, first_index: f2, indices: ind2 } => {
                                    assert(eivs_of(indices@) =~= ind2);
                                },
                                _ => {},
                            }
                        }
                    }
                    let ghost pre_states = states;
                    states.may_add_group(group);
                    let ghost mid_states = states;
                    let ghost ind_v = indices@;
                    proof {
                        lemma_model_add_group(pre_states, mid_states, group);
                        assert(first_index + indices@.len() <= u64::MAX);
                    }
                    match states.append(group, first_index, indices) {
                        Ok(_) => {},
                        Err(e) => {
                            proof {
                                if good {
                                    assert(spec_replay_model(m0, all.skip(ri as int)) is Some);
                                    assert(spec_apply(m0, op) is Some);
                                    let st = mid_states.spec_state(group);
                                    assert(model_of(mid_states)[group] == GroupV {
                                        first_index: st.spec_first_index(),
                                        mask_index: st.spec_mask_index(),
                                        indices: eivs_of(st.spec_indices()),
                                        kvs: st.spec_kvs(),
                                    });
                                    lemma_append_commutes(
                                        st.spec_first_index(),
                                        st.spec_indices(),
                                        first_index,
                                        ind_v,
                                    );
                                    assert(false);
                                }
                            }
                            return Err(e);
                        },
                    }
                    proof {
                        let st = mid_states.spec_state(group);
                        lemma_append_commutes(
                            st.spec_first_index(),
                            st.spec_indices(),
                            first_index,
                            indices@,
                        );
                        let fs = spec_append(
                            st.spec_first_index(),
                            st.spec_indices(),
                            first_index,
                            indices@,
                        )->Ok_0;
                        lemma_model_group_update(
                            mid_states,
                            states,
                            group,
                            fs.0,
                            st.spec_mask_index(),
                            fs.1,
                            st.spec_kvs(),
                        );
                        assert(model_of(mid_states)[group] == GroupV {
                            first_index: st.spec_first_index(),
                            mask_index: st.spec_mask_index(),
                            indices: eivs_of(st.spec_indices()),
                            kvs: st.spec_kvs(),
                        });
                        assert(spec_apply(m0, op) == Some(model_of(states)));
                    }
                },
                Entry::Compact { group, index } => {
                    let ghost op = OpV::Compact { group, index };
                    proof {
                        assert(spec_parse_op(rv.0, rv.1, rv.2, rv.3) == Some(op));
                    }
                    let ghost pre_states = states;
                    states.may_add_group(group);
                    let ghost mid_states = states;
                    proof {
                        lemma_model_add_group(pre_states, mid_states, group);
                    }
                    match states.compact(group, index) {
                        Ok(_) => {},
                        Err(e) => {
                            return Err(e);
                        },
                    }
                    proof {
                        let st = mid_states.spec_state(group);
                        lemma_compact_commutes(st.spec_first_index(), st.spec_indices(), index);
                        let fs = spec_compact(st.spec_first_index(), st.spec_indices(), index);
                        lemma_model_group_update(
                            mid_states,
                            states,
                            group,
                            fs.0,
                            st.spec_mask_index(),
                            fs.1,
                            st.spec_kvs(),
                        );
                        assert(model_of(mid_states)[group] == GroupV {
                            first_index: st.spec_first_index(),
                            mask_index: st.spec_mask_index(),
                            indices: eivs_of(st.spec_indices()),
                            kvs: st.spec_kvs(),
                        });
                        assert(spec_apply(m0, op) == Some(model_of(states)));
                    }
                },
                Entry::KvPut { group, key, value } => {
                    let ghost op = OpV::Put { group, key: key@, value: value@ };
                    proof {
                        assert(spec_parse_op(rv.0, rv.1, rv.2, rv.3) == Some(op));
                    }
                    let ghost pre_states = states;
                    states.may_add_group(group);
                    let ghost mid_states = states;
                    proof {
                        lemma_model_add_group(pre_states, mid_states, group);
                    }
                    let ghost kv = key@;
                    let ghost vv = value@;
                    match states.put(group, key, value) {
                        Ok(_) => {},
                        Err(e) => {
                            return Err(e);
                        },
                    }
                    proof {
                        let st = mid_states.spec_state(group);
                        lemma_model_group_update(
                            mid_states,
                            states,
                            group,
                            st.spec_first_index(),
                            st.spec_mask_index(),
                            st.spec_indices(),
                            st.spec_kvs().insert(kv, vv),
                        );
                        assert(model_of(mid_states)[group] == GroupV {
                            first_index: st.spec_first_index(),
                            mask_index: st.spec_mask_index(),
                            indices: eivs_of(st.spec_indices()),
                            kvs: st.spec_kvs(),
                        });
                        assert(spec_apply(m0, op) == Some(model_of(states)));
                    }
                },
                Entry::KvDelete { group, key } => {
                    let ghost op = OpV::Delete { group, key: key@ };
                    proof {
                        assert(spec_parse_op(rv.0, rv.1, rv.2, rv.3) == Some(op));
                    }
                    let ghost pre_states = states;
                    states.may_add_group(group);
                    let ghost mid_states = states;
                    proof {
                        lemma_model_add_group(pre_states, mid_states, group);
                    }
                    let ghost kv = key@;
                    match states.delete(group, key) {
                        Ok(_) => {},
                        Err(e) => {
                            return Err(e);
                        },
                    }
                    proof {
                        let st = mid_states.spec_state(group);
                        lemma_model_group_update(
                            mid_states,
                            states,
                            group,
                            st.spec_first_index(),
                            st.spec_mask_index(),
                            st.spec_indices(),
                            st.spec_kvs().remove(kv),
                        );
                        assert(model_of(mid_states)[group] == GroupV {
                            first_index: st.spec_first_index(),
                            mask_index: st.spec_mask_index(),
                            indices: eivs_of(st.spec_indices()),
                            kvs: st.spec_kvs(),
                        });
                        assert(spec_apply(m0, op) == Some(model_of(states)));
                    }
                },
            }
            ri += 1;
        }
        proof {
            assert(all.skip(n as int) =~= Seq::<(u64, int, u8, Seq<u8>)>::empty());
        }
        Ok(RaftLogStore { log, states })
    }

    /// Register a new raft group.
    pub fn add_group(&mut self, group: u64) -> (r: Result<()>)
        requires
            old(self).wf(),
        ensures
            final(self).wf(),
            old(self).spec_states().has_group(group) ==> r == Err::<(), Error>(
                Error::GroupAlreadyExists(group),
            ),
            !old(self).spec_states().has_group(group) ==> r is Ok && final(
                self
            ).spec_states().group_added(old(self).spec_states(), group),
    {
        self.states.add_group(group)
    }

    /// Clear a group's state; the group must never be used again.
    pub fn remove_group(&mut self, group: u64) -> (r: Result<()>)
        requires
            old(self).wf(),
        ensures
            final(self).wf(),
            !old(self).spec_states().has_group(group) ==> r == Err::<(), Error>(
                Error::GroupNotExists(group),
            ),
            old(self).spec_states().has_group(group) ==> r is Ok,
    {
        self.states.remove_group(group)
    }

    /// The index records a batch contributes, located against the write
    /// position its durable record received.
    pub open spec fn batch_indices_at(
        batch: RaftLogBatch,
        write_offset: int,
        file_id: u64,
        ind: Seq<EntryIndex>,
    ) -> bool {
        let n = batch.spec_lens().len() as int;
        &&& ind.len() == n
        &&& forall|i: int|
            0 <= i < n ==> {
                let e = #[trigger] ind[i];
                &&& e.term == batch.spec_term()
                &&& e.ctx@ == Seq::<u8>::empty()
                &&& e.file_id == file_id
                &&& e.block_offset == write_offset + 37 + 4 * n
                &&& e.block_len == batch.spec_segment().len()
                &&& e.offset == crate::raft_entry::spec_offset_of(batch.spec_lens(), i)
                &&& e.len == batch.spec_lens()[i]
            }
    }

    /// The log holds `bytes` at the located range of a file.
    pub open spec fn log_slice_is(log: Log, file_id: u64, off: int, len: int, bytes: Seq<u8>) -> bool {
        ||| (file_id == log.spec_active_id() && 0 <= off && off + len <= log.spec_active().len()
            && log.spec_active().subrange(off, off + len) == bytes)
        ||| (file_id != log.spec_active_id() && log.has_frozen(file_id) && 0 <= off && off + len
            <= log.spec_frozen_data(file_id).len() && log.spec_frozen_data(file_id).subrange(
            off,
            off + len,
        ) == bytes)
    }

    /// The located entry can be read back: the bytes at its block location
    /// are a genuine compression image and the entry slice lies within it.
    pub open spec fn entry_readable(log: Log, e: EntryIndex) -> bool {
        exists|orig: Seq<u8>|
            Self::log_slice_is(
                log,
                e.file_id,
                e.block_offset as int,
                e.block_len as int,
                #[trigger] lz4_of(orig),
            ) && e.offset + e.len <= orig.len()
    }

    /// Append a raft log batch: push it to the durable log, then record one
    /// entry index per sub-entry, locating each inside the batch's
    /// compressed data segment. Fails only when the log refuses the push,
    /// the group does not exist, or the batch opens a gap.
    pub fn append(&mut self, batch: RaftLogBatch) -> (r: Result<()>)
        requires
            old(self).wf(),
            batch.wf(),
        ensures
            final(self).wf(),
            ({
                let payload = batch.spec_payload();
                &&& (Log::spec_push_refused(old(self).spec_log(), 0, payload) ==> r
                    == Err::<(), Error>(Error::ObjectRange) && final(self).spec_log() == old(
                    self
                ).spec_log() && final(self).spec_states().spec_groups() == old(
                    self
                ).spec_states().spec_groups())
                &&& (!Log::spec_push_refused(old(self).spec_log(), 0, payload) ==> {
                    &&& Log::spec_pushed(
                        old(self).spec_log(),
                        final(self).spec_log(),
                        0,
                        payload,
                    )
                    &&& (!old(self).spec_states().has_group(batch.spec_group()) ==> r
                        == Err::<(), Error>(Error::GroupNotExists(batch.spec_group())) && final(
                        self
                    ).spec_states().spec_groups() == old(self).spec_states().spec_groups())
                    &&& (old(self).spec_states().has_group(batch.spec_group()) ==> exists|
                        ind: Seq<EntryIndex>,
                    |
                        {
                            let st = old(self).spec_states().spec_state(batch.spec_group());
                            &&& #[trigger] Self::batch_indices_at(
                                batch,
                                old(self).spec_log().spec_active().len() as int,
                                old(self).spec_log().spec_active_id(),
                                ind,
                            )
                            &&& match spec_append(
                                st.spec_first_index(),
                                st.spec_indices(),
                                batch.spec_first_index(),
                                ind,
                            ) {
                                Ok(fs) => r is Ok && final(self).spec_states().group_set_to(
                                    old(self).spec_states(),
                                    batch.spec_group(),
                                    fs.0,
                                    st.spec_mask_index(),
                                    fs.1,
                                    st.spec_kvs(),
                                ),
                                Err(e) => r == Err::<(), Error>(e) && final(
                                    self
                                ).spec_states().spec_groups() == old(
                                    self
                                ).spec_states().spec_groups(),
                            }
                        })
                })
            }),
    {
        proof {
            batch.lemma_wf_shape();
            batch.lemma_shape_bounds();
        }
        let group = batch.group();
        let term = batch.term();
        let first_index = batch.first_index();
        let (dso, seg_len) = batch.data_segment_location();
        let count = batch.len();
        let ghost lens = batch.spec_lens();
        let mut locations: Vec<(usize, usize)> = Vec::new();
        let mut i: usize = 0;
        while i < count
            invariant
                i <= count,
                count == batch.spec_lens().len(),
                batch.shape_wf(),
                locations@.len() == i,
                forall|k: int|
                    0 <= k < i ==> (#[trigger] locations@[k]).0 == crate::raft_entry::spec_offset_of(
                        batch.spec_lens(),
                        k,
                    ) && locations@[k].1 == batch.spec_lens()[k],
            decreases count - i,
        {
            let loc = batch.location(i);
            locations.push(loc);
            i += 1;
        }
        let ghost pre_log = self.log;
        let entry = Entry::RaftLogBatch(batch);
        let (file_id, write_offset, _write_len) = match self.log.push(&entry) {
            Ok(t) => t,
            Err(e) => {
                return Err(e);
            },
        };
        proof {
            // The active file fits its capacity and the segment location
            // fits the payload, so the block offset fits the machine.
            assert(pre_log == old(self).spec_log());
            pre_log.lemma_wf_bounds();
            assert(write_offset <= pre_log.spec_log_file_capacity());
            assert(write_offset + dso + 1 <= usize::MAX);
        }
        let block_offset = write_offset + dso + 1;
        let mut indices: Vec<EntryIndex> = Vec::new();
        let mut j: usize = 0;
        while j < count
            invariant
                j <= count,
                count == locations@.len(),
                count == lens.len(),
                indices@.len() == j,
                forall|k: int|
                    0 <= k < count ==> (#[trigger] locations@[k]).0
                        == crate::raft_entry::spec_offset_of(lens, k) && locations@[k].1 == lens[k],
                forall|k: int|
                    0 <= k < j ==> {
                        let e = #[trigger] indices@[k];
                        &&& e.term == term
                        &&& e.ctx@ == Seq::<u8>::empty()
                        &&& e.file_id == file_id
                        &&& e.block_offset == block_offset
                        &&& e.block_len == seg_len
                        &&& e.offset == crate::raft_entry::spec_offset_of(lens, k)
                        &&& e.len == lens[k]
                    },
            decreases count - j,
        {
            let (offset, len) = locations[j];
            indices.push(
                EntryIndex {
                    term,
                    ctx: Vec::new(),
                    file_id,
                    block_offset,
                    block_len: seg_len,
                    offset,
                    len,
                },
            );
            j += 1;
        }
        let ghost ind = indices@;
        proof {
            assert(Self::batch_indices_at(
                batch,
                pre_log.spec_active().len() as int,
                pre_log.spec_active_id(),
                ind,
            ));
            assert(first_index + indices@.len() <= u64::MAX);
        }
        let res = self.states.append(group, first_index, indices);
        proof {
            assert(self.log == *&self.log);
        }
        res
    }

    /// Mark all raft log entries before `index` of `group` reclaimable:
    /// push a compact record to the durable log, then compact the in-memory
    /// state. Fails only when the log refuses the push (id space exhausted)
    /// or the group does not exist; the record is pushed either way the
    /// group lookup goes, as the live writer does.
    pub fn compact(&mut self, group: u64, index: u64) -> (r: Result<()>)
        requires
            old(self).wf(),
        ensures
            final(self).wf(),
            ({
                let payload = spec_compact_payload(group, index);
                &&& (Log::spec_push_refused(old(self).spec_log(), 1, payload) ==> r
                    == Err::<(), Error>(Error::ObjectRange) && final(self).spec_log() == old(
                    self
                ).spec_log() && final(self).spec_states().spec_groups() == old(
                    self
                ).spec_states().spec_groups())
                &&& (!Log::spec_push_refused(old(self).spec_log(), 1, payload) ==> {
                    &&& Log::spec_pushed(
                        old(self).spec_log(),
                        final(self).spec_log(),
                        1,
                        payload,
                    )
                    &&& (!old(self).spec_states().has_group(group) ==> r == Err::<(), Error>(
                        Error::GroupNotExists(group),
                    ) && final(self).spec_states().spec_groups() == old(
                        self
                    ).spec_states().spec_groups())
                    &&& (old(self).spec_states().has_group(group) ==> r is Ok && {
                        let st = old(self).spec_states().spec_state(group);
                        let fs = spec_compact(st.spec_first_index(), st.spec_indices(), index);
                        final(self).spec_states().group_set_to(
                            old(self).spec_states(),
                            group,
                            fs.0,
                            st.spec_mask_index(),
                            fs.1,
                            st.spec_kvs(),
                        )
                    })
                })
            }),
    {
        let entry = Entry::Compact { group, index };
        match self.log.push(&entry) {
            Ok(_) => {},
            Err(e) => {
                proof {
                    assert(e == Error::ObjectRange);
                }
                return Err(e);
            },
        }
        self.states.compact(group, index)
    }

    /// Record a kv put on the group's side channel, through the log. The
    /// record's wire width caps the key and value sizes (a machine limit).
    pub fn put(&mut self, group: u64, key: Vec<u8>, value: Vec<u8>) -> (r: Result<()>)
        requires
            old(self).wf(),
            16 + key@.len() + value@.len() <= 0x1000_0000,
        ensures
            final(self).wf(),
            ({
                let payload = spec_put_payload(group, key@, value@);
                &&& (Log::spec_push_refused(old(self).spec_log(), 2, payload) ==> r
                    == Err::<(), Error>(Error::ObjectRange) && final(self).spec_log() == old(
                    self
                ).spec_log() && final(self).spec_states().spec_groups() == old(
                    self
                ).spec_states().spec_groups())
                &&& (!Log::spec_push_refused(old(self).spec_log(), 2, payload) ==> {
                    &&& Log::spec_pushed(
                        old(self).spec_log(),
                        final(self).spec_log(),
                        2,
                        payload,
                    )
                    &&& (!old(self).spec_states().has_group(group) ==> r == Err::<(), Error>(
                        Error::GroupNotExists(group),
                    ) && final(self).spec_states().spec_groups() == old(
                        self
                    ).spec_states().spec_groups())
                    &&& (old(self).spec_states().has_group(group) ==> r is Ok && {
                        let st = old(self).spec_states().spec_state(group);
                        final(self).spec_states().group_set_to(
                            old(self).spec_states(),
                            group,
                            st.spec_first_index(),
                            st.spec_mask_index(),
                            st.spec_indices(),
                            st.spec_kvs().insert(key@, value@),
                        )
                    })
                })
            }),
    {
        let entry = Entry::KvPut {
            group,
            key: crate::bytes_util::bytes_to_vec(key.as_slice()),
            value: crate::bytes_util::bytes_to_vec(value.as_slice()),
        };
        match self.log.push(&entry) {
            Ok(_) => {},
            Err(e) => {
                proof {
                    assert(e == Error::ObjectRange);
                }
                return Err(e);
            },
        }
        self.states.put(group, key, value)
    }

    /// Record a kv delete on the group's side channel, through the log. The
    /// record's wire width caps the key size (a machine limit).
    pub fn delete(&mut self, group: u64, key: Vec<u8>) -> (r: Result<()>)
        requires
            old(self).wf(),
            12 + key@.len() <= 0x1000_0000,
        ensures
            final(self).wf(),
            ({
                let payload = spec_delete_payload(group, key@);
                &&& (Log::spec_push_refused(old(self).spec_log(), 3, payload) ==> r
                    == Err::<(), Error>(Error::ObjectRange) && final(self).spec_log() == old(
                    self
                ).spec_log() && final(self).spec_states().spec_groups() == old(
                    self
                ).spec_states().spec_groups())
                &&& (!Log::spec_push_refused(old(self).spec_log(), 3, payload) ==> {
                    &&& Log::spec_pushed(
                        old(self).spec_log(),
                        final(self).spec_log(),
                        3,
                        payload,
                    )
                    &&& (!old(self).spec_states().has_group(group) ==> r == Err::<(), Error>(
                        Error::GroupNotExists(group),
                    ) && final(self).spec_states().spec_groups() == old(
                        self
                    ).spec_states().spec_groups())
                    &&& (old(self).spec_states().has_group(group) ==> r is Ok && {
                        let st = old(self).spec_states().spec_state(group);
                        final(self).spec_states().group_set_to(
                            old(self).spec_states(),
                            group,
                            st.spec_first_index(),
                            st.spec_mask_index(),
                            st.spec_indices(),
                            st.spec_kvs().remove(key@),
                        )
                    })
                })
            }),
    {
        let entry = Entry::KvDelete {
            group,
            key: crate::bytes_util::bytes_to_vec(key.as_slice()),
        };
        match self.log.push(&entry) {
            Ok(_) => {},
            Err(e) => {
                proof {
                    assert(e == Error::ObjectRange);
                }
                return Err(e);
            },
        }
        self.states.delete(group, key)
    }

    /// Read the payloads of raft entries `[index, index + max_len)` of
    /// `group`, with strict bounds. Reads succeed whenever every selected
    /// record's located bytes are a genuine compression image holding its
    /// slice, and then return exactly those slices.
    pub fn entries(&self, group: u64, index: u64, max_len: usize) -> (r: Result<Vec<Vec<u8>>>)
        requires
            self.wf(),
        ensures
            !self.spec_states().has_group(group) ==> r == Err::<Vec<Vec<u8>>, Error>(
                Error::GroupNotExists(group),
            ),
            self.spec_states().has_group(group) ==> {
                let st = self.spec_states().spec_state(group);
                match spec_entries(
                    st.spec_first_index(),
                    st.spec_indices(),
                    index,
                    max_len as int,
                ) {
                    Ok(es) => {
                        &&& ((forall|j: int|
                            0 <= j < es.len() ==> Self::entry_readable(
                                self.spec_log(),
                                #[trigger] es[j],
                            )) ==> r is Ok)
                        &&& (r matches Ok(v) ==> v@.len() == es.len() && (forall|
                            j: int,
                            orig: Seq<u8>,
                        |
                            #![trigger v@[j], lz4_of(orig)]
                            0 <= j < es.len() && Self::log_slice_is(
                                self.spec_log(),
                                es[j].file_id,
                                es[j].block_offset as int,
                                es[j].block_len as int,
                                lz4_of(orig),
                            ) && es[j].offset + es[j].len <= orig.len() ==> v@[j]@
                                == orig.subrange(es[j].offset as int, es[j].offset + es[j].len)))
                    },
                    Err(e) => r == Err::<Vec<Vec<u8>>, Error>(e),
                }
            },
    {
        let indices = match self.states.entries(group, index, max_len) {
            Ok(v) => v,
            Err(e) => {
                return Err(e);
            },
        };
        let ghost st = self.spec_states().spec_state(group);
        let ghost es = spec_entries(
            st.spec_first_index(),
            st.spec_indices(),
            index,
            max_len as int,
        )->Ok_0;
        let n = indices.len();
        let mut out: Vec<Vec<u8>> = Vec::new();
        let mut i: usize = 0;
        while i < n
            invariant
                i <= n,
                n == indices@.len(),
                out@.len() == i,
                self.wf(),
                self.spec_states().has_group(group),
                st == self.spec_states().spec_state(group),
                spec_entries(
                    st.spec_first_index(),
                    st.spec_indices(),
                    index,
                    max_len as int,
                ) is Ok,
                es == spec_entries(
                    st.spec_first_index(),
                    st.spec_indices(),
                    index,
                    max_len as int,
                )->Ok_0,
                crate::raft_mem::eis_match(indices@, es),
                forall|k: int, orig: Seq<u8>|
                    #![trigger out@[k], lz4_of(orig)]
                    0 <= k < i && Self::log_slice_is(
                        self.spec_log(),
                        es[k].file_id,
                        es[k].block_offset as int,
                        es[k].block_len as int,
                        lz4_of(orig),
                    ) && es[k].offset + es[k].len <= orig.len() ==> out@[k]@ == orig.subrange(
                        es[k].offset as int,
                        es[k].offset + es[k].len,
                    ),
            decreases n - i,
        {
            let data = match self.entry(&indices[i]) {
                Ok(d) => d,
                Err(e) => {
                    proof {
                        assert(crate::raft_mem::ei_matches(indices@[i as int], es[i as int]));
                        if Self::entry_readable(self.spec_log(), es[i as int]) {
                            let orig = choose|orig: Seq<u8>|
                                Self::log_slice_is(
                                    self.spec_log(),
                                    es[i as int].file_id,
                                    es[i as int].block_offset as int,
                                    es[i as int].block_len as int,
                                    #[trigger] lz4_of(orig),
                                ) && es[i as int].offset + es[i as int].len <= orig.len();
                            assert(Self::entry_readable(self.spec_log(), indices@[i as int]));
                            assert(false);
                        }
                    }
                    return Err(e);
                },
            };
            proof {
                assert(crate::raft_mem::ei_matches(indices@[i as int], es[i as int]));
            }
            out.push(data);
            i += 1;
        }
        Ok(out)
    }

    /// Look up a kv pair in the group's side channel.
    pub fn get(&self, group: u64, key: Vec<u8>) -> (r: Result<Option<Vec<u8>>>)
        requires
            self.wf(),
        ensures
            !self.spec_states().has_group(group) ==> r == Err::<Option<Vec<u8>>, Error>(
                Error::GroupNotExists(group),
            ),
            self.spec_states().has_group(group) ==> {
                let kvs = self.spec_states().spec_state(group).spec_kvs();
                if kvs.contains_key(key@) {
                    r matches Ok(o) && o matches Some(v) && v@ == kvs[key@]
                } else {
                    r == Ok::<Option<Vec<u8>>, Error>(None)
                }
            },
    {
        self.states.get(group, key)
    }

    /// Number of frozen log files.
    pub fn frozen_file_count(&self) -> (r: usize)
        ensures
            r == self.spec_log().spec_frozen().len(),
    {
        self.log.frozen_file_count()
    }

    /// Hand the log directory back, the active file included.
    pub fn into_dir(self) -> (r: LogDir)
        requires
            self.wf(),
        ensures
            forall|i: int, j: int|
                0 <= i < j < r.files@.len() ==> (#[trigger] r.files@[i]).id < (
                #[trigger] r.files@[j]).id,
            forall|i: int| 0 <= i < r.files@.len() ==> (#[trigger] r.files@[i]).id < u64::MAX
                || r.files@[i].id == self.spec_log().spec_active_id(),
    {
        self.log.into_dir()
    }

    /// Read one raft entry's payload: fetch the compressed data segment from
    /// the log, decompress it, and slice the entry out. Succeeds whenever
    /// the located bytes are a genuine compression image holding the slice,
    /// and then returns exactly that slice.
    fn entry(&self, index: &EntryIndex) -> (r: Result<Vec<u8>>)
        requires
            self.wf(),
        ensures
            Self::entry_readable(self.spec_log(), *index) ==> r is Ok,
            forall|orig: Seq<u8>|
                Self::log_slice_is(
                    self.spec_log(),
                    index.file_id,
                    index.block_offset as int,
                    index.block_len as int,
                    #[trigger] lz4_of(orig),
                ) && index.offset + index.len <= orig.len() ==> (r matches Ok(v) && v@
                    == orig.subrange(index.offset as int, index.offset + index.len)),
    {
        let raw = match self.log.read(index.file_id, index.block_offset, index.block_len) {
            Ok(v) => v,
            Err(e) => {
                proof {
                    assert forall|orig: Seq<u8>|
                        !(Self::log_slice_is(
                            self.spec_log(),
                            index.file_id,
                            index.block_offset as int,
                            index.block_len as int,
                            #[trigger] lz4_of(orig),
                        ) && index.offset + index.len <= orig.len()) by {}
                }
                return Err(e);
            },
        };
        let block = match RaftLogBatch::extract_data_segment(raw.as_slice()) {
            Ok(b) => b,
            Err(e) => {
                proof {
                    assert forall|orig: Seq<u8>|
                        !(Self::log_slice_is(
                            self.spec_log(),
                            index.file_id,
                            index.block_offset as int,
                            index.block_len as int,
                            #[trigger] lz4_of(orig),
                        ) && index.offset + index.len <= orig.len()) by {
                        if Self::log_slice_is(
                            self.spec_log(),
                            index.file_id,
                            index.block_offset as int,
                            index.block_len as int,
                            lz4_of(orig),
                        ) {
                            assert(raw@ == lz4_of(orig));
                        }
                    }
                }
                return Err(e);
            },
        };
        if index.offset > block.len() || index.len > block.len() - index.offset {
            proof {
                assert forall|orig: Seq<u8>|
                    !(Self::log_slice_is(
                        self.spec_log(),
                        index.file_id,
                        index.block_offset as int,
                        index.block_len as int,
                        #[trigger] lz4_of(orig),
                    ) && index.offset + index.len <= orig.len()) by {
                    if Self::log_slice_is(
                        self.spec_log(),
                        index.file_id,
                        index.block_offset as int,
                        index.block_len as int,
                        lz4_of(orig),
                    ) {
                        assert(raw@ == lz4_of(orig));
                        assert(block@ == orig);
                    }
                }
            }
            return Err(Error::Decode);
        }
        Ok(crate::bytes_util::subrange_to_vec(block.as_slice(), index.offset, index.offset
            + index.len))
    }
}

} // verus!
