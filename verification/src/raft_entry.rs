//! Raft log entry payloads.
//!
//! Four entry kinds ride the append log: a compressed batch of raft entries
//! from one group at one term, a compact command, and kv put/delete
//! commands. Payload layouts (all integers little-endian):
//!
//! ```plain
//! batch:   | group:u64 | term:u64 | first_index:u64 | n:u32 | len[0..n):u32 | segment |
//! compact: | group:u64 | index:u64 |
//! put:     | group:u64 | klen:u32 | key | vlen:u32 | value |
//! delete:  | group:u64 | klen:u32 | key |
//! ```
//!
//! The batch segment is the LZ4 compression of the concatenated raw entry
//! payloads; `len[i]` locates entry `i` inside the decompressed segment.

use crate::bytes_util::{bytes_to_vec, subrange_to_vec};
use crate::error::{Error, Result};
use crate::utils::{lz4_compress, lz4_decompress, lz4_of};
use vstd::bytes::{
    lemma_auto_spec_u32_to_from_le_bytes, lemma_auto_spec_u64_to_from_le_bytes,
    spec_u32_from_le_bytes, spec_u32_to_le_bytes, spec_u64_from_le_bytes, spec_u64_to_le_bytes,
    u32_from_le_bytes, u32_to_le_bytes, u64_from_le_bytes, u64_to_le_bytes,
};
use vstd::prelude::*;
use vstd::slice::slice_subrange;

verus! {

/// Offset of entry `i` inside the decompressed segment: the sum of the
/// preceding lengths.
pub open spec fn spec_offset_of(lens: Seq<u32>, i: int) -> int
    decreases i,
{
    if i <= 0 {
        0
    } else {
        spec_offset_of(lens, i - 1) + lens[i - 1]
    }
}

/// The wire bytes of a run of u32 values.
pub open spec fn spec_u32s_encoding(lens: Seq<u32>) -> Seq<u8>
    decreases lens.len(),
{
    if lens.len() == 0 {
        Seq::<u8>::empty()
    } else {
        spec_u32_to_le_bytes(lens.first()) + spec_u32s_encoding(lens.drop_first())
    }
}

/// A compressed segment bundling raft entries from one group at one term,
/// starting at `first_index`.
pub struct RaftLogBatch {
    group: u64,
    term: u64,
    first_index: u64,
    /// Byte length of each entry inside the decompressed segment.
    lens: Vec<u32>,
    /// LZ4 compression of the concatenated raw entries.
    data_segment: Vec<u8>,
    /// The decompressed segment contents.
    raw: Ghost<Seq<u8>>,
}

impl RaftLogBatch {
    pub closed spec fn spec_group(&self) -> u64 {
        self.group
    }

    pub closed spec fn spec_term(&self) -> u64 {
        self.term
    }

    pub closed spec fn spec_first_index(&self) -> u64 {
        self.first_index
    }

    pub closed spec fn spec_lens(&self) -> Seq<u32> {
        self.lens@
    }

    pub closed spec fn spec_segment(&self) -> Seq<u8> {
        self.data_segment@
    }

    /// The decompressed segment contents.
    pub closed spec fn spec_raw(&self) -> Seq<u8> {
        self.raw@
    }

    /// The raft entries the batch carries: one group and term, consecutive
    /// indices from the first, each with its payload slice of the
    /// decompressed segment.
    pub closed spec fn spec_entries(&self) -> Seq<(u64, u64, u64, Seq<u8>)> {
        spec_run_entries(self.group, self.term, self.first_index, self.lens@, self.raw@)
    }

    /// How the carried entries relate to the batch's visible fields.
    pub proof fn lemma_entries_form(&self)
        ensures
            self.spec_entries() == spec_run_entries(
                self.spec_group(),
                self.spec_term(),
                self.spec_first_index(),
                self.spec_lens(),
                self.spec_raw(),
            ),
    {
    }

    /// Structural well-formedness: every field fits its wire width and the
    /// lengths add up to the decompressed segment size.
    pub closed spec fn shape_wf(&self) -> bool {
        &&& self.lens@.len() > 0
        &&& self.lens@.len() <= u32::MAX
        &&& spec_offset_of(self.lens@, self.lens@.len() as int) == self.raw@.len()
        &&& self.raw@.len() <= u32::MAX
        &&& self.first_index + self.lens@.len() <= u64::MAX
        &&& 36 + 4 * self.lens@.len() + self.data_segment@.len() <= 0x1000_0000
    }

    /// Full well-formedness: the segment is the compression of the raw
    /// contents. The 256 MiB payload bound is a machine limit: it keeps the
    /// block offsets a reader computes within a 32-bit address space even
    /// after the worst-case compression expansion.
    pub closed spec fn wf(&self) -> bool {
        &&& self.shape_wf()
        &&& self.data_segment@ == lz4_of(self.raw@)
    }

    pub proof fn lemma_wf_shape(&self)
        requires
            self.wf(),
        ensures
            self.shape_wf(),
    {
    }

    /// Bounds a structurally well-formed batch is known to satisfy.
    pub proof fn lemma_shape_bounds(&self)
        requires
            self.shape_wf(),
        ensures
            self.spec_lens().len() > 0,
            self.spec_first_index() + self.spec_lens().len() <= u64::MAX,
            36 + 4 * self.spec_lens().len() + self.spec_segment().len() <= 0x1000_0000,
    {
    }

    pub fn group(&self) -> (r: u64)
        ensures
            r == self.spec_group(),
    {
        self.group
    }

    pub fn term(&self) -> (r: u64)
        ensures
            r == self.spec_term(),
    {
        self.term
    }

    pub fn first_index(&self) -> (r: u64)
        ensures
            r == self.spec_first_index(),
    {
        self.first_index
    }

    /// Number of entries in the batch.
    pub fn len(&self) -> (r: usize)
        ensures
            r == self.spec_lens().len(),
    {
        self.lens.len()
    }

    /// `(offset, len)` of entry `i` inside the decompressed segment.
    pub fn location(&self, i: usize) -> (r: (usize, usize))
        requires
            self.shape_wf(),
            i < self.spec_lens().len(),
        ensures
            r.0 == spec_offset_of(self.spec_lens(), i as int),
            r.1 == self.spec_lens()[i as int],
    {
        proof {
            lemma_offset_of_bounds(self.lens@, i as int);
            lemma_offset_of_bounds(self.lens@, self.lens@.len() as int);
        }
        let mut off: usize = 0;
        let mut j: usize = 0;
        while j < i
            invariant
                j <= i,
                i < self.lens@.len(),
                self.shape_wf(),
                off == spec_offset_of(self.lens@, j as int),
            decreases i - j,
        {
            proof {
                lemma_offset_of_bounds(self.lens@, j + 1);
                lemma_offset_of_mono(self.lens@, j + 1, self.lens@.len() as int);
            }
            off = off + (self.lens[j] as usize);
            j += 1;
        }
        (off, self.lens[i] as usize)
    }

    /// `(offset, len)` of the compressed segment, the offset measured from
    /// just after the entry-type tag byte of the enveloped entry.
    pub fn data_segment_location(&self) -> (r: (usize, usize))
        requires
            self.shape_wf(),
        ensures
            r.0 == 36 + 4 * self.spec_lens().len(),
            r.1 == self.spec_segment().len(),
    {
        (36 + 4 * self.lens.len(), self.data_segment.len())
    }

    /// Decompress a segment read back from a log file. On the compression of
    /// any byte string it returns exactly that byte string.
    pub fn extract_data_segment(raw: &[u8]) -> (r: Result<Vec<u8>>)
        ensures
            forall|orig: Seq<u8>| raw@ == lz4_of(orig) ==> r is Ok && r->Ok_0@ == orig,
    {
        lz4_decompress(raw)
    }

    /// The batch payload bytes.
    pub open spec fn spec_payload(&self) -> Seq<u8> {
        spec_u64_to_le_bytes(self.spec_group()) + spec_u64_to_le_bytes(self.spec_term())
            + spec_u64_to_le_bytes(self.spec_first_index()) + spec_u32_to_le_bytes(
            self.spec_lens().len() as u32,
        ) + spec_u32s_encoding(self.spec_lens()) + self.spec_segment()
    }

    /// Encode the batch payload.
    pub fn encode_payload(&self) -> (r: Vec<u8>)
        requires
            self.shape_wf(),
        ensures
            r@ == self.spec_payload(),
            r@.len() <= u32::MAX,
    {
        proof {
            lemma_auto_spec_u32_to_from_le_bytes();
            lemma_auto_spec_u64_to_from_le_bytes();
        }
        let mut out: Vec<u8> = Vec::new();
        let b = u64_to_le_bytes(self.group);
        out.extend_from_slice(b.as_slice());
        let b = u64_to_le_bytes(self.term);
        out.extend_from_slice(b.as_slice());
        let b = u64_to_le_bytes(self.first_index);
        out.extend_from_slice(b.as_slice());
        let b = u32_to_le_bytes(self.lens.len() as u32);
        out.extend_from_slice(b.as_slice());
        let n = self.lens.len();
        let mut i: usize = 0;
        proof {
            assert(spec_u32s_encoding(self.lens@.take(0)) =~= Seq::<u8>::empty());
            assert(out@ =~= spec_u64_to_le_bytes(self.group) + spec_u64_to_le_bytes(self.term)
                + spec_u64_to_le_bytes(self.first_index) + spec_u32_to_le_bytes(
                self.lens@.len() as u32,
            ) + spec_u32s_encoding(self.lens@.take(0)));
        }
        while i < n
            invariant
                i <= n,
                n == self.lens@.len(),
                out@ == spec_u64_to_le_bytes(self.spec_group()) + spec_u64_to_le_bytes(
                    self.spec_term(),
                ) + spec_u64_to_le_bytes(self.spec_first_index()) + spec_u32_to_le_bytes(
                    self.spec_lens().len() as u32,
                ) + spec_u32s_encoding(self.spec_lens().take(i as int)),
            decreases n - i,
        {
            let b = u32_to_le_bytes(self.lens[i]);
            out.extend_from_slice(b.as_slice());
            proof {
                lemma_u32s_encoding_snoc(self.lens@, i as int);
                assert(out@ =~= spec_u64_to_le_bytes(self.spec_group()) + spec_u64_to_le_bytes(
                    self.spec_term(),
                ) + spec_u64_to_le_bytes(self.spec_first_index()) + spec_u32_to_le_bytes(
                    self.spec_lens().len() as u32,
                ) + spec_u32s_encoding(self.spec_lens().take(i + 1)));
            }
            i += 1;
        }
        out.extend_from_slice(self.data_segment.as_slice());
        proof {
            assert(self.lens@.take(n as int) =~= self.lens@);
            assert(out@ =~= self.spec_payload());
            lemma_u32s_encoding_len(self.lens@);
        }
        out
    }
}

/// The payload of entry `k` of a run: its slice of the decompressed
/// segment by the recorded lengths.
pub open spec fn spec_run_payload(lens: Seq<u32>, raw: Seq<u8>, k: int) -> Seq<u8> {
    raw.subrange(spec_offset_of(lens, k), spec_offset_of(lens, k) + lens[k])
}

/// The raft entries a run stands for: one group and term, consecutive
/// indices from `first`, and the payload slices of the decompressed
/// segment.
pub open spec fn spec_run_entries(
    group: u64,
    term: u64,
    first: u64,
    lens: Seq<u32>,
    raw: Seq<u8>,
) -> Seq<(u64, u64, u64, Seq<u8>)> {
    Seq::new(
        lens.len(),
        |k: int| (group, term, (first + k) as u64, spec_run_payload(lens, raw, k)),
    )
}

/// The raft entries a batch run carries, in order.
pub open spec fn spec_batches_entries(bs: Seq<RaftLogBatch>) -> Seq<(u64, u64, u64, Seq<u8>)> {
    bs.map_values(|b: RaftLogBatch| b.spec_entries()).flatten_alt()
}

/// Adding one payload to a run appends exactly one entry, at the next
/// consecutive index, and leaves the earlier entries' slices unchanged.
proof fn lemma_run_entries_push(
    group: u64,
    term: u64,
    first: u64,
    lens: Seq<u32>,
    raw: Seq<u8>,
    l: u32,
    data: Seq<u8>,
)
    requires
        spec_offset_of(lens, lens.len() as int) == raw.len(),
        data.len() == l,
        first + lens.len() < u64::MAX,
    ensures
        spec_run_entries(group, term, first, lens.push(l), raw + data) == spec_run_entries(
            group,
            term,
            first,
            lens,
            raw,
        ).push((group, term, (first + lens.len()) as u64, data)),
{
    let n = lens.len() as int;
    let lens2 = lens.push(l);
    let raw2 = raw + data;
    assert(lens2.take(n) =~= lens);
    assert forall|k: int| 0 <= k <= n implies spec_offset_of(lens2, k) == spec_offset_of(
        lens,
        k,
    ) by {
        lemma_offset_of_take(lens2, n, k);
    }
    assert forall|k: int| 0 <= k < n implies spec_run_payload(lens2, raw2, k) == spec_run_payload(
        lens,
        raw,
        k,
    ) by {
        lemma_offset_of_bounds(lens, k);
        lemma_offset_of_mono(lens, k + 1, n);
        assert(spec_offset_of(lens, k + 1) == spec_offset_of(lens, k) + lens[k]);
        assert(raw2.subrange(spec_offset_of(lens, k), spec_offset_of(lens, k) + lens[k])
            =~= raw.subrange(spec_offset_of(lens, k), spec_offset_of(lens, k) + lens[k]));
    }
    assert(spec_run_payload(lens2, raw2, n) =~= data) by {
        lemma_offset_of_bounds(lens, n);
        assert(spec_offset_of(lens2, n) == raw.len());
    }
    assert(spec_run_entries(group, term, first, lens2, raw2) =~= spec_run_entries(
        group,
        term,
        first,
        lens,
        raw,
    ).push((group, term, (first + lens.len()) as u64, data)));
}

pub proof fn lemma_offset_of_bounds(lens: Seq<u32>, i: int)
    requires
        0 <= i <= lens.len(),
    ensures
        spec_offset_of(lens, i) >= 0,
    decreases i,
{
    if i > 0 {
        lemma_offset_of_bounds(lens, i - 1);
    }
}

pub proof fn lemma_offset_of_mono(lens: Seq<u32>, i: int, j: int)
    requires
        0 <= i <= j <= lens.len(),
    ensures
        spec_offset_of(lens, i) <= spec_offset_of(lens, j),
    decreases j,
{
    if i < j {
        lemma_offset_of_mono(lens, i, j - 1);
    }
}

proof fn lemma_u32s_encoding_snoc(lens: Seq<u32>, i: int)
    requires
        0 <= i < lens.len(),
    ensures
        spec_u32s_encoding(lens.take(i + 1)) == spec_u32s_encoding(lens.take(i))
            + spec_u32_to_le_bytes(lens[i]),
    decreases i,
{
    if i == 0 {
        assert(lens.take(1).first() == lens[0]);
        assert(lens.take(1).drop_first() =~= Seq::<u32>::empty());
        assert(lens.take(0) =~= Seq::<u32>::empty());
        assert(spec_u32s_encoding(Seq::<u32>::empty()) =~= Seq::<u8>::empty());
        assert(spec_u32s_encoding(lens.take(1)) == spec_u32_to_le_bytes(lens.take(1).first())
            + spec_u32s_encoding(lens.take(1).drop_first()));
        assert(spec_u32s_encoding(lens.take(1)) =~= spec_u32_to_le_bytes(lens[0]));
        assert(Seq::<u8>::empty() + spec_u32_to_le_bytes(lens[0]) =~= spec_u32_to_le_bytes(
            lens[0],
        ));
    } else {
        assert(lens.take(i + 1).first() == lens[0]);
        assert(lens.take(i).first() == lens[0]);
        assert(lens.take(i + 1).drop_first() =~= lens.drop_first().take(i));
        assert(lens.take(i).drop_first() =~= lens.drop_first().take(i - 1));
        lemma_u32s_encoding_snoc(lens.drop_first(), i - 1);
        assert(lens.drop_first()[i - 1] == lens[i]);
        assert(spec_u32_to_le_bytes(lens[0]) + (spec_u32s_encoding(lens.drop_first().take(i - 1))
            + spec_u32_to_le_bytes(lens[i])) =~= (spec_u32_to_le_bytes(lens[0])
            + spec_u32s_encoding(lens.drop_first().take(i - 1))) + spec_u32_to_le_bytes(lens[i]));
    }
}

/// One record of the append log.
pub enum Entry {
    RaftLogBatch(RaftLogBatch),
    Compact { group: u64, index: u64 },
    KvPut { group: u64, key: Vec<u8>, value: Vec<u8> },
    KvDelete { group: u64, key: Vec<u8> },
}

/// The compact payload bytes.
pub open spec fn spec_compact_payload(group: u64, index: u64) -> Seq<u8> {
    spec_u64_to_le_bytes(group) + spec_u64_to_le_bytes(index)
}

/// The kv put payload bytes.
pub open spec fn spec_put_payload(group: u64, key: Seq<u8>, value: Seq<u8>) -> Seq<u8> {
    spec_u64_to_le_bytes(group) + spec_u32_to_le_bytes(key.len() as u32) + key
        + spec_u32_to_le_bytes(value.len() as u32) + value
}

/// The kv delete payload bytes.
pub open spec fn spec_delete_payload(group: u64, key: Seq<u8>) -> Seq<u8> {
    spec_u64_to_le_bytes(group) + spec_u32_to_le_bytes(key.len() as u32) + key
}

/// The parsed lens and segment agree with the batch the payload encodes.
pub open spec fn batch_fields_match(e: Entry, lens: Seq<u32>, seg: Seq<u8>) -> bool {
    match e {
        Entry::RaftLogBatch(b) => lens == b.spec_lens() && seg == b.spec_segment(),
        _ => false,
    }
}

/// Facts forced on any payload that is the image of a well-formed batch.
proof fn lemma_batch_image_facts(payload: Seq<u8>)
    ensures
        forall|e: Entry| #![trigger e.spec_payload()]
            e.wf() && e.spec_tag() == 0 && payload == e.spec_payload() ==> payload.len() >= 28
                && payload.len() <= 0x1000_0000 && spec_u32_from_le_bytes(
                payload.subrange(24, 28),
            ) >= 1 && 28 + 4 * (spec_u32_from_le_bytes(payload.subrange(24, 28)) as int)
                <= payload.len(),
{
    assert forall|e: Entry| #![trigger e.spec_payload()]
        e.wf() && e.spec_tag() == 0 && payload == e.spec_payload() implies payload.len() >= 28
        && payload.len() <= 0x1000_0000 && spec_u32_from_le_bytes(payload.subrange(24, 28)) >= 1
        && 28 + 4 * (spec_u32_from_le_bytes(payload.subrange(24, 28)) as int) <= payload.len() by {
        match e {
            Entry::RaftLogBatch(b) => {
                lemma_batch_payload_parts(b);
                vstd::bytes::lemma_auto_spec_u32_to_from_le_bytes();
            },
            _ => {
                assert(false);
            },
        }
    }
}

impl Entry {
    pub open spec fn spec_tag(&self) -> u8 {
        match self {
            Entry::RaftLogBatch(_) => 0,
            Entry::Compact { .. } => 1,
            Entry::KvPut { .. } => 2,
            Entry::KvDelete { .. } => 3,
        }
    }

    /// Payload well-formedness: every field fits its wire width.
    pub open spec fn wf(&self) -> bool {
        match self {
            Entry::RaftLogBatch(b) => b.wf(),
            Entry::Compact { .. } => true,
            Entry::KvPut { key, value, .. } => 16 + key@.len() + value@.len() <= 0x1000_0000,
            Entry::KvDelete { key, .. } => 12 + key@.len() <= 0x1000_0000,
        }
    }

    /// Structural payload well-formedness; full well-formedness adds that a
    /// batch segment is a canonical compression.
    pub open spec fn shape_wf(&self) -> bool {
        match self {
            Entry::RaftLogBatch(b) => b.shape_wf(),
            Entry::Compact { .. } => true,
            Entry::KvPut { key, value, .. } => 16 + key@.len() + value@.len() <= 0x1000_0000,
            Entry::KvDelete { key, .. } => 12 + key@.len() <= 0x1000_0000,
        }
    }

    pub proof fn lemma_wf_shape(&self)
        requires
            self.wf(),
        ensures
            self.shape_wf(),
    {
        match self {
            Entry::RaftLogBatch(b) => {
                b.lemma_wf_shape();
            },
            _ => {},
        }
    }

    /// The payload bytes of this entry.
    pub open spec fn spec_payload(&self) -> Seq<u8> {
        match self {
            Entry::RaftLogBatch(b) => b.spec_payload(),
            Entry::Compact { group, index } => spec_compact_payload(*group, *index),
            Entry::KvPut { group, key, value } => spec_put_payload(*group, key@, value@),
            Entry::KvDelete { group, key } => spec_delete_payload(*group, key@),
        }
    }

    pub fn tag(&self) -> (r: u8)
        ensures
            r == self.spec_tag(),
    {
        match self {
            Entry::RaftLogBatch(_) => 0,
            Entry::Compact { .. } => 1,
            Entry::KvPut { .. } => 2,
            Entry::KvDelete { .. } => 3,
        }
    }

    /// Encode the payload (the envelope is the log's concern).
    pub fn encode_payload(&self) -> (r: Vec<u8>)
        requires
            self.shape_wf(),
        ensures
            r@ == self.spec_payload(),
            r@.len() <= u32::MAX,
    {
        proof {
            lemma_auto_spec_u32_to_from_le_bytes();
            lemma_auto_spec_u64_to_from_le_bytes();
        }
        match self {
            Entry::RaftLogBatch(b) => b.encode_payload(),
            Entry::Compact { group, index } => {
                let mut out = u64_to_le_bytes(*group);
                let b = u64_to_le_bytes(*index);
                out.extend_from_slice(b.as_slice());
                proof {
                    assert(out@ =~= self.spec_payload());
                }
                out
            },
            Entry::KvPut { group, key, value } => {
                let mut out = u64_to_le_bytes(*group);
                let b = u32_to_le_bytes(key.len() as u32);
                out.extend_from_slice(b.as_slice());
                out.extend_from_slice(key.as_slice());
                let b = u32_to_le_bytes(value.len() as u32);
                out.extend_from_slice(b.as_slice());
                out.extend_from_slice(value.as_slice());
                proof {
                    assert(out@ =~= self.spec_payload());
                }
                out
            },
            Entry::KvDelete { group, key } => {
                let mut out = u64_to_le_bytes(*group);
                let b = u32_to_le_bytes(key.len() as u32);
                out.extend_from_slice(b.as_slice());
                out.extend_from_slice(key.as_slice());
                proof {
                    assert(out@ =~= self.spec_payload());
                }
                out
            },
        }
    }

    /// Decode a payload read back from the log. On the encoding of any
    /// well-formed entry with the matching tag, the original comes back.
    pub fn decode_payload(tag: u8, payload: &[u8]) -> (r: Result<Entry>)
        ensures
            forall|e: Entry|
                e.wf() && tag == e.spec_tag() && payload@ == e.spec_payload() ==> (r matches Ok(d)
                    && entry_matches(d, e)),
            r matches Ok(d) ==> d.shape_wf() && d.spec_tag() == tag && entry_fields_eq(
                tag,
                payload@,
                d,
            ),
    {
        proof {
            lemma_auto_spec_u32_to_from_le_bytes();
            lemma_auto_spec_u64_to_from_le_bytes();
        }
        let n = payload.len();
        if n > 0x1000_0000 {
            proof {
                lemma_batch_image_facts(payload@);
                assert forall|e: Entry|
                    !(e.wf() && tag == e.spec_tag() && payload@ == e.spec_payload()) by {
                    if e.wf() && tag == e.spec_tag() && payload@ == e.spec_payload() {
                        match e {
                            Entry::RaftLogBatch(b) => {
                                lemma_batch_payload_parts(b);
                            },
                            _ => {},
                        }
                        assert(false);
                    }
                }
            }
            return Err(Error::Decode);
        }
        if tag == 0 {
            if n < 28 || n > u32::MAX as usize {
                proof {
                    lemma_batch_image_facts(payload@);
                }
                return Err(Error::Decode);
            }
            let group = u64_from_le_bytes(slice_subrange(payload, 0, 8));
            let term = u64_from_le_bytes(slice_subrange(payload, 8, 16));
            let first_index = u64_from_le_bytes(slice_subrange(payload, 16, 24));
            let count = u32_from_le_bytes(slice_subrange(payload, 24, 28)) as usize;
            if count == 0 || count > (n - 28) / 4 {
                proof {
                    lemma_batch_image_facts(payload@);
                }
                return Err(Error::Decode);
            }
            let mut lens: Vec<u32> = Vec::new();
            let mut i: usize = 0;
            let mut total: u64 = 0;
            while i < count
                invariant
                    i <= count,
                    count >= 1,
                    count <= (n - 28) / 4,
                    n <= u32::MAX,
                    n == payload@.len(),
                    lens@.len() == i,
                    forall|j: int|
                        0 <= j < i ==> #[trigger] lens@[j] == spec_u32_from_le_bytes(
                            payload@.subrange(28 + 4 * j, 32 + 4 * j),
                        ),
                    total == spec_offset_of(lens@, i as int),
                    total <= i * 0x1_0000_0000,
                decreases count - i,
            {
                let l = u32_from_le_bytes(slice_subrange(payload, 28 + 4 * i, 32 + 4 * i));
                proof {
                    assert(count <= 0x40000000);
                    assert(i * 0x1_0000_0000 + 0x1_0000_0000 == (i + 1) * 0x1_0000_0000)
                        by (nonlinear_arith);
                    assert((i + 1) * 0x1_0000_0000 <= 0x40000000 * 0x1_0000_0000)
                        by (nonlinear_arith)
                        requires
                            i + 1 <= 0x40000000,
                    ;
                }
                total = total + (l as u64);
                proof {
                    let lens2 = lens@.push(l);
                    assert(lens2.take(i as int) =~= lens@);
                    lemma_offset_of_take(lens2, i as int, i as int);
                    assert(spec_offset_of(lens2, i + 1) == spec_offset_of(lens2, i as int)
                        + lens2[i as int]);
                }
                lens.push(l);
                i += 1;
            }
            let seg_off = 28 + 4 * count;
            let data_segment = subrange_to_vec(payload, seg_off, n);
            // Validate the lengths against the decompressed segment.
            proof {
                assert forall|e: Entry|
                    e.wf() && e.spec_tag() == 0 && payload@ == e.spec_payload() implies
                    batch_fields_match(e, lens@, data_segment@) by {
                    match e {
                        Entry::RaftLogBatch(b) => {
                            lemma_batch_payload_parts(b);
                            assert(lens@.len() == b.spec_lens().len());
                            assert(lens@ =~= b.spec_lens()) by {
                                assert forall|j: int|
                                    0 <= j < lens@.len() implies lens@[j] == b.spec_lens()[j] by {
                                    lemma_u32s_encoding_index(b.spec_lens(), j);
                                    assert(payload@.subrange(28 + 4 * j, 32 + 4 * j)
                                        =~= spec_u32s_encoding(b.spec_lens()).subrange(
                                        4 * j,
                                        4 * j + 4,
                                    ));
                                }
                            }
                            assert(data_segment@ =~= b.spec_segment());
                        },
                        _ => {
                            assert(false);
                        },
                    }
                }
            }
            let raw = match lz4_decompress(data_segment.as_slice()) {
                Ok(raw) => raw,
                Err(e) => {
                    proof {
                        assert forall|e2: Entry|
                            !(e2.wf() && tag == e2.spec_tag() && payload@
                                == e2.spec_payload()) by {
                            if e2.wf() && tag == e2.spec_tag() && payload@ == e2.spec_payload() {
                                assert(batch_fields_match(e2, lens@, data_segment@));
                                match e2 {
                                    Entry::RaftLogBatch(b) => {
                                        assert(data_segment@ == lz4_of(b.spec_raw()));
                                    },
                                    _ => {},
                                }
                                assert(false);
                            }
                        }
                    }
                    return Err(e);
                },
            };
            if total != raw.len() as u64 {
                proof {
                    assert forall|e2: Entry|
                        !(e2.wf() && tag == e2.spec_tag() && payload@ == e2.spec_payload()) by {
                        if e2.wf() && tag == e2.spec_tag() && payload@ == e2.spec_payload() {
                            assert(batch_fields_match(e2, lens@, data_segment@));
                            match e2 {
                                Entry::RaftLogBatch(b) => {
                                    assert(data_segment@ == lz4_of(b.spec_raw()));
                                    assert(raw@ == b.spec_raw());
                                    assert(total == spec_offset_of(b.spec_lens(),
                                        b.spec_lens().len() as int));
                                },
                                _ => {},
                            }
                            assert(false);
                        }
                    }
                }
                return Err(Error::Decode);
            }
            if first_index > u64::MAX - count as u64 {
                proof {
                    assert forall|e2: Entry|
                        !(e2.wf() && tag == e2.spec_tag() && payload@ == e2.spec_payload()) by {
                        if e2.wf() && tag == e2.spec_tag() && payload@ == e2.spec_payload() {
                            match e2 {
                                Entry::RaftLogBatch(b) => {
                                    lemma_batch_payload_parts(b);
                                    assert(payload@.subrange(16, 24) == spec_u64_to_le_bytes(
                                        b.spec_first_index(),
                                    ));
                                    assert(payload@.subrange(24, 28) == spec_u32_to_le_bytes(
                                        b.spec_lens().len() as u32,
                                    ));
                                },
                                _ => {},
                            }
                            assert(false);
                        }
                    }
                }
                return Err(Error::Decode);
            }
            if raw.len() > u32::MAX as usize || 36 + 4 * count + data_segment.len() > 0x1000_0000 {
                proof {
                    assert forall|e2: Entry|
                        !(e2.wf() && tag == e2.spec_tag() && payload@ == e2.spec_payload()) by {
                        if e2.wf() && tag == e2.spec_tag() && payload@ == e2.spec_payload() {
                            assert(batch_fields_match(e2, lens@, data_segment@));
                            match e2 {
                                Entry::RaftLogBatch(b) => {
                                    assert(data_segment@ == lz4_of(b.spec_raw()));
                                    assert(raw@ == b.spec_raw());
                                },
                                _ => {},
                            }
                            assert(false);
                        }
                    }
                }
                return Err(Error::Decode);
            }
            let batch = RaftLogBatch {
                group,
                term,
                first_index,
                lens,
                data_segment,
                raw: Ghost(raw@),
            };
            proof {
                assert(entry_fields_eq(tag, payload@, Entry::RaftLogBatch(batch)));
                assert forall|e: Entry|
                    e.wf() && tag == e.spec_tag() && payload@ == e.spec_payload() implies
                    entry_matches(Entry::RaftLogBatch(batch), e) by {
                    match e {
                        Entry::RaftLogBatch(b) => {
                            lemma_batch_payload_parts(b);
                            assert(payload@.subrange(0, 8) == spec_u64_to_le_bytes(b.spec_group()));
                            assert(batch.lens@.len() == b.spec_lens().len());
                            assert(batch.lens@ =~= b.spec_lens()) by {
                                assert forall|j: int|
                                    0 <= j < batch.lens@.len() implies batch.lens@[j]
                                    == b.spec_lens()[j] by {
                                    lemma_u32s_encoding_index(b.spec_lens(), j);
                                    assert(payload@.subrange(28 + 4 * j, 32 + 4 * j)
                                        =~= spec_u32s_encoding(b.spec_lens()).subrange(
                                        4 * j,
                                        4 * j + 4,
                                    ));
                                }
                            }
                            assert(batch.data_segment@ =~= b.spec_segment());
                            assert(batch.raw@ == b.spec_raw());
                        },
                        _ => {
                            assert(false);
                        },
                    }
                }
            }
            Ok(Entry::RaftLogBatch(batch))
        } else if tag == 1 {
            if n != 16 {
                proof {
                    assert forall|e2: Entry|
                        !(e2.wf() && tag == e2.spec_tag() && payload@ == e2.spec_payload()) by {
                        if e2.wf() && tag == e2.spec_tag() && payload@ == e2.spec_payload() {
                            match e2 {
                                Entry::Compact { .. } => {},
                                _ => {
                                    assert(false);
                                },
                            }
                            assert(false);
                        }
                    }
                }
                return Err(Error::Decode);
            }
            let group = u64_from_le_bytes(slice_subrange(payload, 0, 8));
            let index = u64_from_le_bytes(slice_subrange(payload, 8, 16));
            proof {
                assert forall|e: Entry|
                    e.wf() && tag == e.spec_tag() && payload@ == e.spec_payload() implies
                    entry_matches(Entry::Compact { group, index }, e) by {
                    match e {
                        Entry::Compact { group: g2, index: i2 } => {
                            assert(payload@.subrange(0, 8) =~= spec_u64_to_le_bytes(g2));
                            assert(payload@.subrange(8, 16) =~= spec_u64_to_le_bytes(i2));
                        },
                        _ => {
                            assert(false);
                        },
                    }
                }
            }
            Ok(Entry::Compact { group, index })
        } else if tag == 2 {
            if n < 12 {
                proof {
                    put_image_contra(tag, payload@);
                }
                return Err(Error::Decode);
            }
            let group = u64_from_le_bytes(slice_subrange(payload, 0, 8));
            let klen = u32_from_le_bytes(slice_subrange(payload, 8, 12)) as usize;
            if klen > n - 12 || n - 12 - klen < 4 {
                proof {
                    put_image_contra(tag, payload@);
                }
                return Err(Error::Decode);
            }
            let key = subrange_to_vec(payload, 12, 12 + klen);
            let vlen = u32_from_le_bytes(slice_subrange(payload, 12 + klen, 16 + klen)) as usize;
            if vlen != n - 16 - klen {
                proof {
                    put_image_contra(tag, payload@);
                }
                return Err(Error::Decode);
            }
            let value = subrange_to_vec(payload, 16 + klen, n);
            proof {
                assert forall|e: Entry|
                    e.wf() && tag == e.spec_tag() && payload@ == e.spec_payload() implies
                    entry_matches(
                    Entry::KvPut { group, key: key, value: value },
                    e,
                ) by {
                    match e {
                        Entry::KvPut { group: g2, key: k2, value: v2 } => {
                            let ek = k2@;
                            let ev = v2@;
                            assert(payload@.subrange(0, 8) =~= spec_u64_to_le_bytes(g2));
                            assert(payload@.subrange(8, 12) =~= spec_u32_to_le_bytes(
                                ek.len() as u32,
                            ));
                            assert(payload@.subrange(12, 12 + ek.len() as int) =~= ek);
                            assert(payload@.subrange(12 + ek.len() as int, 16 + ek.len() as int)
                                =~= spec_u32_to_le_bytes(ev.len() as u32));
                            assert(payload@.subrange(16 + ek.len() as int, payload@.len() as int)
                                =~= ev);
                        },
                        _ => {
                            assert(false);
                        },
                    }
                }
            }
            Ok(Entry::KvPut { group, key, value })
        } else if tag == 3 {
            if n < 12 {
                proof {
                    delete_image_contra(tag, payload@);
                }
                return Err(Error::Decode);
            }
            let group = u64_from_le_bytes(slice_subrange(payload, 0, 8));
            let klen = u32_from_le_bytes(slice_subrange(payload, 8, 12)) as usize;
            if klen != n - 12 {
                proof {
                    delete_image_contra(tag, payload@);
                }
                return Err(Error::Decode);
            }
            let key = subrange_to_vec(payload, 12, n);
            proof {
                assert forall|e: Entry|
                    e.wf() && tag == e.spec_tag() && payload@ == e.spec_payload() implies
                    entry_matches(Entry::KvDelete { group, key: key }, e) by {
                    match e {
                        Entry::KvDelete { group: g2, key: k2 } => {
                            let ek = k2@;
                            assert(payload@.subrange(0, 8) =~= spec_u64_to_le_bytes(g2));
                            assert(payload@.subrange(8, 12) =~= spec_u32_to_le_bytes(
                                ek.len() as u32,
                            ));
                            assert(payload@.subrange(12, payload@.len() as int) =~= ek);
                        },
                        _ => {
                            assert(false);
                        },
                    }
                }
            }
            Ok(Entry::KvDelete { group, key })
        } else {
            Err(Error::Decode)
        }
    }
}

/// Facts forced on any payload that is the image of a well-formed kv put.
proof fn put_image_contra(tag: u8, payload: Seq<u8>)
    ensures
        forall|e: Entry| #![trigger e.spec_payload()]
            e.wf() && tag == e.spec_tag() && tag == 2 && payload == e.spec_payload() ==> {
                let klen = spec_u32_from_le_bytes(payload.subrange(8, 12)) as int;
                &&& payload.len() >= 16
                &&& klen <= payload.len() - 16
                &&& spec_u32_from_le_bytes(payload.subrange(12 + klen, 16 + klen)) as int
                    == payload.len() - 16 - klen
            },
{
    vstd::bytes::lemma_auto_spec_u32_to_from_le_bytes();
    vstd::bytes::lemma_auto_spec_u64_to_from_le_bytes();
    assert forall|e: Entry| #![trigger e.spec_payload()]
        e.wf() && tag == e.spec_tag() && tag == 2 && payload == e.spec_payload() implies {
        let klen = spec_u32_from_le_bytes(payload.subrange(8, 12)) as int;
        &&& payload.len() >= 16
        &&& klen <= payload.len() - 16
        &&& spec_u32_from_le_bytes(payload.subrange(12 + klen, 16 + klen)) as int == payload.len()
            - 16 - klen
    } by {
        match e {
            Entry::KvPut { group: g2, key: k2, value: v2 } => {
                assert(payload.subrange(8, 12) =~= spec_u32_to_le_bytes(k2@.len() as u32));
                assert(payload.subrange(12 + k2@.len() as int, 16 + k2@.len() as int)
                    =~= spec_u32_to_le_bytes(v2@.len() as u32));
            },
            _ => {
                assert(false);
            },
        }
    }
}

/// Facts forced on any payload that is the image of a well-formed kv delete.
proof fn delete_image_contra(tag: u8, payload: Seq<u8>)
    ensures
        forall|e: Entry| #![trigger e.spec_payload()]
            e.wf() && tag == e.spec_tag() && tag == 3 && payload == e.spec_payload() ==> {
                let klen = spec_u32_from_le_bytes(payload.subrange(8, 12)) as int;
                &&& payload.len() >= 12
                &&& klen == payload.len() - 12
            },
{
    vstd::bytes::lemma_auto_spec_u32_to_from_le_bytes();
    vstd::bytes::lemma_auto_spec_u64_to_from_le_bytes();
    assert forall|e: Entry| #![trigger e.spec_payload()]
        e.wf() && tag == e.spec_tag() && tag == 3 && payload == e.spec_payload() implies {
        let klen = spec_u32_from_le_bytes(payload.subrange(8, 12)) as int;
        &&& payload.len() >= 12
        &&& klen == payload.len() - 12
    } by {
        match e {
            Entry::KvDelete { group: g2, key: k2 } => {
                assert(payload.subrange(8, 12) =~= spec_u32_to_le_bytes(k2@.len() as u32));
            },
            _ => {
                assert(false);
            },
        }
    }
}

/// A well-formed entry's payload fits one log segment.
pub proof fn lemma_payload_len(e: Entry)
    requires
        e.shape_wf(),
    ensures
        e.spec_payload().len() <= 0x1000_0000,
{
    vstd::bytes::lemma_auto_spec_u32_to_from_le_bytes();
    vstd::bytes::lemma_auto_spec_u64_to_from_le_bytes();
    match e {
        Entry::RaftLogBatch(b) => {
            lemma_u32s_encoding_len(b.spec_lens());
        },
        _ => {},
    }
}

/// A decoded entry's fields are exactly the wire fields of the payload it
/// was decoded from.
/// `payload` is a genuine image of the well-formed entry `e` under `tag`.
pub open spec fn entry_image(e: Entry, tag: u8, payload: Seq<u8>) -> bool {
    e.wf() && tag == e.spec_tag() && payload == e.spec_payload()
}

/// Some well-formed entry has exactly this tag and payload; for a batch
/// that includes a data segment that is the compression of raw contents
/// sliced exactly by the recorded lengths. `decode_payload` succeeds on
/// every such record.
pub open spec fn record_decodable(tag: u8, payload: Seq<u8>) -> bool {
    exists|e: Entry| #[trigger] entry_image(e, tag, payload)
}

pub open spec fn entry_fields_eq(tag: u8, payload: Seq<u8>, d: Entry) -> bool {
    match d {
        Entry::RaftLogBatch(b) => {
            let count = spec_u32_from_le_bytes(payload.subrange(24, 28)) as int;
            &&& tag == 0
            &&& payload.len() >= 28
            &&& count >= 1
            &&& 28 + 4 * count <= payload.len()
            &&& b.spec_group() == spec_u64_from_le_bytes(payload.subrange(0, 8))
            &&& b.spec_term() == spec_u64_from_le_bytes(payload.subrange(8, 16))
            &&& b.spec_first_index() == spec_u64_from_le_bytes(payload.subrange(16, 24))
            &&& b.spec_lens().len() == count
            &&& (forall|j: int|
                0 <= j < count ==> #[trigger] b.spec_lens()[j] == spec_u32_from_le_bytes(
                    payload.subrange(28 + 4 * j, 32 + 4 * j),
                ))
            &&& b.spec_segment() == payload.subrange(28 + 4 * count, payload.len() as int)
            &&& b.spec_first_index() + count <= u64::MAX
        },
        Entry::Compact { group, index } => {
            &&& tag == 1
            &&& payload.len() == 16
            &&& group == spec_u64_from_le_bytes(payload.subrange(0, 8))
            &&& index == spec_u64_from_le_bytes(payload.subrange(8, 16))
        },
        Entry::KvPut { group, key, value } => {
            let klen = spec_u32_from_le_bytes(payload.subrange(8, 12)) as int;
            &&& tag == 2
            &&& payload.len() >= 16
            &&& 16 + klen <= payload.len()
            &&& group == spec_u64_from_le_bytes(payload.subrange(0, 8))
            &&& key@ == payload.subrange(12, 12 + klen)
            &&& value@ == payload.subrange(16 + klen, payload.len() as int)
        },
        Entry::KvDelete { group, key } => {
            let klen = spec_u32_from_le_bytes(payload.subrange(8, 12)) as int;
            &&& tag == 3
            &&& payload.len() >= 12
            &&& klen == payload.len() - 12
            &&& group == spec_u64_from_le_bytes(payload.subrange(0, 8))
            &&& key@ == payload.subrange(12, payload.len() as int)
        },
    }
}

/// Field-wise equality of entries, comparing byte vectors by contents; the
/// decompressed segment of a batch stands in for its ghost contents.
pub open spec fn entry_matches(a: Entry, b: Entry) -> bool {
    match (a, b) {
        (Entry::RaftLogBatch(x), Entry::RaftLogBatch(y)) => {
            &&& x.spec_group() == y.spec_group()
            &&& x.spec_term() == y.spec_term()
            &&& x.spec_first_index() == y.spec_first_index()
            &&& x.spec_lens() == y.spec_lens()
            &&& x.spec_segment() == y.spec_segment()
            &&& x.spec_raw() == y.spec_raw()
        },
        (Entry::Compact { group: g1, index: i1 }, Entry::Compact { group: g2, index: i2 }) => g1
            == g2 && i1 == i2,
        (
            Entry::KvPut { group: g1, key: k1, value: v1 },
            Entry::KvPut { group: g2, key: k2, value: v2 },
        ) => g1 == g2 && k1@ == k2@ && v1@ == v2@,
        (Entry::KvDelete { group: g1, key: k1 }, Entry::KvDelete { group: g2, key: k2 }) => g1
            == g2 && k1@ == k2@,
        _ => false,
    }
}

/// Positions of the fields inside a batch payload.
proof fn lemma_batch_payload_parts(b: RaftLogBatch)
    requires
        b.wf(),
    ensures
        ({
            let p = b.spec_payload();
            let n = b.spec_lens().len() as int;
            &&& p.len() == 28 + 4 * n + b.spec_segment().len()
            &&& p.subrange(0, 8) == spec_u64_to_le_bytes(b.spec_group())
            &&& p.subrange(8, 16) == spec_u64_to_le_bytes(b.spec_term())
            &&& p.subrange(16, 24) == spec_u64_to_le_bytes(b.spec_first_index())
            &&& p.subrange(24, 28) == spec_u32_to_le_bytes(b.spec_lens().len() as u32)
            &&& p.subrange(28, 28 + 4 * n) == spec_u32s_encoding(b.spec_lens())
            &&& p.subrange(28 + 4 * n, p.len() as int) == b.spec_segment()
        }),
{
    lemma_auto_spec_u32_to_from_le_bytes();
    lemma_auto_spec_u64_to_from_le_bytes();
    lemma_u32s_encoding_len(b.spec_lens());
    let p = b.spec_payload();
    let n = b.spec_lens().len() as int;
    assert(p.subrange(0, 8) =~= spec_u64_to_le_bytes(b.spec_group()));
    assert(p.subrange(8, 16) =~= spec_u64_to_le_bytes(b.spec_term()));
    assert(p.subrange(16, 24) =~= spec_u64_to_le_bytes(b.spec_first_index()));
    assert(p.subrange(24, 28) =~= spec_u32_to_le_bytes(b.spec_lens().len() as u32));
    assert(p.subrange(28, 28 + 4 * n) =~= spec_u32s_encoding(b.spec_lens()));
    assert(p.subrange(28 + 4 * n, p.len() as int) =~= b.spec_segment());
}

proof fn lemma_u32s_encoding_len(lens: Seq<u32>)
    ensures
        spec_u32s_encoding(lens).len() == 4 * lens.len(),
    decreases lens.len(),
{
    vstd::bytes::lemma_auto_spec_u32_to_from_le_bytes();
    if lens.len() > 0 {
        lemma_u32s_encoding_len(lens.drop_first());
    }
}

/// Byte `4j..4j+4` of a u32-run encoding is the encoding of element `j`.
proof fn lemma_u32s_encoding_index(lens: Seq<u32>, j: int)
    requires
        0 <= j < lens.len(),
    ensures
        spec_u32s_encoding(lens).subrange(4 * j, 4 * j + 4) == spec_u32_to_le_bytes(lens[j]),
    decreases j,
{
    vstd::bytes::lemma_auto_spec_u32_to_from_le_bytes();
    lemma_u32s_encoding_len(lens);
    lemma_u32s_encoding_len(lens.drop_first());
    if j == 0 {
        assert(spec_u32s_encoding(lens).subrange(0, 4) =~= spec_u32_to_le_bytes(lens.first()));
    } else {
        lemma_u32s_encoding_index(lens.drop_first(), j - 1);
        assert(spec_u32s_encoding(lens).subrange(4 * j, 4 * j + 4) =~= spec_u32s_encoding(
            lens.drop_first(),
        ).subrange(4 * (j - 1), 4 * (j - 1) + 4));
        assert(lens.drop_first()[j - 1] == lens[j]);
    }
}

/// Accumulates raft entries and groups them into per-run batches.
pub struct RaftLogBatchBuilder {
    batches: Vec<RaftLogBatch>,
    cur_group: u64,
    cur_term: u64,
    cur_first_index: u64,
    cur_lens: Vec<u32>,
    cur_raw: Vec<u8>,
    /// Every entry added so far, in order.
    added: Ghost<Seq<(u64, u64, u64, Seq<u8>)>>,
}

impl Default for RaftLogBatchBuilder {
    fn default() -> (r: Self)
        ensures
            r.wf(),
            r.spec_added() == Seq::<(u64, u64, u64, Seq<u8>)>::empty(),
            r.spec_pending() == 0,
    {
        proof {
            let bs = Seq::<RaftLogBatch>::empty();
            assert(bs.map_values(|b: RaftLogBatch| b.spec_entries()) =~= Seq::<
                Seq<(u64, u64, u64, Seq<u8>)>,
            >::empty());
            assert(spec_batches_entries(bs) =~= Seq::<(u64, u64, u64, Seq<u8>)>::empty());
            assert(spec_run_entries(0, 0, 0, Seq::empty(), Seq::empty()) =~= Seq::<
                (u64, u64, u64, Seq<u8>),
            >::empty());
        }
        RaftLogBatchBuilder {
            batches: Vec::new(),
            cur_group: 0,
            cur_term: 0,
            cur_first_index: 0,
            cur_lens: Vec::new(),
            cur_raw: Vec::new(),
            added: Ghost(Seq::empty()),
        }
    }
}

impl RaftLogBatchBuilder {
    /// Entries accumulated in the open run.
    pub closed spec fn spec_pending(&self) -> int {
        self.cur_lens@.len() as int
    }

    /// Every entry added so far, in order.
    pub closed spec fn spec_added(&self) -> Seq<(u64, u64, u64, Seq<u8>)> {
        self.added@
    }

    pub closed spec fn wf(&self) -> bool {
        &&& forall|i: int| 0 <= i < self.batches@.len() ==> (#[trigger] self.batches@[i]).wf()
        &&& spec_offset_of(self.cur_lens@, self.cur_lens@.len() as int) == self.cur_raw@.len()
        &&& self.cur_lens@.len() <= 1048576
        &&& self.cur_first_index + self.cur_lens@.len() <= u64::MAX
        &&& 160 + 4 * self.cur_lens@.len() + 2 * self.cur_raw@.len() <= 0x1000_0000
        &&& spec_batches_entries(self.batches@) + spec_run_entries(
            self.cur_group,
            self.cur_term,
            self.cur_first_index,
            self.cur_lens@,
            self.cur_raw@,
        ) == self.added@
    }

    /// Seal the open run into a batch.
    fn seal(&mut self)
        requires
            old(self).wf(),
            old(self).cur_lens@.len() > 0,
        ensures
            final(self).wf(),
            final(self).cur_lens@.len() == 0,
            final(self).cur_raw@.len() == 0,
            final(self).spec_added() == old(self).spec_added(),
    {
        let mut lens: Vec<u32> = Vec::new();
        let mut raw: Vec<u8> = Vec::new();
        core::mem::swap(&mut lens, &mut self.cur_lens);
        core::mem::swap(&mut raw, &mut self.cur_raw);
        let data_segment = lz4_compress(raw.as_slice());
        proof {
            vstd::arithmetic::div_mod::lemma_div_is_ordered(
                (raw@.len() * 110) as int,
                (raw@.len() * 200) as int,
                100,
            );
            assert((raw@.len() * 200) as int / 100 == 2 * raw@.len()) by (nonlinear_arith);
        }
        let batch = RaftLogBatch {
            group: self.cur_group,
            term: self.cur_term,
            first_index: self.cur_first_index,
            lens,
            data_segment,
            raw: Ghost(raw@),
        };
        self.batches.push(batch);
        proof {
            assert(spec_offset_of(self.cur_lens@, 0) == 0);
            assert forall|i: int|
                0 <= i < self.batches@.len() implies (#[trigger] self.batches@[i]).wf() by {
                if i < self.batches@.len() - 1 {
                    assert(old(self).batches@[i].wf());
                }
            }
            let f = |bb: RaftLogBatch| bb.spec_entries();
            let m = old(self).batches@.map_values(f);
            let m2 = self.batches@.map_values(f);
            assert(m2.drop_last() =~= m);
            assert(m2.flatten_alt() == m.flatten_alt() + batch.spec_entries());
            assert(batch.spec_entries() == spec_run_entries(
                old(self).cur_group,
                old(self).cur_term,
                old(self).cur_first_index,
                old(self).cur_lens@,
                old(self).cur_raw@,
            ));
            assert(spec_run_entries(
                self.cur_group,
                self.cur_term,
                self.cur_first_index,
                self.cur_lens@,
                self.cur_raw@,
            ) =~= Seq::<(u64, u64, u64, Seq<u8>)>::empty());
            assert(spec_batches_entries(self.batches@) + Seq::<
                (u64, u64, u64, Seq<u8>),
            >::empty() =~= spec_batches_entries(self.batches@));
        }
    }

    /// Add one raft entry's payload. Entries of one group must arrive with
    /// consecutive indices at one term; a break starts a new batch. One
    /// entry must fit a fresh batch whose compressed segment stays within
    /// the wire width, which caps it at 128 MiB.
    pub fn add(&mut self, group: u64, term: u64, index: u64, data: &[u8])
        requires
            old(self).wf(),
            data@.len() > 0,
            data@.len() <= 0x7FF_FF00,
            index < u64::MAX,
        ensures
            final(self).wf(),
            final(self).spec_added() == old(self).spec_added().push((group, term, index, data@)),
    {
        let size_next: u64 = 160 + 4 * (self.cur_lens.len() as u64 + 1) + 2 * (
        self.cur_raw.len() as u64 + data.len() as u64);
        let rotate = if self.cur_lens.len() == 0 {
            false
        } else {
            self.cur_group != group || self.cur_term != term
                || self.cur_first_index > u64::MAX - self.cur_lens.len() as u64 || index
                != self.cur_first_index + self.cur_lens.len() as u64 || size_next > 0x1000_0000u64
                || self.cur_lens.len() >= 1048576
        };
        if rotate {
            self.seal();
        }
        let ghost mid = *self;
        if self.cur_lens.len() == 0 {
            self.cur_group = group;
            self.cur_term = term;
            self.cur_first_index = index;
        }
        let ghost pre = *self;
        let ghost pre_lens = self.cur_lens@;
        let ghost pre_raw = self.cur_raw@;
        self.cur_lens.push(data.len() as u32);
        self.cur_raw.extend_from_slice(data);
        proof {
            self.added@ = self.added@.push((group, term, index, data@));
        }
        proof {
            let lens2 = self.cur_lens@;
            assert(lens2.take(pre_lens.len() as int) =~= pre_lens);
            lemma_offset_of_take(lens2, pre_lens.len() as int, pre_lens.len() as int);
            assert(spec_offset_of(lens2, lens2.len() as int) == spec_offset_of(
                lens2,
                pre_lens.len() as int,
            ) + lens2[pre_lens.len() as int]);
            lemma_run_entries_push(
                pre.cur_group,
                pre.cur_term,
                pre.cur_first_index,
                pre_lens,
                pre_raw,
                data@.len() as u32,
                data@,
            );
            let tuple = (
                pre.cur_group,
                pre.cur_term,
                (pre.cur_first_index + pre_lens.len()) as u64,
                data@,
            );
            assert(tuple == (group, term, index, data@));
            let be = spec_batches_entries(pre.batches@);
            let run = spec_run_entries(
                pre.cur_group,
                pre.cur_term,
                pre.cur_first_index,
                pre_lens,
                pre_raw,
            );
            let run_mid = spec_run_entries(
                mid.cur_group,
                mid.cur_term,
                mid.cur_first_index,
                pre_lens,
                pre_raw,
            );
            assert(be + run_mid == pre.added@);
            if pre_lens.len() == 0 {
                assert(run_mid =~= Seq::<(u64, u64, u64, Seq<u8>)>::empty());
                assert(run =~= Seq::<(u64, u64, u64, Seq<u8>)>::empty());
                assert(be + run =~= be + run_mid);
            }
            assert(be + run == pre.added@);
            assert(be + run.push(tuple) =~= (be + run).push(tuple));
            assert(self.cur_raw@ =~= pre_raw + data@);
            assert(self.batches@ == pre.batches@);
            assert(spec_run_entries(
                self.cur_group,
                self.cur_term,
                self.cur_first_index,
                self.cur_lens@,
                self.cur_raw@,
            ) == run.push(tuple));
            assert(self.added@ == pre.added@.push(tuple));
            assert(spec_batches_entries(self.batches@) + spec_run_entries(
                self.cur_group,
                self.cur_term,
                self.cur_first_index,
                self.cur_lens@,
                self.cur_raw@,
            ) == self.added@);
        }
    }

    /// Seal the open run and hand out the batches.
    pub fn build(self) -> (r: Vec<RaftLogBatch>)
        requires
            self.wf(),
        ensures
            forall|i: int| 0 <= i < r@.len() ==> (#[trigger] r@[i]).wf(),
            spec_batches_entries(r@) == self.spec_added(),
    {
        let mut this = self;
        if this.cur_lens.len() > 0 {
            this.seal();
        }
        proof {
            let be = spec_batches_entries(this.batches@);
            let run = spec_run_entries(
                this.cur_group,
                this.cur_term,
                this.cur_first_index,
                this.cur_lens@,
                this.cur_raw@,
            );
            assert(run =~= Seq::<(u64, u64, u64, Seq<u8>)>::empty());
            assert(be + run =~= be);
        }
        this.batches
    }
}

proof fn lemma_offset_of_snoc(lens: Seq<u32>, i: int)
    requires
        0 <= i < lens.len(),
    ensures
        spec_offset_of(lens, i + 1) == spec_offset_of(lens.take(i), i) + lens[i],
    decreases i,
{
    lemma_offset_of_take(lens, i, i);
}

proof fn lemma_offset_of_take(lens: Seq<u32>, i: int, j: int)
    requires
        0 <= j <= i <= lens.len(),
    ensures
        i < lens.len() ==> spec_offset_of(lens, j) == spec_offset_of(lens.take(i), j),
        spec_offset_of(lens, j) == spec_offset_of(lens.take(i), j),
    decreases j,
{
    if j > 0 {
        lemma_offset_of_take(lens, i, j - 1);
        assert(lens.take(i)[j - 1] == lens[j - 1]);
    }
}

} // verus!
