//! Restart-interval-compressed key-value blocks.
//!
//! Layout:
//!
//! ```plain
//! | (key_diff_len:u16) (shared_prefix_len:u16) (value_len:u32) (key_suffix) (value) | ...
//! | restart_offset[0..R-1]:u32 each | R:u32 | compression_type:u8 | crc32:u32 |
//! ```
//!
//! All integers little-endian. Compression covers the entry section only;
//! the restart table, the count, the tag and the CRC are plain.

use crate::bytes_util::{
    bytes_to_vec, common_prefix_len, lemma_common_prefix_len_bounds, lemma_lex_lt_trans, lex_lt,
    subrange_to_vec,
};
use crate::error::{Error, Result};
use crate::iterator::{entries_sorted, is_lower_bound, kv_views, Seek, StorageIterator};
use crate::keys::key_diff;
use crate::utils::{crc32_of, crc32check, crc32sum, lz4_compress, lz4_decompress};
use vstd::bytes::{
    lemma_auto_spec_u16_to_from_le_bytes, lemma_auto_spec_u32_to_from_le_bytes,
    spec_u16_from_le_bytes, spec_u16_to_le_bytes, spec_u32_from_le_bytes, spec_u32_to_le_bytes,
    u16_from_le_bytes, u16_to_le_bytes, u32_from_le_bytes, u32_to_le_bytes,
};
use vstd::prelude::*;
use vstd::slice::slice_subrange;

verus! {

/// Compression applied to a block's entry section.
#[derive(Clone, Copy, Debug, PartialEq, Eq, Structural)]
pub enum CompressionAlgorithm {
    Plain,
    Lz4,
}

impl CompressionAlgorithm {
    /// The wire tag of the compression type.
    pub open spec fn spec_tag(self) -> u8 {
        match self {
            CompressionAlgorithm::Plain => 0,
            CompressionAlgorithm::Lz4 => 1,
        }
    }

    pub fn tag(self) -> (r: u8)
        ensures
            r == self.spec_tag(),
    {
        match self {
            CompressionAlgorithm::Plain => 0,
            CompressionAlgorithm::Lz4 => 1,
        }
    }

    pub fn from_tag(tag: u8) -> (r: Option<Self>)
        ensures
            tag == 0 ==> r == Some(CompressionAlgorithm::Plain),
            tag == 1 ==> r == Some(CompressionAlgorithm::Lz4),
            tag > 1 ==> r is None,
    {
        if tag == 0 {
            Some(CompressionAlgorithm::Plain)
        } else if tag == 1 {
            Some(CompressionAlgorithm::Lz4)
        } else {
            None
        }
    }
}

/// Parse a plain entry section into `(full_key, value)` pairs, resolving
/// prefix compression against `prev_key`.
pub open spec fn spec_parse_entries(data: Seq<u8>, prev_key: Seq<u8>) -> Option<
    Seq<(Seq<u8>, Seq<u8>)>,
>
    decreases data.len(),
{
    if data.len() == 0 {
        Some(Seq::<(Seq<u8>, Seq<u8>)>::empty())
    } else if data.len() < 8 {
        None
    } else {
        let diff_len = spec_u16_from_le_bytes(data.subrange(0, 2)) as int;
        let shared_len = spec_u16_from_le_bytes(data.subrange(2, 4)) as int;
        let value_len = spec_u32_from_le_bytes(data.subrange(4, 8)) as int;
        if shared_len > prev_key.len() || data.len() < 8 + diff_len + value_len {
            None
        } else {
            let key = prev_key.subrange(0, shared_len) + data.subrange(8, 8 + diff_len);
            let value = data.subrange(8 + diff_len, 8 + diff_len + value_len);
            let rest = data.skip(8 + diff_len + value_len);
            match spec_parse_entries(rest, key) {
                Some(tail) => Some(seq![(key, value)] + tail),
                None => None,
            }
        }
    }
}

/// The wire bytes of one entry.
pub open spec fn spec_entry_encoding(key: Seq<u8>, value: Seq<u8>, shared: int) -> Seq<u8> {
    spec_u16_to_le_bytes((key.len() - shared) as u16) + spec_u16_to_le_bytes(shared as u16)
        + spec_u32_to_le_bytes(value.len() as u32) + key.skip(shared) + value
}

/// The encoding of `(key, value)` against `prev` with `shared` shared bytes
/// is well-formed.
pub open spec fn valid_entry_encoding(
    prev: Seq<u8>,
    key: Seq<u8>,
    value: Seq<u8>,
    shared: int,
) -> bool {
    &&& 0 <= shared <= key.len()
    &&& shared <= prev.len()
    &&& key.len() - shared <= u16::MAX
    &&& shared <= u16::MAX
    &&& value.len() <= u32::MAX
    &&& prev.subrange(0, shared) == key.subrange(0, shared)
}

/// The key prefix compression is resolved against: the last parsed key, or
/// the seed.
pub open spec fn last_key_of(es: Seq<(Seq<u8>, Seq<u8>)>, init: Seq<u8>) -> Seq<u8> {
    if es.len() == 0 {
        init
    } else {
        es.last().0
    }
}

proof fn lemma_parse_single(prev: Seq<u8>, key: Seq<u8>, value: Seq<u8>, shared: int)
    requires
        valid_entry_encoding(prev, key, value, shared),
    ensures
        spec_parse_entries(spec_entry_encoding(key, value, shared), prev) == Some(
            seq![(key, value)],
        ),
{
    lemma_auto_spec_u16_to_from_le_bytes();
    lemma_auto_spec_u32_to_from_le_bytes();
    let enc = spec_entry_encoding(key, value, shared);
    let d = key.len() - shared;
    let v = value.len() as int;
    assert(enc.len() == 8 + d + v);
    assert(enc.subrange(0, 2) =~= spec_u16_to_le_bytes(d as u16));
    assert(enc.subrange(2, 4) =~= spec_u16_to_le_bytes(shared as u16));
    assert(enc.subrange(4, 8) =~= spec_u32_to_le_bytes(value.len() as u32));
    assert(enc.subrange(8, 8 + d) =~= key.skip(shared));
    assert(enc.subrange(8 + d, 8 + d + v) =~= value);
    assert(prev.subrange(0, shared) + key.skip(shared) =~= key);
    assert(enc.skip(8 + d + v) =~= Seq::<u8>::empty());
    assert(spec_parse_entries(Seq::<u8>::empty(), key) == Some(
        Seq::<(Seq<u8>, Seq<u8>)>::empty(),
    ));
    assert(seq![(key, value)] + Seq::<(Seq<u8>, Seq<u8>)>::empty() =~= seq![(key, value)]);
}

/// Appending one well-formed entry extends the parse by that entry.
proof fn lemma_parse_entries_append(
    data: Seq<u8>,
    pk: Seq<u8>,
    key: Seq<u8>,
    value: Seq<u8>,
    shared: int,
)
    requires
        spec_parse_entries(data, pk) is Some,
        valid_entry_encoding(
            last_key_of(spec_parse_entries(data, pk)->Some_0, pk),
            key,
            value,
            shared,
        ),
    ensures
        spec_parse_entries(data + spec_entry_encoding(key, value, shared), pk) == Some(
            spec_parse_entries(data, pk)->Some_0.push((key, value)),
        ),
    decreases data.len(),
{
    let enc = spec_entry_encoding(key, value, shared);
    let es = spec_parse_entries(data, pk)->Some_0;
    if data.len() == 0 {
        assert(data + enc =~= enc);
        lemma_parse_single(pk, key, value, shared);
        assert(es.push((key, value)) =~= seq![(key, value)]);
    } else {
        // data.len() >= 8 since the parse succeeded on non-empty data.
        lemma_auto_spec_u16_to_from_le_bytes();
        lemma_auto_spec_u32_to_from_le_bytes();
        let s = data + enc;
        let d1 = spec_u16_from_le_bytes(data.subrange(0, 2)) as int;
        let s1 = spec_u16_from_le_bytes(data.subrange(2, 4)) as int;
        let v1 = spec_u32_from_le_bytes(data.subrange(4, 8)) as int;
        let c = 8 + d1 + v1;
        assert(s.subrange(0, 2) =~= data.subrange(0, 2));
        assert(s.subrange(2, 4) =~= data.subrange(2, 4));
        assert(s.subrange(4, 8) =~= data.subrange(4, 8));
        let key1 = pk.subrange(0, s1) + data.subrange(8, 8 + d1);
        let value1 = data.subrange(8 + d1, 8 + d1 + v1);
        assert(s.subrange(8, 8 + d1) =~= data.subrange(8, 8 + d1));
        assert(s.subrange(8 + d1, 8 + d1 + v1) =~= data.subrange(8 + d1, 8 + d1 + v1));
        assert(s.skip(c) =~= data.skip(c) + enc);
        let tail = spec_parse_entries(data.skip(c), key1)->Some_0;
        assert(es == seq![(key1, value1)] + tail);
        assert(last_key_of(tail, key1) == last_key_of(es, pk)) by {
            if tail.len() == 0 {
                assert(es =~= seq![(key1, value1)]);
            } else {
                assert(es.last() == tail.last());
            }
        }
        lemma_parse_entries_append(data.skip(c), key1, key, value, shared);
        assert(seq![(key1, value1)] + tail.push((key, value)) =~= (seq![(key1, value1)]
            + tail).push((key, value)));
    }
}

/// `bytes` is a well-formed block whose entry section decodes and parses to
/// `entries`.
pub open spec fn spec_block_encodes(bytes: Seq<u8>, entries: Seq<(Seq<u8>, Seq<u8>)>) -> bool {
    &&& bytes.len() >= 9
    &&& {
        let n = bytes.len() as int;
        let restart_count = spec_u32_from_le_bytes(bytes.subrange(n - 9, n - 5)) as int;
        let tag = bytes[n - 5];
        &&& spec_u32_from_le_bytes(bytes.subrange(n - 4, n)) == crc32_of(bytes.subrange(0, n - 4))
        &&& n - 9 - 4 * restart_count >= 0
        &&& {
            let section = bytes.subrange(0, n - 9 - 4 * restart_count);
            ||| (tag == 0 && spec_parse_entries(section, Seq::<u8>::empty()) == Some(entries))
            ||| (tag == 1 && exists|orig: Seq<u8>|
                section == crate::utils::lz4_of(orig) && spec_parse_entries(
                    orig,
                    Seq::<u8>::empty(),
                ) == Some(entries))
        }
    }
}

/// A decoded block: the parsed `(full_key, value)` pairs.
pub struct Block {
    entries: Vec<(Vec<u8>, Vec<u8>)>,
    /// Size of the encoded block, the block's cache cost.
    raw_len: usize,
}

impl Block {
    pub closed spec fn spec_entries(&self) -> Seq<(Seq<u8>, Seq<u8>)> {
        kv_views(self.entries@)
    }

    pub closed spec fn spec_raw_len(&self) -> usize {
        self.raw_len
    }

    pub fn len(&self) -> (r: usize)
        ensures
            r == self.spec_entries().len(),
    {
        self.entries.len()
    }

    pub fn raw_len(&self) -> (r: usize)
        ensures
            r == self.spec_raw_len(),
    {
        self.raw_len
    }

    pub fn key_at(&self, i: usize) -> (r: &[u8])
        requires
            i < self.spec_entries().len(),
        ensures
            r@ == self.spec_entries()[i as int].0,
    {
        self.entries[i].0.as_slice()
    }

    pub fn value_at(&self, i: usize) -> (r: &[u8])
        requires
            i < self.spec_entries().len(),
        ensures
            r@ == self.spec_entries()[i as int].1,
    {
        self.entries[i].1.as_slice()
    }

    /// Entry-wise copy.
    pub fn duplicate(&self) -> (r: Self)
        ensures
            r.spec_entries() == self.spec_entries(),
            r.spec_raw_len() == self.spec_raw_len(),
    {
        let n = self.entries.len();
        let mut entries: Vec<(Vec<u8>, Vec<u8>)> = Vec::new();
        let mut i: usize = 0;
        while i < n
            invariant
                i <= n,
                n == self.entries@.len(),
                kv_views(entries@) =~= kv_views(self.entries@).take(i as int),
            decreases n - i,
        {
            let key = bytes_to_vec(self.entries[i].0.as_slice());
            let value = bytes_to_vec(self.entries[i].1.as_slice());
            entries.push((key, value));
            proof {
                assert(kv_views(entries@) =~= kv_views(entries@.drop_last()).push(
                    (key@, value@),
                ));
                assert(kv_views(self.entries@).take(i + 1) =~= kv_views(self.entries@).take(
                    i as int,
                ).push(kv_views(self.entries@)[i as int]));
                assert(kv_views(entries@) =~= kv_views(self.entries@).take(i + 1));
            }
            i += 1;
        }
        proof {
            assert(kv_views(self.entries@).take(n as int) =~= kv_views(self.entries@));
        }
        Block { entries, raw_len: self.raw_len }
    }

    /// Decode a block. The checksum is verified; the entry section is
    /// decompressed if the tag asks for it, then parsed.
    pub fn decode(buf: &[u8]) -> (r: Result<Block>)
        ensures
            forall|es: Seq<(Seq<u8>, Seq<u8>)>|
                spec_block_encodes(buf@, es) ==> (r matches Ok(b) && b.spec_entries() == es),
            r matches Ok(b) ==> b.spec_raw_len() == buf@.len(),
    {
        proof {
            lemma_auto_spec_u32_to_from_le_bytes();
        }
        let n = buf.len();
        if n < 9 {
            return Err(Error::Decode);
        }
        let crc = u32_from_le_bytes(slice_subrange(buf, n - 4, n));
        if !crc32check(slice_subrange(buf, 0, n - 4), crc) {
            return Err(Error::Checksum);
        }
        let tag = buf[n - 5];
        let restart_count = u32_from_le_bytes(slice_subrange(buf, n - 9, n - 5)) as usize;
        if restart_count > (n - 9) / 4 {
            return Err(Error::Decode);
        }
        let section_end = n - 9 - 4 * restart_count;
        let section = slice_subrange(buf, 0, section_end);
        if tag == 0 {
            match Self::parse_entries(section) {
                Ok(entries) => Ok(Block { entries, raw_len: n }),
                Err(e) => {
                    proof {
                        assert forall|es: Seq<(Seq<u8>, Seq<u8>)>|
                            !spec_block_encodes(buf@, es) by {}
                    }
                    Err(e)
                },
            }
        } else if tag == 1 {
            match lz4_decompress(section) {
                Ok(data) => {
                    match Self::parse_entries(data.as_slice()) {
                        Ok(entries) => Ok(Block { entries, raw_len: n }),
                        Err(e) => Err(e),
                    }
                },
                Err(e) => Err(e),
            }
        } else {
            Err(Error::Decode)
        }
    }

    /// Parse a plain entry section.
    fn parse_entries(data: &[u8]) -> (r: Result<Vec<(Vec<u8>, Vec<u8>)>>)
        ensures
            r matches Ok(v) ==> spec_parse_entries(data@, Seq::<u8>::empty()) == Some(kv_views(v@)),
            r is Err <==> spec_parse_entries(data@, Seq::<u8>::empty()) is None,
    {
        let n = data.len();
        let mut pos: usize = 0;
        let mut prev: Vec<u8> = Vec::new();
        let mut out: Vec<(Vec<u8>, Vec<u8>)> = Vec::new();
        proof {
            assert(data@.skip(0) =~= data@);
            assert(kv_views(out@) =~= Seq::<(Seq<u8>, Seq<u8>)>::empty());
            if spec_parse_entries(data@, Seq::<u8>::empty()) is Some {
                assert(kv_views(out@) + spec_parse_entries(data@, Seq::<u8>::empty())->Some_0
                    =~= spec_parse_entries(data@, Seq::<u8>::empty())->Some_0);
            }
        }
        while pos < n
            invariant
                pos <= n,
                n == data@.len(),
                spec_parse_entries(data@, Seq::<u8>::empty()) == (match spec_parse_entries(
                    data@.skip(pos as int),
                    prev@,
                ) {
                    Some(tail) => Some(kv_views(out@) + tail),
                    None => None::<Seq<(Seq<u8>, Seq<u8>)>>,
                }),
            decreases n - pos,
        {
            let ghost rest = data@.skip(pos as int);
            if n - pos < 8 {
                return Err(Error::Decode);
            }
            proof {
                assert(rest.subrange(0, 2) =~= data@.subrange(pos as int, pos + 2));
                assert(rest.subrange(2, 4) =~= data@.subrange(pos + 2, pos + 4));
                assert(rest.subrange(4, 8) =~= data@.subrange(pos + 4, pos + 8));
            }
            let diff_len = u16_from_le_bytes(slice_subrange(data, pos, pos + 2)) as usize;
            let shared_len = u16_from_le_bytes(slice_subrange(data, pos + 2, pos + 4)) as usize;
            let value_len = u32_from_le_bytes(slice_subrange(data, pos + 4, pos + 8)) as usize;
            if shared_len > prev.len() {
                return Err(Error::Decode);
            }
            if diff_len > n - pos - 8 || value_len > n - pos - 8 - diff_len {
                return Err(Error::Decode);
            }
            let key_start = pos + 8;
            proof {
                assert(rest.subrange(8, 8 + diff_len) =~= data@.subrange(
                    key_start as int,
                    key_start + diff_len,
                ));
                assert(rest.subrange(8 + diff_len, 8 + diff_len + value_len) =~= data@.subrange(
                    key_start + diff_len,
                    key_start + diff_len + value_len,
                ));
            }
            let mut key = subrange_to_vec(prev.as_slice(), 0, shared_len);
            key.extend_from_slice(slice_subrange(data, key_start, key_start + diff_len));
            let value = subrange_to_vec(data, key_start + diff_len, key_start + diff_len
                + value_len);
            let next_pos = key_start + diff_len + value_len;
            proof {
                assert(rest.skip(8 + diff_len + value_len) =~= data@.skip(next_pos as int));
                let d = spec_u16_from_le_bytes(rest.subrange(0, 2)) as int;
                let sh = spec_u16_from_le_bytes(rest.subrange(2, 4)) as int;
                let vl = spec_u32_from_le_bytes(rest.subrange(4, 8)) as int;
                assert(d == diff_len);
                assert(sh == shared_len);
                assert(vl == value_len);
                assert(rest.len() >= 8 + d + vl);
                assert(prev@.subrange(0, sh) + rest.subrange(8, 8 + d) =~= key@);
                assert(rest.subrange(8 + d, 8 + d + vl) =~= value@);
                let tail2 = spec_parse_entries(data@.skip(next_pos as int), key@);
                if tail2 is Some {
                    assert(spec_parse_entries(rest, prev@) == Some(
                        seq![(key@, value@)] + tail2->Some_0,
                    ));
                    assert(kv_views(out@.push((key, value))) =~= kv_views(out@).push(
                        (key@, value@),
                    ));
                    assert(kv_views(out@) + (seq![(key@, value@)] + tail2->Some_0) =~= kv_views(
                        out@.push((key, value)),
                    ) + tail2->Some_0);
                } else {
                    assert(spec_parse_entries(rest, prev@) is None);
                }
            }
            let key2 = bytes_to_vec(key.as_slice());
            out.push((key, value));
            prev = key2;
            pos = next_pos;
        }
        proof {
            assert(data@.skip(pos as int) =~= Seq::<u8>::empty());
            assert(spec_parse_entries(Seq::<u8>::empty(), prev@) == Some(
                Seq::<(Seq<u8>, Seq<u8>)>::empty(),
            ));
            assert(kv_views(out@) + Seq::<(Seq<u8>, Seq<u8>)>::empty() =~= kv_views(out@));
        }
        Ok(out)
    }
}

/// Options for a block builder.
#[derive(Clone, Copy, Debug)]
pub struct BlockBuilderOptions {
    /// Reserved buffer capacity.
    pub capacity: usize,
    /// Compression algorithm.
    pub compression_algorithm: CompressionAlgorithm,
    /// Entries between two restart points.
    pub restart_interval: usize,
}

impl Default for BlockBuilderOptions {
    /// 64 KiB target, no compression, a restart point every 16 entries.
    fn default() -> (r: Self)
        ensures
            r.capacity == 65536,
            r.compression_algorithm == CompressionAlgorithm::Plain,
            r.restart_interval == 16,
    {
        BlockBuilderOptions {
            capacity: 65536,
            compression_algorithm: CompressionAlgorithm::Plain,
            restart_interval: 16,
        }
    }
}

/// Accumulates ascending `(full_key, value)` pairs and encodes them as a
/// block.
/// The width of one encoded entry: the 8-byte header, the key suffix after
/// the shared prefix with the previous key (the whole key at a restart),
/// and the value.
pub open spec fn spec_entry_width(
    prev: Seq<u8>,
    key: Seq<u8>,
    value: Seq<u8>,
    restart: bool,
) -> int {
    8 + (if restart {
        key.len() as int
    } else {
        key.len() - common_prefix_len(prev, key)
    }) + value.len()
}

/// The entry-section size of a block holding `entries` under restart
/// interval `ri`: every `ri`-th entry restarts the prefix compression.
pub open spec fn spec_section_size(entries: Seq<(Seq<u8>, Seq<u8>)>, ri: int) -> int
    decreases entries.len(),
{
    if entries.len() == 0 {
        0
    } else {
        let k = entries.len() - 1;
        spec_section_size(entries.drop_last(), ri) + spec_entry_width(
            if k == 0 {
                Seq::<u8>::empty()
            } else {
                entries[k - 1].0
            },
            entries[k].0,
            entries[k].1,
            k % ri == 0,
        )
    }
}

/// An entry's width is positive, so a block's section grows with it.
pub proof fn lemma_section_size_grows(entries: Seq<(Seq<u8>, Seq<u8>)>, ri: int)
    requires
        entries.len() > 0,
        ri >= 1,
    ensures
        spec_section_size(entries.drop_last(), ri) <= spec_section_size(entries, ri),
{
    let k = entries.len() - 1;
    if k > 0 {
        crate::bytes_util::lemma_common_prefix_len_bounds(entries[k - 1].0, entries[k].0);
    }
}

pub struct BlockBuilder {
    /// Plain entry section.
    buf: Vec<u8>,
    /// Offsets of the uncompressed keys.
    restart_points: Vec<u32>,
    /// Last added full key.
    last_key: Vec<u8>,
    /// Entries added so far.
    entry_count: usize,
    compression_algorithm: CompressionAlgorithm,
    restart_interval: usize,
    entries: Ghost<Seq<(Seq<u8>, Seq<u8>)>>,
}

impl BlockBuilder {
    /// The pairs added so far.
    pub closed spec fn spec_entries(&self) -> Seq<(Seq<u8>, Seq<u8>)> {
        self.entries@
    }

    pub closed spec fn spec_compression(&self) -> CompressionAlgorithm {
        self.compression_algorithm
    }

    pub closed spec fn spec_last_key(&self) -> Seq<u8> {
        self.last_key@
    }

    /// Encoded size if built now: entry section, restart table, count, tag,
    /// checksum.
    pub closed spec fn spec_approximate_len(&self) -> int {
        self.buf@.len() + 4 * self.restart_points@.len() + 9int
    }

    /// The encoded size is at least the empty trailer.
    pub proof fn lemma_approximate_len_lb(&self)
        ensures
            self.spec_approximate_len() >= 9,
    {
    }

    /// The configured restart interval.
    pub closed spec fn spec_restart_interval(&self) -> int {
        self.restart_interval as int
    }

    pub closed spec fn wf(&self) -> bool {
        &&& self.restart_interval >= 1
        &&& self.buf@.len() == spec_section_size(self.entries@, self.restart_interval as int)
        &&& self.buf@.len() + 4 * self.restart_points@.len() + 9 <= u32::MAX
        &&& self.restart_points@.len() <= self.entries@.len()
        &&& self.entry_count == self.entries@.len()
        &&& 8 * self.entries@.len() <= self.buf@.len()
        &&& spec_parse_entries(self.buf@, Seq::<u8>::empty()) == Some(self.entries@)
        &&& self.last_key@ == last_key_of(self.entries@, Seq::<u8>::empty())
        &&& entries_sorted(self.entries@)
    }

    /// The entry section is a function of the entries and the restart
    /// interval alone.
    pub proof fn lemma_section_is_entries(&self)
        requires
            self.wf(),
        ensures
            self.spec_section_len() == spec_section_size(
                self.spec_entries(),
                self.spec_restart_interval(),
            ),
            self.spec_restart_interval() >= 1,
    {
    }

    pub fn new(options: BlockBuilderOptions) -> (r: Self)
        requires
            options.restart_interval >= 1,
        ensures
            r.wf(),
            r.spec_entries() == Seq::<(Seq<u8>, Seq<u8>)>::empty(),
            r.spec_compression() == options.compression_algorithm,
            r.spec_approximate_len() == 9,
            r.spec_restart_interval() == options.restart_interval,
    {
        let r = BlockBuilder {
            buf: Vec::new(),
            restart_points: Vec::new(),
            last_key: Vec::new(),
            entry_count: 0,
            compression_algorithm: options.compression_algorithm,
            restart_interval: options.restart_interval,
            entries: Ghost(Seq::empty()),
        };
        proof {
            assert(r.buf@ =~= Seq::<u8>::empty());
        }
        r
    }

    pub fn is_empty(&self) -> (r: bool)
        requires
            self.wf(),
        ensures
            r == (self.spec_entries().len() == 0),
    {
        self.entry_count == 0
    }

    /// Add an entry. Keys must arrive in strictly ascending order.
    pub fn add(&mut self, key: &[u8], value: &[u8])
        requires
            old(self).wf(),
            key@.len() > 0,
            key@.len() <= u16::MAX,
            value@.len() <= u32::MAX,
            old(self).spec_approximate_len() + 12 + key@.len() + value@.len() <= u32::MAX,
            old(self).spec_entries().len() == 0 || lex_lt(old(self).spec_last_key(), key@),
        ensures
            final(self).wf(),
            final(self).spec_entries() == old(self).spec_entries().push((key@, value@)),
            final(self).spec_compression() == old(self).spec_compression(),
            final(self).spec_restart_interval() == old(self).spec_restart_interval(),
            final(self).spec_last_key() == key@,
            final(self).spec_approximate_len() <= old(self).spec_approximate_len() + 12 + key@.len()
                + value@.len(),
    {
        let ghost pre = *self;
        let shared: usize = if self.entry_count % self.restart_interval == 0 {
            self.restart_points.push(self.buf.len() as u32);
            0
        } else {
            proof {
                lemma_common_prefix_len_bounds(self.last_key@, key@);
            }
            let diff = key_diff(self.last_key.as_slice(), key);
            key.len() - diff.len()
        };
        proof {
            assert(valid_entry_encoding(last_key_of(pre.entries@, Seq::<u8>::empty()), key@, value@, shared as int)) by {
                let prev = last_key_of(pre.entries@, Seq::<u8>::empty());
                if shared != 0 {
                    lemma_common_prefix_len_bounds(pre.last_key@, key@);
                    assert(pre.last_key@.subrange(0, shared as int) =~= key@.subrange(
                        0,
                        shared as int,
                    ));
                } else {
                    assert(prev.subrange(0, 0) =~= key@.subrange(0, 0));
                }
            }
        }
        let diff_bytes = u16_to_le_bytes((key.len() - shared) as u16);
        self.buf.extend_from_slice(diff_bytes.as_slice());
        let shared_bytes = u16_to_le_bytes(shared as u16);
        self.buf.extend_from_slice(shared_bytes.as_slice());
        let vlen_bytes = u32_to_le_bytes(value.len() as u32);
        self.buf.extend_from_slice(vlen_bytes.as_slice());
        let suffix = slice_subrange(key, shared, key.len());
        self.buf.extend_from_slice(suffix);
        self.buf.extend_from_slice(value);
        self.last_key = bytes_to_vec(key);
        self.entry_count = self.entry_count + 1;
        proof {
            self.entries@ = pre.entries@.push((key@, value@));
        }
        proof {
            assert(key@.skip(shared as int) =~= key@.subrange(shared as int, key@.len() as int));
            assert(self.buf@ =~= pre.buf@ + spec_entry_encoding(key@, value@, shared as int));
            lemma_parse_entries_append(pre.buf@, Seq::<u8>::empty(), key@, value@, shared as int);
            let ri = self.restart_interval as int;
            let k = pre.entries@.len() as int;
            assert(self.entries@.drop_last() =~= pre.entries@);
            assert(spec_section_size(self.entries@, ri) == spec_section_size(pre.entries@, ri)
                + spec_entry_width(
                if k == 0 {
                    Seq::<u8>::empty()
                } else {
                    pre.entries@[k - 1].0
                },
                key@,
                value@,
                k % ri == 0,
            ));
            if k % ri == 0 {
                assert(pre.entry_count % pre.restart_interval == 0);
                assert(shared == 0);
            } else {
                assert(!(pre.entry_count % pre.restart_interval == 0));
                assert(k > 0);
                assert(pre.last_key@ == pre.entries@[k - 1].0);
                lemma_common_prefix_len_bounds(pre.last_key@, key@);
                assert(shared == common_prefix_len(pre.entries@[k - 1].0, key@));
            }
            assert(self.buf@.len() == pre.buf@.len() + spec_entry_encoding(
                key@,
                value@,
                shared as int,
            ).len());
            assert(spec_entry_encoding(key@, value@, shared as int).len() == 8 + (key@.len()
                - shared) + value@.len()) by {
                vstd::bytes::lemma_auto_spec_u16_to_from_le_bytes();
                vstd::bytes::lemma_auto_spec_u32_to_from_le_bytes();
            }
            assert(self.buf@.len() == spec_section_size(self.entries@, ri));
            assert(self.entries@.last() == (key@, value@));
            assert(entries_sorted(self.entries@)) by {
                assert forall|i: int, j: int|
                    0 <= i < j < self.entries@.len() implies lex_lt(
                    #[trigger] self.entries@[i].0,
                    #[trigger] self.entries@[j].0,
                ) by {
                    if j == self.entries@.len() - 1 {
                        assert(pre.entries@.len() > 0);
                        let last = pre.entries@.len() - 1;
                        assert(lex_lt(pre.entries@[last].0, key@));
                        if i < last {
                            lemma_lex_lt_trans(pre.entries@[i].0, pre.entries@[last].0, key@);
                        }
                    }
                }
            }
        }
    }

    /// Encoded size if built now.
    pub fn approximate_len(&self) -> (r: usize)
        requires
            self.wf(),
        ensures
            r == self.spec_approximate_len(),
    {
        self.buf.len() + 4 * self.restart_points.len() + 9
    }

    /// Bytes of the plain entry section so far: the measure the table
    /// builder rotates blocks on.
    pub closed spec fn spec_section_len(&self) -> int {
        self.buf@.len() as int
    }

    pub fn section_len(&self) -> (r: usize)
        ensures
            r == self.spec_section_len(),
    {
        self.buf.len()
    }

    /// Seal the block: compress the entry section if asked, then append the
    /// restart table, the restart count, the compression tag and the CRC.
    pub fn build(self) -> (r: Vec<u8>)
        requires
            self.wf(),
        ensures
            spec_block_encodes(r@, self.spec_entries()),
            r@.len() <= 33 + 2 * self.spec_approximate_len(),
    {
        let BlockBuilder {
            buf,
            restart_points,
            last_key: _,
            entry_count: _,
            compression_algorithm,
            restart_interval: _,
            entries,
        } = self;
        proof {
            lemma_auto_spec_u32_to_from_le_bytes();
        }
        let mut out: Vec<u8> = match compression_algorithm {
            CompressionAlgorithm::Plain => buf,
            CompressionAlgorithm::Lz4 => {
                let c = lz4_compress(buf.as_slice());
                proof {
                    vstd::arithmetic::div_mod::lemma_div_is_ordered(
                        (buf@.len() * 110) as int,
                        (buf@.len() * 200) as int,
                        100,
                    );
                    assert((buf@.len() * 200) as int / 100 == 2 * buf@.len()) by (nonlinear_arith);
                }
                c
            },
        };
        let ghost section = out@;
        let restart_count = restart_points.len();
        let mut i: usize = 0;
        while i < restart_count
            invariant
                i <= restart_count,
                restart_count == restart_points@.len(),
                out@.len() == section.len() + 4 * i,
                out@.subrange(0, section.len() as int) =~= section,
            decreases restart_count - i,
        {
            let rp_bytes = u32_to_le_bytes(restart_points[i]);
            out.extend_from_slice(rp_bytes.as_slice());
            proof {
                assert(out@.subrange(0, section.len() as int) =~= section);
            }
            i += 1;
        }
        let count_bytes = u32_to_le_bytes(restart_count as u32);
        out.extend_from_slice(count_bytes.as_slice());
        out.push(compression_algorithm.tag());
        let crc = crc32sum(out.as_slice());
        let ghost covered = out@;
        let crc_bytes = u32_to_le_bytes(crc);
        out.extend_from_slice(crc_bytes.as_slice());
        proof {
            let n = out@.len() as int;
            assert(out@.subrange(n - 4, n) =~= spec_u32_to_le_bytes(crc));
            assert(out@.subrange(0, n - 4) =~= covered);
            assert(out@.subrange(n - 9, n - 5) =~= spec_u32_to_le_bytes(restart_count as u32));
            assert(out@[n - 5] == compression_algorithm.spec_tag());
            assert(out@.subrange(0, n - 9 - 4 * (restart_count as int)) =~= section);
            match compression_algorithm {
                CompressionAlgorithm::Plain => {
                    assert(spec_block_encodes(out@, entries@));
                },
                CompressionAlgorithm::Lz4 => {
                    assert(section == crate::utils::lz4_of(buf@));
                    assert(spec_block_encodes(out@, entries@));
                },
            }
        }
        out
    }
}


/// Direct scan over a decoded block, operating on full keys.
pub struct BlockIterator {
    block: Block,
    offset: usize,
}

impl BlockIterator {
    /// A new iterator, initially invalid; position it with `seek`.
    pub fn new(block: Block) -> (r: Self)
        ensures
            r.inv(),
            r.spec_entries() == block.spec_entries(),
            r.spec_pos() == r.spec_entries().len(),
    {
        let offset = block.len();
        BlockIterator { block, offset }
    }

    /// Position of the first key at least `key`, by binary search.
    fn lower_bound(block: &Block, key: &[u8]) -> (r: usize)
        ensures
            r <= block.spec_entries().len(),
            entries_sorted(block.spec_entries()) ==> is_lower_bound(
                block.spec_entries(),
                key@,
                r as int,
            ),
    {
        let ghost es = block.spec_entries();
        let mut lo: usize = 0;
        let mut hi: usize = block.len();
        while lo < hi
            invariant
                lo <= hi <= es.len(),
                es == block.spec_entries(),
                entries_sorted(es) ==> forall|j: int|
                    0 <= j < lo ==> lex_lt(#[trigger] es[j].0, key@),
                entries_sorted(es) ==> forall|j: int|
                    hi <= j < es.len() ==> crate::bytes_util::lex_le(key@, #[trigger] es[j].0),
            decreases hi - lo,
        {
            let mid = lo + (hi - lo) / 2;
            match crate::bytes_util::compare_bytes(block.key_at(mid), key) {
                core::cmp::Ordering::Less => {
                    proof {
                        if entries_sorted(es) {
                            assert forall|j: int| 0 <= j < mid + 1 implies lex_lt(
                                #[trigger] es[j].0,
                                key@,
                            ) by {
                                if j < mid {
                                    lemma_lex_lt_trans(es[j].0, es[mid as int].0, key@);
                                }
                            }
                        }
                    }
                    lo = mid + 1;
                },
                _ => {
                    proof {
                        if entries_sorted(es) {
                            assert forall|j: int| mid <= j < es.len() implies
                                crate::bytes_util::lex_le(key@, #[trigger] es[j].0) by {
                                if j > mid {
                                    if key@ == es[mid as int].0 {
                                    } else {
                                        lemma_lex_lt_trans(key@, es[mid as int].0, es[j].0);
                                    }
                                }
                            }
                        }
                    }
                    hi = mid;
                },
            }
        }
        lo
    }
}

impl StorageIterator for BlockIterator {
    closed spec fn spec_entries(&self) -> Seq<(Seq<u8>, Seq<u8>)> {
        self.block.spec_entries()
    }

    closed spec fn spec_pos(&self) -> int {
        self.offset as int
    }

    closed spec fn inv(&self) -> bool {
        self.offset <= self.block.spec_entries().len()
    }

    fn is_valid(&self) -> (r: bool) {
        self.offset < self.block.len()
    }

    fn key(&self) -> (r: &[u8]) {
        self.block.key_at(self.offset)
    }

    fn value(&self) -> (r: &[u8]) {
        self.block.value_at(self.offset)
    }

    fn next(&mut self) -> (r: Result<()>)
        ensures
            r is Ok,
    {
        let n = self.block.len();
        self.offset = self.offset + 1;
        Ok(())
    }

    fn prev(&mut self) -> (r: Result<()>)
        ensures
            r is Ok,
    {
        if self.offset == 0 {
            self.offset = self.block.len();
        } else {
            self.offset = self.offset - 1;
        }
        Ok(())
    }

    fn seek(&mut self, position: Seek<'_>) -> (r: Result<()>)
        ensures
            r is Ok,
    {
        match position {
            Seek::First => {
                self.offset = 0;
            },
            Seek::Last => {
                let n = self.block.len();
                self.offset = if n == 0 {
                    0
                } else {
                    n - 1
                };
            },
            Seek::Random(key) => {
                self.offset = Self::lower_bound(&self.block, key);
            },
        }
        Ok(())
    }
}

} // verus!
