//! SSTable handles, metadata codec and the table builder.
//!
//! Meta and data are encoded separately; both have their own object, so
//! callers can cache metadata while streaming data.
//!
//! Meta layout:
//!
//! ```plain
//! | checksum (4B) | N (4B) | block meta 0 | ... | block meta N-1 |
//! | bloom filter len (4B) | bloom filter |
//! ```
//!
//! The checksum covers all bytes after the checksum field itself.

use crate::block::{
    lemma_section_size_grows, spec_block_encodes, spec_section_size, BlockBuilder,
    BlockBuilderOptions, CompressionAlgorithm,
};
use crate::bloom::{spec_bloom_contains, Bloom};
use crate::bytes_util::{bytes_to_vec, lex_le, lex_lt, subrange_to_vec};
use crate::error::{Error, Result};
use crate::iterator::entries_sorted;
use crate::keys::{full_key, spec_full_key, spec_user_key};
use crate::utils::{crc32_of, crc32check, crc32sum, fingerprint32, fingerprint32_of};
use vstd::bytes::{
    lemma_auto_spec_u32_to_from_le_bytes, spec_u32_from_le_bytes, spec_u32_to_le_bytes,
    u32_from_le_bytes, u32_to_le_bytes,
};
use vstd::prelude::*;
use vstd::slice::slice_subrange;

verus! {

/// Abstract value of a block meta record.
pub struct BlockMetaV {
    pub offset: int,
    pub len: int,
    pub first_key: Seq<u8>,
    pub last_key: Seq<u8>,
}

/// Locates a block within the SSTable data object and bounds its key range.
#[derive(Clone, Debug)]
pub struct BlockMeta {
    pub offset: usize,
    pub len: usize,
    pub first_key: Vec<u8>,
    pub last_key: Vec<u8>,
}

impl View for BlockMeta {
    type V = BlockMetaV;

    open spec fn view(&self) -> BlockMetaV {
        BlockMetaV {
            offset: self.offset as int,
            len: self.len as int,
            first_key: self.first_key@,
            last_key: self.last_key@,
        }
    }
}

/// The fields fit their wire widths.
pub open spec fn block_meta_v_wf(m: BlockMetaV) -> bool {
    &&& 0 <= m.offset <= u32::MAX
    &&& 0 <= m.len <= u32::MAX
    &&& m.first_key.len() <= u32::MAX
    &&& m.last_key.len() <= u32::MAX
}

/// The wire bytes of one block meta record.
pub open spec fn spec_block_meta_encoding(m: BlockMetaV) -> Seq<u8> {
    spec_u32_to_le_bytes(m.offset as u32) + spec_u32_to_le_bytes(m.len as u32)
        + spec_u32_to_le_bytes(m.first_key.len() as u32) + spec_u32_to_le_bytes(
        m.last_key.len() as u32,
    ) + m.first_key + m.last_key
}

/// The wire bytes of a run of block meta records.
pub open spec fn spec_block_metas_encoding(ms: Seq<BlockMetaV>) -> Seq<u8>
    decreases ms.len(),
{
    if ms.len() == 0 {
        Seq::<u8>::empty()
    } else {
        spec_block_meta_encoding(ms.first()) + spec_block_metas_encoding(ms.drop_first())
    }
}

/// Parse one block meta record; `None` on malformed bytes, else the record
/// and the bytes consumed.
pub open spec fn spec_parse_block_meta(data: Seq<u8>) -> Option<(BlockMetaV, int)> {
    if data.len() < 16 {
        None
    } else {
        let offset = spec_u32_from_le_bytes(data.subrange(0, 4)) as int;
        let len = spec_u32_from_le_bytes(data.subrange(4, 8)) as int;
        let fkl = spec_u32_from_le_bytes(data.subrange(8, 12)) as int;
        let lkl = spec_u32_from_le_bytes(data.subrange(12, 16)) as int;
        if data.len() < 16 + fkl + lkl {
            None
        } else {
            Some(
                (
                    BlockMetaV {
                        offset,
                        len,
                        first_key: data.subrange(16, 16 + fkl),
                        last_key: data.subrange(16 + fkl, 16 + fkl + lkl),
                    },
                    16 + fkl + lkl,
                ),
            )
        }
    }
}

/// Parse `n` block meta records; `None` on malformed bytes, else the
/// records and the bytes consumed.
pub open spec fn spec_parse_block_metas(data: Seq<u8>, n: nat) -> Option<(Seq<BlockMetaV>, int)>
    decreases n,
{
    if n == 0 {
        Some((Seq::<BlockMetaV>::empty(), 0int))
    } else {
        match spec_parse_block_meta(data) {
            Some(mc) => match spec_parse_block_metas(data.skip(mc.1), (n - 1) as nat) {
                Some(msc) => Some((seq![mc.0] + msc.0, mc.1 + msc.1)),
                None => None,
            },
            None => None,
        }
    }
}

/// The wire bytes after the checksum field.
pub open spec fn spec_meta_body(ms: Seq<BlockMetaV>, bloom: Seq<u8>) -> Seq<u8> {
    spec_u32_to_le_bytes(ms.len() as u32) + spec_block_metas_encoding(ms) + spec_u32_to_le_bytes(
        bloom.len() as u32,
    ) + bloom
}

/// The wire bytes of a whole SSTable meta object.
pub open spec fn spec_meta_encoding(ms: Seq<BlockMetaV>, bloom: Seq<u8>) -> Seq<u8> {
    spec_u32_to_le_bytes(crc32_of(spec_meta_body(ms, bloom))) + spec_meta_body(ms, bloom)
}

/// Parse a whole SSTable meta object, checksum included.
pub open spec fn spec_parse_meta(buf: Seq<u8>) -> Option<(Seq<BlockMetaV>, Seq<u8>)> {
    if buf.len() < 8 {
        None
    } else if spec_u32_from_le_bytes(buf.subrange(0, 4)) != crc32_of(
        buf.skip(4),
    ) {
        None
    } else {
        let n = spec_u32_from_le_bytes(buf.subrange(4, 8)) as nat;
        match spec_parse_block_metas(buf.skip(8), n) {
            Some(msc) => {
                let pos = 8 + msc.1;
                if buf.len() < pos + 4 {
                    None
                } else {
                    let bl = spec_u32_from_le_bytes(buf.subrange(pos, pos + 4)) as int;
                    if buf.len() < pos + 4 + bl {
                        None
                    } else {
                        Some((msc.0, buf.subrange(pos + 4, pos + 4 + bl)))
                    }
                }
            },
            None => None,
        }
    }
}

proof fn lemma_parse_block_meta_of_encoding(m: BlockMetaV, rest: Seq<u8>)
    requires
        block_meta_v_wf(m),
    ensures
        spec_parse_block_meta(spec_block_meta_encoding(m) + rest) == Some(
            (m, spec_block_meta_encoding(m).len() as int),
        ),
        spec_block_meta_encoding(m).len() == 16 + m.first_key.len() + m.last_key.len(),
{
    lemma_auto_spec_u32_to_from_le_bytes();
    let enc = spec_block_meta_encoding(m);
    let s = enc + rest;
    let fkl = m.first_key.len() as int;
    let lkl = m.last_key.len() as int;
    assert(enc.len() == 16 + fkl + lkl);
    assert(s.subrange(0, 4) =~= spec_u32_to_le_bytes(m.offset as u32));
    assert(s.subrange(4, 8) =~= spec_u32_to_le_bytes(m.len as u32));
    assert(s.subrange(8, 12) =~= spec_u32_to_le_bytes(m.first_key.len() as u32));
    assert(s.subrange(12, 16) =~= spec_u32_to_le_bytes(m.last_key.len() as u32));
    assert(s.subrange(16, 16 + fkl) =~= m.first_key);
    assert(s.subrange(16 + fkl, 16 + fkl + lkl) =~= m.last_key);
    let p = spec_parse_block_meta(s)->Some_0;
    assert(p.0 == m) by {
        assert(p.0.first_key == m.first_key && p.0.last_key == m.last_key && p.0.offset == m.offset
            && p.0.len == m.len);
    }
}

proof fn lemma_parse_block_metas_of_encoding(ms: Seq<BlockMetaV>, rest: Seq<u8>)
    requires
        forall|i: int| 0 <= i < ms.len() ==> block_meta_v_wf(#[trigger] ms[i]),
    ensures
        spec_parse_block_metas(spec_block_metas_encoding(ms) + rest, ms.len()) == Some(
            (ms, spec_block_metas_encoding(ms).len() as int),
        ),
    decreases ms.len(),
{
    let enc = spec_block_metas_encoding(ms);
    let s = enc + rest;
    if ms.len() == 0 {
        assert(spec_parse_block_metas(s, 0) == Some((Seq::<BlockMetaV>::empty(), 0int)));
        assert(ms =~= Seq::<BlockMetaV>::empty());
    } else {
        let m0 = ms.first();
        let enc0 = spec_block_meta_encoding(m0);
        let tail_enc = spec_block_metas_encoding(ms.drop_first());
        assert(s =~= enc0 + (tail_enc + rest));
        lemma_parse_block_meta_of_encoding(m0, tail_enc + rest);
        assert(s.skip(enc0.len() as int) =~= tail_enc + rest);
        assert forall|i: int|
            0 <= i < ms.drop_first().len() implies block_meta_v_wf(
            #[trigger] ms.drop_first()[i],
        ) by {
            assert(ms.drop_first()[i] == ms[i + 1]);
        }
        lemma_parse_block_metas_of_encoding(ms.drop_first(), rest);
        assert(seq![m0] + ms.drop_first() =~= ms);
    }
}

/// SSTable meta codec round trip: parsing the encoding of any well-formed
/// meta returns exactly its block metas and bloom filter bytes.
pub proof fn lemma_meta_codec_round_trip(ms: Seq<BlockMetaV>, bloom: Seq<u8>)
    requires
        forall|i: int| 0 <= i < ms.len() ==> block_meta_v_wf(#[trigger] ms[i]),
        ms.len() <= u32::MAX,
        bloom.len() <= u32::MAX,
    ensures
        spec_parse_meta(spec_meta_encoding(ms, bloom)) == Some((ms, bloom)),
{
    lemma_auto_spec_u32_to_from_le_bytes();
    let body = spec_meta_body(ms, bloom);
    let buf = spec_meta_encoding(ms, bloom);
    let metas_enc = spec_block_metas_encoding(ms);
    assert(buf.len() == 4 + body.len());
    assert(body.len() == 4 + metas_enc.len() + 4 + bloom.len());
    assert(buf.subrange(0, 4) =~= spec_u32_to_le_bytes(crc32_of(body)));
    assert(buf.skip(4) =~= body);
    assert(buf.subrange(4, 8) =~= spec_u32_to_le_bytes(ms.len() as u32));
    assert(buf.skip(8) =~= metas_enc + (spec_u32_to_le_bytes(bloom.len() as u32) + bloom));
    lemma_parse_block_metas_of_encoding(ms, spec_u32_to_le_bytes(bloom.len() as u32) + bloom);
    let pos = 8 + metas_enc.len() as int;
    assert(buf.subrange(pos, pos + 4) =~= spec_u32_to_le_bytes(bloom.len() as u32));
    assert(buf.subrange(pos + 4, pos + 4 + bloom.len()) =~= bloom);
}

impl BlockMeta {
    /// Append the wire encoding of this record to `buf`.
    pub fn encode(&self, buf: &mut Vec<u8>)
        requires
            block_meta_v_wf(self@),
        ensures
            final(buf)@ == old(buf)@ + spec_block_meta_encoding(self@),
    {
        let b = u32_to_le_bytes(self.offset as u32);
        buf.extend_from_slice(b.as_slice());
        let b = u32_to_le_bytes(self.len as u32);
        buf.extend_from_slice(b.as_slice());
        let b = u32_to_le_bytes(self.first_key.len() as u32);
        buf.extend_from_slice(b.as_slice());
        let b = u32_to_le_bytes(self.last_key.len() as u32);
        buf.extend_from_slice(b.as_slice());
        buf.extend_from_slice(self.first_key.as_slice());
        buf.extend_from_slice(self.last_key.as_slice());
        proof {
            assert(buf@ =~= old(buf)@ + spec_block_meta_encoding(self@));
        }
    }

    /// Parse one record at `pos`; returns the record and the position after
    /// it.
    pub fn decode(buf: &[u8], pos: usize) -> (r: Result<(BlockMeta, usize)>)
        requires
            pos <= buf@.len(),
        ensures
            match r {
                Ok(p) => {
                    &&& spec_parse_block_meta(buf@.skip(pos as int)) matches Some(mc)
                    &&& p.0@ == mc.0
                    &&& p.1 == pos + mc.1
                    &&& pos < p.1 <= buf@.len()
                },
                Err(e) => spec_parse_block_meta(buf@.skip(pos as int)) is None && e
                    == Error::Decode,
            },
    {
        proof {
            lemma_auto_spec_u32_to_from_le_bytes();
        }
        let ghost rest = buf@.skip(pos as int);
        let n = buf.len();
        if n - pos < 16 {
            return Err(Error::Decode);
        }
        proof {
            assert(rest.subrange(0, 4) =~= buf@.subrange(pos as int, pos + 4));
            assert(rest.subrange(4, 8) =~= buf@.subrange(pos + 4, pos + 8));
            assert(rest.subrange(8, 12) =~= buf@.subrange(pos + 8, pos + 12));
            assert(rest.subrange(12, 16) =~= buf@.subrange(pos + 12, pos + 16));
        }
        let offset = u32_from_le_bytes(slice_subrange(buf, pos, pos + 4)) as usize;
        let len = u32_from_le_bytes(slice_subrange(buf, pos + 4, pos + 8)) as usize;
        let fkl = u32_from_le_bytes(slice_subrange(buf, pos + 8, pos + 12)) as usize;
        let lkl = u32_from_le_bytes(slice_subrange(buf, pos + 12, pos + 16)) as usize;
        if fkl > n - pos - 16 || lkl > n - pos - 16 - fkl {
            return Err(Error::Decode);
        }
        let first_key = subrange_to_vec(buf, pos + 16, pos + 16 + fkl);
        let last_key = subrange_to_vec(buf, pos + 16 + fkl, pos + 16 + fkl + lkl);
        proof {
            assert(rest.subrange(16, 16 + fkl) =~= buf@.subrange(pos + 16, pos + 16 + fkl));
            assert(rest.subrange(16 + fkl, 16 + fkl + lkl) =~= buf@.subrange(
                pos + 16 + fkl,
                pos + 16 + fkl + lkl,
            ));
        }
        Ok((BlockMeta { offset, len, first_key, last_key }, pos + 16 + fkl + lkl))
    }

    /// The byte range of the block within the data object.
    pub fn data_range(&self) -> (r: (usize, usize))
        requires
            self@.offset + self@.len <= usize::MAX,
        ensures
            r.0 == self@.offset,
            r.1 == self@.offset + self@.len,
    {
        (self.offset, self.offset + self.len)
    }
}

/// Abstract value of an SSTable meta object.
pub struct SstableMetaV {
    pub block_metas: Seq<BlockMetaV>,
    pub bloom_filter: Seq<u8>,
}

/// SSTable metadata: block locations and key ranges, and the bloom filter.
#[derive(Clone, Debug)]
pub struct SstableMeta {
    pub block_metas: Vec<BlockMeta>,
    pub bloom_filter: Vec<u8>,
}

impl View for SstableMeta {
    type V = SstableMetaV;

    open spec fn view(&self) -> SstableMetaV {
        SstableMetaV {
            block_metas: self.block_metas@.map_values(|m: BlockMeta| m@),
            bloom_filter: self.bloom_filter@,
        }
    }
}

/// The fields fit their wire widths.
pub open spec fn sstable_meta_v_wf(m: SstableMetaV) -> bool {
    &&& forall|i: int| 0 <= i < m.block_metas.len() ==> block_meta_v_wf(#[trigger] m.block_metas[i])
    &&& m.block_metas.len() <= u32::MAX
    &&& m.bloom_filter.len() <= u32::MAX
}

impl SstableMeta {
    /// Encode the meta object. The checksum covers all bytes after the
    /// checksum field.
    pub fn encode(&self) -> (r: Vec<u8>)
        requires
            sstable_meta_v_wf(self@),
        ensures
            r@ == spec_meta_encoding(self@.block_metas, self@.bloom_filter),
    {
        proof {
            lemma_auto_spec_u32_to_from_le_bytes();
        }
        let mut body: Vec<u8> = Vec::new();
        let b = u32_to_le_bytes(self.block_metas.len() as u32);
        body.extend_from_slice(b.as_slice());
        let n = self.block_metas.len();
        let mut i: usize = 0;
        proof {
            assert(body@ =~= spec_u32_to_le_bytes(self@.block_metas.len() as u32)
                + spec_block_metas_encoding(self@.block_metas.take(0)));
            assert(spec_block_metas_encoding(self@.block_metas.take(0)) =~= Seq::<u8>::empty());
        }
        while i < n
            invariant
                i <= n,
                n == self.block_metas@.len(),
                sstable_meta_v_wf(self@),
                body@ == spec_u32_to_le_bytes(self@.block_metas.len() as u32)
                    + spec_block_metas_encoding(self@.block_metas.take(i as int)),
            decreases n - i,
        {
            proof {
                assert(self@.block_metas[i as int] == self.block_metas@[i as int]@);
                assert(block_meta_v_wf(self@.block_metas[i as int]));
            }
            self.block_metas[i].encode(&mut body);
            proof {
                lemma_block_metas_encoding_snoc(self@.block_metas, i as int);
            }
            i += 1;
        }
        proof {
            assert(self@.block_metas.take(n as int) =~= self@.block_metas);
        }
        let b = u32_to_le_bytes(self.bloom_filter.len() as u32);
        body.extend_from_slice(b.as_slice());
        body.extend_from_slice(self.bloom_filter.as_slice());
        proof {
            assert(body@ =~= spec_meta_body(self@.block_metas, self@.bloom_filter));
        }
        let crc = crc32sum(body.as_slice());
        let mut out = u32_to_le_bytes(crc);
        out.append(&mut body);
        proof {
            assert(out@ =~= spec_meta_encoding(self@.block_metas, self@.bloom_filter));
        }
        out
    }

    /// Decode a meta object, verifying the checksum.
    pub fn decode(buf: &[u8]) -> (r: Result<SstableMeta>)
        ensures
            match r {
                Ok(m) => spec_parse_meta(buf@) == Some((m@.block_metas, m@.bloom_filter)),
                Err(_) => spec_parse_meta(buf@) is None,
            },
            buf@.len() >= 8 && spec_u32_from_le_bytes(buf@.subrange(0, 4)) != crc32_of(
                buf@.skip(4),
            ) ==> r == Err::<SstableMeta, Error>(Error::Checksum),
    {
        proof {
            lemma_auto_spec_u32_to_from_le_bytes();
        }
        let n = buf.len();
        if n < 8 {
            return Err(Error::Decode);
        }
        let crc = u32_from_le_bytes(slice_subrange(buf, 0, 4));
        if !crc32check(slice_subrange(buf, 4, n), crc) {
            return Err(Error::Checksum);
        }
        let count = u32_from_le_bytes(slice_subrange(buf, 4, 8)) as usize;
        let ghost tail = buf@.skip(8);
        let mut block_metas: Vec<BlockMeta> = Vec::new();
        let mut pos: usize = 8;
        let mut i: usize = 0;
        proof {
            assert(buf@.skip(8).skip(0) =~= buf@.skip(8));
            assert(block_metas@.map_values(|m: BlockMeta| m@) =~= Seq::<BlockMetaV>::empty());
            if spec_parse_block_metas(tail, count as nat) is Some {
                let msc = spec_parse_block_metas(tail, count as nat)->Some_0;
                assert(Seq::<BlockMetaV>::empty() + msc.0 =~= msc.0);
            }
        }
        while i < count
            invariant
                i <= count,
                8 <= pos <= buf@.len(),
                n == buf@.len(),
                n >= 8,
                tail == buf@.skip(8),
                spec_u32_from_le_bytes(buf@.subrange(0, 4)) == crc32_of(buf@.skip(4)),
                count as nat == spec_u32_from_le_bytes(buf@.subrange(4, 8)) as nat,
                block_metas@.len() == i,
                spec_parse_block_metas(tail, count as nat) == (match spec_parse_block_metas(
                    buf@.skip(pos as int),
                    (count - i) as nat,
                ) {
                    Some(msc) => Some(
                        (
                            block_metas@.map_values(|m: BlockMeta| m@) + msc.0,
                            pos - 8 + msc.1,
                        ),
                    ),
                    None => None::<(Seq<BlockMetaV>, int)>,
                }),
            decreases count - i,
        {
            let (m, np) = match BlockMeta::decode(buf, pos) {
                Ok(p) => p,
                Err(e) => {
                    proof {
                        assert(spec_parse_block_metas(buf@.skip(pos as int), (count - i) as nat)
                            is None);
                        assert(spec_parse_block_metas(tail, count as nat) is None);
                        assert(spec_parse_meta(buf@) is None);
                    }
                    return Err(e);
                },
            };
            proof {
                let mc = spec_parse_block_meta(buf@.skip(pos as int))->Some_0;
                let rest2 = buf@.skip(pos as int).skip(mc.1);
                assert(rest2 =~= buf@.skip(np as int));
                let ghost pushed = block_metas@.push(m).map_values(|m2: BlockMeta| m2@);
                assert(pushed =~= block_metas@.map_values(|m2: BlockMeta| m2@).push(m@));
                if spec_parse_block_metas(buf@.skip(np as int), (count - i - 1) as nat) is Some {
                    let msc2 = spec_parse_block_metas(
                        buf@.skip(np as int),
                        (count - i - 1) as nat,
                    )->Some_0;
                    assert(block_metas@.map_values(|m2: BlockMeta| m2@) + (seq![mc.0] + msc2.0)
                        =~= pushed + msc2.0);
                }
            }
            block_metas.push(m);
            pos = np;
            i += 1;
        }
        proof {
            assert(buf@.skip(pos as int).skip(0) =~= buf@.skip(pos as int));
            assert(spec_parse_block_metas(buf@.skip(pos as int), 0) == Some(
                (Seq::<BlockMetaV>::empty(), 0int),
            ));
            assert(block_metas@.map_values(|m: BlockMeta| m@) + Seq::<BlockMetaV>::empty()
                =~= block_metas@.map_values(|m: BlockMeta| m@));
        }
        if n - pos < 4 {
            return Err(Error::Decode);
        }
        proof {
            assert(buf@.subrange(pos as int, pos + 4) =~= buf@.subrange(pos as int, pos + 4));
        }
        let bl = u32_from_le_bytes(slice_subrange(buf, pos, pos + 4)) as usize;
        if bl > n - pos - 4 {
            return Err(Error::Decode);
        }
        let bloom_filter = subrange_to_vec(buf, pos + 4, pos + 4 + bl);
        Ok(SstableMeta { block_metas, bloom_filter })
    }
}

proof fn lemma_block_metas_encoding_snoc(ms: Seq<BlockMetaV>, i: int)
    requires
        0 <= i < ms.len(),
    ensures
        spec_block_metas_encoding(ms.take(i + 1)) == spec_block_metas_encoding(ms.take(i))
            + spec_block_meta_encoding(ms[i]),
    decreases i,
{
    if i == 0 {
        assert(ms.take(1).first() == ms[0]);
        assert(ms.take(1).drop_first() =~= Seq::<BlockMetaV>::empty());
        assert(ms.take(0) =~= Seq::<BlockMetaV>::empty());
        assert(spec_block_metas_encoding(Seq::<BlockMetaV>::empty()) =~= Seq::<u8>::empty());
        assert(spec_block_metas_encoding(ms.take(1)) == spec_block_meta_encoding(ms.take(
            1,
        ).first()) + spec_block_metas_encoding(ms.take(1).drop_first()));
        assert(spec_block_metas_encoding(ms.take(1)) =~= spec_block_meta_encoding(ms[0]));
        assert(Seq::<u8>::empty() + spec_block_meta_encoding(ms[0]) =~= spec_block_meta_encoding(
            ms[0],
        ));
    } else {
        assert(ms.take(i + 1).first() == ms[0]);
        assert(ms.take(i).first() == ms[0]);
        assert(ms.take(i + 1).drop_first() =~= ms.drop_first().take(i));
        assert(ms.take(i).drop_first() =~= ms.drop_first().take(i - 1));
        lemma_block_metas_encoding_snoc(ms.drop_first(), i - 1);
        assert(ms.drop_first()[i - 1] == ms[i]);
        assert(spec_block_meta_encoding(ms[0]) + (spec_block_metas_encoding(ms.drop_first().take(
            i - 1,
        )) + spec_block_meta_encoding(ms[i])) =~= (spec_block_meta_encoding(ms[0])
            + spec_block_metas_encoding(ms.drop_first().take(i - 1))) + spec_block_meta_encoding(
            ms[i],
        ));
    }
}

/// A handle to retrieve SSTable data from the object store. The meta is
/// resident; data is fetched block-wise.
#[derive(Clone, Debug)]
pub struct Sstable {
    pub id: u64,
    pub meta: SstableMeta,
}


/// `metas` slice `data` into encoded blocks whose decoded contents are
/// `blocks`: non-empty, sorted, and bounded by the recorded first and last
/// keys.
pub open spec fn spec_sst_blocks_wf(
    data: Seq<u8>,
    metas: Seq<BlockMetaV>,
    blocks: Seq<Seq<(Seq<u8>, Seq<u8>)>>,
) -> bool {
    &&& metas.len() == blocks.len()
    &&& forall|i: int|
        0 <= i < metas.len() ==> {
            let m = #[trigger] metas[i];
            &&& 0 <= m.offset
            &&& m.offset + m.len <= data.len()
            &&& spec_block_encodes(data.subrange(m.offset, m.offset + m.len), blocks[i])
            &&& blocks[i].len() > 0
            &&& entries_sorted(blocks[i])
            &&& m.first_key == blocks[i].first().0
            &&& m.last_key == blocks[i].last().0
        }
    &&& spec_blocks_cross_sorted(blocks)
}

/// The data object's layout: the encoded blocks stand back to back from
/// offset 0, and the object ends with the block count as four
/// little-endian bytes directly after the last block.
pub open spec fn spec_sst_layout(data: Seq<u8>, metas: Seq<BlockMetaV>) -> bool {
    &&& (metas.len() > 0 ==> metas[0].offset == 0)
    &&& forall|i: int|
        0 < i < metas.len() ==> (#[trigger] metas[i]).offset == metas[i - 1].offset + metas[i
            - 1].len
    &&& data.len() == (if metas.len() > 0 {
        metas[metas.len() - 1].offset + metas[metas.len() - 1].len
    } else {
        0int
    }) + 4
    &&& data.skip(data.len() - 4) == spec_u32_to_le_bytes(metas.len() as u32)
}

/// The builder's sealing rule, visible in the finished table: every block
/// but the last has an entry section that reached the block capacity, and
/// no block reached it before its last entry. Together with the contents
/// these pin the block partition: blocks are cut greedily as entries
/// arrive.
pub open spec fn spec_blocks_partition(
    blocks: Seq<Seq<(Seq<u8>, Seq<u8>)>>,
    cap: int,
    ri: int,
) -> bool {
    &&& forall|i: int|
        0 <= i < blocks.len() - 1 ==> spec_section_size(#[trigger] blocks[i], ri) >= cap
    &&& forall|i: int|
        0 <= i < blocks.len() && (#[trigger] blocks[i]).len() > 1 ==> spec_section_size(
            blocks[i].drop_last(),
            ri,
        ) < cap
}

/// Blocks are non-overlapping and ascending: every key of an earlier block is
/// below every key of a later one.
pub open spec fn spec_blocks_cross_sorted(blocks: Seq<Seq<(Seq<u8>, Seq<u8>)>>) -> bool {
    forall|i: int, j: int, p: int, q: int|
        0 <= i < j < blocks.len() && 0 <= p < blocks[i].len() && 0 <= q < blocks[j].len()
            ==> lex_lt((#[trigger] blocks[i][p]).0, (#[trigger] blocks[j][q]).0)
}

/// Within a well-formed block run, every key of block `i` is at most the
/// block's recorded last key.
pub proof fn lemma_block_entry_le_last(
    data: Seq<u8>,
    metas: Seq<BlockMetaV>,
    blocks: Seq<Seq<(Seq<u8>, Seq<u8>)>>,
    i: int,
    p: int,
)
    requires
        spec_sst_blocks_wf(data, metas, blocks),
        0 <= i < blocks.len(),
        0 <= p < blocks[i].len(),
    ensures
        lex_le(blocks[i][p].0, metas[i].last_key),
{
    assert(metas[i].last_key == blocks[i].last().0);
    if p < blocks[i].len() - 1 {
        assert(lex_lt(blocks[i][p].0, blocks[i][blocks[i].len() - 1].0));
    }
}

/// Number of entries of the blocks before block `i`.
pub open spec fn spec_flat_pos(blocks: Seq<Seq<(Seq<u8>, Seq<u8>)>>, i: int) -> int {
    blocks.take(i).flatten_alt().len() as int
}

/// Entry `p` of block `i` sits at its flat position in the concatenation.
proof fn lemma_flatten_alt_coord(blocks: Seq<Seq<(Seq<u8>, Seq<u8>)>>, i: int, p: int)
    requires
        0 <= i < blocks.len(),
        0 <= p < blocks[i].len(),
    ensures
        0 <= spec_flat_pos(blocks, i) + p < blocks.flatten_alt().len(),
        blocks.flatten_alt()[spec_flat_pos(blocks, i) + p] == blocks[i][p],
        spec_flat_pos(blocks, i) + blocks[i].len() <= spec_flat_pos(blocks, i + 1),
{
    let pre = blocks.take(i);
    let cur = blocks[i];
    let rest = blocks.skip(i + 1);
    assert(blocks =~= pre + (seq![cur] + rest));
    vstd::seq_lib::lemma_flatten_alt_concat(pre, seq![cur] + rest);
    vstd::seq_lib::lemma_flatten_alt_concat(seq![cur], rest);
    assert(seq![cur].flatten_alt() =~= cur) by {
        assert(seq![cur].drop_last() =~= Seq::<Seq<(Seq<u8>, Seq<u8>)>>::empty());
        assert(Seq::<Seq<(Seq<u8>, Seq<u8>)>>::empty().flatten_alt() =~= Seq::<(
            Seq<u8>,
            Seq<u8>,
        )>::empty());
    }
    assert(blocks.flatten_alt() == pre.flatten_alt() + (cur + rest.flatten_alt()));
    assert(blocks.take(i + 1) =~= pre + seq![cur]);
    vstd::seq_lib::lemma_flatten_alt_concat(pre, seq![cur]);
    assert(blocks.take(i + 1).flatten_alt() == pre.flatten_alt() + cur);
}

/// Flat positions are monotone in the block index.
proof fn lemma_flat_pos_mono(blocks: Seq<Seq<(Seq<u8>, Seq<u8>)>>, i: int, j: int)
    requires
        0 <= i <= j <= blocks.len(),
    ensures
        spec_flat_pos(blocks, i) <= spec_flat_pos(blocks, j),
{
    assert(blocks.take(j) =~= blocks.take(i) + blocks.take(j).skip(i));
    vstd::seq_lib::lemma_flatten_alt_concat(blocks.take(i), blocks.take(j).skip(i));
}

/// A sorted concatenation orders the blocks pairwise.
proof fn lemma_blocks_cross_sorted(
    blocks: Seq<Seq<(Seq<u8>, Seq<u8>)>>,
    added: Seq<(Seq<u8>, Seq<u8>)>,
    i: int,
    j: int,
    p: int,
    q: int,
)
    requires
        blocks.flatten_alt() == added,
        entries_sorted(added),
        0 <= i < j < blocks.len(),
        0 <= p < blocks[i].len(),
        0 <= q < blocks[j].len(),
    ensures
        lex_lt(blocks[i][p].0, blocks[j][q].0),
{
    lemma_flatten_alt_coord(blocks, i, p);
    lemma_flatten_alt_coord(blocks, j, q);
    lemma_flat_pos_mono(blocks, i + 1, j);
    assert(spec_flat_pos(blocks, i) + p < spec_flat_pos(blocks, j) + q);
    assert(added[spec_flat_pos(blocks, i) + p] == blocks[i][p]);
    assert(added[spec_flat_pos(blocks, j) + q] == blocks[j][q]);
}

/// Options for an SSTable builder.
#[derive(Clone, Copy, Debug)]
pub struct SstableBuilderOptions {
    /// Approximate sstable capacity.
    pub capacity: usize,
    /// Approximate block capacity.
    pub block_capacity: usize,
    /// Bloom filter bits per key; 0 disables the filter.
    pub bloom_bits_per_key: usize,
    /// Compression algorithm.
    pub compression_algorithm: CompressionAlgorithm,
    /// Block restart interval.
    pub restart_interval: usize,
}

impl Default for SstableBuilderOptions {
    /// 4 MiB tables of 64 KiB plain blocks, 5 bloom bits per key (a 10%
    /// false-positive target), a restart point every 16 entries.
    fn default() -> (r: Self)
        ensures
            r.capacity == 4194304,
            r.block_capacity == 65536,
            r.bloom_bits_per_key == 5,
            r.compression_algorithm == CompressionAlgorithm::Plain,
            r.restart_interval == 16,
    {
        SstableBuilderOptions {
            capacity: 4194304,
            block_capacity: 65536,
            bloom_bits_per_key: 5,
            compression_algorithm: CompressionAlgorithm::Plain,
            restart_interval: 16,
        }
    }
}

/// Builds an immutable SSTable from ascending `(user_key, timestamp,
/// value_slot)` triples.
pub struct SstableBuilder {
    block_capacity: usize,
    bloom_bits_per_key: usize,
    compression_algorithm: CompressionAlgorithm,
    restart_interval: usize,
    /// Write buffer holding the sealed encoded blocks.
    buf: Vec<u8>,
    /// Current block builder.
    block_builder: Option<BlockBuilder>,
    /// Block metadata; the last record is still open while a block builds.
    block_metas: Vec<BlockMeta>,
    /// Fingerprints of the added user keys.
    user_key_hashes: Vec<u32>,
    /// Last added full key; cleared when a block is sealed.
    last_full_key: Vec<u8>,
    blocks: Ghost<Seq<Seq<(Seq<u8>, Seq<u8>)>>>,
    added: Ghost<Seq<(Seq<u8>, Seq<u8>)>>,
    uks: Ghost<Seq<Seq<u8>>>,
}

impl SstableBuilder {
    /// All `(full_key, value_slot)` pairs added so far, in order.
    pub closed spec fn spec_added(&self) -> Seq<(Seq<u8>, Seq<u8>)> {
        self.added@
    }

    /// The user keys of the added pairs, in order.
    pub closed spec fn spec_added_uks(&self) -> Seq<Seq<u8>> {
        self.uks@
    }

    pub closed spec fn spec_bloom_bits_per_key(&self) -> int {
        self.bloom_bits_per_key as int
    }

    pub closed spec fn spec_buf_len(&self) -> int {
        self.buf@.len() as int
    }

    /// Encoded size bound of the open block, 9 for a fresh one.
    pub closed spec fn spec_block_approx(&self) -> int {
        match self.block_builder {
            Some(bb) => bb.spec_approximate_len(),
            None => 9int,
        }
    }

    /// Whether a block is open, still taking entries.
    pub closed spec fn spec_block_open(&self) -> bool {
        self.block_builder is Some
    }

    /// The open block's entry-section size in bytes.
    pub closed spec fn spec_open_section(&self) -> int
        recommends
            self.spec_block_open(),
    {
        self.block_builder->Some_0.spec_section_len()
    }

    pub closed spec fn spec_block_capacity(&self) -> int {
        self.block_capacity as int
    }

    /// The configured restart interval.
    pub closed spec fn spec_restart_interval(&self) -> int {
        self.restart_interval as int
    }

    /// The sealing rule between operations: an open block has not reached
    /// the block capacity, every sealed block has, and none did so before
    /// its last entry.
    pub closed spec fn seal_ok(&self) -> bool {
        &&& (match self.block_builder {
            Some(bb) => spec_section_size(bb.spec_entries(), self.restart_interval as int)
                < self.block_capacity,
            None => true,
        })
        &&& forall|i: int|
            0 <= i < self.blocks@.len() ==> spec_section_size(
                #[trigger] self.blocks@[i],
                self.restart_interval as int,
            ) >= self.block_capacity
        &&& forall|i: int|
            0 <= i < self.blocks@.len() && (#[trigger] self.blocks@[i]).len() > 1
                ==> spec_section_size(self.blocks@[i].drop_last(), self.restart_interval as int)
                < self.block_capacity
    }


    pub closed spec fn wf(&self) -> bool {
        &&& self.restart_interval >= 1
        &&& self.bloom_bits_per_key <= 1048576
        &&& self.block_metas@.len() == self.blocks@.len() + (
        if self.block_builder is Some {
            1int
        } else {
            0int
        })
        &&& spec_sst_blocks_wf(
            self.buf@,
            self.block_metas@.map_values(|m: BlockMeta| m@).take(self.blocks@.len() as int),
            self.blocks@,
        )
        &&& forall|i: int|
            0 <= i < self.blocks@.len() ==> (#[trigger] self.block_metas@[i])@.len >= 9
                && block_meta_v_wf(self.block_metas@[i]@)
        &&& (self.blocks@.len() > 0 ==> self.block_metas@[0]@.offset == 0)
        &&& forall|i: int|
            0 < i < self.blocks@.len() ==> (#[trigger] self.block_metas@[i])@.offset
                == self.block_metas@[i - 1]@.offset + self.block_metas@[i - 1]@.len
        &&& self.buf@.len() == (if self.blocks@.len() > 0 {
            self.block_metas@[self.blocks@.len() - 1]@.offset
                + self.block_metas@[self.blocks@.len() - 1]@.len
        } else {
            0int
        })
        &&& 9 * self.blocks@.len() <= self.buf@.len()
        &&& match self.block_builder {
            Some(bb) => {
                &&& bb.wf()
                &&& bb.spec_compression() == self.compression_algorithm
                &&& bb.spec_restart_interval() == self.restart_interval
                &&& bb.spec_entries().len() > 0
                &&& self.block_metas@.len() > 0
                &&& self.block_metas@.last()@.offset == self.buf@.len()
                &&& self.block_metas@.last()@.first_key == bb.spec_entries().first().0
                &&& self.last_full_key@ == bb.spec_entries().last().0
                &&& bb.spec_last_key() == self.last_full_key@
            },
            None => true,
        }
        &&& self.added@ == self.blocks@.flatten_alt() + (match self.block_builder {
            Some(bb) => bb.spec_entries(),
            None => Seq::<(Seq<u8>, Seq<u8>)>::empty(),
        })
        &&& entries_sorted(self.added@)
        &&& forall|j: int|
            0 <= j < self.added@.len() ==> 0 < (#[trigger] self.added@[j]).0.len() <= u16::MAX
        &&& self.user_key_hashes@.len() == self.added@.len()
        &&& self.uks@.len() == self.added@.len()
        &&& forall|j: int|
            0 <= j < self.uks@.len() ==> #[trigger] self.user_key_hashes@[j] == fingerprint32_of(
                self.uks@[j],
            ) && self.uks@[j] == spec_user_key(self.added@[j].0)
        &&& self.buf@.len() + (match self.block_builder {
            Some(bb) => 33 + 2 * bb.spec_approximate_len(),
            None => 0int,
        }) + 8 <= u32::MAX
        &&& self.user_key_hashes@.len() * self.bloom_bits_per_key + 79 <= u32::MAX
    }

    pub fn new(options: SstableBuilderOptions) -> (r: Self)
        requires
            options.restart_interval >= 1,
            options.bloom_bits_per_key <= 1048576,
        ensures
            r.wf(),
            r.seal_ok(),
            r.spec_added() == Seq::<(Seq<u8>, Seq<u8>)>::empty(),
            r.spec_bloom_bits_per_key() == options.bloom_bits_per_key,
            r.spec_block_capacity() == options.block_capacity,
            r.spec_restart_interval() == options.restart_interval,
    {
        let r = SstableBuilder {
            block_capacity: options.block_capacity,
            bloom_bits_per_key: options.bloom_bits_per_key,
            compression_algorithm: options.compression_algorithm,
            restart_interval: options.restart_interval,
            buf: Vec::new(),
            block_builder: None,
            block_metas: Vec::new(),
            user_key_hashes: Vec::new(),
            last_full_key: Vec::new(),
            blocks: Ghost(Seq::empty()),
            added: Ghost(Seq::empty()),
            uks: Ghost(Seq::empty()),
        };
        proof {
            assert(r.blocks@.flatten_alt() =~= Seq::<(Seq<u8>, Seq<u8>)>::empty());
            assert(r.added@ =~= r.blocks@.flatten_alt() + Seq::<(Seq<u8>, Seq<u8>)>::empty());
            assert(r.block_metas@.map_values(|m: BlockMeta| m@).take(0) =~= Seq::<
                BlockMetaV,
            >::empty());
        }
        r
    }

    /// Seal the open block: append its encoding to the buffer and finish its
    /// meta record.
    #[verifier::rlimit(60)]
    fn finish_block(&mut self)
        requires
            old(self).wf(),
            old(self).block_builder is Some,
        ensures
            final(self).wf(),
            final(self).block_builder is None,
            final(self).blocks@ == old(self).blocks@.push(
                old(self).block_builder->Some_0.spec_entries(),
            ),
            final(self).spec_added() == old(self).spec_added(),
            final(self).spec_added_uks() == old(self).spec_added_uks(),
            final(self).spec_bloom_bits_per_key() == old(self).spec_bloom_bits_per_key(),
            final(self).compression_algorithm == old(self).compression_algorithm,
            final(self).block_capacity == old(self).block_capacity,
            final(self).restart_interval == old(self).restart_interval,
            final(self).user_key_hashes@ == old(self).user_key_hashes@,
            final(self).spec_buf_len() + 8 <= u32::MAX,
    {
        let ghost pre = *self;
        let bb = match self.block_builder.take() {
            Some(b) => b,
            None => vstd::pervasive::unreached(),
        };
        let ghost entries = bb.spec_entries();
        let block = bb.build();
        let offset = self.buf.len();
        self.buf.extend_from_slice(block.as_slice());
        let mut meta = self.block_metas.pop().unwrap();
        meta.len = block.len();
        meta.last_key = bytes_to_vec(self.last_full_key.as_slice());
        self.block_metas.push(meta);
        self.last_full_key = Vec::new();
        proof {
            self.blocks@ = pre.blocks@.push(entries);
            assert(self.last_full_key@ =~= Seq::<u8>::empty());
            let k = pre.blocks@.len() as int;
            let metas_v = self.block_metas@.map_values(|m: BlockMeta| m@);
            let pre_metas_v = pre.block_metas@.map_values(|m: BlockMeta| m@);
            assert(self.block_metas@.len() == pre.block_metas@.len());
            assert(forall|i: int|
                0 <= i < k ==> #[trigger] self.block_metas@[i] == pre.block_metas@[i]);
            assert(self.buf@.subrange(0, pre.buf@.len() as int) =~= pre.buf@);
            assert(self.buf@.subrange(offset as int, self.buf@.len() as int) =~= block@);
            assert(metas_v[k].offset == offset && metas_v[k].len == block@.len());
            assert(metas_v[k].first_key == entries.first().0);
            assert(metas_v[k].last_key == entries.last().0);
            assert(block@.len() >= 9);
            let base = pre.blocks@.flatten_alt().len() as int;
            assert(entries.first() == pre.added@[base]);
            assert(entries.last() == pre.added@[pre.added@.len() - 1]);
            assert(0 < entries.first().0.len() <= u16::MAX);
            assert(0 < entries.last().0.len() <= u16::MAX);
            assert(entries_sorted(entries)) by {
                assert forall|i: int, j: int|
                    0 <= i < j < entries.len() implies lex_lt(
                    #[trigger] entries[i].0,
                    #[trigger] entries[j].0,
                ) by {
                    let base = pre.blocks@.flatten_alt().len() as int;
                    assert(pre.added@[base + i] == entries[i]);
                    assert(pre.added@[base + j] == entries[j]);
                }
            }
            assert(self.added@ =~= self.blocks@.flatten_alt()) by {
                assert(self.blocks@.drop_last() =~= pre.blocks@);
                assert(self.blocks@.flatten_alt() == pre.blocks@.flatten_alt() + entries);
            }
            assert forall|i2: int, j2: int, p: int, q: int|
                0 <= i2 < j2 < self.blocks@.len() && 0 <= p < self.blocks@[i2].len() && 0 <= q
                < self.blocks@[j2].len() implies lex_lt(
                (#[trigger] self.blocks@[i2][p]).0,
                (#[trigger] self.blocks@[j2][q]).0,
            ) by {
                lemma_blocks_cross_sorted(self.blocks@, self.added@, i2, j2, p, q);
            }
            assert(spec_sst_blocks_wf(self.buf@, metas_v.take(k + 1), self.blocks@)) by {
                assert forall|i: int| 0 <= i < k + 1 implies {
                    let m = #[trigger] metas_v.take(k + 1)[i];
                    &&& 0 <= m.offset
                    &&& m.offset + m.len <= self.buf@.len()
                    &&& spec_block_encodes(
                        self.buf@.subrange(m.offset, m.offset + m.len),
                        self.blocks@[i],
                    )
                    &&& self.blocks@[i].len() > 0
                    &&& entries_sorted(self.blocks@[i])
                    &&& m.first_key == self.blocks@[i].first().0
                    &&& m.last_key == self.blocks@[i].last().0
                } by {
                    if i < k {
                        let m = pre_metas_v.take(k)[i];
                        assert(metas_v.take(k + 1)[i] == m);
                        assert(self.buf@.subrange(m.offset, m.offset + m.len) =~= pre.buf@.subrange(
                            m.offset,
                            m.offset + m.len,
                        ));
                    }
                }
            }
            assert(self.added@ =~= self.blocks@.flatten_alt()) by {
                assert(self.blocks@.drop_last() =~= pre.blocks@);
                assert(self.blocks@.flatten_alt() == pre.blocks@.flatten_alt() + entries);
            }
            assert(self.added@ =~= self.blocks@.flatten_alt() + Seq::<(Seq<u8>, Seq<u8>)>::empty());
            assert(self.blocks@ == pre.blocks@.push(pre.block_builder->Some_0.spec_entries()));
        }
    }

    /// Add a kv pair: encode the full key, append it to the open block,
    /// record the user-key fingerprint, and seal the block when it reaches
    /// the block capacity.
    pub fn add(&mut self, user_key: &[u8], timestamp: u64, value: &[u8]) -> (r: Result<()>)
        requires
            old(self).wf(),
            user_key@.len() + 8 <= u16::MAX,
            value@.len() <= u32::MAX,
            old(self).spec_added().len() == 0 || lex_lt(
                old(self).spec_added().last().0,
                spec_full_key(user_key@, timestamp),
            ),
            old(self).spec_buf_len() + 57 + 2 * (old(self).spec_block_approx() + 20
                + user_key@.len() + value@.len()) <= u32::MAX,
            (old(self).spec_added().len() + 1) * old(self).spec_bloom_bits_per_key() + 79
                <= u32::MAX,
            old(self).seal_ok(),
        ensures
            final(self).wf(),
            final(self).seal_ok(),
            r is Ok,
            final(self).spec_added() == old(self).spec_added().push(
                (spec_full_key(user_key@, timestamp), value@),
            ),
            final(self).spec_added_uks() == old(self).spec_added_uks().push(user_key@),
            final(self).spec_bloom_bits_per_key() == old(self).spec_bloom_bits_per_key(),
            final(self).spec_buf_len() + 8 <= u32::MAX,
            final(self).spec_block_capacity() == old(self).spec_block_capacity(),
            final(self).spec_block_open() ==> final(self).spec_open_section() < final(
                self
            ).spec_block_capacity(),
    {
        let ghost pre = *self;
        let fk = full_key(user_key, timestamp);
        let ghost fkv = fk@;
        // Rotate in a fresh block builder if the previous one was sealed.
        let mut bb = match self.block_builder.take() {
            Some(b) => b,
            None => {
                self.block_metas.push(
                    BlockMeta {
                        offset: self.buf.len(),
                        len: 0,
                        first_key: bytes_to_vec(fk.as_slice()),
                        last_key: Vec::new(),
                    },
                );
                BlockBuilder::new(
                    BlockBuilderOptions {
                        capacity: self.block_capacity,
                        compression_algorithm: self.compression_algorithm,
                        restart_interval: self.restart_interval,
                    },
                )
            },
        };
        proof {
            bb.lemma_approximate_len_lb();
            if pre.block_builder is Some {
                let obb = pre.block_builder->Some_0;
                assert(obb.spec_entries().last() == pre.added@.last());
            }
        }
        bb.add(fk.as_slice(), value);
        self.user_key_hashes.push(fingerprint32(user_key));
        self.last_full_key = fk;
        let seal = bb.section_len() >= self.block_capacity;
        proof {
            bb.lemma_section_is_entries();
            assert(seal == (spec_section_size(bb.spec_entries(), self.restart_interval as int)
                >= self.block_capacity));
        }
        self.block_builder = Some(bb);
        proof {
            self.added@ = pre.added@.push((fkv, value@));
            self.uks@ = pre.uks@.push(user_key@);
            crate::keys::lemma_full_key_round_trip(user_key@, timestamp);
            assert(self.added@ =~= self.blocks@.flatten_alt() + bb.spec_entries());
            assert(entries_sorted(self.added@)) by {
                assert forall|i: int, j: int|
                    0 <= i < j < self.added@.len() implies lex_lt(
                    #[trigger] self.added@[i].0,
                    #[trigger] self.added@[j].0,
                ) by {
                    if j == self.added@.len() - 1 && i < j {
                        let last = pre.added@.len() - 1;
                        if i < last {
                            crate::bytes_util::lemma_lex_lt_trans(
                                pre.added@[i].0,
                                pre.added@[last].0,
                                fkv,
                            );
                        }
                    }
                }
            }
            if pre.block_builder is None {
                assert(bb.spec_entries() =~= Seq::<(Seq<u8>, Seq<u8>)>::empty().push(
                    (fkv, value@),
                ));
                assert(self.block_metas@.last()@.first_key == bb.spec_entries().first().0);
                let k = self.blocks@.len() as int;
                assert(self.block_metas@.map_values(|m: BlockMeta| m@).take(k)
                    =~= pre.block_metas@.map_values(|m: BlockMeta| m@).take(k));
            } else {
                let obb = pre.block_builder->Some_0;
                assert(bb.spec_entries().first() == obb.spec_entries().first());
                assert(self.block_metas@.last()@.first_key == bb.spec_entries().first().0);
            }
            assert forall|j: int| 0 <= j < self.uks@.len() implies #[trigger] self.user_key_hashes@[
                j
            ] == fingerprint32_of(self.uks@[j]) && self.uks@[j] == spec_user_key(
                self.added@[j].0,
            ) by {
                if j < pre.uks@.len() {
                    assert(pre.user_key_hashes@[j] == fingerprint32_of(pre.uks@[j]));
                }
            }
        }
        if seal {
            let ghost before = *self;
            self.finish_block();
            proof {
                assert(self.blocks@ == before.blocks@.push(bb.spec_entries()));
                assert forall|i: int| 0 <= i < self.blocks@.len() implies spec_section_size(
                    #[trigger] self.blocks@[i],
                    self.restart_interval as int,
                ) >= self.block_capacity by {
                    if i < before.blocks@.len() {
                        assert(pre.blocks@[i] == self.blocks@[i]);
                    }
                }
                assert forall|i: int|
                    0 <= i < self.blocks@.len() && (#[trigger] self.blocks@[i]).len() > 1
                    implies spec_section_size(
                    self.blocks@[i].drop_last(),
                    self.restart_interval as int,
                ) < self.block_capacity by {
                    if i == before.blocks@.len() {
                        assert(self.blocks@[i].drop_last() =~= (match pre.block_builder {
                            Some(obb) => obb.spec_entries(),
                            None => Seq::<(Seq<u8>, Seq<u8>)>::empty(),
                        }));
                    } else {
                        assert(pre.blocks@[i] == self.blocks@[i]);
                    }
                }
            }
        }
        Ok(())
    }

    /// Encoded size of the table if built now, without the meta object.
    pub fn approximate_len(&self) -> (r: usize)
        requires
            self.wf(),
        ensures
            r == self.spec_buf_len() + 4,
    {
        proof {
            if self.block_builder is Some {
                self.block_builder->Some_0.lemma_approximate_len_lb();
            }
        }
        self.buf.len() + 4
    }

    pub fn is_empty(&self) -> (r: bool)
        requires
            self.wf(),
        ensures
            r == (self.spec_added().len() == 0),
    {
        self.user_key_hashes.len() == 0
    }

    /// Finish building the table: seal the open block, append the block
    /// count, and build the bloom filter over the recorded fingerprints.
    ///
    /// The returned meta partitions the returned data object into encoded
    /// blocks whose decoded, sorted contents chain back to exactly the added
    /// pairs; when the bloom filter is enabled it reports every added user
    /// key as possibly present.
    #[verifier::rlimit(60)]
    pub fn build(self) -> (r: Result<(SstableMeta, Vec<u8>)>)
        requires
            self.wf(),
            self.seal_ok(),
        ensures
            r matches Ok(p) && {
                &&& sstable_meta_v_wf(p.0@)
                &&& exists|blocks: Seq<Seq<(Seq<u8>, Seq<u8>)>>|
                    #[trigger] spec_sst_blocks_wf(p.1@, p.0@.block_metas, blocks)
                        && blocks.flatten_alt() == self.spec_added() && spec_blocks_partition(
                        blocks,
                        self.spec_block_capacity(),
                        self.spec_restart_interval(),
                    )
                &&& spec_sst_layout(p.1@, p.0@.block_metas)
                &&& (self.spec_bloom_bits_per_key() > 0 ==> p.0@.bloom_filter.len() >= 2 && (
                forall|j: int|
                    0 <= j < self.spec_added_uks().len() ==> spec_bloom_contains(
                        p.0@.bloom_filter,
                        fingerprint32_of(#[trigger] self.spec_added_uks()[j]),
                    )))
                &&& (self.spec_bloom_bits_per_key() == 0 ==> p.0@.bloom_filter.len() == 0)
            },
    {
        let mut this = self;
        let ghost pre_flush = this;
        if this.block_builder.is_some() {
            this.finish_block();
        }
        proof {
            let cap = this.block_capacity as int;
            let ri = this.restart_interval as int;
            assert forall|i: int| 0 <= i < this.blocks@.len() - 1 implies spec_section_size(
                #[trigger] this.blocks@[i],
                ri,
            ) >= cap by {
                if i < pre_flush.blocks@.len() {
                    assert(this.blocks@[i] == pre_flush.blocks@[i]);
                }
            }
            assert forall|i: int|
                0 <= i < this.blocks@.len() && (#[trigger] this.blocks@[i]).len() > 1
                implies spec_section_size(this.blocks@[i].drop_last(), ri) < cap by {
                if i < pre_flush.blocks@.len() {
                    assert(this.blocks@[i] == pre_flush.blocks@[i]);
                } else {
                    let bb = pre_flush.block_builder->Some_0;
                    assert(this.blocks@[i] == bb.spec_entries());
                    lemma_section_size_grows(bb.spec_entries(), ri);
                }
            }
            assert(spec_blocks_partition(this.blocks@, cap, ri));
        }
        let ghost sealed_buf = this.buf@;
        let ghost blocks = this.blocks@;
        let ghost metas_v = this.block_metas@.map_values(|m: BlockMeta| m@);
        proof {
            assert(this.block_metas@.len() <= u32::MAX) by {
                assert(9 * this.blocks@.len() <= this.buf@.len());
            }
        }
        let count_bytes = u32_to_le_bytes(this.block_metas.len() as u32);
        this.buf.extend_from_slice(count_bytes.as_slice());
        let bloom_filter: Vec<u8> = if this.bloom_bits_per_key > 0 {
            Bloom::build_from_key_hashes(&this.user_key_hashes, this.bloom_bits_per_key)
        } else {
            Vec::new()
        };
        let ghost bloomv = bloom_filter@;
        let meta = SstableMeta { block_metas: this.block_metas, bloom_filter };
        proof {
            assert(meta@.block_metas =~= metas_v);
            assert(metas_v.take(blocks.len() as int) =~= metas_v);
            assert(sstable_meta_v_wf(meta@)) by {
                assert(meta@.block_metas.len() * 9 <= sealed_buf.len());
            }
            assert(spec_sst_blocks_wf(sealed_buf, metas_v, blocks));
            assert(spec_sst_blocks_wf(this.buf@, meta@.block_metas, blocks)) by {
                assert forall|i: int| 0 <= i < metas_v.len() implies {
                    let m = #[trigger] metas_v[i];
                    &&& 0 <= m.offset
                    &&& m.offset + m.len <= this.buf@.len()
                    &&& spec_block_encodes(
                        this.buf@.subrange(m.offset, m.offset + m.len),
                        blocks[i],
                    )
                    &&& blocks[i].len() > 0
                    &&& entries_sorted(blocks[i])
                    &&& m.first_key == blocks[i].first().0
                    &&& m.last_key == blocks[i].last().0
                } by {
                    assert(metas_v.take(blocks.len() as int)[i] == metas_v[i]);
                    assert(this.buf@.subrange(metas_v[i].offset, metas_v[i].offset + metas_v[i].len)
                        =~= sealed_buf.subrange(metas_v[i].offset, metas_v[i].offset
                            + metas_v[i].len));
                }
            }
            assert(blocks.flatten_alt() =~= self.spec_added());
            if self.spec_bloom_bits_per_key() > 0 {
                assert forall|j: int| 0 <= j < self.spec_added_uks().len() implies
                    spec_bloom_contains(
                    bloomv,
                    fingerprint32_of(#[trigger] self.spec_added_uks()[j]),
                ) by {
                    assert(this.user_key_hashes@[j] == fingerprint32_of(self.spec_added_uks()[j]));
                    assert(spec_bloom_contains(bloomv, this.user_key_hashes@[j]));
                }
            }
        }
        let result = (meta, this.buf);
        proof {
            assert(result.0@.block_metas == metas_v);
            assert(result.0@.bloom_filter == bloomv);
            assert(sstable_meta_v_wf(result.0@));
            assert(spec_sst_blocks_wf(result.1@, result.0@.block_metas, blocks));
            assert(blocks.flatten_alt() == self.spec_added());
            assert(spec_sst_layout(result.1@, result.0@.block_metas)) by {
                assert(result.1@ == sealed_buf + spec_u32_to_le_bytes(
                    metas_v.len() as u32,
                ));
                assert(result.1@.skip(result.1@.len() - 4) =~= spec_u32_to_le_bytes(
                    metas_v.len() as u32,
                ));
            }
        }
        Ok(result)
    }
}

} // verus!
