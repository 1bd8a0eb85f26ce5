//! Full-key encoding.
//!
//! A full key is the user key followed by the bitwise-inverted timestamp in
//! little-endian order:
//!
//! `| user key | !timestamp (8B, LE) |`
//!
//! Inverting the timestamp makes newer versions of a user key sort first.
//! Because the suffix is little-endian, byte order agrees with numeric
//! timestamp order only where the timestamps differ in their low byte the
//! same way they differ as numbers; `lemma_full_key_order` states the order
//! equivalence on the domain where it holds.

use crate::bytes_util::{
    common_prefix_len, is_strict_prefix, lemma_common_prefix_len_bounds,
    lemma_common_prefix_len_unique, lemma_lex_lt_char, lemma_lex_lt_common_prefix,
    lemma_lex_lt_mismatch_append, lemma_lex_trichotomy, lex_le, lex_lt,
};
use vstd::bytes::{
    lemma_auto_spec_u64_to_from_le_bytes, spec_u64_from_le_bytes, spec_u64_to_le_bytes,
    spec_u64_to_le_bytes_open, spec_u64_to_le_bytes_to_open, u64_from_le_bytes, u64_to_le_bytes,
};
use vstd::prelude::*;
use vstd::slice::slice_subrange;

verus! {

/// The 8-byte suffix encoding a timestamp inside a full key.
pub open spec fn spec_ts_suffix(timestamp: u64) -> Seq<u8> {
    spec_u64_to_le_bytes(!timestamp)
}

/// The full key built from a user key and a timestamp.
pub open spec fn spec_full_key(user_key: Seq<u8>, timestamp: u64) -> Seq<u8> {
    user_key + spec_ts_suffix(timestamp)
}

/// The user-key part of a full key.
pub open spec fn spec_user_key(full_key: Seq<u8>) -> Seq<u8>
    recommends
        full_key.len() >= 8,
{
    full_key.subrange(0, full_key.len() - 8)
}

/// The timestamp part of a full key.
pub open spec fn spec_timestamp(full_key: Seq<u8>) -> u64
    recommends
        full_key.len() >= 8,
{
    !spec_u64_from_le_bytes(full_key.subrange(full_key.len() - 8, full_key.len() as int))
}

/// Encode a full key from a user key and a timestamp.
pub fn full_key(user_key: &[u8], timestamp: u64) -> (buf: Vec<u8>)
    ensures
        buf@ == spec_full_key(user_key@, timestamp),
        buf@.len() == user_key@.len() + 8,
{
    proof {
        lemma_auto_spec_u64_to_from_le_bytes();
    }
    let mut buf: Vec<u8> = Vec::new();
    buf.extend_from_slice(user_key);
    let suffix = u64_to_le_bytes(!timestamp);
    buf.extend_from_slice(suffix.as_slice());
    buf
}

/// Get the user key in a full key.
pub fn user_key(full_key: &[u8]) -> (uk: &[u8])
    requires
        full_key@.len() >= 8,
    ensures
        uk@ == spec_user_key(full_key@),
{
    slice_subrange(full_key, 0, full_key.len() - 8)
}

/// Get the timestamp in a full key.
pub fn timestamp(full_key: &[u8]) -> (ts: u64)
    requires
        full_key@.len() >= 8,
    ensures
        ts == spec_timestamp(full_key@),
{
    let suffix = slice_subrange(full_key, full_key.len() - 8, full_key.len());
    !u64_from_le_bytes(suffix)
}

/// The suffix of `target` after its longest common prefix with `base`.
///
/// Block entries between restart points store only this suffix.
pub fn key_diff<'a>(base: &[u8], target: &'a [u8]) -> (diff: &'a [u8])
    ensures
        diff@ == target@.skip(common_prefix_len(base@, target@) as int),
{
    let len = if base.len() < target.len() {
        base.len()
    } else {
        target.len()
    };
    let mut i: usize = 0;
    while i < len
        invariant
            i <= len,
            len == vstd::math::min(base@.len() as int, target@.len() as int),
            forall|j: int| 0 <= j < i ==> base@[j] == target@[j],
        decreases len - i,
    {
        if base[i] != target[i] {
            proof {
                lemma_common_prefix_len_unique(base@, target@, i as nat);
            }
            return slice_subrange(target, i, target.len());
        }
        i += 1;
    }
    proof {
        lemma_common_prefix_len_unique(base@, target@, len as nat);
    }
    slice_subrange(target, len, target.len())
}

/// Building a full key and taking it apart returns the inputs unchanged.
pub proof fn lemma_full_key_round_trip(user_key: Seq<u8>, timestamp: u64)
    ensures
        spec_user_key(spec_full_key(user_key, timestamp)) == user_key,
        spec_timestamp(spec_full_key(user_key, timestamp)) == timestamp,
{
    lemma_auto_spec_u64_to_from_le_bytes();
    let fk = spec_full_key(user_key, timestamp);
    assert(spec_user_key(fk) =~= user_key);
    assert(fk.subrange(fk.len() - 8, fk.len() as int) =~= spec_ts_suffix(timestamp));
    let x = timestamp;
    assert(!(!x) == x) by (bit_vector);
}

/// Among full keys sharing a user key, and for timestamps below 256, byte
/// order is timestamp-descending.
pub proof fn lemma_full_key_order_same_user_key(uk: Seq<u8>, ts1: u64, ts2: u64)
    requires
        ts1 < 256,
        ts2 < 256,
    ensures
        lex_lt(spec_full_key(uk, ts1), spec_full_key(uk, ts2)) <==> ts1 > ts2,
{
    lemma_auto_spec_u64_to_from_le_bytes();
    spec_u64_to_le_bytes_to_open(!ts1);
    spec_u64_to_le_bytes_to_open(!ts2);
    let s1 = spec_ts_suffix(ts1);
    let s2 = spec_ts_suffix(ts2);
    lemma_lex_lt_common_prefix(uk, s1, s2);
    assert(s1 == spec_u64_to_le_bytes_open(!ts1));
    assert(s2 == spec_u64_to_le_bytes_open(!ts2));
    let b1 = ((!ts1) & 0xff) as u8;
    let b2 = ((!ts2) & 0xff) as u8;
    assert(spec_u64_to_le_bytes_open(!ts1)[0] == b1);
    assert(spec_u64_to_le_bytes_open(!ts2)[0] == b2);
    if ts1 == ts2 {
        lemma_lex_trichotomy(s1, s2);
    } else {
        let x = ts1;
        let y = ts2;
        assert(x < 256 && y < 256 && x != y ==> ((((!x) & 0xff) as u8) != (((!y) & 0xff) as u8)))
            by (bit_vector);
        assert(x < 256 && y < 256 && x != y ==> (((((!x) & 0xff) as u8) < (((!y) & 0xff) as u8))
            <==> x > y)) by (bit_vector);
        lemma_common_prefix_len_unique(s1, s2, 0);
        lemma_lex_lt_char(s1, s2);
    }
}

/// Where the user keys differ before either ends, full-key order is user-key
/// order, whatever the timestamps.
pub proof fn lemma_full_key_order_distinct_user_keys(
    uk1: Seq<u8>,
    ts1: u64,
    uk2: Seq<u8>,
    ts2: u64,
)
    requires
        common_prefix_len(uk1, uk2) < uk1.len(),
        common_prefix_len(uk1, uk2) < uk2.len(),
    ensures
        lex_lt(spec_full_key(uk1, ts1), spec_full_key(uk2, ts2)) <==> lex_lt(uk1, uk2),
{
    lemma_lex_lt_mismatch_append(uk1, uk2, spec_ts_suffix(ts1), spec_ts_suffix(ts2));
}

/// Order equivalence: full-key order is (user key ascending, timestamp
/// descending).
///
/// The equivalence needs two side conditions. Neither user key may be a
/// proper prefix of the other: with `uk1 = [97]`, `ts1 = 0` and
/// `uk2 = [97, 98]`, the inverted-timestamp byte 255 outruns byte 98. And
/// the timestamps must stay below 256: the suffix is little-endian, so with
/// a shared user key, `ts1 = 1` and `ts2 = 256` the low bytes 254 and 255
/// order the keys against numeric timestamp order.
pub proof fn lemma_full_key_order(uk1: Seq<u8>, ts1: u64, uk2: Seq<u8>, ts2: u64)
    requires
        uk1 == uk2 || (common_prefix_len(uk1, uk2) < uk1.len() && common_prefix_len(uk1, uk2)
            < uk2.len()),
        ts1 < 256,
        ts2 < 256,
    ensures
        lex_lt(spec_full_key(uk1, ts1), spec_full_key(uk2, ts2)) <==> (lex_lt(uk1, uk2) || (uk1
            == uk2 && ts1 > ts2)),
{
    if uk1 == uk2 {
        lemma_full_key_order_same_user_key(uk1, ts1, ts2);
        lemma_lex_trichotomy(uk1, uk2);
    } else {
        lemma_full_key_order_distinct_user_keys(uk1, ts1, uk2, ts2);
    }
}


/// Equal-length all-zero bytes are a lexicographic minimum.
proof fn lemma_zeros_le(z: Seq<u8>, s: Seq<u8>)
    requires
        z.len() == s.len(),
        forall|i: int| 0 <= i < z.len() ==> z[i] == 0,
    ensures
        lex_le(z, s),
    decreases z.len(),
{
    if z.len() > 0 {
        if s[0] == 0 {
            lemma_zeros_le(z.skip(1), s.skip(1));
            if z.skip(1) == s.skip(1) {
                assert forall|i: int| 0 <= i < z.len() implies z[i] == s[i] by {
                    if i >= 1 {
                        assert(z.skip(1)[i - 1] == s.skip(1)[i - 1]);
                    }
                }
                assert(z =~= s);
            }
        }
    } else {
        assert(z =~= s);
    }
}

/// Equal-length all-0xFF bytes are a lexicographic maximum.
proof fn lemma_ffs_ge(f: Seq<u8>, s: Seq<u8>)
    requires
        f.len() == s.len(),
        forall|i: int| 0 <= i < f.len() ==> f[i] == 0xFF,
    ensures
        lex_le(s, f),
    decreases f.len(),
{
    if f.len() > 0 {
        if s[0] == 0xFF {
            lemma_ffs_ge(f.skip(1), s.skip(1));
            if s.skip(1) == f.skip(1) {
                assert forall|i: int| 0 <= i < f.len() implies s[i] == f[i] by {
                    if i >= 1 {
                        assert(s.skip(1)[i - 1] == f.skip(1)[i - 1]);
                    }
                }
                assert(s =~= f);
            }
        }
    } else {
        assert(s =~= f);
    }
}

/// A full key splits back into its user key and timestamp suffix.
pub proof fn lemma_full_key_decompose(fk: Seq<u8>)
    requires
        fk.len() >= 8,
    ensures
        fk == spec_full_key(spec_user_key(fk), spec_timestamp(fk)),
        spec_ts_suffix(spec_timestamp(fk)).len() == 8,
{
    lemma_auto_spec_u64_to_from_le_bytes();
    let sfx = fk.skip(fk.len() - 8);
    assert(sfx.len() == 8);
    assert(spec_timestamp(fk) == !spec_u64_from_le_bytes(sfx));
    let v = spec_u64_from_le_bytes(sfx);
    assert(!(!v) == v) by (bit_vector);
    assert(spec_ts_suffix(spec_timestamp(fk)) == spec_u64_to_le_bytes(spec_u64_from_le_bytes(sfx)));
    assert(spec_ts_suffix(spec_timestamp(fk)) == sfx);
    assert(spec_full_key(spec_user_key(fk), spec_timestamp(fk)) =~= fk);
}

/// `u64::MAX` inverts to the all-zero suffix: the smallest full key of a
/// user key.
pub proof fn lemma_ts_suffix_min(uk: Seq<u8>, s: Seq<u8>)
    requires
        s.len() == 8,
    ensures
        lex_le(spec_full_key(uk, u64::MAX), uk + s),
{
    spec_u64_to_le_bytes_to_open(!u64::MAX);
    let z = spec_ts_suffix(u64::MAX);
    assert(!0xFFFF_FFFF_FFFF_FFFFu64 == 0u64) by (bit_vector);
    assert(z == spec_u64_to_le_bytes_open(0));
    assert((0u64 & 0xff) as u8 == 0 && ((0u64 >> 8) & 0xff) as u8 == 0 && ((0u64 >> 16)
        & 0xff) as u8 == 0 && ((0u64 >> 24) & 0xff) as u8 == 0 && ((0u64 >> 32) & 0xff) as u8 == 0
        && ((0u64 >> 40) & 0xff) as u8 == 0 && ((0u64 >> 48) & 0xff) as u8 == 0 && ((0u64 >> 56)
        & 0xff) as u8 == 0) by (bit_vector);
    assert(forall|i: int| 0 <= i < 8 ==> z[i] == 0);
    lemma_zeros_le(z, s);
    lemma_lex_lt_common_prefix(uk, z, s);
    if z == s {
        assert(uk + z =~= uk + s);
    }
}

/// Timestamp zero inverts to the all-0xFF suffix: the largest full key of
/// a user key.
pub proof fn lemma_ts_suffix_max(uk: Seq<u8>, s: Seq<u8>)
    requires
        s.len() == 8,
    ensures
        lex_le(uk + s, spec_full_key(uk, 0)),
{
    spec_u64_to_le_bytes_to_open(!0u64);
    let f = spec_ts_suffix(0);
    assert(!0u64 == 0xFFFF_FFFF_FFFF_FFFFu64) by (bit_vector);
    assert(f == spec_u64_to_le_bytes_open(u64::MAX));
    assert((0xFFFF_FFFF_FFFF_FFFFu64 & 0xff) as u8 == 0xFF && ((0xFFFF_FFFF_FFFF_FFFFu64 >> 8)
        & 0xff) as u8 == 0xFF && ((0xFFFF_FFFF_FFFF_FFFFu64 >> 16) & 0xff) as u8 == 0xFF && ((
    0xFFFF_FFFF_FFFF_FFFFu64 >> 24) & 0xff) as u8 == 0xFF && ((0xFFFF_FFFF_FFFF_FFFFu64 >> 32)
        & 0xff) as u8 == 0xFF && ((0xFFFF_FFFF_FFFF_FFFFu64 >> 40) & 0xff) as u8 == 0xFF && ((
    0xFFFF_FFFF_FFFF_FFFFu64 >> 48) & 0xff) as u8 == 0xFF && ((0xFFFF_FFFF_FFFF_FFFFu64 >> 56)
        & 0xff) as u8 == 0xFF) by (bit_vector);
    assert(forall|i: int| 0 <= i < 8 ==> f[i] == 0xFF);
    lemma_ffs_ge(f, s);
    lemma_lex_lt_common_prefix(uk, s, f);
    if s == f {
        assert(uk + s =~= uk + f);
    }
}

/// With distinct user keys, neither a prefix of the other, full-key order
/// against any full key of `target` is user-key order, whatever the
/// timestamps.
pub proof fn lemma_fk_order_is_uk_order(fk: Seq<u8>, target: Seq<u8>, ts: u64)
    requires
        fk.len() >= 8,
        !is_strict_prefix(spec_user_key(fk), target),
        !is_strict_prefix(target, spec_user_key(fk)),
        spec_user_key(fk) != target,
    ensures
        lex_lt(fk, spec_full_key(target, ts)) <==> lex_lt(spec_user_key(fk), target),
        lex_lt(spec_full_key(target, ts), fk) <==> lex_lt(target, spec_user_key(fk)),
{
    let uk = spec_user_key(fk);
    lemma_full_key_decompose(fk);
    lemma_common_prefix_len_bounds(uk, target);
    let n = common_prefix_len(uk, target);
    if n == uk.len() && n == target.len() {
        assert(uk =~= target);
        assert(false);
    }
    if n == uk.len() && n < target.len() {
        assert(target.take(uk.len() as int) =~= uk);
        assert(false);
    }
    if n == target.len() && n < uk.len() {
        assert(uk.take(target.len() as int) =~= target);
        assert(false);
    }
    lemma_full_key_order_distinct_user_keys(uk, spec_timestamp(fk), target, ts);
    lemma_common_prefix_len_bounds(target, uk);
    let n2 = common_prefix_len(target, uk);
    if n2 == uk.len() && n2 == target.len() {
        assert(uk =~= target);
        assert(false);
    }
    if n2 == uk.len() && n2 < target.len() {
        assert(target.take(uk.len() as int) =~= uk);
        assert(false);
    }
    if n2 == target.len() && n2 < uk.len() {
        assert(uk.take(target.len() as int) =~= target);
        assert(false);
    }
    lemma_full_key_order_distinct_user_keys(target, ts, uk, spec_timestamp(fk));
}

} // verus!
