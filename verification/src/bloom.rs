//! Partitioned double-hashing bloom filter over 32-bit user-key
//! fingerprints.
//!
//! Layout: the bit array, then one trailing byte holding the probe count
//! `k`. A membership answer of `false` is authoritative; `true` may be a
//! false positive.

use vstd::prelude::*;

verus! {

/// The filter bit at `pos` is set.
pub open spec fn spec_bit_set(filter: Seq<u8>, pos: int) -> bool {
    ((filter[pos / 8] >> ((pos % 8) as u8)) & 1) == 1
}

/// Probe delta: the fingerprint rotated right by 17 bits.
pub open spec fn spec_delta(h: u32) -> u32 {
    (h >> 17) | (h << 15)
}

/// The `i`-th probe hash: the fingerprint advanced `i` deltas, wrapping.
pub open spec fn spec_probe(h: u32, i: nat) -> u32
    decreases i,
{
    if i == 0 {
        h
    } else {
        ((spec_probe(h, (i - 1) as nat) + spec_delta(h)) % 0x1_0000_0000) as u32
    }
}

/// Every probe of `h` hits a set bit.
pub open spec fn spec_bloom_contains(filter: Seq<u8>, h: u32) -> bool {
    let k = filter.last() as nat;
    let nbits = 8 * (filter.len() - 1);
    forall|i: nat| i < k ==> spec_bit_set(filter, #[trigger] spec_probe(h, i) as int % nbits)
}

proof fn lemma_or_preserves_bit(x: u8, m: u8, b: u8)
    requires
        b < 8,
    ensures
        ((x >> b) & 1) == 1 ==> (((x | m) >> b) & 1) == 1,
{
    assert(b < 8 && ((x >> b) & 1) == 1 ==> (((x | m) >> b) & 1) == 1) by (bit_vector);
}

proof fn lemma_or_sets_bit(x: u8, b: u8)
    requires
        b < 8,
    ensures
        (((x | (1u8 << b)) >> b) & 1) == 1,
{
    assert(b < 8 ==> (((x | (1u8 << b)) >> b) & 1) == 1) by (bit_vector);
}

/// Bloom filter build and query.
pub struct Bloom;

impl Bloom {
    /// Advance a probe hash by the delta, wrapping.
    fn advance(h: u32, delta: u32) -> (r: u32)
        ensures
            r == ((h + delta) % 0x1_0000_0000) as u32,
    {
        if h > u32::MAX - delta {
            (h - (u32::MAX - delta)) - 1
        } else {
            h + delta
        }
    }

    /// Set bit `pos` of the filter.
    fn set_bit(filter: &mut Vec<u8>, pos: usize)
        requires
            pos < 8 * old(filter)@.len(),
        ensures
            final(filter)@.len() == old(filter)@.len(),
            spec_bit_set(final(filter)@, pos as int),
            forall|p: int|
                0 <= p < 8 * old(filter)@.len() && spec_bit_set(old(filter)@, p)
                    ==> spec_bit_set(final(filter)@, p),
    {
        let byte_pos = pos / 8;
        let bit = (pos % 8) as u8;
        let b = filter[byte_pos];
        let nb = b | (1u8 << bit);
        let ghost pre = filter@;
        filter.remove(byte_pos);
        filter.insert(byte_pos, nb);
        proof {
            assert(filter@ =~= pre.update(byte_pos as int, nb));
            lemma_or_sets_bit(b, bit);
            assert forall|p: int|
                0 <= p < 8 * pre.len() && spec_bit_set(pre, p) implies spec_bit_set(
                filter@,
                p,
            ) by {
                if p / 8 == byte_pos {
                    lemma_or_preserves_bit(b, 1u8 << bit, (p % 8) as u8);
                }
            }
        }
    }

    /// Read bit `pos` of the filter.
    fn get_bit(filter: &[u8], pos: usize) -> (r: bool)
        requires
            pos < 8 * filter@.len(),
        ensures
            r == spec_bit_set(filter@, pos as int),
    {
        let byte_pos = pos / 8;
        let bit = (pos % 8) as u8;
        ((filter[byte_pos] >> bit) & 1) == 1
    }

    /// Build a filter from the key fingerprints.
    ///
    /// Every inserted fingerprint is afterwards reported present: each of
    /// its probe bits is set and stays set.
    pub fn build_from_key_hashes(hashes: &Vec<u32>, bits_per_key: usize) -> (r: Vec<u8>)
        requires
            bits_per_key <= 1048576,
            hashes@.len() * bits_per_key + 79 <= usize::MAX,
        ensures
            r@.len() >= 2,
            r@.len() <= hashes@.len() * bits_per_key + 66,
            r@.len() <= usize::MAX / 8,
            r@.last() <= 30,
            forall|j: int|
                0 <= j < hashes@.len() ==> spec_bloom_contains(r@, #[trigger] hashes@[j]),
    {
        let k0 = bits_per_key * 69 / 100;
        let k: u8 = if k0 < 1 {
            1
        } else if k0 > 30 {
            30
        } else {
            k0 as u8
        };
        let n0 = hashes.len() * bits_per_key;
        let nbits0 = if n0 < 64 {
            64
        } else {
            n0
        };
        let nbytes = (nbits0 + 7) / 8;
        let nbits = nbytes * 8;
        let mut filter: Vec<u8> = Vec::new();
        let mut z: usize = 0;
        while z < nbytes
            invariant
                z <= nbytes,
                filter@.len() == z,
            decreases nbytes - z,
        {
            filter.push(0);
            z += 1;
        }
        let n = hashes.len();
        let mut a: usize = 0;
        while a < n
            invariant
                a <= n,
                n == hashes@.len(),
                filter@.len() == nbytes,
                nbits == 8 * nbytes,
                nbits >= 64,
                1 <= k <= 30,
                forall|j: int, i: nat|
                    0 <= j < a && i < k ==> spec_bit_set(
                        filter@,
                        #[trigger] spec_probe(hashes@[j], i) as int % (nbits as int),
                    ),
            decreases n - a,
        {
            let h0 = hashes[a];
            let delta = (h0 >> 17) | (h0 << 15);
            let mut h = h0;
            let mut i: u8 = 0;
            let ghost snap = filter@;
            while i < k
                invariant
                    i <= k,
                    1 <= k <= 30,
                    filter@.len() == nbytes,
                    snap.len() == nbytes,
                    nbits == 8 * nbytes,
                    nbits >= 64,
                    delta == spec_delta(h0),
                    h == spec_probe(h0, i as nat),
                    forall|i2: nat|
                        i2 < i ==> spec_bit_set(
                            filter@,
                            #[trigger] spec_probe(h0, i2) as int % (nbits as int),
                        ),
                    forall|p: int|
                        0 <= p < 8 * snap.len() && spec_bit_set(snap, p) ==> spec_bit_set(
                            filter@,
                            p,
                        ),
                decreases k - i,
            {
                let pos = (h as usize) % nbits;
                let ghost before = filter@;
                Self::set_bit(&mut filter, pos);
                proof {
                    assert forall|p: int|
                        0 <= p < 8 * snap.len() && spec_bit_set(snap, p) implies spec_bit_set(
                        filter@,
                        p,
                    ) by {
                        assert(spec_bit_set(before, p));
                    }
                }
                h = Self::advance(h, delta);
                i += 1;
            }
            proof {
                assert forall|j: int, i2: nat|
                    0 <= j < a + 1 && i2 < k implies spec_bit_set(
                    filter@,
                    #[trigger] spec_probe(hashes@[j], i2) as int % (nbits as int),
                ) by {
                    if j < a {
                        assert(spec_bit_set(snap, spec_probe(hashes@[j], i2) as int % (
                        nbits as int)));
                    }
                }
            }
            a += 1;
        }
        proof {
            vstd::arithmetic::div_mod::lemma_div_is_ordered(
                (nbits0 + 7) as int,
                (usize::MAX - 8) as int,
                8,
            );
            assert((usize::MAX - 8) as int / 8 <= usize::MAX as int / 8 - 1) by (nonlinear_arith);
        }
        filter.push(k);
        proof {
            let full = filter@;
            assert(full.last() == k);
            assert(full.len() - 1 == nbytes);
            assert forall|j: int| 0 <= j < hashes@.len() implies spec_bloom_contains(
                full,
                #[trigger] hashes@[j],
            ) by {
                assert forall|i: nat| i < k implies spec_bit_set(
                    full,
                    #[trigger] spec_probe(hashes@[j], i) as int % (8 * (full.len() - 1)),
                ) by {
                    let p = spec_probe(hashes@[j], i) as int % (nbits as int);
                    assert(spec_bit_set(full.drop_last(), p)) by {
                        assert(full.drop_last() =~= filter@.subrange(0, nbytes as int));
                    }
                    assert(full[p / 8] == full.drop_last()[p / 8]);
                }
            }
        }
        filter
    }

    /// Query the filter for a key fingerprint. `false` is authoritative; a
    /// malformed or over-long filter reads as a match.
    pub fn maybe_contains(filter: &[u8], key_hash: u32) -> (r: bool)
        requires
            filter@.len() <= usize::MAX / 8,
        ensures
            filter@.len() >= 2 && filter@.last() <= 30 ==> r == spec_bloom_contains(
                filter@,
                key_hash,
            ),
            filter@.len() < 2 || filter@.last() > 30 ==> r == true,
    {
        if filter.len() < 2 {
            return true;
        }
        let k = filter[filter.len() - 1];
        if k > 30 {
            return true;
        }
        let nbits = (filter.len() - 1) * 8;
        let delta = (key_hash >> 17) | (key_hash << 15);
        let mut h = key_hash;
        let mut i: u8 = 0;
        while i < k
            invariant
                i <= k,
                k == filter@.last(),
                k <= 30,
                filter@.len() >= 2,
                nbits == 8 * (filter@.len() - 1),
                delta == spec_delta(key_hash),
                h == spec_probe(key_hash, i as nat),
                forall|i2: nat|
                    i2 < i ==> spec_bit_set(
                        filter@,
                        #[trigger] spec_probe(key_hash, i2) as int % (nbits as int),
                    ),
            decreases k - i,
        {
            let pos = (h as usize) % nbits;
            proof {
                assert(pos / 8 < filter@.len() - 1);
            }
            if !Self::get_bit(filter, pos) {
                proof {
                    if spec_bloom_contains(filter@, key_hash) {
                        assert(spec_bit_set(
                            filter@,
                            spec_probe(key_hash, i as nat) as int % (8 * (filter@.len() - 1)),
                        ));
                    }
                }
                return false;
            }
            h = Self::advance(h, delta);
            i += 1;
        }
        true
    }
}

} // verus!
