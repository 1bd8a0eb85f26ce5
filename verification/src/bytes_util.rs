//! Byte-string ordering.
//!
//! User keys and full keys are opaque byte strings, totally ordered
//! lexicographically. This module defines that order at the specification
//! level and provides the verified comparator the engines use.

use core::cmp::Ordering;
use vstd::prelude::*;
use vstd::slice::slice_subrange;

verus! {

/// Length of the longest common prefix of two byte strings.
pub open spec fn common_prefix_len(a: Seq<u8>, b: Seq<u8>) -> nat
    decreases a.len(),
{
    if a.len() == 0 || b.len() == 0 {
        0
    } else if a[0] == b[0] {
        1 + common_prefix_len(a.skip(1), b.skip(1))
    } else {
        0
    }
}

/// Strict lexicographic order on byte strings.
pub open spec fn lex_lt(a: Seq<u8>, b: Seq<u8>) -> bool
    decreases a.len(),
{
    if b.len() == 0 {
        false
    } else if a.len() == 0 {
        true
    } else if a[0] < b[0] {
        true
    } else if a[0] > b[0] {
        false
    } else {
        lex_lt(a.skip(1), b.skip(1))
    }
}

/// Non-strict lexicographic order.
pub open spec fn lex_le(a: Seq<u8>, b: Seq<u8>) -> bool {
    lex_lt(a, b) || a == b
}

pub proof fn lemma_common_prefix_len_bounds(a: Seq<u8>, b: Seq<u8>)
    ensures
        common_prefix_len(a, b) <= a.len(),
        common_prefix_len(a, b) <= b.len(),
        forall|i: int| 0 <= i < common_prefix_len(a, b) ==> a[i] == b[i],
        common_prefix_len(a, b) < a.len() && common_prefix_len(a, b) < b.len() ==> a[
            common_prefix_len(a, b) as int
        ] != b[common_prefix_len(a, b) as int],
    decreases a.len(),
{
    if a.len() == 0 || b.len() == 0 {
    } else if a[0] == b[0] {
        lemma_common_prefix_len_bounds(a.skip(1), b.skip(1));
        let n = common_prefix_len(a, b);
        assert forall|i: int| 0 <= i < n implies a[i] == b[i] by {
            if i > 0 {
                assert(a.skip(1)[i - 1] == b.skip(1)[i - 1]);
            }
        }
        if n < a.len() && n < b.len() {
            assert(a.skip(1)[n - 1] != b.skip(1)[n - 1]);
        }
    }
}

/// The characterization in `lemma_common_prefix_len_bounds` pins the value.
pub proof fn lemma_common_prefix_len_unique(a: Seq<u8>, b: Seq<u8>, n: nat)
    requires
        n <= a.len(),
        n <= b.len(),
        forall|i: int| 0 <= i < n ==> a[i] == b[i],
        n < a.len() && n < b.len() ==> a[n as int] != b[n as int],
    ensures
        common_prefix_len(a, b) == n,
    decreases a.len(),
{
    if a.len() == 0 || b.len() == 0 {
    } else if a[0] == b[0] {
        if n == 0 {
            assert(false);
        } else {
            assert forall|i: int| 0 <= i < n - 1 implies a.skip(1)[i] == b.skip(1)[i] by {
                assert(a[i + 1] == b[i + 1]);
            }
            if n - 1 < a.skip(1).len() && n - 1 < b.skip(1).len() {
                assert(a.skip(1)[n - 1] == a[n as int]);
                assert(b.skip(1)[n - 1] == b[n as int]);
            }
            lemma_common_prefix_len_unique(a.skip(1), b.skip(1), (n - 1) as nat);
        }
    } else {
        assert(n == 0);
    }
}

/// `lex_lt` in terms of the first differing position.
pub proof fn lemma_lex_lt_char(a: Seq<u8>, b: Seq<u8>)
    ensures
        lex_lt(a, b) <==> {
            let n = common_prefix_len(a, b);
            (n == a.len() && a.len() < b.len()) || (n < a.len() && n < b.len() && a[n as int] < b[
                n as int
            ])
        },
    decreases a.len(),
{
    if b.len() == 0 {
    } else if a.len() == 0 {
    } else if a[0] == b[0] {
        lemma_lex_lt_char(a.skip(1), b.skip(1));
        let n = common_prefix_len(a, b);
        assert(n == 1 + common_prefix_len(a.skip(1), b.skip(1)));
        if 0 < n && n < a.len() && n < b.len() {
            assert(a.skip(1)[n - 1] == a[n as int]);
            assert(b.skip(1)[n - 1] == b[n as int]);
        }
    }
}

/// Exactly one of `a < b`, `a == b`, `b < a` holds.
pub proof fn lemma_lex_trichotomy(a: Seq<u8>, b: Seq<u8>)
    ensures
        lex_lt(a, b) || lex_lt(b, a) || a == b,
        lex_lt(a, b) ==> !lex_lt(b, a) && a != b,
        lex_lt(b, a) ==> !lex_lt(a, b) && a != b,
        a == b ==> !lex_lt(a, b) && !lex_lt(b, a),
    decreases a.len(),
{
    if b.len() == 0 {
        if a.len() == 0 {
            assert(a =~= b);
        }
    } else if a.len() == 0 {
    } else if a[0] == b[0] {
        lemma_lex_trichotomy(a.skip(1), b.skip(1));
        if a.skip(1) == b.skip(1) {
            assert(a =~= b) by {
                assert forall|i: int| 0 <= i < a.len() implies a[i] == b[i] by {
                    if i > 0 {
                        assert(a[i] == a.skip(1)[i - 1]);
                        assert(b[i] == b.skip(1)[i - 1]);
                    }
                }
            }
        }
        if a == b {
            assert(a.skip(1) =~= b.skip(1));
        }
    } else {
        assert(a != b) by {
            if a == b {
                assert(a[0] == b[0]);
            }
        }
    }
}

/// Lexicographic order is transitive.
pub proof fn lemma_lex_lt_trans(a: Seq<u8>, b: Seq<u8>, c: Seq<u8>)
    requires
        lex_lt(a, b),
        lex_lt(b, c),
    ensures
        lex_lt(a, c),
    decreases a.len(),
{
    if a.len() == 0 {
    } else {
        // b is non-empty since lex_lt(a, b); c is non-empty since lex_lt(b, c).
        if a[0] == b[0] && b[0] == c[0] {
            lemma_lex_lt_trans(a.skip(1), b.skip(1), c.skip(1));
        }
    }
}

/// Removing an equal prefix from both sides preserves the order.
/// `p` is a strict prefix of `s`.
pub open spec fn is_strict_prefix(p: Seq<u8>, s: Seq<u8>) -> bool {
    p.len() < s.len() && s.take(p.len() as int) == p
}

/// Mixed transitivity: at most one step may be non-strict.
pub proof fn lemma_lex_le_lt_trans(a: Seq<u8>, b: Seq<u8>, c: Seq<u8>)
    requires
        lex_le(a, b),
        lex_lt(b, c),
    ensures
        lex_lt(a, c),
{
    if a != b {
        lemma_lex_lt_trans(a, b, c);
    }
}

pub proof fn lemma_lex_lt_common_prefix(p: Seq<u8>, a: Seq<u8>, b: Seq<u8>)
    ensures
        lex_lt(p + a, p + b) <==> lex_lt(a, b),
    decreases p.len(),
{
    if p.len() == 0 {
        assert(p + a =~= a);
        assert(p + b =~= b);
    } else {
        assert((p + a)[0] == p[0]);
        assert((p + b)[0] == p[0]);
        assert((p + a).skip(1) =~= p.skip(1) + a);
        assert((p + b).skip(1) =~= p.skip(1) + b);
        lemma_lex_lt_common_prefix(p.skip(1), a, b);
    }
}

/// When the keys differ before either ends, suffixes cannot change the order.
pub proof fn lemma_lex_lt_mismatch_append(a: Seq<u8>, b: Seq<u8>, x: Seq<u8>, y: Seq<u8>)
    requires
        common_prefix_len(a, b) < a.len(),
        common_prefix_len(a, b) < b.len(),
    ensures
        lex_lt(a + x, b + y) <==> lex_lt(a, b),
        lex_lt(a, b) <==> a[common_prefix_len(a, b) as int] < b[common_prefix_len(a, b) as int],
{
    let n = common_prefix_len(a, b);
    lemma_common_prefix_len_bounds(a, b);
    lemma_lex_lt_char(a, b);
    assert forall|i: int| 0 <= i < n implies (a + x)[i] == (b + y)[i] by {
        assert((a + x)[i] == a[i]);
        assert((b + y)[i] == b[i]);
    }
    assert((a + x)[n as int] == a[n as int]);
    assert((b + y)[n as int] == b[n as int]);
    lemma_common_prefix_len_unique(a + x, b + y, n);
    lemma_lex_lt_char(a + x, b + y);
}

/// Byte-string equality.
pub fn bytes_eq(a: &[u8], b: &[u8]) -> (r: bool)
    ensures
        r == (a@ == b@),
{
    if a.len() != b.len() {
        proof {
            assert(a@ != b@);
        }
        return false;
    }
    let n = a.len();
    let mut i: usize = 0;
    while i < n
        invariant
            i <= n,
            n == a@.len(),
            n == b@.len(),
            forall|j: int| 0 <= j < i ==> a@[j] == b@[j],
        decreases n - i,
    {
        if a[i] != b[i] {
            return false;
        }
        i += 1;
    }
    proof {
        assert(a@ =~= b@);
    }
    true
}

/// Compare two byte strings in lexicographic order.
pub fn compare_bytes(a: &[u8], b: &[u8]) -> (o: Ordering)
    ensures
        o == Ordering::Less <==> lex_lt(a@, b@),
        o == Ordering::Greater <==> lex_lt(b@, a@),
        o == Ordering::Equal <==> a@ == b@,
{
    let alen = a.len();
    let blen = b.len();
    let len = if alen < blen {
        alen
    } else {
        blen
    };
    let mut i: usize = 0;
    while i < len
        invariant
            i <= len,
            len == vstd::math::min(a@.len() as int, b@.len() as int),
            forall|j: int| 0 <= j < i ==> a@[j] == b@[j],
        decreases len - i,
    {
        let x = a[i];
        let y = b[i];
        if x != y {
            proof {
                lemma_common_prefix_len_unique(a@, b@, i as nat);
                lemma_common_prefix_len_unique(b@, a@, i as nat);
                lemma_lex_lt_char(a@, b@);
                lemma_lex_lt_char(b@, a@);
                assert(a@ != b@) by {
                    if a@ == b@ {
                        assert(a@[i as int] == b@[i as int]);
                    }
                }
            }
            if x < y {
                return Ordering::Less;
            }
            return Ordering::Greater;
        }
        i += 1;
    }
    proof {
        lemma_common_prefix_len_unique(a@, b@, len as nat);
        lemma_common_prefix_len_unique(b@, a@, len as nat);
        lemma_lex_lt_char(a@, b@);
        lemma_lex_lt_char(b@, a@);
        if a@.len() == b@.len() {
            assert(a@ =~= b@);
        }
        lemma_lex_trichotomy(a@, b@);
    }
    if alen < blen {
        Ordering::Less
    } else if alen > blen {
        Ordering::Greater
    } else {
        Ordering::Equal
    }
}

/// Copy a subrange of a byte slice into a fresh vector.
pub fn bytes_to_vec(a: &[u8]) -> (r: Vec<u8>)
    ensures
        r@ == a@,
{
    let mut r: Vec<u8> = Vec::new();
    r.extend_from_slice(a);
    r
}

/// Copy `a[start..end]` into a fresh vector.
pub fn subrange_to_vec(a: &[u8], start: usize, end: usize) -> (r: Vec<u8>)
    requires
        start <= end <= a@.len(),
    ensures
        r@ == a@.subrange(start as int, end as int),
{
    bytes_to_vec(slice_subrange(a, start, end))
}

} // verus!
