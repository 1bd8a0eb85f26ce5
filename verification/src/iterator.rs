//! The uniform bidirectional cursor contract.
//!
//! Every full-key iterator models its contents as an ordered sequence of
//! `(full_key, value)` pairs and its cursor as a position into it; the
//! position one past the end is the invalid state.

use crate::bytes_util::{lex_le, lex_lt};
use crate::error::Result;
use vstd::prelude::*;

verus! {

/// Where to position a cursor.
pub enum Seek<'a> {
    /// The first entry.
    First,
    /// The last entry.
    Last,
    /// The first entry whose full key is at least the given key.
    Random(&'a [u8]),
}

/// View of a pair vector as a pair-of-views sequence.
pub open spec fn kv_views(s: Seq<(Vec<u8>, Vec<u8>)>) -> Seq<(Seq<u8>, Seq<u8>)> {
    s.map_values(|p: (Vec<u8>, Vec<u8>)| (p.0@, p.1@))
}

/// Keys strictly ascending.
pub open spec fn entries_sorted(es: Seq<(Seq<u8>, Seq<u8>)>) -> bool {
    forall|i: int, j: int| 0 <= i < j < es.len() ==> lex_lt(#[trigger] es[i].0, #[trigger] es[j].0)
}

/// `i` is the position of the first key at least `k` (`es.len()` if none).
pub open spec fn is_lower_bound(es: Seq<(Seq<u8>, Seq<u8>)>, k: Seq<u8>, i: int) -> bool {
    &&& 0 <= i <= es.len()
    &&& forall|j: int| 0 <= j < i ==> lex_lt(#[trigger] es[j].0, k)
    &&& i < es.len() ==> lex_le(k, es[i as int].0)
}

/// Uniform bidirectional cursor over ordered full-key/value pairs.
pub trait StorageIterator: Sized {
    /// The ordered full-key/value pairs the iterator ranges over.
    spec fn spec_entries(&self) -> Seq<(Seq<u8>, Seq<u8>)>;

    /// Cursor position; `spec_entries().len()` is the invalid state.
    spec fn spec_pos(&self) -> int;

    /// Internal well-formedness.
    spec fn inv(&self) -> bool;

    fn is_valid(&self) -> (r: bool)
        requires
            self.inv(),
        ensures
            r == (0 <= self.spec_pos() < self.spec_entries().len()),
    ;

    fn key(&self) -> (r: &[u8])
        requires
            self.inv(),
            0 <= self.spec_pos() < self.spec_entries().len(),
        ensures
            r@ == self.spec_entries()[self.spec_pos()].0,
    ;

    fn value(&self) -> (r: &[u8])
        requires
            self.inv(),
            0 <= self.spec_pos() < self.spec_entries().len(),
        ensures
            r@ == self.spec_entries()[self.spec_pos()].1,
    ;

    /// Move to the next entry; from the last entry the cursor goes invalid.
    fn next(&mut self) -> (r: Result<()>)
        requires
            old(self).inv(),
            0 <= old(self).spec_pos() < old(self).spec_entries().len(),
        ensures
            final(self).inv(),
            final(self).spec_entries() == old(self).spec_entries(),
            r is Ok ==> final(self).spec_pos() == old(self).spec_pos() + 1,
    ;

    /// Move to the previous entry; from the first entry the cursor goes
    /// invalid.
    fn prev(&mut self) -> (r: Result<()>)
        requires
            old(self).inv(),
            0 <= old(self).spec_pos() < old(self).spec_entries().len(),
        ensures
            final(self).inv(),
            final(self).spec_entries() == old(self).spec_entries(),
            r is Ok && old(self).spec_pos() > 0 ==> final(self).spec_pos() == old(self).spec_pos()
                - 1,
            r is Ok && old(self).spec_pos() == 0 ==> final(self).spec_pos() == final(
                self
            ).spec_entries().len(),
    ;

    /// Position the cursor. `Random` lands on the first key at least the
    /// target, provided the entries are sorted.
    fn seek(&mut self, position: Seek<'_>) -> (r: Result<()>)
        requires
            old(self).inv(),
        ensures
            final(self).inv(),
            final(self).spec_entries() == old(self).spec_entries(),
            r is Ok ==> match position {
                Seek::First => final(self).spec_pos() == 0,
                Seek::Last => final(self).spec_pos() == if final(self).spec_entries().len() > 0 {
                    final(self).spec_entries().len() - 1
                } else {
                    0int
                },
                Seek::Random(k) => entries_sorted(final(self).spec_entries()) ==> is_lower_bound(
                    final(self).spec_entries(),
                    k@,
                    final(self).spec_pos(),
                ),
            },
    ;
}

/// Iterator monotonicity: within a sorted run, the key after a `next` is
/// strictly greater, so repeated `next` calls yield strictly ascending keys,
/// and repeated `prev` calls strictly descending ones.
pub proof fn lemma_iterator_monotonic(es: Seq<(Seq<u8>, Seq<u8>)>, p: int, q: int)
    requires
        entries_sorted(es),
        0 <= p < q < es.len(),
    ensures
        lex_lt(es[p].0, es[q].0),
{
}

} // verus!
