//! Concatenation of child iterators with disjoint, ascending key ranges.
//!
//! If the concat iterator is valid, its active child is valid.

use crate::bytes_util::{lex_le, lex_lt, lemma_lex_lt_trans, lemma_lex_trichotomy};
use crate::error::Result;
use crate::iterator::{entries_sorted, is_lower_bound, Seek, StorageIterator};
use vstd::prelude::*;

verus! {

/// The children hold non-empty sorted runs in ascending, disjoint order.
pub open spec fn children_orderly<I: StorageIterator>(iters: Seq<I>) -> bool {
    &&& forall|c: int| 0 <= c < iters.len() ==> (#[trigger] iters[c]).spec_entries().len() > 0
    &&& forall|c: int| 0 <= c < iters.len() ==> entries_sorted((#[trigger] iters[c]).spec_entries())
    &&& forall|c1: int, c2: int, p1: int, p2: int|
        0 <= c1 < c2 < iters.len() && 0 <= p1 < iters[c1].spec_entries().len() && 0 <= p2
            < iters[c2].spec_entries().len() ==> lex_lt(
            (#[trigger] iters[c1].spec_entries()[p1]).0,
            (#[trigger] iters[c2].spec_entries()[p2]).0,
        )
}

/// Drives a vector of child iterators whose key ranges are disjoint and
/// ordered.
pub struct ConcatIterator<I: StorageIterator> {
    /// Iterators to concatenate, in ascending key order.
    iters: Vec<I>,
    /// Current child; `iters.len()` is the invalid state.
    offset: usize,
}

impl<I: StorageIterator> ConcatIterator<I> {
    pub closed spec fn spec_iters(&self) -> Seq<I> {
        self.iters@
    }

    pub closed spec fn spec_offset(&self) -> int {
        self.offset as int
    }

    pub open spec fn spec_valid(&self) -> bool {
        self.spec_offset() < self.spec_iters().len()
    }

    /// The key-value pair under the cursor.
    pub open spec fn spec_current(&self) -> (Seq<u8>, Seq<u8>)
        recommends
            self.spec_valid(),
    {
        self.spec_iters()[self.spec_offset()].spec_entries()[self.spec_iters()[self.spec_offset()].spec_pos()]
    }

    pub closed spec fn inv(&self) -> bool {
        &&& self.offset <= self.iters@.len()
        &&& forall|c: int| 0 <= c < self.iters@.len() ==> (#[trigger] self.iters@[c]).inv()
        &&& self.spec_valid() ==> {
            let it = self.iters@[self.offset as int];
            0 <= it.spec_pos() < it.spec_entries().len()
        }
    }

    /// The children keep their contents across cursor moves.
    pub open spec fn same_children(&self, other: &Self) -> bool {
        &&& self.spec_iters().len() == other.spec_iters().len()
        &&& forall|c: int|
            0 <= c < self.spec_iters().len() ==> (#[trigger] self.spec_iters()[c]).spec_entries()
                == other.spec_iters()[c].spec_entries()
    }

    /// The input iterators must hold ascending, disjoint runs.
    pub fn new(iters: Vec<I>) -> (r: Self)
        requires
            forall|c: int| 0 <= c < iters@.len() ==> (#[trigger] iters@[c]).inv(),
        ensures
            r.inv(),
            !r.spec_valid(),
            r.spec_iters() == iters@,
    {
        let offset = iters.len();
        ConcatIterator { iters, offset }
    }

    pub fn is_valid(&self) -> (r: bool)
        requires
            self.inv(),
        ensures
            r == self.spec_valid(),
    {
        self.offset < self.iters.len()
    }

    /// The full key under the cursor.
    pub fn key(&self) -> (r: &[u8])
        requires
            self.inv(),
            self.spec_valid(),
        ensures
            r@ == self.spec_current().0,
    {
        self.iters[self.offset].key()
    }

    /// The value under the cursor.
    pub fn value(&self) -> (r: &[u8])
        requires
            self.inv(),
            self.spec_valid(),
        ensures
            r@ == self.spec_current().1,
    {
        self.iters[self.offset].value()
    }

    /// Move one child forward, or roll into the next child's first entry.
    pub fn next(&mut self) -> (r: Result<()>)
        requires
            old(self).inv(),
            old(self).spec_valid(),
        ensures
            final(self).inv(),
            final(self).same_children(old(self)),
            r is Ok && children_orderly(old(self).spec_iters()) ==> {
                let it = old(self).spec_iters()[old(self).spec_offset()];
                if it.spec_pos() + 1 < it.spec_entries().len() {
                    final(self).spec_valid() && final(self).spec_offset() == old(
                        self
                    ).spec_offset() && final(self).spec_iters()[final(self).spec_offset()].spec_pos()
                        == it.spec_pos() + 1
                } else if old(self).spec_offset() + 1 < old(self).spec_iters().len() {
                    final(self).spec_valid() && final(self).spec_offset() == old(
                        self
                    ).spec_offset() + 1 && final(self).spec_iters()[final(
                        self
                    ).spec_offset()].spec_pos() == 0
                } else {
                    !final(self).spec_valid()
                }
            },
    {
        let mut it = self.iters.remove(self.offset);
        let res = it.next();
        let ghost it_after = it;
        self.iters.insert(self.offset, it);
        proof {
            assert(self.iters@ =~= old(self).iters@.update(old(self).offset as int, it_after));
        }
        match res {
            Ok(_) => {},
            Err(e) => {
                self.invalid();
                return Err(e);
            },
        }
        let n2 = self.iters.len();
        proof {
            assert(self.offset < n2);
        }
        if !self.iters[self.offset].is_valid() {
            if self.offset + 1 == n2 {
                self.invalid();
                return Ok(());
            }
            self.offset = self.offset + 1;
            let mut it2 = self.iters.remove(self.offset);
            let res2 = it2.seek(Seek::First);
            let ghost it2_after = it2;
            self.iters.insert(self.offset, it2);
            proof {
                assert(self.iters@.update(self.offset as int, it2_after) =~= self.iters@);
            }
            match res2 {
                Ok(_) => {},
                Err(e) => {
                    self.invalid();
                    return Err(e);
                },
            }
            if !self.iters[self.offset].is_valid() {
                self.invalid();
            }
            Ok(())
        } else {
            Ok(())
        }
    }

    /// Move one child backward, or roll into the previous child's last
    /// entry.
    pub fn prev(&mut self) -> (r: Result<()>)
        requires
            old(self).inv(),
            old(self).spec_valid(),
        ensures
            final(self).inv(),
            final(self).same_children(old(self)),
            r is Ok && children_orderly(old(self).spec_iters()) ==> {
                let it = old(self).spec_iters()[old(self).spec_offset()];
                if it.spec_pos() > 0 {
                    final(self).spec_valid() && final(self).spec_offset() == old(
                        self
                    ).spec_offset() && final(self).spec_iters()[final(self).spec_offset()].spec_pos()
                        == it.spec_pos() - 1
                } else if old(self).spec_offset() > 0 {
                    final(self).spec_valid() && final(self).spec_offset() == old(
                        self
                    ).spec_offset() - 1 && final(self).spec_iters()[final(
                        self
                    ).spec_offset()].spec_pos() == final(self).spec_iters()[final(
                        self
                    ).spec_offset()].spec_entries().len() - 1
                } else {
                    !final(self).spec_valid()
                }
            },
    {
        let mut it = self.iters.remove(self.offset);
        let res = it.prev();
        let ghost it_after = it;
        self.iters.insert(self.offset, it);
        proof {
            assert(self.iters@ =~= old(self).iters@.update(old(self).offset as int, it_after));
        }
        match res {
            Ok(_) => {},
            Err(e) => {
                self.invalid();
                return Err(e);
            },
        }
        proof {
            assert(self.offset < self.iters@.len());
        }
        if !self.iters[self.offset].is_valid() {
            if self.offset == 0 {
                self.invalid();
                return Ok(());
            }
            self.offset = self.offset - 1;
            let mut it2 = self.iters.remove(self.offset);
            let res2 = it2.seek(Seek::Last);
            let ghost it2_after = it2;
            self.iters.insert(self.offset, it2);
            proof {
                assert(self.iters@.update(self.offset as int, it2_after) =~= self.iters@);
            }
            match res2 {
                Ok(_) => {},
                Err(e) => {
                    self.invalid();
                    return Err(e);
                },
            }
            if !self.iters[self.offset].is_valid() {
                self.invalid();
            }
            Ok(())
        } else {
            Ok(())
        }
    }

    /// Invalidate after reaching an invalid state.
    fn invalid(&mut self)
        requires
            forall|c: int| 0 <= c < old(self).spec_iters().len() ==> (#[trigger] old(
                self,
            ).spec_iters()[c]).inv(),
        ensures
            final(self).inv(),
            !final(self).spec_valid(),
            final(self).spec_iters() == old(self).spec_iters(),
    {
        self.offset = self.iters.len();
        proof {
            assert forall|c: int| 0 <= c < self.iters@.len() implies (
            #[trigger] self.iters@[c]).inv() by {
                assert(old(self).spec_iters()[c].inv());
            }
        }
    }

    /// Position the cursor.
    ///
    /// `First` and `Last` land on the first entry of the first child and the
    /// last entry of the last child. `Random` lands on the first entry at
    /// least the target across all children, or goes invalid.
    pub fn seek(&mut self, position: Seek<'_>) -> (r: Result<()>)
        requires
            old(self).inv(),
            old(self).spec_iters().len() > 0,
        ensures
            final(self).inv(),
            final(self).same_children(old(self)),
            r is Ok && children_orderly(old(self).spec_iters()) ==> match position {
                Seek::First => final(self).spec_valid() && final(self).spec_offset() == 0 && final(
                    self
                ).spec_iters()[0].spec_pos() == 0,
                Seek::Last => final(self).spec_valid() && final(self).spec_offset() == final(
                    self
                ).spec_iters().len() - 1 && final(self).spec_iters()[final(
                    self
                ).spec_offset()].spec_pos() == final(self).spec_iters()[final(
                    self
                ).spec_offset()].spec_entries().len() - 1,
                Seek::Random(key) => {
                    &&& (final(self).spec_valid() ==> lex_le(key@, final(self).spec_current().0))
                    &&& (final(self).spec_valid() ==> (forall|c: int, p: int|
                        0 <= c < final(self).spec_iters().len() && 0 <= p < final(
                            self
                        ).spec_iters()[c].spec_entries().len() && (c < final(self).spec_offset() || (
                        c == final(self).spec_offset() && p < final(self).spec_iters()[final(
                            self
                        ).spec_offset()].spec_pos())) ==> lex_lt(
                            (#[trigger] final(self).spec_iters()[c].spec_entries()[p]).0,
                            key@,
                        )))
                    &&& (!final(self).spec_valid() ==> (forall|c: int, p: int|
                        0 <= c < final(self).spec_iters().len() && 0 <= p < final(
                            self
                        ).spec_iters()[c].spec_entries().len() ==> lex_lt(
                            (#[trigger] final(self).spec_iters()[c].spec_entries()[p]).0,
                            key@,
                        )))
                },
            },
    {
        match position {
            Seek::First => {
                self.offset = 0;
                let mut it = self.iters.remove(0);
                let res = it.seek(Seek::First);
                let ghost it_after = it;
                self.iters.insert(0, it);
                proof {
                    assert(self.iters@.update(0int, it_after) =~= self.iters@);
                }
                match res {
                    Ok(_) => {},
                    Err(e) => {
                        self.invalid();
                        return Err(e);
                    },
                }
                if !self.iters[0].is_valid() {
                    self.invalid();
                }
                Ok(())
            },
            Seek::Last => {
                let last = self.iters.len() - 1;
                self.offset = last;
                let mut it = self.iters.remove(last);
                let res = it.seek(Seek::Last);
                let ghost it_after = it;
                self.iters.insert(last, it);
                proof {
                    assert(self.iters@.update(last as int, it_after) =~= self.iters@);
                }
                match res {
                    Ok(_) => {},
                    Err(e) => {
                        self.invalid();
                        return Err(e);
                    },
                }
                if !self.iters[last].is_valid() {
                    self.invalid();
                }
                Ok(())
            },
            Seek::Random(key) => self.seek_runs(key),
        }
    }

    /// Seek every candidate child in a shrinking window, then land on the
    /// first entry at least the target, rolling into the next child's first
    /// entry on an end-of-child miss.
    fn seek_runs(&mut self, key: &[u8]) -> (r: Result<()>)
        requires
            old(self).inv(),
            old(self).spec_iters().len() > 0,
        ensures
            final(self).inv(),
            final(self).same_children(old(self)),
            r is Ok && children_orderly(old(self).spec_iters()) ==> {
                &&& (final(self).spec_valid() ==> lex_le(key@, final(self).spec_current().0))
                &&& (final(self).spec_valid() ==> (forall|c: int, p: int|
                    0 <= c < final(self).spec_iters().len() && 0 <= p < final(
                        self
                    ).spec_iters()[c].spec_entries().len() && (c < final(self).spec_offset() || (c
                        == final(self).spec_offset() && p < final(self).spec_iters()[final(
                        self
                    ).spec_offset()].spec_pos())) ==> lex_lt(
                        (#[trigger] final(self).spec_iters()[c].spec_entries()[p]).0,
                        key@,
                    )))
                &&& (!final(self).spec_valid() ==> (forall|c: int, p: int|
                    0 <= c < final(self).spec_iters().len() && 0 <= p < final(
                        self
                    ).spec_iters()[c].spec_entries().len() ==> lex_lt(
                        (#[trigger] final(self).spec_iters()[c].spec_entries()[p]).0,
                        key@,
                    )))
            },
    {
        let n = self.iters.len();
        let ghost iters0 = self.iters@;
        self.invalid();
        // Scan the children in order; the runs are few and ordered, so the
        // first child whose seek lands on a valid entry is the answer.
        let mut c: usize = 0;
        while c < n
            invariant
                self.inv(),
                n == self.iters@.len(),
                self.offset as int == n,
                c <= n,
                self.same_children(&old(self)),
                children_orderly(old(self).spec_iters()) ==> (forall|c2: int, p: int|
                    0 <= c2 < c && 0 <= p < self.iters@[c2].spec_entries().len() ==> lex_lt(
                        (#[trigger] self.iters@[c2].spec_entries()[p]).0,
                        key@,
                    )),
            decreases n - c,
        {
            let ghost head = self.iters@;
            let mut it = self.iters.remove(c);
            let res = it.seek(Seek::Random(key));
            let ghost it_after = it;
            let valid = it.is_valid();
            self.iters.insert(c, it);
            proof {
                assert(self.iters@ =~= head.update(c as int, it_after));
                assert forall|c2: int|
                    0 <= c2 < self.iters@.len() implies (#[trigger] self.iters@[c2]).inv() by {
                    if c2 != c as int {
                        assert(self.iters@[c2] == head[c2]);
                    }
                }
                assert(self.same_children(&old(self))) by {
                    assert forall|c2: int|
                        0 <= c2 < self.iters@.len() implies (
                    #[trigger] self.iters@[c2]).spec_entries() == old(
                        self,
                    ).spec_iters()[c2].spec_entries() by {
                        if c2 != c as int {
                            assert(self.iters@[c2] == head[c2]);
                        }
                    }
                }
            }
            match res {
                Ok(_) => {},
                Err(e) => {
                    self.invalid();
                    return Err(e);
                },
            }
            if valid {
                self.offset = c;
                proof {
                    if children_orderly(old(self).spec_iters()) {
                        let it2 = self.iters@[c as int];
                        assert(entries_sorted(it2.spec_entries()));
                        assert(is_lower_bound(it2.spec_entries(), key@, it2.spec_pos()));
                        assert forall|c2: int, p: int|
                            0 <= c2 < self.iters@.len() && 0 <= p < self.iters@[c2].spec_entries().len()
                                && (c2 < c as int || (c2 == c as int && p < it2.spec_pos()))
                                implies lex_lt(
                            (#[trigger] self.iters@[c2].spec_entries()[p]).0,
                            key@,
                        ) by {}
                    }
                }
                return Ok(());
            }
            proof {
                if children_orderly(old(self).spec_iters()) {
                    let it2 = self.iters@[c as int];
                    assert(entries_sorted(it2.spec_entries()));
                    assert(is_lower_bound(it2.spec_entries(), key@, it2.spec_pos()));
                    assert forall|p: int|
                        0 <= p < it2.spec_entries().len() implies lex_lt(
                        (#[trigger] it2.spec_entries()[p]).0,
                        key@,
                    ) by {
                        assert(it2.spec_pos() >= it2.spec_entries().len());
                    }
                }
            }
            c += 1;
        }
        self.invalid();
        Ok(())
    }
}

} // verus!
