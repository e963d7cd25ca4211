//! `CompactSet`: a subset of `u32` stored as sorted, disjoint, non-touching runs.

use crate::model::{
    canonical, covers, holds, is_deletion, is_insertion, lemma_covers_push, lemma_merge, spans,
};
use std::ops::Range;
use vstd::prelude::*;

verus! {

/// A compact representation of a subset of `u32`.
///
/// The set is held as half-open runs `(start, end)`, sorted by start. The
/// list is kept canonical: no run is empty, and runs neither overlap nor
/// touch, so `[0, 4)` and `[4, 8)` are always stored as the one run `[0, 8)`.
pub struct CompactSet {
    ranges: Vec<(u32, u32)>,
}

/// Which part of the canonical form `validate` found broken.
#[derive(Debug, Clone, Copy, PartialEq, Eq, Structural)]
pub enum InvariantViolation {
    /// The run at this position is empty.
    EmptyRange(usize),
    /// The run at this position does not end strictly before the next one starts.
    Overlapping(usize),
}

impl View for CompactSet {
    type V = Seq<(u32, u32)>;

    closed spec fn view(&self) -> Seq<(u32, u32)> {
        self.ranges@
    }
}

impl CompactSet {
    /// The empty set.
    pub fn new() -> (r: CompactSet)
        ensures
            r@ == Seq::<(u32, u32)>::empty(),
            canonical(r@),
    {
        CompactSet { ranges: Vec::new() }
    }

    /// The runs of the set, in order.
    pub fn entries(&self) -> (r: Vec<(u32, u32)>)
        ensures
            r@ == self@,
    {
        let mut r: Vec<(u32, u32)> = Vec::new();
        let mut i: usize = 0;
        while i < self.ranges.len()
            invariant
                i <= self@.len(),
                r@ == self@.subrange(0, i as int),
            decreases self@.len() - i,
        {
            r.push(self.ranges[i]);
            i += 1;
        }
        assert(self@.subrange(0, self@.len() as int) =~= self@);
        r
    }

    /// Whether one single stored run spans the whole of `query`.
    ///
    /// This is containment of the query run, not of its points: a query that
    /// straddles the gap between two runs is not contained.
    pub fn contains(&self, query: Range<u32>) -> (r: bool)
        ensures
            r == spans(self@, query.start as int, query.end as int),
    {
        let n = self.ranges.len();
        let mut i: usize = 0;
        while i < n
            invariant
                n == self@.len(),
                i <= n,
                forall|j: int|
                    0 <= j < i ==> !((#[trigger] self@[j]).0 <= query.start && self@[j].1
                        >= query.end),
            decreases n - i,
        {
            let e = self.ranges[i];
            if e.0 <= query.start && e.1 >= query.end {
                return true;
            }
            i += 1;
        }
        false
    }

    /// Adds every integer of `range` to the set, merging it with each run that it
    /// touches or overlaps. An empty range, or one that a single run already
    /// spans, leaves the set as it is.
    pub fn insert(&mut self, range: Range<u32>)
        requires
            canonical(old(self)@),
        ensures
            is_insertion(old(self)@, range.start as int, range.end as int, final(self)@),
            range.start >= range.end ==> final(self)@ == old(self)@,
            spans(old(self)@, range.start as int, range.end as int) ==> final(self)@ == old(self)@,
    {
        let ghost s = self@;
        let a = range.start;
        let b = range.end;
        if a >= b {
            return;
        }
        if self.contains(Range { start: a, end: b }) {
            proof {
                let i = choose|i: int| 0 <= i < s.len() && (#[trigger] s[i]).0 <= a && s[i].1 >= b;
                assert forall|x: int| a <= x < b implies #[trigger] covers(s, x) by {
                    assert(holds(s[i], x));
                }
            }
            return;
        }
        let n = self.ranges.len();
        let mut p: usize = 0;
        while p < n && self.ranges[p].1 < a
            invariant
                self@ == s,
                n == s.len(),
                p <= n,
                forall|j: int| 0 <= j < p ==> (#[trigger] s[j]).1 < a,
            decreases n - p,
        {
            p += 1;
        }
        let mut q: usize = p;
        while q < n && self.ranges[q].0 <= b
            invariant
                self@ == s,
                n == s.len(),
                p <= q <= n,
                forall|j: int| p <= j < q ==> (#[trigger] s[j]).0 <= b,
            decreases n - q,
        {
            q += 1;
        }
        let lo = if p < q && self.ranges[p].0 < a {
            self.ranges[p].0
        } else {
            a
        };
        let hi = if p < q && self.ranges[q - 1].1 > b {
            self.ranges[q - 1].1
        } else {
            b
        };
        let mut merged: Vec<(u32, u32)> = Vec::new();
        let mut i: usize = 0;
        while i < p
            invariant
                self@ == s,
                p <= s.len(),
                i <= p,
                merged@ == s.subrange(0, i as int),
            decreases p - i,
        {
            merged.push(self.ranges[i]);
            i += 1;
        }
        merged.push((lo, hi));
        let mut j: usize = q;
        while j < n
            invariant
                self@ == s,
                n == s.len(),
                q <= j <= n,
                merged@ == s.subrange(0, p as int).push((lo, hi)) + s.subrange(q as int, j as int),
            decreases n - j,
        {
            merged.push(self.ranges[j]);
            j += 1;
            assert(merged@ =~= s.subrange(0, p as int).push((lo, hi)) + s.subrange(q as int, j as int));
        }
        proof {
            lemma_merge(s, a, b, p as int, q as int, (lo, hi));
        }
        self.ranges = merged;
    }

    /// Removes every integer of `range` from the set: a run that straddles an
    /// end of `range` is cut short, or split in two when `range` lies strictly
    /// inside it, and a run wholly inside `range` is dropped. An empty range
    /// leaves the set as it is.
    pub fn delete(&mut self, range: Range<u32>)
        requires
            canonical(old(self)@),
        ensures
            is_deletion(old(self)@, range.start as int, range.end as int, final(self)@),
            range.start >= range.end ==> final(self)@ == old(self)@,
    {
        let ghost s = self@;
        let a = range.start;
        let b = range.end;
        if a >= b {
            return;
        }
        let n = self.ranges.len();
        let mut kept: Vec<(u32, u32)> = Vec::new();
        let mut i: usize = 0;
        while i < n
            invariant
                self@ == s,
                canonical(s),
                a < b,
                n == s.len(),
                i <= n,
                canonical(kept@),
                kept@.len() > 0 ==> i > 0 && kept@.last().1 <= s[i - 1].1,
                forall|x: int|
                    #[trigger] covers(kept@, x) <==> (covers(s.subrange(0, i as int), x) && !(a
                        <= x && x < b)),
            decreases n - i,
        {
            let e = self.ranges[i];
            let ghost before = kept@;
            proof {
                lemma_covers_push(s.subrange(0, i as int), e);
                assert(s.subrange(0, i as int).push(e) =~= s.subrange(0, i + 1));
                if kept@.len() > 0 {
                    assert(s[i - 1].1 < s[i as int].0);
                }
            }
            if e.0 < a {
                let cut = if e.1 < a {
                    e.1
                } else {
                    a
                };
                proof {
                    lemma_covers_push(kept@, (e.0, cut));
                }
                kept.push((e.0, cut));
            }
            if e.1 > b {
                let from = if e.0 > b {
                    e.0
                } else {
                    b
                };
                proof {
                    lemma_covers_push(kept@, (from, e.1));
                }
                kept.push((from, e.1));
            }
            assert forall|x: int|
                #[trigger] covers(kept@, x) <==> (covers(before, x) || (holds(e, x) && !(a <= x
                    && x < b))) by {}
            i += 1;
        }
        assert(s.subrange(0, n as int) =~= s);
        self.ranges = kept;
    }

    /// Checks that the runs are in canonical form: first that no run is empty,
    /// then that each run ends strictly before the next one starts.
    pub fn validate(&self) -> (r: Result<(), InvariantViolation>)
        ensures
            r is Ok <==> canonical(self@),
            match r {
                Ok(()) => true,
                Err(InvariantViolation::EmptyRange(i)) => {
                    &&& i < self@.len()
                    &&& self@[i as int].0 >= self@[i as int].1
                    &&& forall|j: int| 0 <= j < i ==> (#[trigger] self@[j]).0 < self@[j].1
                },
                Err(InvariantViolation::Overlapping(i)) => {
                    &&& i + 1 < self@.len()
                    &&& self@[i as int].1 >= self@[i + 1].0
                    &&& forall|j: int| 0 <= j < self@.len() ==> (#[trigger] self@[j]).0 < self@[j].1
                    &&& forall|j: int| 0 <= j < i ==> (#[trigger] self@[j]).1 < self@[j + 1].0
                },
            },
    {
        let n = self.ranges.len();
        let mut i: usize = 0;
        while i < n
            invariant
                n == self@.len(),
                i <= n,
                forall|j: int| 0 <= j < i ==> (#[trigger] self@[j]).0 < self@[j].1,
            decreases n - i,
        {
            if self.ranges[i].0 >= self.ranges[i].1 {
                return Err(InvariantViolation::EmptyRange(i));
            }
            i += 1;
        }
        let mut k: usize = 1;
        while k < n
            invariant
                n == self@.len(),
                1 <= k,
                k <= n || n == 0,
                forall|j: int| 0 <= j < n ==> (#[trigger] self@[j]).0 < self@[j].1,
                forall|a: int, b: int|
                    0 <= a < b < k && b < n ==> (#[trigger] self@[a]).1 < (#[trigger] self@[b]).0,
            decreases n - k,
        {
            if self.ranges[k - 1].1 >= self.ranges[k].0 {
                assert forall|j: int| 0 <= j < k - 1 implies (#[trigger] self@[j]).1 < self@[j
                    + 1].0 by {
                    assert(self@[j].1 < self@[j + 1].0);
                }
                return Err(InvariantViolation::Overlapping(k - 1));
            }
            assert forall|a: int, b: int| 0 <= a < b < k + 1 && b < n implies (
            #[trigger] self@[a]).1 < (#[trigger] self@[b]).0 by {
                if b == k && a < k - 1 {
                    assert(self@[a].1 < self@[k - 1].0);
                }
            }
            k += 1;
        }
        Ok(())
    }
}

} // verus!
