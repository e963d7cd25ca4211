//! Laws that relate several operations on a run list, stated over the
//! relations that the operations' own contracts establish.

use crate::model::{
    canonical, covers, holds, is_deletion, is_insertion, lemma_canonical_unique, spans,
};
use vstd::prelude::*;

verus! {

/// Inserting the same range twice gives the same run list as inserting it once.
pub proof fn lemma_insert_idempotent(
    s0: Seq<(u32, u32)>,
    lo: int,
    hi: int,
    s1: Seq<(u32, u32)>,
    s2: Seq<(u32, u32)>,
)
    requires
        canonical(s0),
        is_insertion(s0, lo, hi, s1),
        is_insertion(s1, lo, hi, s2),
    ensures
        s2 == s1,
{
    lemma_canonical_unique(s2, s1);
}

/// After a non-empty range is inserted, a single run spans it.
pub proof fn lemma_insert_then_contains(
    s0: Seq<(u32, u32)>,
    lo: int,
    hi: int,
    s1: Seq<(u32, u32)>,
)
    requires
        canonical(s0),
        is_insertion(s0, lo, hi, s1),
        lo < hi,
    ensures
        spans(s1, lo, hi),
{
    assert(covers(s1, lo));
    let k = choose|k: int| 0 <= k < s1.len() && #[trigger] holds(s1[k], lo);
    if s1[k].1 < hi {
        let y = s1[k].1 as int;
        assert(covers(s1, y));
        let m = choose|m: int| 0 <= m < s1.len() && #[trigger] holds(s1[m], y);
        if m < k {
            assert(s1[m].1 < s1[k].0);
        } else if m > k {
            assert(s1[k].1 < s1[m].0);
        }
    }
    assert(s1[k].0 <= lo && s1[k].1 >= hi);
}

/// After a range is deleted, no single run spans any non-empty query inside it.
pub proof fn lemma_delete_then_not_contains(
    s0: Seq<(u32, u32)>,
    lo: int,
    hi: int,
    s1: Seq<(u32, u32)>,
    qlo: int,
    qhi: int,
)
    requires
        canonical(s0),
        is_deletion(s0, lo, hi, s1),
        lo <= qlo,
        qlo < qhi,
        qhi <= hi,
    ensures
        !spans(s1, qlo, qhi),
{
    if spans(s1, qlo, qhi) {
        let k = choose|k: int| 0 <= k < s1.len() && (#[trigger] s1[k]).0 <= qlo && s1[k].1 >= qhi;
        assert(holds(s1[k], qlo));
        assert(covers(s1, qlo));
    }
}

/// Starting from the empty set, inserting a range and then deleting it gives the
/// empty set back.
pub proof fn lemma_insert_delete_round_trip(
    lo: int,
    hi: int,
    s1: Seq<(u32, u32)>,
    s2: Seq<(u32, u32)>,
)
    requires
        is_insertion(Seq::empty(), lo, hi, s1),
        is_deletion(s1, lo, hi, s2),
    ensures
        s2 == Seq::<(u32, u32)>::empty(),
{
    let e = Seq::<(u32, u32)>::empty();
    assert(canonical(e));
    assert forall|x: int|
        #![trigger covers(s2, x)]
        #![trigger covers(e, x)]
        covers(s2, x) <==> covers(e, x) by {
        assert(covers(s1, x) <==> (covers(e, x) || (lo <= x && x < hi)));
    }
    lemma_canonical_unique(s2, e);
}

} // verus!
