//! The mathematical model of a run list: which integers it covers, when it is
//! canonical, and what insertion and deletion of a run must produce.

use vstd::prelude::*;

verus! {

/// The half-open run `[e.0, e.1)` holds the integer `x`.
pub open spec fn holds(e: (u32, u32), x: int) -> bool {
    e.0 <= x && x < e.1
}

/// Some run of `s` holds `x`.
pub open spec fn covers(s: Seq<(u32, u32)>, x: int) -> bool {
    exists|i: int| 0 <= i < s.len() && #[trigger] holds(s[i], x)
}

/// Every run is non-empty, and each run ends strictly before the start of every
/// later run: runs never overlap and never touch.
pub open spec fn canonical(s: Seq<(u32, u32)>) -> bool {
    &&& forall|i: int| 0 <= i < s.len() ==> (#[trigger] s[i]).0 < s[i].1
    &&& forall|i: int, j: int|
        0 <= i < j < s.len() ==> (#[trigger] s[i]).1 < (#[trigger] s[j]).0
}

/// A single run of `s` spans the whole query `[lo, hi)`.
pub open spec fn spans(s: Seq<(u32, u32)>, lo: int, hi: int) -> bool {
    exists|i: int| 0 <= i < s.len() && (#[trigger] s[i]).0 <= lo && s[i].1 >= hi
}

/// `t` is the canonical run list whose points are those of `s` together with `[lo, hi)`.
pub open spec fn is_insertion(s: Seq<(u32, u32)>, lo: int, hi: int, t: Seq<(u32, u32)>) -> bool {
    &&& canonical(t)
    &&& forall|x: int|
        #![trigger covers(t, x)]
        #![trigger covers(s, x)]
        covers(t, x) <==> (covers(s, x) || (lo <= x && x < hi))
}

/// `t` is the canonical run list whose points are those of `s` outside `[lo, hi)`.
pub open spec fn is_deletion(s: Seq<(u32, u32)>, lo: int, hi: int, t: Seq<(u32, u32)>) -> bool {
    &&& canonical(t)
    &&& forall|x: int|
        #![trigger covers(t, x)]
        #![trigger covers(s, x)]
        covers(t, x) <==> (covers(s, x) && !(lo <= x && x < hi))
}

/// Dropping the first run of a canonical list leaves a canonical list that
/// covers exactly the points from the end of that first run on.
pub proof fn lemma_drop_first(s: Seq<(u32, u32)>)
    requires
        canonical(s),
        s.len() > 0,
    ensures
        canonical(s.drop_first()),
        forall|x: int| #[trigger] covers(s, x) ==> s[0].0 <= x,
        forall|x: int|
            #[trigger] covers(s.drop_first(), x) <==> (covers(s, x) && s[0].1 <= x),
{
    let r = s.drop_first();
    assert forall|i: int, j: int| 0 <= i < j < r.len() implies (#[trigger] r[i]).1 < (
    #[trigger] r[j]).0 by {
        assert(r[i] == s[i + 1] && r[j] == s[j + 1]);
    }
    assert forall|x: int| #[trigger] covers(s, x) implies s[0].0 <= x by {
        let i = choose|i: int| 0 <= i < s.len() && #[trigger] holds(s[i], x);
        if i > 0 {
            assert(s[0].1 < s[i].0);
        }
    }
    assert forall|x: int| #[trigger] covers(r, x) <==> (covers(s, x) && s[0].1 <= x) by {
        if covers(r, x) {
            let i = choose|i: int| 0 <= i < r.len() && #[trigger] holds(r[i], x);
            assert(r[i] == s[i + 1]);
            assert(s[0].1 < s[i + 1].0);
            assert(holds(s[i + 1], x));
        }
        if covers(s, x) && s[0].1 <= x {
            let i = choose|i: int| 0 <= i < s.len() && #[trigger] holds(s[i], x);
            assert(i > 0);
            assert(r[i - 1] == s[i]);
            assert(holds(r[i - 1], x));
        }
    }
}

/// Canonical form is unique: two canonical run lists that cover the same points
/// are the same list.
pub proof fn lemma_canonical_unique(s: Seq<(u32, u32)>, t: Seq<(u32, u32)>)
    requires
        canonical(s),
        canonical(t),
        forall|x: int|
            #![trigger covers(s, x)]
            #![trigger covers(t, x)]
            covers(s, x) <==> covers(t, x),
    ensures
        s == t,
    decreases s.len(),
{
    if s.len() == 0 || t.len() == 0 {
        if s.len() > 0 {
            assert(holds(s[0], s[0].0 as int));
            assert(covers(s, s[0].0 as int));
        }
        if t.len() > 0 {
            assert(holds(t[0], t[0].0 as int));
            assert(covers(t, t[0].0 as int));
        }
        assert(s =~= t);
    } else {
        lemma_drop_first(s);
        lemma_drop_first(t);
        assert(holds(s[0], s[0].0 as int));
        assert(covers(s, s[0].0 as int));
        assert(holds(t[0], t[0].0 as int));
        assert(covers(t, t[0].0 as int));
        assert(s[0].0 == t[0].0);
        if s[0].1 < t[0].1 {
            assert(holds(t[0], s[0].1 as int));
            assert(covers(t, s[0].1 as int));
            let i = choose|i: int| 0 <= i < s.len() && #[trigger] holds(s[i], s[0].1 as int);
            if i > 0 {
                assert(s[0].1 < s[i].0);
            }
        }
        if t[0].1 < s[0].1 {
            assert(holds(s[0], t[0].1 as int));
            assert(covers(s, t[0].1 as int));
            let i = choose|i: int| 0 <= i < t.len() && #[trigger] holds(t[i], t[0].1 as int);
            if i > 0 {
                assert(t[0].1 < t[i].0);
            }
        }
        assert(s[0] == t[0]);
        lemma_canonical_unique(s.drop_first(), t.drop_first());
        assert(s =~= t) by {
            assert forall|i: int| 0 <= i < s.len() implies s[i] == t[i] by {
                if i > 0 {
                    assert(s[i] == s.drop_first()[i - 1]);
                    assert(t[i] == t.drop_first()[i - 1]);
                }
            }
        }
    }
}

/// Appending run `e` to `s` adds exactly the points that `e` holds.
pub proof fn lemma_covers_push(s: Seq<(u32, u32)>, e: (u32, u32))
    ensures
        forall|x: int| #[trigger] covers(s.push(e), x) <==> (covers(s, x) || holds(e, x)),
{
    let t = s.push(e);
    assert forall|x: int| #[trigger] covers(t, x) <==> (covers(s, x) || holds(e, x)) by {
        if covers(t, x) {
            let i = choose|i: int| 0 <= i < t.len() && #[trigger] holds(t[i], x);
            if i < s.len() {
                assert(t[i] == s[i]);
            }
        }
        if covers(s, x) {
            let i = choose|i: int| 0 <= i < s.len() && #[trigger] holds(s[i], x);
            assert(t[i] == s[i]);
        }
        if holds(e, x) {
            assert(t[s.len() as int] == e);
        }
    }
}

/// Inserting `[a, b)` into a canonical list: keep the runs before position `p`,
/// which end before `a`; replace the runs from `p` up to `q`, which touch or
/// overlap `[a, b)`, by the one run `m` that spans them and `[a, b)`; keep the
/// runs from `q` on, which start after `b`.
pub proof fn lemma_merge(s: Seq<(u32, u32)>, a: u32, b: u32, p: int, q: int, m: (u32, u32))
    requires
        canonical(s),
        a < b,
        0 <= p <= q <= s.len(),
        forall|j: int| 0 <= j < p ==> (#[trigger] s[j]).1 < a,
        p < q ==> a <= s[p].1,
        forall|j: int| p <= j < q ==> (#[trigger] s[j]).0 <= b,
        q < s.len() ==> b < s[q].0,
        m.0 == (if p < q && s[p].0 < a { s[p].0 } else { a }),
        m.1 == (if p < q && s[q - 1].1 > b { s[q - 1].1 } else { b }),
    ensures
        is_insertion(s, a as int, b as int, s.subrange(0, p).push(m) + s.subrange(q, s.len() as int)),
{
    let head = s.subrange(0, p).push(m);
    let tail = s.subrange(q, s.len() as int);
    let t = head + tail;
    assert(t.len() == p + 1 + s.len() - q);
    assert forall|i: int| 0 <= i < p implies #[trigger] t[i] == s[i] by {
        assert(t[i] == head[i]);
    }
    assert(t[p] == m) by {
        assert(t[p] == head[p]);
    }
    assert forall|i: int| p < i < t.len() implies #[trigger] t[i] == s[i - p - 1 + q] by {
        assert(t[i] == tail[i - p - 1]);
    }
    assert forall|i: int| 0 <= i < t.len() implies (#[trigger] t[i]).0 < t[i].1 by {
        if i < p {
            assert(t[i] == s[i]);
        } else if i > p {
            assert(t[i] == s[i - p - 1 + q]);
        }
    }
    assert forall|i: int, j: int| 0 <= i < j < t.len() implies (#[trigger] t[i]).1 < (
    #[trigger] t[j]).0 by {
        if j < p {
            assert(t[i] == s[i] && t[j] == s[j]);
        } else if j == p {
            assert(t[i] == s[i]);
            if p < q && s[p].0 < a {
                assert(s[i].1 < s[p].0);
            }
        } else {
            let k = j - p - 1 + q;
            assert(t[j] == s[k]);
            assert(s[q].0 <= s[k].0) by {
                if k > q {
                    assert(s[q].1 < s[k].0);
                }
            }
            if i < p {
                assert(t[i] == s[i]);
                assert(s[i].1 < s[k].0);
            } else if i == p {
                if p < q && s[q - 1].1 > b {
                    assert(s[q - 1].1 < s[k].0);
                }
            } else {
                assert(t[i] == s[i - p - 1 + q]);
                assert(s[i - p - 1 + q].1 < s[k].0);
            }
        }
    }
    assert forall|x: int| #[trigger] covers(t, x) <==> (covers(s, x) || (a <= x && x < b)) by {
        if covers(s, x) {
            let j = choose|j: int| 0 <= j < s.len() && #[trigger] holds(s[j], x);
            if j < p {
                assert(holds(t[j], x));
            } else if j >= q {
                assert(t[j - q + p + 1] == s[j]);
                assert(holds(t[j - q + p + 1], x));
            } else {
                assert(s[p].0 <= s[j].0) by {
                    if j > p {
                        assert(s[p].1 < s[j].0);
                    }
                }
                assert(s[j].1 <= s[q - 1].1) by {
                    if j < q - 1 {
                        assert(s[j].1 < s[q - 1].0);
                    }
                }
                assert(holds(t[p], x));
            }
        }
        if a <= x && x < b {
            assert(holds(t[p], x));
        }
        if covers(t, x) {
            let i = choose|i: int| 0 <= i < t.len() && #[trigger] holds(t[i], x);
            if i < p {
                assert(holds(s[i], x));
            } else if i > p {
                assert(holds(s[i - p - 1 + q], x));
            } else if x < a {
                assert(holds(s[p], x));
            } else if x >= b {
                assert(holds(s[q - 1], x));
            }
        }
    }
}

} // verus!
