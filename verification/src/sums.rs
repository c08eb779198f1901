//! Sums of value sequences, the prefix sums over the sorted admissible
//! values, and the bound: any collection of pairwise-distinct admissible
//! values sums to something between the smallest and the largest prefix
//! sums of its cardinality.

use vstd::prelude::*;

use crate::model::{cell_in_bounds, sorted_strict};
use crate::vec2::Point;

verus! {

/// The sum of a sequence of values.
pub open spec fn seq_sum(s: Seq<i32>) -> int
    decreases s.len(),
{
    if s.len() == 0 {
        0
    } else {
        s[0] + seq_sum(s.drop_first())
    }
}

/// The sum of the `k` smallest admissible values.
pub open spec fn lo_sum(ns: Seq<i32>, k: int) -> int
    decreases k,
{
    if k <= 0 {
        0
    } else {
        lo_sum(ns, k - 1) + ns[k - 1]
    }
}

/// The sum of the `k` largest admissible values.
pub open spec fn hi_sum(ns: Seq<i32>, k: int) -> int
    decreases k,
{
    if k <= 0 {
        0
    } else {
        hi_sum(ns, k - 1) + ns[ns.len() - k]
    }
}

/// Removing one element removes exactly its contribution from the sum.
pub proof fn lemma_seq_sum_remove(s: Seq<i32>, i: int)
    requires
        0 <= i < s.len(),
    ensures
        seq_sum(s.remove(i)) == seq_sum(s) - s[i],
    decreases s.len(),
{
    if i == 0 {
        assert(s.remove(0) =~= s.drop_first());
    } else {
        lemma_seq_sum_remove(s.drop_first(), i - 1);
        assert(s.remove(i).drop_first() =~= s.drop_first().remove(i - 1));
        assert(s.remove(i)[0] == s[0]);
        assert(s.drop_first()[i - 1] == s[i]);
    }
}

/// A sum of positive values is at least the count.
pub proof fn lemma_seq_sum_positive(s: Seq<i32>)
    requires
        forall|i: int| 0 <= i < s.len() ==> (#[trigger] s[i]) >= 1,
    ensures
        seq_sum(s) >= s.len(),
    decreases s.len(),
{
    if s.len() > 0 {
        assert(s[0] >= 1);
        assert forall|i: int|
            0 <= i < s.drop_first().len() implies (#[trigger] s.drop_first()[i]) >= 1 by {
            assert(s[i + 1] >= 1);
        }
        lemma_seq_sum_positive(s.drop_first());
    }
}

/// The smallest-values prefix sum can be peeled off at the front.
pub proof fn lemma_lo_sum_drop_first(ns: Seq<i32>, k: int)
    requires
        1 <= k <= ns.len(),
    ensures
        lo_sum(ns, k) == ns[0] + lo_sum(ns.drop_first(), k - 1),
    decreases k,
{
    if k == 1 {
        assert(lo_sum(ns, 1) == lo_sum(ns, 0) + ns[0]);
        assert(lo_sum(ns.drop_first(), 0) == 0);
    } else {
        lemma_lo_sum_drop_first(ns, k - 1);
        assert(lo_sum(ns, k) == lo_sum(ns, k - 1) + ns[k - 1]);
        assert(lo_sum(ns.drop_first(), k - 1) == lo_sum(ns.drop_first(), k - 2) + ns.drop_first()[k
            - 2]);
        assert(ns.drop_first()[k - 2] == ns[k - 1]);
    }
}

/// The largest-values prefix sum can be peeled off at the back.
pub proof fn lemma_hi_sum_drop_last(ns: Seq<i32>, k: int)
    requires
        1 <= k <= ns.len(),
    ensures
        hi_sum(ns, k) == ns.last() + hi_sum(ns.drop_last(), k - 1),
    decreases k,
{
    if k == 1 {
        assert(hi_sum(ns, 1) == hi_sum(ns, 0) + ns[ns.len() - 1]);
        assert(hi_sum(ns.drop_last(), 0) == 0);
    } else {
        lemma_hi_sum_drop_last(ns, k - 1);
        assert(hi_sum(ns, k) == hi_sum(ns, k - 1) + ns[ns.len() - k]);
        assert(hi_sum(ns.drop_last(), k - 1) == hi_sum(ns.drop_last(), k - 2) + ns.drop_last()[
            ns.drop_last().len() - (k - 1)]);
        assert(ns.drop_last()[ns.drop_last().len() - (k - 1)] == ns[ns.len() - k]);
    }
}

/// The prefix sums stay within the count times the value bound.
pub proof fn lemma_prefix_sum_bounds(ns: Seq<i32>, k: int)
    requires
        0 <= k <= ns.len(),
    ensures
        -(k * 0x8000_0000) <= lo_sum(ns, k) <= k * 0x8000_0000,
        -(k * 0x8000_0000) <= hi_sum(ns, k) <= k * 0x8000_0000,
    decreases k,
{
    if k > 0 {
        lemma_prefix_sum_bounds(ns, k - 1);
    }
}

/// Some position of a nonempty sequence holds its maximum.
pub proof fn lemma_seq_max_index(s: Seq<i32>) -> (im: int)
    requires
        s.len() >= 1,
    ensures
        0 <= im < s.len(),
        forall|j: int| 0 <= j < s.len() ==> s[j] <= s[im],
    decreases s.len(),
{
    if s.len() == 1 {
        0
    } else {
        let r = lemma_seq_max_index(s.drop_first());
        if s[0] >= s.drop_first()[r] {
            assert forall|j: int| 0 <= j < s.len() implies #[trigger] s[j] <= s[0] by {
                if j >= 1 {
                    assert(s.drop_first()[j - 1] <= s.drop_first()[r]);
                }
            }
            0
        } else {
            assert forall|j: int| 0 <= j < s.len() implies #[trigger] s[j] <= s[r + 1] by {
                if j >= 1 {
                    assert(s.drop_first()[j - 1] <= s.drop_first()[r]);
                }
            }
            r + 1
        }
    }
}

/// Some position of a nonempty sequence holds its minimum.
pub proof fn lemma_seq_min_index(s: Seq<i32>) -> (im: int)
    requires
        s.len() >= 1,
    ensures
        0 <= im < s.len(),
        forall|j: int| 0 <= j < s.len() ==> s[j] >= s[im],
    decreases s.len(),
{
    if s.len() == 1 {
        0
    } else {
        let r = lemma_seq_min_index(s.drop_first());
        if s[0] <= s.drop_first()[r] {
            assert forall|j: int| 0 <= j < s.len() implies #[trigger] s[j] >= s[0] by {
                if j >= 1 {
                    assert(s.drop_first()[j - 1] >= s.drop_first()[r]);
                }
            }
            0
        } else {
            assert forall|j: int| 0 <= j < s.len() implies #[trigger] s[j] >= s[r + 1] by {
                if j >= 1 {
                    assert(s.drop_first()[j - 1] >= s.drop_first()[r]);
                }
            }
            r + 1
        }
    }
}

/// Removing a position of a duplicate-free sequence keeps it
/// duplicate-free, keeps membership, and removes the removed value.
pub proof fn lemma_remove_keeps(s: Seq<i32>, i: int)
    requires
        s.no_duplicates(),
        0 <= i < s.len(),
    ensures
        s.remove(i).no_duplicates(),
        forall|v: i32| #[trigger] s.remove(i).contains(v) ==> s.contains(v),
        !s.remove(i).contains(s[i]),
{
    s.remove_ensures(i);
    let r = s.remove(i);
    assert forall|a: int, b: int|
        0 <= a < r.len() && 0 <= b < r.len() && a != b implies r[a] != r[b] by {
        let sa = if a < i {
            a
        } else {
            a + 1
        };
        let sb = if b < i {
            b
        } else {
            b + 1
        };
        assert(r[a] == s[sa] && r[b] == s[sb]);
    }
    assert forall|v: i32| #[trigger] r.contains(v) implies s.contains(v) by {
        let k = choose|k: int| 0 <= k < r.len() && r[k] == v;
        let sk = if k < i {
            k
        } else {
            k + 1
        };
        assert(s[sk] == v);
    }
    if r.contains(s[i]) {
        let k = choose|k: int| 0 <= k < r.len() && r[k] == s[i];
        let sk = if k < i {
            k
        } else {
            k + 1
        };
        assert(s[sk] == s[i] && sk != i);
    }
}

/// Any collection of pairwise-distinct admissible values sums to something
/// between the smallest and the largest prefix sums of its cardinality.
pub proof fn lemma_distinct_sum_bounds(vals: Seq<i32>, ns: Seq<i32>)
    requires
        sorted_strict(ns),
        vals.no_duplicates(),
        forall|i: int| 0 <= i < vals.len() ==> ns.contains(#[trigger] vals[i]),
        vals.len() <= ns.len(),
    ensures
        lo_sum(ns, vals.len() as int) <= seq_sum(vals),
        seq_sum(vals) <= hi_sum(ns, vals.len() as int),
    decreases vals.len(),
{
    if vals.len() == 0 {
    } else {
        let k = vals.len() as int;
        let n = ns.len() as int;
        // Upper bound: peel off the maximum.
        let im = lemma_seq_max_index(vals);
        let vm = vals[im];
        let rest = vals.remove(im);
        lemma_remove_keeps(vals, im);
        lemma_seq_sum_remove(vals, im);
        assert(ns.contains(vm));
        let jm = choose|j: int| 0 <= j < ns.len() && ns[j] == vm;
        assert(vm <= ns.last()) by {
            if jm < n - 1 {
                assert(ns[jm] < ns[n - 1]);
            }
        }
        assert(sorted_strict(ns.drop_last())) by {
            assert forall|a: int, b: int|
                0 <= a < b < ns.drop_last().len() implies ns.drop_last()[a]
                < ns.drop_last()[b] by {
                assert(ns[a] < ns[b]);
            }
        }
        assert forall|i: int|
            0 <= i < rest.len() implies ns.drop_last().contains(#[trigger] rest[i]) by {
            assert(rest.contains(rest[i]));
            assert(ns.contains(rest[i]));
            let j = choose|j: int| 0 <= j < ns.len() && ns[j] == rest[i];
            assert(rest[i] != vm);
            assert(vals.contains(rest[i])) by {
                let q = choose|q: int| 0 <= q < rest.len() && rest[q] == rest[i];
            }
            assert(rest[i] <= vm) by {
                let q = choose|q: int| 0 <= q < vals.len() && vals[q] == rest[i];
                assert(vals[q] <= vals[im]);
            }
            assert(j != n - 1) by {
                if j == n - 1 {
                    assert(ns[j] >= vm) by {
                        if jm < n - 1 {
                            assert(ns[jm] < ns[n - 1]);
                        }
                    }
                }
            }
            assert(ns.drop_last()[j] == rest[i]);
        }
        lemma_distinct_sum_bounds(rest, ns.drop_last());
        lemma_hi_sum_drop_last(ns, k);
        assert(seq_sum(vals) == seq_sum(rest) + vm);
        assert(seq_sum(rest) <= hi_sum(ns.drop_last(), k - 1));
        // Lower bound: peel off the minimum.
        let i0 = lemma_seq_min_index(vals);
        let v0 = vals[i0];
        let rest0 = vals.remove(i0);
        lemma_remove_keeps(vals, i0);
        lemma_seq_sum_remove(vals, i0);
        assert(ns.contains(v0));
        let j0 = choose|j: int| 0 <= j < ns.len() && ns[j] == v0;
        assert(v0 >= ns[0]) by {
            if j0 > 0 {
                assert(ns[0] < ns[j0]);
            }
        }
        assert(sorted_strict(ns.drop_first())) by {
            assert forall|a: int, b: int|
                0 <= a < b < ns.drop_first().len() implies ns.drop_first()[a]
                < ns.drop_first()[b] by {
                assert(ns[a + 1] < ns[b + 1]);
            }
        }
        assert forall|i: int|
            0 <= i < rest0.len() implies ns.drop_first().contains(#[trigger] rest0[i]) by {
            assert(rest0.contains(rest0[i]));
            assert(ns.contains(rest0[i]));
            let j = choose|j: int| 0 <= j < ns.len() && ns[j] == rest0[i];
            assert(rest0[i] != v0);
            assert(rest0[i] >= v0) by {
                let q = choose|q: int| 0 <= q < vals.len() && vals[q] == rest0[i];
                assert(vals[q] >= vals[i0]);
            }
            assert(j != 0) by {
                if j == 0 {
                    assert(ns[j] <= v0) by {
                        if j0 > 0 {
                            assert(ns[0] < ns[j0]);
                        }
                    }
                }
            }
            assert(ns.drop_first()[j - 1] == rest0[i]);
        }
        lemma_distinct_sum_bounds(rest0, ns.drop_first());
        lemma_lo_sum_drop_first(ns, k);
        assert(seq_sum(vals) == seq_sum(rest0) + v0);
        assert(seq_sum(rest0) >= lo_sum(ns.drop_first(), k - 1));
    }
}

/// A duplicate-free list of on-grid cells has no more entries than the
/// grid has cells.
pub proof fn lemma_points_count(cells: Seq<Point>, size: Point)
    requires
        cells.no_duplicates(),
        forall|i: int| 0 <= i < cells.len() ==> cell_in_bounds(size, #[trigger] cells[i]),
        0 <= size.x,
        0 <= size.y,
    ensures
        cells.len() <= size.x as int * size.y as int,
{
    let w = size.x as int;
    let h = size.y as int;
    let idx = Seq::new(cells.len(), |i: int| cells[i].y as int * w + cells[i].x as int);
    assert forall|i: int, j: int|
        0 <= i < idx.len() && 0 <= j < idx.len() && i != j implies idx[i] != idx[j] by {
        let p = cells[i];
        let q = cells[j];
        assert(p != q);
        if idx[i] == idx[j] {
            let px = p.x as int;
            let py = p.y as int;
            let qx = q.x as int;
            let qy = q.y as int;
            assert(py * w + px == qy * w + qx);
            assert(py == qy && px == qx) by (nonlinear_arith)
                requires
                    py * w + px == qy * w + qx,
                    0 <= px,
                    px < w,
                    0 <= qx,
                    qx < w,
            ;
        }
    }
    assert forall|i: int|
        0 <= i < idx.len() implies vstd::set_lib::set_int_range(0, w * h).contains(
        #[trigger] idx[i],
    ) by {
        let p = cells[i];
        let px = p.x as int;
        let py = p.y as int;
        assert(0 <= py * w + px && py * w + px < w * h) by (nonlinear_arith)
            requires
                0 <= px,
                px < w,
                0 <= py,
                py < h,
        ;
    }
    vstd::set_lib::lemma_int_range(0, w * h);
    crate::seq_facts::lemma_distinct_within(idx, vstd::set_lib::set_int_range(0, w * h));
}

} // verus!
