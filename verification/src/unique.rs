//! The uniqueness propagator: strips values already placed in a region
//! from its open cells, and applies the two dual cardinality inferences —
//! naked subsets (cells sharing a candidate set as large as the group
//! exclude those values elsewhere) and hidden subsets (values sharing a
//! spot set as large as the group restrict those spots to the group).

use vstd::prelude::*;

use crate::constraint::{sat_unique, val_at};
use crate::model::{cell_in_bounds, cells_in_bounds, model_wf, SudokuModel};
use crate::propagate::{limit_with_mask, pt_in_grid, vals_at};
use crate::region::Region;
use crate::seq_facts::{lemma_distinct_exhausts, lemma_distinct_within, lemma_push_contains,
    lemma_push_unique};
use crate::state::{assignment_of, cell_consistent, cell_narrows, cell_wf, CellModel, consistent, gcell,
    grid_live, grid_measure, grid_solved, grid_wf, lemma_narrows_refl,
    lemma_narrows_trans, narrows, PropagationResult, SolverState};
use crate::vec2::Point;

verus! {

/// Whether a vector of values holds `x`.
fn contains_value(v: &Vec<i32>, x: i32) -> (r: bool)
    ensures
        r == v@.contains(x),
{
    let mut i: usize = 0;
    while i < v.len()
        invariant
            0 <= i <= v@.len(),
            forall|j: int| 0 <= j < i ==> v@[j] != x,
        decreases v@.len() - i,
    {
        if v[i] == x {
            return true;
        }
        i = i + 1;
    }
    false
}

/// Whether a vector of indices holds `x`.
fn contains_index(v: &Vec<usize>, x: usize) -> (r: bool)
    ensures
        r == v@.contains(x),
{
    let mut i: usize = 0;
    while i < v.len()
        invariant
            0 <= i <= v@.len(),
            forall|j: int| 0 <= j < i ==> v@[j] != x,
        decreases v@.len() - i,
    {
        if v[i] == x {
            return true;
        }
        i = i + 1;
    }
    false
}

/// Whether two value vectors are equal.
fn vec_values_eq(a: &Vec<i32>, b: &Vec<i32>) -> (r: bool)
    ensures
        r == (a@ == b@),
{
    if a.len() != b.len() {
        return false;
    }
    let mut i: usize = 0;
    while i < a.len()
        invariant
            a@.len() == b@.len(),
            0 <= i <= a@.len(),
            forall|j: int| 0 <= j < i ==> a@[j] == b@[j],
        decreases a@.len() - i,
    {
        if a[i] != b[i] {
            return false;
        }
        i = i + 1;
    }
    proof {
        assert(a@ =~= b@);
    }
    true
}

/// Whether two index vectors are equal.
fn vec_indices_eq(a: &Vec<usize>, b: &Vec<usize>) -> (r: bool)
    ensures
        r == (a@ == b@),
{
    if a.len() != b.len() {
        return false;
    }
    let mut i: usize = 0;
    while i < a.len()
        invariant
            a@.len() == b@.len(),
            0 <= i <= a@.len(),
            forall|j: int| 0 <= j < i ==> a@[j] == b@[j],
        decreases a@.len() - i,
    {
        if a[i] != b[i] {
            return false;
        }
        i = i + 1;
    }
    proof {
        assert(a@ =~= b@);
    }
    true
}

/// The values a satisfying assignment puts on pairwise distinct cells of a
/// region are pairwise distinct.
proof fn lemma_region_vals_nodup(cells: Seq<Point>, pts: Seq<Point>, a: Seq<Seq<i32>>)
    requires
        sat_unique(a, cells),
        cells.no_duplicates(),
        pts.no_duplicates(),
        forall|t: int| 0 <= t < pts.len() ==> cells.contains(#[trigger] pts[t]),
    ensures
        vals_at(a, pts).no_duplicates(),
{
    let vals = vals_at(a, pts);
    assert forall|i: int, j: int|
        0 <= i < vals.len() && 0 <= j < vals.len() && i != j implies vals[i] != vals[j] by {
        assert(pts[i] != pts[j]);
        assert(cells.contains(pts[i]) && cells.contains(pts[j]));
        let ci = choose|ci: int| 0 <= ci < cells.len() && cells[ci] == pts[i];
        let cj = choose|cj: int| 0 <= cj < cells.len() && cells[cj] == pts[j];
        assert(ci != cj);
        assert(val_at(a, cells[ci]) != val_at(a, cells[cj]));
    }
}

/// The naked-subset exclusion: when a group of open cells shares one
/// candidate set as large as the group, any satisfying assignment uses
/// those values up inside the group, so a cell outside it cannot take one.
proof fn lemma_naked_excludes(
    g: Seq<Seq<CellModel>>,
    cells: Seq<Point>,
    gpts: Seq<Point>,
    candset: Seq<i32>,
    a: Seq<Seq<i32>>,
    p: Point,
)
    requires
        consistent(g, a),
        sat_unique(a, cells),
        cells.no_duplicates(),
        forall|i: int| 0 <= i < cells.len() ==> pt_in_grid(g, #[trigger] cells[i]),
        gpts.no_duplicates(),
        forall|t: int| 0 <= t < gpts.len() ==> cells.contains(#[trigger] gpts[t]),
        forall|t: int|
            0 <= t < gpts.len() ==> (gcell(g, #[trigger] gpts[t]).value is None && gcell(
                g,
                gpts[t],
            ).candidates == candset),
        candset.no_duplicates(),
        gpts.len() == candset.len(),
        cells.contains(p),
        forall|t: int| 0 <= t < gpts.len() ==> #[trigger] gpts[t] != p,
    ensures
        !candset.contains(val_at(a, p)),
{
    let vals = vals_at(a, gpts);
    lemma_region_vals_nodup(cells, gpts, a);
    assert forall|t: int|
        0 <= t < vals.len() implies candset.to_set().contains(#[trigger] vals[t]) by {
        let q = gpts[t];
        assert(cells.contains(q));
        let cq = choose|cq: int| 0 <= cq < cells.len() && cells[cq] == q;
        assert(pt_in_grid(g, q));
        assert(cell_consistent(gcell(g, q), a[q.y as int][q.x as int]));
        assert(gcell(g, q).candidates.contains(val_at(a, q)));
    }
    candset.unique_seq_to_set();
    vstd::seq_lib::seq_to_set_is_finite::<i32>(candset);
    lemma_distinct_exhausts(vals, candset.to_set());
    if candset.contains(val_at(a, p)) {
        assert(candset.to_set().contains(val_at(a, p)));
        let t = choose|t: int| 0 <= t < vals.len() && vals[t] == val_at(a, p);
        let q = gpts[t];
        assert(val_at(a, q) == val_at(a, p));
        assert(q != p);
        assert(cells.contains(q) && cells.contains(p));
        let cq = choose|cq: int| 0 <= cq < cells.len() && cells[cq] == q;
        let cp = choose|cp: int| 0 <= cp < cells.len() && cells[cp] == p;
        assert(cq != cp);
        assert(val_at(a, cells[cq]) != val_at(a, cells[cp]));
    }
}

/// The hidden-subset restriction: with as many candidate values as open
/// cells, every value is used; when a set of values can only sit on one
/// set of spots of the same size, those spots carry exactly those values.
proof fn lemma_hidden_restricts(
    g: Seq<Seq<CellModel>>,
    cells: Seq<Point>,
    a: Seq<Seq<i32>>,
    fpts: Seq<Point>,
    uni: Seq<i32>,
    tpts: Seq<Point>,
    wvals: Seq<i32>,
    j: int,
)
    requires
        consistent(g, a),
        sat_unique(a, cells),
        cells.no_duplicates(),
        forall|i: int| 0 <= i < cells.len() ==> pt_in_grid(g, #[trigger] cells[i]),
        fpts.no_duplicates(),
        forall|t: int|
            0 <= t < fpts.len() ==> (cells.contains(#[trigger] fpts[t]) && gcell(
                g,
                fpts[t],
            ).value is None),
        forall|t: int, ci: int|
            0 <= t < fpts.len() && 0 <= ci < gcell(g, fpts[t]).candidates.len() ==> uni.contains(
                #[trigger] gcell(g, #[trigger] fpts[t]).candidates[ci],
            ),
        uni.no_duplicates(),
        fpts.len() == uni.len(),
        tpts.no_duplicates(),
        wvals.no_duplicates(),
        tpts.len() == wvals.len(),
        forall|k: int| 0 <= k < wvals.len() ==> uni.contains(#[trigger] wvals[k]),
        forall|k: int, t: int|
            0 <= k < wvals.len() && 0 <= t < fpts.len() && gcell(g, #[trigger] fpts[t])
                .candidates.contains(#[trigger] wvals[k]) ==> tpts.contains(fpts[t]),
        0 <= j < tpts.len(),
    ensures
        wvals.contains(val_at(a, tpts[j])),
{
    let vals = vals_at(a, fpts);
    lemma_region_vals_nodup(cells, fpts, a);
    assert forall|t: int| 0 <= t < vals.len() implies uni.to_set().contains(#[trigger] vals[t]) by {
        let q = fpts[t];
        assert(cells.contains(q));
        let cq = choose|cq: int| 0 <= cq < cells.len() && cells[cq] == q;
        assert(pt_in_grid(g, q));
        assert(cell_consistent(gcell(g, q), a[q.y as int][q.x as int]));
        assert(gcell(g, q).candidates.contains(val_at(a, q)));
        let ci = choose|ci: int|
            0 <= ci < gcell(g, q).candidates.len() && gcell(g, q).candidates[ci] == val_at(a, q);
        assert(uni.contains(gcell(g, q).candidates[ci]));
    }
    uni.unique_seq_to_set();
    vstd::seq_lib::seq_to_set_is_finite::<i32>(uni);
    lemma_distinct_exhausts(vals, uni.to_set());
    // Each group value sits at some open cell, and that cell is a group
    // spot.
    let pk = |k: int| fpts[choose|t: int| 0 <= t < fpts.len() && vals_at(a, fpts)[t] == wvals[k]];
    assert forall|k: int|
        0 <= k < wvals.len() implies val_at(a, #[trigger] pk(k)) == wvals[k] && tpts.to_set()
        .contains(pk(k)) by {
        assert(uni.contains(wvals[k]));
        assert(uni.to_set().contains(wvals[k]));
        assert(vals.to_set().contains(wvals[k]));
        assert(vals.contains(wvals[k]));
        let t = choose|t: int| 0 <= t < fpts.len() && vals_at(a, fpts)[t] == wvals[k];
        assert(vals[t] == wvals[k]);
        let q = fpts[t];
        assert(val_at(a, q) == wvals[k]);
        assert(cells.contains(q));
        assert(pt_in_grid(g, q)) by {
            let cq = choose|cq: int| 0 <= cq < cells.len() && cells[cq] == q;
        }
        assert(cell_consistent(gcell(g, q), a[q.y as int][q.x as int]));
        assert(gcell(g, q).candidates.contains(wvals[k]));
        assert(tpts.contains(q));
        assert(tpts.to_set().contains(q));
    }
    let ppts = Seq::new(wvals.len(), pk);
    assert forall|k1: int, k2: int|
        0 <= k1 < ppts.len() && 0 <= k2 < ppts.len() && k1 != k2 implies ppts[k1] != ppts[k2] by {
        assert(val_at(a, pk(k1)) == wvals[k1]);
        assert(val_at(a, pk(k2)) == wvals[k2]);
        assert(wvals[k1] != wvals[k2]);
    }
    assert forall|k: int|
        0 <= k < ppts.len() implies tpts.to_set().contains(#[trigger] ppts[k]) by {
        assert(ppts[k] == pk(k));
    }
    tpts.unique_seq_to_set();
    vstd::seq_lib::seq_to_set_is_finite::<Point>(tpts);
    lemma_distinct_exhausts(ppts, tpts.to_set());
    assert(tpts.to_set().contains(tpts[j])) by {
        assert(tpts.contains(tpts[j]));
    }
    let k = choose|k: int| 0 <= k < ppts.len() && ppts[k] == tpts[j];
    assert(val_at(a, tpts[j]) == wvals[k]);
}

/// The region indexes of the open cells of `g` carrying exactly the
/// candidate list `cand`.
pub open spec fn naked_set(g: Seq<Seq<CellModel>>, cells: Seq<Point>, cand: Seq<i32>) -> Set<int> {
    Set::new(
        |j: int|
            0 <= j < cells.len() && gcell(g, cells[j]).value is None && gcell(
                g,
                cells[j],
            ).candidates == cand,
    )
}

/// The naked-subset eliminations are done in `g` for the first `bound`
/// anchor cells of `g0`: whenever such a cell anchors a full group (as
/// many member cells as candidate values), no open cell of `g` outside
/// that group still admits one of the group's values.
pub open spec fn naked_pruned(
    g0: Seq<Seq<CellModel>>,
    g: Seq<Seq<CellModel>>,
    cells: Seq<Point>,
    bound: int,
) -> bool {
    forall|i: int, k: int, v: i32|
        #![trigger gcell(g0, cells[i]).candidates, gcell(g, cells[k]).candidates.contains(v)]
        0 <= i < bound && 0 <= k < cells.len() && gcell(g0, cells[i]).value is None && naked_set(
            g0,
            cells,
            gcell(g0, cells[i]).candidates,
        ).len() == gcell(g0, cells[i]).candidates.len() && !naked_set(
            g0,
            cells,
            gcell(g0, cells[i]).candidates,
        ).contains(k) && gcell(g, cells[k]).value is None && gcell(
            g,
            cells[k],
        ).candidates.contains(v) ==> !gcell(g0, cells[i]).candidates.contains(v)
}

/// Narrowing a grid preserves the done eliminations: a cell still open
/// admits only fewer values.
proof fn lemma_naked_pruned_narrows(
    g0: Seq<Seq<CellModel>>,
    g2: Seq<Seq<CellModel>>,
    g1: Seq<Seq<CellModel>>,
    cells: Seq<Point>,
    bound: int,
)
    requires
        naked_pruned(g0, g1, cells, bound),
        narrows(g2, g1),
        forall|i: int| 0 <= i < cells.len() ==> pt_in_grid(g1, #[trigger] cells[i]),
    ensures
        naked_pruned(g0, g2, cells, bound),
{
    assert forall|i: int, k: int, v: i32|
        #![trigger gcell(g0, cells[i]).candidates, gcell(g2, cells[k]).candidates.contains(v)]
        0 <= i < bound && 0 <= k < cells.len() && gcell(g0, cells[i]).value is None && naked_set(
            g0,
            cells,
            gcell(g0, cells[i]).candidates,
        ).len() == gcell(g0, cells[i]).candidates.len() && !naked_set(
            g0,
            cells,
            gcell(g0, cells[i]).candidates,
        ).contains(k) && gcell(g2, cells[k]).value is None && gcell(
            g2,
            cells[k],
        ).candidates.contains(v) implies !gcell(g0, cells[i]).candidates.contains(v) by {
        let p = cells[k];
        assert(pt_in_grid(g1, p));
        assert(crate::state::cell_narrows(gcell(g2, p), gcell(g1, p)));
        assert(gcell(g1, p).value is None);
        assert(gcell(g1, p).candidates.contains(v));
    }
}

/// The naked-subset pass: for each open cell, gathers the cells sharing
/// its exact candidate list; when the group is as large as the list, every
/// other open cell drops those values.
fn find_obvious_pairs(model: &SudokuModel, region: &Region, state: &mut SolverState) -> (r:
    PropagationResult)
    requires
        model_wf(*model),
        grid_wf(old(state)@, *model),
        grid_live(old(state)@),
        cells_in_bounds(model.size, region.cells@),
        region.cells@.no_duplicates(),
    ensures
        grid_wf(final(state)@, *model),
        narrows(final(state)@, old(state)@),
        r != PropagationResult::Contradiction ==> grid_live(final(state)@),
        grid_measure(final(state)@) <= grid_measure(old(state)@),
        r == PropagationResult::Changed ==> grid_measure(final(state)@) < grid_measure(
            old(state)@,
        ),
        r == PropagationResult::Unchanged ==> final(state)@ == old(state)@,
        forall|a: Seq<Seq<i32>>|
            consistent(old(state)@, a) && sat_unique(a, region.cells@) ==> r
                != PropagationResult::Contradiction && consistent(final(state)@, a),
        grid_solved(old(state)@) ==> r == PropagationResult::Unchanged,
        crate::state::frame_outside(final(state)@, old(state)@, region.cells@),
        r != PropagationResult::Contradiction ==> naked_pruned(
            old(state)@,
            final(state)@,
            region.cells@,
            region.cells@.len() as int,
        ),
{
    let ghost g0 = old(state)@;
    let ghost cells = region.cells@;
    let len = region.cells.len();
    proof {
        lemma_narrows_refl(g0);
        crate::state::lemma_frame_refl(g0, cells);
    }
    // Groups are read against the state at entry, while the eliminations
    // narrow the live state.
    let snapshot = state.clone();
    proof {
        assert(snapshot@ == g0);
    }
    let mut changed = false;
    let mut ib: usize = 0;
    while ib < len
        invariant
            cells == region.cells@,
            g0 == old(state)@,
            snapshot@ == g0,
            len == cells.len(),
            model_wf(*model),
            cells_in_bounds(model.size, cells),
            cells.no_duplicates(),
            grid_wf(g0, *model),
            grid_wf(state@, *model),
            grid_live(state@),
            narrows(state@, g0),
            grid_measure(state@) <= grid_measure(g0),
            changed ==> grid_measure(state@) < grid_measure(g0),
            !changed ==> state@ == g0,
            grid_solved(g0) ==> state@ == g0,
            crate::state::frame_outside(state@, g0, cells),
            forall|a: Seq<Seq<i32>>|
                consistent(g0, a) && sat_unique(a, cells) ==> consistent(state@, a),
            naked_pruned(g0, state@, cells, ib as int),
            0 <= ib <= len,
        decreases len - ib,
    {
        let pos_b = region.cells[ib];
        proof {
            assert(cell_in_bounds(model.size, cells[ib as int]));
        }
        let is_open = snapshot.get(pos_b).value.is_none();
        if is_open {
            proof {
                if grid_solved(g0) {
                    assert(gcell(g0, pos_b).value is Some);
                    assert(false);
                }
            }
            let cand_b = crate::state::copy_values(&snapshot.get(pos_b).candidates);
            // Gather the group from the entry state: the cells sharing
            // exactly this candidate list.
            let mut group: Vec<usize> = Vec::new();
            let mut j: usize = 0;
            while j < len
                invariant
                    cells == region.cells@,
                    snapshot@ == g0,
                    len == cells.len(),
                    model_wf(*model),
                    cells_in_bounds(model.size, cells),
                    grid_wf(g0, *model),
                    cand_b@ == gcell(g0, cells[ib as int]).candidates,
                    0 <= ib < len,
                    0 <= j <= len,
                    forall|t1: int, t2: int|
                        0 <= t1 < t2 < group@.len() ==> (#[trigger] group@[t1]) < (
                        #[trigger] group@[t2]),
                    forall|t: int|
                        0 <= t < group@.len() ==> (((#[trigger] group@[t]) as int) < j && gcell(
                            g0,
                            cells[group@[t] as int],
                        ).value is None && gcell(g0, cells[group@[t] as int]).candidates
                            == cand_b@),
                    forall|jj: int|
                        0 <= jj < j && gcell(g0, #[trigger] cells[jj]).value is None && gcell(
                            g0,
                            cells[jj],
                        ).candidates == cand_b@ ==> group@.contains(jj as usize),
                decreases len - j,
            {
                let pos_j = region.cells[j];
                proof {
                    assert(cell_in_bounds(model.size, cells[j as int]));
                }
                let ghost gprevgrp = group@;
                if snapshot.get(pos_j).value.is_none() {
                    if vec_values_eq(&snapshot.get(pos_j).candidates, &cand_b) {
                        group.push(j);
                        proof {
                            lemma_push_contains(gprevgrp, j);
                        }
                    }
                }
                proof {
                    assert forall|jj: int|
                        0 <= jj < j + 1 && gcell(g0, #[trigger] cells[jj]).value is None && gcell(
                            g0,
                            cells[jj],
                        ).candidates == cand_b@ implies group@.contains(jj as usize) by {
                        if jj < j {
                            assert(gprevgrp.contains(jj as usize));
                            if group@.len() > gprevgrp.len() {
                            } else {
                                assert(group@ == gprevgrp);
                            }
                        } else {
                            assert(group@.last() == jj as usize);
                        }
                    }
                }
                j = j + 1;
            }
            // The group's size equals the cardinality of the matching cell
            // set.
            let ghost gidx = Seq::new(group@.len(), |t: int| group@[t] as int);
            proof {
                assert forall|t1: int, t2: int|
                    0 <= t1 < gidx.len() && 0 <= t2 < gidx.len() && t1 != t2 implies gidx[t1]
                    != gidx[t2] by {
                    if t1 < t2 {
                        assert(group@[t1] < group@[t2]);
                    } else {
                        assert(group@[t2] < group@[t1]);
                    }
                }
                assert forall|jj: int|
                    naked_set(g0, cells, cand_b@).contains(jj) implies gidx.to_set().contains(
                    jj,
                ) by {
                    assert(group@.contains(jj as usize));
                    let t = choose|t: int| 0 <= t < group@.len() && group@[t] == jj as usize;
                    assert(gidx[t] == jj);
                    assert(gidx.contains(jj));
                }
                assert forall|jj: int|
                    gidx.to_set().contains(jj) implies naked_set(g0, cells, cand_b@).contains(
                    jj,
                ) by {
                    let t = choose|t: int| 0 <= t < gidx.len() && gidx[t] == jj;
                }
                assert(gidx.to_set() =~= naked_set(g0, cells, cand_b@));
                gidx.unique_seq_to_set();
                assert(naked_set(g0, cells, cand_b@).len() == group@.len());
            }
            if group.len() == cand_b.len() {
                // Exclude the group's values from every open cell outside
                // the group.
                let ghost gpts = Seq::new(group@.len(), |t: int| cells[group@[t] as int]);
                proof {
                    assert forall|t1: int, t2: int|
                        0 <= t1 < gpts.len() && 0 <= t2 < gpts.len() && t1 != t2 implies gpts[t1]
                        != gpts[t2] by {
                        assert(group@[t1] != group@[t2]) by {
                            if t1 < t2 {
                                assert(group@[t1] < group@[t2]);
                            } else {
                                assert(group@[t2] < group@[t1]);
                            }
                        }
                        assert(cells[group@[t1] as int] != cells[group@[t2] as int]);
                    }
                    assert(gcell(g0, pos_b).value is None);
                    assert(cell_wf(
                        gcell(g0, pos_b),
                        model.numbers@,
                        Point { x: pos_b.x as int as i32, y: pos_b.y as int as i32 },
                    ));
                    crate::state::lemma_sorted_no_dup(cand_b@);
                }
                let mut k: usize = 0;
                while k < len
                    invariant
                        cells == region.cells@,
                        g0 == old(state)@,
                        len == cells.len(),
                        model_wf(*model),
                        cells_in_bounds(model.size, cells),
                        cells.no_duplicates(),
                        grid_wf(g0, *model),
                        grid_wf(state@, *model),
                        grid_live(state@),
                        narrows(state@, g0),
                        grid_measure(state@) <= grid_measure(g0),
                        changed ==> grid_measure(state@) < grid_measure(g0),
                        !changed ==> state@ == g0,
                        !grid_solved(g0),
                        crate::state::frame_outside(state@, g0, cells),
                        forall|a: Seq<Seq<i32>>|
                            consistent(g0, a) && sat_unique(a, cells) ==> consistent(state@, a),
                        naked_pruned(g0, state@, cells, ib as int),
                        0 <= k <= len,
                        0 <= ib < len,
                        group@.len() == cand_b@.len(),
                        cand_b@.no_duplicates(),
                        cand_b@ == gcell(g0, cells[ib as int]).candidates,
                        gcell(g0, cells[ib as int]).value is None,
                        naked_set(g0, cells, cand_b@).len() == cand_b@.len(),
                        gpts == Seq::new(group@.len(), |t: int| cells[group@[t] as int]),
                        gpts.no_duplicates(),
                        forall|t: int|
                            0 <= t < group@.len() ==> (((#[trigger] group@[t]) as int) < len
                                && gcell(g0, cells[group@[t] as int]).value is None && gcell(
                                g0,
                                cells[group@[t] as int],
                            ).candidates == cand_b@),
                        forall|jj: int|
                            0 <= jj < len ==> (naked_set(g0, cells, cand_b@).contains(jj)
                                <==> group@.contains(jj as usize)),
                        forall|k2: int, v: i32|
                            #![trigger gcell(state@, cells[k2]).candidates.contains(v)]
                            0 <= k2 < k && !naked_set(g0, cells, cand_b@).contains(k2) && gcell(
                                state@,
                                cells[k2],
                            ).value is None && gcell(state@, cells[k2]).candidates.contains(v)
                                ==> !cand_b@.contains(v),
                    decreases len - k,
                {
                    let pos_k = region.cells[k];
                    proof {
                        assert(cell_in_bounds(model.size, cells[k as int]));
                    }
                    let in_group = contains_index(&group, k);
                    let still_open = state.get(pos_k).value.is_none();
                    if !in_group && still_open {
                        // keep candidates outside the group's set
                        let candk = &state.get(pos_k).candidates;
                        let mut mask: Vec<bool> = Vec::new();
                        let mut q: usize = 0;
                        while q < candk.len()
                            invariant
                                0 <= q <= candk@.len(),
                                mask@.len() == q,
                                forall|z: int|
                                    0 <= z < q ==> mask@[z] == !cand_b@.contains(
                                        #[trigger] candk@[z],
                                    ),
                            decreases candk@.len() - q,
                        {
                            mask.push(!contains_value(&cand_b, candk[q]));
                            q = q + 1;
                        }
                        let ghost maskv = mask@;
                        let ghost gprev = state@;
                        proof {
                            assert(cell_wf(
                                gcell(gprev, pos_k),
                                model.numbers@,
                                Point { x: pos_k.x as int as i32, y: pos_k.y as int as i32 },
                            ));
                            crate::state::lemma_sorted_no_dup(gcell(gprev, pos_k).candidates);
                        }
                        let res = limit_with_mask(model, state, pos_k, &mask);
                        proof {
                            lemma_narrows_trans(state@, gprev, g0);
                            let cb = cand_b@;
                            crate::state::lemma_mask_selects(
                                gcell(gprev, pos_k).candidates,
                                maskv,
                                |v: i32| !cb.contains(v),
                            );
                            let kept = crate::state::filter_mask(
                                gcell(gprev, pos_k).candidates,
                                maskv,
                            );
                            assert forall|yy: int, xx: int|
                                0 <= yy < gprev.len() && 0 <= xx < gprev[yy].len()
                                    && !cells.contains(
                                    Point { x: xx as i32, y: yy as i32 },
                                ) implies #[trigger] state@[yy][xx] == gprev[yy][xx] by {
                                assert(cells[k as int] == pos_k);
                                assert(cells.contains(pos_k));
                                if yy == pos_k.y as int && xx == pos_k.x as int {
                                    assert(pos_k == (Point { x: xx as i32, y: yy as i32 }));
                                }
                            }
                            crate::state::lemma_frame_trans(state@, gprev, g0, cells);
                            assert forall|i2: int|
                                0 <= i2 < cells.len() implies pt_in_grid(
                                gprev,
                                #[trigger] cells[i2],
                            ) by {
                                assert(cell_in_bounds(model.size, cells[i2]));
                            }
                            lemma_naked_pruned_narrows(g0, state@, gprev, cells, ib as int);
                            // Soundness of this elimination.
                            assert forall|a: Seq<Seq<i32>>|
                                consistent(g0, a) && sat_unique(a, cells) implies res
                                != PropagationResult::Contradiction && consistent(state@, a) by {
                                assert(consistent(gprev, a));
                                assert forall|i2: int|
                                    0 <= i2 < cells.len() implies pt_in_grid(
                                    g0,
                                    #[trigger] cells[i2],
                                ) by {
                                    assert(cell_in_bounds(model.size, cells[i2]));
                                }
                                assert forall|t: int|
                                    0 <= t < gpts.len() implies cells.contains(
                                    #[trigger] gpts[t],
                                ) by {
                                    assert(gpts[t] == cells[group@[t] as int]);
                                }
                                assert forall|t: int|
                                    0 <= t < gpts.len() implies #[trigger] gpts[t]
                                    != cells[k as int] by {
                                    assert(gpts[t] == cells[group@[t] as int]);
                                    assert(group@[t] as int != k as int) by {
                                        if group@[t] == k {
                                            assert(group@.contains(k));
                                            assert(naked_set(g0, cells, cand_b@).contains(
                                                k as int,
                                            ));
                                        }
                                    }
                                    assert(!group@.contains(k));
                                }
                                assert forall|t: int|
                                    0 <= t < gpts.len() implies (gcell(
                                    g0,
                                    #[trigger] gpts[t],
                                ).value is None && gcell(g0, gpts[t]).candidates == cand_b@) by {
                                    assert(gpts[t] == cells[group@[t] as int]);
                                }
                                assert(cells.contains(cells[k as int]));
                                lemma_naked_excludes(
                                    g0,
                                    cells,
                                    gpts,
                                    cand_b@,
                                    a,
                                    cells[k as int],
                                );
                                let av = a[pos_k.y as int][pos_k.x as int];
                                assert(av == val_at(a, cells[k as int]));
                                assert(!cand_b@.contains(av));
                                assert(cell_consistent(gcell(gprev, pos_k), av));
                                assert(gcell(gprev, pos_k).candidates.contains(av));
                                assert(kept.contains(av));
                                assert(cell_consistent(gcell(state@, pos_k), av));
                                assert forall|yy: int, xx: int|
                                    0 <= yy < state@.len() && 0 <= xx
                                        < state@[yy].len() implies cell_consistent(
                                    #[trigger] state@[yy][xx],
                                    a[yy][xx],
                                ) by {
                                    if !(yy == pos_k.y as int && xx == pos_k.x as int) {
                                        assert(state@[yy][xx] == gprev[yy][xx]);
                                        assert(cell_consistent(gprev[yy][xx], a[yy][xx]));
                                    }
                                }
                            }
                        }
                        if res == PropagationResult::Contradiction {
                            return PropagationResult::Contradiction;
                        }
                        if res == PropagationResult::Changed {
                            changed = true;
                        }
                        proof {
                            // The elimination invariant extends to this
                            // cell.
                            let cb2 = cand_b@;
                            let kept = crate::state::filter_mask(
                                gcell(gprev, pos_k).candidates,
                                maskv,
                            );
                            assert forall|k2: int, v: i32|
                                #![trigger gcell(state@, cells[k2]).candidates.contains(v)]
                                0 <= k2 < k + 1 && !naked_set(g0, cells, cand_b@).contains(k2)
                                    && gcell(state@, cells[k2]).value is None && gcell(
                                    state@,
                                    cells[k2],
                                ).candidates.contains(v) implies !cand_b@.contains(v) by {
                                if k2 == k {
                                    assert(gcell(state@, pos_k).candidates.contains(v));
                                    assert(cell_consistent(gcell(state@, pos_k), v));
                                    assert(kept.contains(v));
                                } else {
                                    assert(cells[k2] != pos_k);
                                    assert(gcell(state@, cells[k2]) == gcell(gprev, cells[k2]));
                                }
                            }
                        }
                    } else {
                        proof {
                            assert forall|k2: int, v: i32|
                                #![trigger gcell(state@, cells[k2]).candidates.contains(v)]
                                0 <= k2 < k + 1 && !naked_set(g0, cells, cand_b@).contains(k2)
                                    && gcell(state@, cells[k2]).value is None && gcell(
                                    state@,
                                    cells[k2],
                                ).candidates.contains(v) implies !cand_b@.contains(v) by {
                                if k2 == k {
                                    if in_group {
                                        assert(naked_set(g0, cells, cand_b@).contains(k2));
                                    } else {
                                        assert(gcell(state@, pos_k).value is Some);
                                    }
                                }
                            }
                        }
                    }
                    k = k + 1;
                }
                proof {
                    // The anchor's eliminations are complete.
                    assert forall|i2: int, k2: int, v: i32|
                        #![trigger gcell(g0, cells[i2]).candidates, gcell(state@, cells[k2]).candidates.contains(v)]
                        0 <= i2 < ib + 1 && 0 <= k2 < cells.len() && gcell(
                            g0,
                            cells[i2],
                        ).value is None && naked_set(g0, cells, gcell(g0, cells[i2]).candidates).len()
                            == gcell(g0, cells[i2]).candidates.len() && !naked_set(
                            g0,
                            cells,
                            gcell(g0, cells[i2]).candidates,
                        ).contains(k2) && gcell(state@, cells[k2]).value is None && gcell(
                            state@,
                            cells[k2],
                        ).candidates.contains(v) implies !gcell(g0, cells[i2]).candidates.contains(
                        v,
                    ) by {
                        if i2 == ib {
                            assert(gcell(g0, cells[i2]).candidates == cand_b@);
                        }
                    }
                }
            } else {
                proof {
                    // No full group anchors here: the matching set's size
                    // differs from the candidate count.
                    assert forall|i2: int, k2: int, v: i32|
                        #![trigger gcell(g0, cells[i2]).candidates, gcell(state@, cells[k2]).candidates.contains(v)]
                        0 <= i2 < ib + 1 && 0 <= k2 < cells.len() && gcell(
                            g0,
                            cells[i2],
                        ).value is None && naked_set(g0, cells, gcell(g0, cells[i2]).candidates).len()
                            == gcell(g0, cells[i2]).candidates.len() && !naked_set(
                            g0,
                            cells,
                            gcell(g0, cells[i2]).candidates,
                        ).contains(k2) && gcell(state@, cells[k2]).value is None && gcell(
                            state@,
                            cells[k2],
                        ).candidates.contains(v) implies !gcell(g0, cells[i2]).candidates.contains(
                        v,
                    ) by {
                        if i2 == ib {
                            assert(gcell(g0, cells[i2]).candidates == cand_b@);
                            assert(naked_set(g0, cells, cand_b@).len() == group@.len());
                        }
                    }
                }
            }
        } else {
            proof {
                assert forall|i2: int, k2: int, v: i32|
                    #![trigger gcell(g0, cells[i2]).candidates, gcell(state@, cells[k2]).candidates.contains(v)]
                    0 <= i2 < ib + 1 && 0 <= k2 < cells.len() && gcell(
                        g0,
                        cells[i2],
                    ).value is None && naked_set(g0, cells, gcell(g0, cells[i2]).candidates).len()
                        == gcell(g0, cells[i2]).candidates.len() && !naked_set(
                        g0,
                        cells,
                        gcell(g0, cells[i2]).candidates,
                    ).contains(k2) && gcell(state@, cells[k2]).value is None && gcell(
                        state@,
                        cells[k2],
                    ).candidates.contains(v) implies !gcell(g0, cells[i2]).candidates.contains(
                    v,
                ) by {
                    if i2 == ib {
                        assert(gcell(g0, cells[ib as int]).value is Some);
                    }
                }
            }
        }
        ib = ib + 1;
    }
    if changed {
        PropagationResult::Changed
    } else {
        PropagationResult::Unchanged
    }
}

/// The spot list of a value: exactly the open cells (by region index)
/// whose candidates hold it, in ascending index order.
pub open spec fn spots_ok(
    g: Seq<Seq<CellModel>>,
    cells: Seq<Point>,
    free_idx: Seq<usize>,
    sp: Seq<usize>,
    u: i32,
) -> bool {
    &&& forall|z1: int, z2: int| 0 <= z1 < z2 < sp.len() ==> (#[trigger] sp[z1]) < (#[trigger] sp[z2])
    &&& forall|z: int|
        0 <= z < sp.len() ==> (free_idx.contains(#[trigger] sp[z]) && ((sp[z] as int)
            < cells.len()) && gcell(g, cells[sp[z] as int]).candidates.contains(u))
    &&& forall|q: int|
        0 <= q < free_idx.len() && gcell(
            g,
            cells[(#[trigger] free_idx[q]) as int],
        ).candidates.contains(u) ==> sp.contains(free_idx[q])
}

/// Every collected union value occurs in some open cell among the first
/// `bound` region cells.
/// The value `v` occurs among the candidates of some open cell within the
/// first `bound` region cells.
pub open spec fn value_sourced(g: Seq<Seq<CellModel>>, cells: Seq<Point>, v: i32, bound: int) -> bool {
    exists|jj: int|
        #![trigger cells[jj]]
        0 <= jj < bound && gcell(g, cells[jj]).value is None && gcell(
            g,
            cells[jj],
        ).candidates.contains(v)
}

pub open spec fn union_sourced(
    g: Seq<Seq<CellModel>>,
    cells: Seq<Point>,
    uni: Seq<i32>,
    bound: int,
) -> bool {
    forall|t: int| 0 <= t < uni.len() ==> value_sourced(g, cells, #[trigger] uni[t], bound)
}

/// Widening the source bound preserves the property.
proof fn lemma_union_sourced_widen(
    g: Seq<Seq<CellModel>>,
    cells: Seq<Point>,
    uni: Seq<i32>,
    b1: int,
    b2: int,
)
    requires
        union_sourced(g, cells, uni, b1),
        b1 <= b2,
    ensures
        union_sourced(g, cells, uni, b2),
{
    assert forall|t: int| 0 <= t < uni.len() implies value_sourced(
        g,
        cells,
        #[trigger] uni[t],
        b2,
    ) by {
        assert(value_sourced(g, cells, uni[t], b1));
        let jj = choose|jj: int|
            #![trigger cells[jj]]
            0 <= jj < b1 && gcell(g, cells[jj]).value is None && gcell(
                g,
                cells[jj],
            ).candidates.contains(uni[t]);
        assert(0 <= jj < b2 && gcell(g, cells[jj]).value is None && gcell(
            g,
            cells[jj],
        ).candidates.contains(uni[t]));
    }
}

/// The open cells of the region, as region indexes.
pub open spec fn hidden_free_set(g: Seq<Seq<CellModel>>, cells: Seq<Point>) -> Set<int> {
    Set::new(|j: int| 0 <= j < cells.len() && gcell(g, cells[j]).value is None)
}

/// The union of the open region cells' candidate values.
pub open spec fn hidden_union_set(g: Seq<Seq<CellModel>>, cells: Seq<Point>) -> Set<i32> {
    Set::new(
        |v: i32|
            exists|j: int|
                0 <= j < cells.len() && gcell(g, #[trigger] cells[j]).value is None && gcell(
                    g,
                    cells[j],
                ).candidates.contains(v),
    )
}

/// The open region cells (by index) whose candidates hold `v`.
pub open spec fn hidden_spot_set(g: Seq<Seq<CellModel>>, cells: Seq<Point>, v: i32) -> Set<int> {
    Set::new(
        |j: int|
            0 <= j < cells.len() && gcell(g, cells[j]).value is None && gcell(
                g,
                cells[j],
            ).candidates.contains(v),
    )
}

/// The candidate-union values sharing exactly `v`'s spot set.
pub open spec fn hidden_value_group(g: Seq<Seq<CellModel>>, cells: Seq<Point>, v: i32) -> Set<
    i32,
> {
    Set::new(
        |w: i32|
            hidden_union_set(g, cells).contains(w) && hidden_spot_set(g, cells, w)
                == hidden_spot_set(g, cells, v),
    )
}

/// The hidden-subset restrictions are done in `g` for the first `bound`
/// union values of `g0`: whenever such a value's group (the values
/// sharing its spot set) is as large as the spot set itself, the spots'
/// open cells admit only the group's values.
pub open spec fn hidden_restricted(
    g0: Seq<Seq<CellModel>>,
    g: Seq<Seq<CellModel>>,
    cells: Seq<Point>,
    uni: Seq<i32>,
    bound: int,
) -> bool {
    forall|t: int, k: int, w: i32|
        #![trigger uni[t], gcell(g, cells[k]).candidates.contains(w)]
        0 <= t < bound && 0 <= k < cells.len() && hidden_value_group(g0, cells, uni[t]).len()
            == hidden_spot_set(g0, cells, uni[t]).len() && hidden_spot_set(
            g0,
            cells,
            uni[t],
        ).contains(k) && gcell(g, cells[k]).value is None && gcell(
            g,
            cells[k],
        ).candidates.contains(w) ==> hidden_value_group(g0, cells, uni[t]).contains(w)
}

/// Narrowing a grid preserves the done restrictions.
proof fn lemma_hidden_restricted_narrows(
    g0: Seq<Seq<CellModel>>,
    g2: Seq<Seq<CellModel>>,
    g1: Seq<Seq<CellModel>>,
    cells: Seq<Point>,
    uni: Seq<i32>,
    bound: int,
)
    requires
        hidden_restricted(g0, g1, cells, uni, bound),
        narrows(g2, g1),
        forall|i: int| 0 <= i < cells.len() ==> pt_in_grid(g1, #[trigger] cells[i]),
    ensures
        hidden_restricted(g0, g2, cells, uni, bound),
{
    assert forall|t: int, k: int, w: i32|
        #![trigger uni[t], gcell(g2, cells[k]).candidates.contains(w)]
        0 <= t < bound && 0 <= k < cells.len() && hidden_value_group(g0, cells, uni[t]).len()
            == hidden_spot_set(g0, cells, uni[t]).len() && hidden_spot_set(
            g0,
            cells,
            uni[t],
        ).contains(k) && gcell(g2, cells[k]).value is None && gcell(
            g2,
            cells[k],
        ).candidates.contains(w) implies hidden_value_group(g0, cells, uni[t]).contains(w) by {
        let p = cells[k];
        assert(pt_in_grid(g1, p));
        assert(crate::state::cell_narrows(gcell(g2, p), gcell(g1, p)));
        assert(gcell(g1, p).value is None);
        assert(gcell(g1, p).candidates.contains(w));
    }
}

/// Two strictly increasing index lists with the same members are equal.
proof fn lemma_increasing_lists_equal(s1: Seq<usize>, s2: Seq<usize>)
    requires
        forall|z1: int, z2: int| 0 <= z1 < z2 < s1.len() ==> (#[trigger] s1[z1]) < (#[trigger] s1[z2]),
        forall|z1: int, z2: int| 0 <= z1 < z2 < s2.len() ==> (#[trigger] s2[z1]) < (#[trigger] s2[z2]),
        forall|x: usize| s1.contains(x) <==> s2.contains(x),
    ensures
        s1 == s2,
    decreases s1.len(),
{
    if s1.len() == 0 {
        if s2.len() > 0 {
            assert(s2.contains(s2[0]));
            assert(s1.contains(s2[0]));
        }
        assert(s1 =~= s2);
    } else if s2.len() == 0 {
        assert(s1.contains(s1[0]));
        assert(s2.contains(s1[0]));
    } else {
        // Heads are the minima, so they agree.
        assert(s1.contains(s1[0]) && s2.contains(s2[0]));
        assert(s2.contains(s1[0]) && s1.contains(s2[0]));
        let z1 = choose|z: int| 0 <= z < s2.len() && s2[z] == s1[0];
        let z2 = choose|z: int| 0 <= z < s1.len() && s1[z] == s2[0];
        assert(s2[0] <= s2[z1] && s1[0] <= s1[z2]) by {
            if z1 > 0 {
                assert(s2[0] < s2[z1]);
            }
            if z2 > 0 {
                assert(s1[0] < s1[z2]);
            }
        }
        assert(s1[0] == s2[0]);
        let t1 = s1.drop_first();
        let t2 = s2.drop_first();
        assert forall|z1b: int, z2b: int|
            0 <= z1b < z2b < t1.len() implies (#[trigger] t1[z1b]) < (#[trigger] t1[z2b]) by {
            assert(s1[z1b + 1] < s1[z2b + 1]);
        }
        assert forall|z1b: int, z2b: int|
            0 <= z1b < z2b < t2.len() implies (#[trigger] t2[z1b]) < (#[trigger] t2[z2b]) by {
            assert(s2[z1b + 1] < s2[z2b + 1]);
        }
        assert forall|x: usize| t1.contains(x) <==> t2.contains(x) by {
            if t1.contains(x) {
                let z = choose|z: int| 0 <= z < t1.len() && t1[z] == x;
                assert(s1[z + 1] == x);
                assert(s1[0] < x);
                assert(s1.contains(x));
                assert(s2.contains(x));
                let z3 = choose|z3: int| 0 <= z3 < s2.len() && s2[z3] == x;
                assert(z3 != 0);
                assert(t2[z3 - 1] == x);
                assert(t2.contains(t2[z3 - 1]));
            }
            if t2.contains(x) {
                let z = choose|z: int| 0 <= z < t2.len() && t2[z] == x;
                assert(s2[z + 1] == x);
                assert(s2[0] < x);
                assert(s2.contains(x));
                assert(s1.contains(x));
                let z3 = choose|z3: int| 0 <= z3 < s1.len() && s1[z3] == x;
                assert(z3 != 0);
                assert(t1[z3 - 1] == x);
                assert(t1.contains(t1[z3 - 1]));
            }
        }
        lemma_increasing_lists_equal(t1, t2);
        assert(s1.len() == s2.len());
        assert forall|z: int| 0 <= z < s1.len() implies s1[z] == s2[z] by {
            if z > 0 {
                assert(s1[z] == t1[z - 1] && s2[z] == t2[z - 1]);
            }
        }
        assert(s1 =~= s2);
    }
}

/// A recorded spot list measures a value's spot set exactly.
proof fn lemma_spot_list_set(
    g0: Seq<Seq<CellModel>>,
    cells: Seq<Point>,
    free_idx: Seq<usize>,
    sp: Seq<usize>,
    u: i32,
)
    requires
        cells.len() <= usize::MAX,
        spots_ok(g0, cells, free_idx, sp, u),
        forall|t: int|
            0 <= t < free_idx.len() ==> (((#[trigger] free_idx[t]) as int) < cells.len() && gcell(
                g0,
                cells[free_idx[t] as int],
            ).value is None),
        forall|j: int|
            0 <= j < cells.len() && gcell(g0, #[trigger] cells[j]).value is None
                ==> free_idx.contains(j as usize),
    ensures
        forall|x: usize|
            #[trigger] sp.contains(x) <==> hidden_spot_set(g0, cells, u).contains(x as int),
        hidden_spot_set(g0, cells, u).len() == sp.len(),
{
    assert forall|x: usize| #[trigger] sp.contains(x) implies hidden_spot_set(
        g0,
        cells,
        u,
    ).contains(x as int) by {
        let z = choose|z: int| 0 <= z < sp.len() && sp[z] == x;
        assert(((sp[z]) as int) < cells.len());
        assert(free_idx.contains(sp[z]));
        let q = choose|q: int| 0 <= q < free_idx.len() && free_idx[q] == sp[z];
        assert(gcell(g0, cells[free_idx[q] as int]).value is None);
        assert(gcell(g0, cells[sp[z] as int]).candidates.contains(u));
    }
    assert forall|x: usize|
        hidden_spot_set(g0, cells, u).contains(x as int) implies #[trigger] sp.contains(x) by {
        let j = x as int;
        assert(0 <= j < cells.len());
        assert(free_idx.contains(j as usize));
        let q = choose|q: int| 0 <= q < free_idx.len() && free_idx[q] == j as usize;
        assert((free_idx[q]) as int == j);
        assert(gcell(g0, cells[(free_idx[q]) as int]).candidates.contains(u));
        assert(sp.contains(free_idx[q]));
    }
    let tidx = Seq::new(sp.len(), |z: int| sp[z] as int);
    assert forall|z1: int, z2: int|
        0 <= z1 < tidx.len() && 0 <= z2 < tidx.len() && z1 != z2 implies tidx[z1] != tidx[z2] by {
        if z1 < z2 {
            assert(sp[z1] < sp[z2]);
        } else {
            assert(sp[z2] < sp[z1]);
        }
    }
    assert forall|j: int|
        hidden_spot_set(g0, cells, u).contains(j) implies tidx.to_set().contains(j) by {
        assert(0 <= j < cells.len());
        assert(hidden_spot_set(g0, cells, u).contains((j as usize) as int));
        assert(sp.contains(j as usize));
        let z = choose|z: int| 0 <= z < sp.len() && sp[z] == j as usize;
        assert(tidx[z] == j);
        assert(tidx.contains(j));
    }
    assert forall|j: int|
        tidx.to_set().contains(j) implies hidden_spot_set(g0, cells, u).contains(j) by {
        let z = choose|z: int| 0 <= z < tidx.len() && tidx[z] == j;
        assert(sp[z] == j as usize);
        assert(sp.contains(j as usize));
        assert(hidden_spot_set(g0, cells, u).contains((sp[z]) as int));
    }
    assert(tidx.to_set() =~= hidden_spot_set(g0, cells, u));
    tidx.unique_seq_to_set();
}

/// The hidden-subset pass: when the union of candidates is exactly as
/// large as the number of open cells, groups values by their spot lists
/// and restricts each group's spots to the group's values.
fn find_hidden_pairs(model: &SudokuModel, region: &Region, state: &mut SolverState) -> (r:
    PropagationResult)
    requires
        model_wf(*model),
        grid_wf(old(state)@, *model),
        grid_live(old(state)@),
        cells_in_bounds(model.size, region.cells@),
        region.cells@.no_duplicates(),
    ensures
        grid_wf(final(state)@, *model),
        narrows(final(state)@, old(state)@),
        r != PropagationResult::Contradiction ==> grid_live(final(state)@),
        grid_measure(final(state)@) <= grid_measure(old(state)@),
        r == PropagationResult::Changed ==> grid_measure(final(state)@) < grid_measure(
            old(state)@,
        ),
        r == PropagationResult::Unchanged ==> final(state)@ == old(state)@,
        forall|a: Seq<Seq<i32>>|
            consistent(old(state)@, a) && sat_unique(a, region.cells@) ==> r
                != PropagationResult::Contradiction && consistent(final(state)@, a),
        grid_solved(old(state)@) ==> r == PropagationResult::Unchanged,
        crate::state::frame_outside(final(state)@, old(state)@, region.cells@),
        hidden_union_set(old(state)@, region.cells@).len() < hidden_free_set(
            old(state)@,
            region.cells@,
        ).len() ==> r == PropagationResult::Contradiction,
        r != PropagationResult::Contradiction && hidden_union_set(old(state)@, region.cells@).len()
            == hidden_free_set(old(state)@, region.cells@).len() ==> (forall|k: int, v: i32|
            #![trigger gcell(final(state)@, region.cells@[k]).candidates.contains(v)]
            0 <= k < region.cells@.len() && gcell(final(state)@, region.cells@[k]).value is None
                && gcell(final(state)@, region.cells@[k]).candidates.contains(v)
                ==> hidden_union_set(old(state)@, region.cells@).contains(v)),
        r != PropagationResult::Contradiction && hidden_union_set(old(state)@, region.cells@).len()
            == hidden_free_set(old(state)@, region.cells@).len() ==> (forall|
            v: i32,
            k: int,
            w: i32,
        |
            #![trigger hidden_spot_set(old(state)@, region.cells@, v).contains(k), gcell(final(state)@, region.cells@[k]).candidates.contains(w)]
            hidden_union_set(old(state)@, region.cells@).contains(v) && hidden_value_group(
                old(state)@,
                region.cells@,
                v,
            ).len() == hidden_spot_set(old(state)@, region.cells@, v).len() && hidden_spot_set(
                old(state)@,
                region.cells@,
                v,
            ).contains(k) && 0 <= k < region.cells@.len() && gcell(
                final(state)@,
                region.cells@[k],
            ).value is None && gcell(final(state)@, region.cells@[k]).candidates.contains(w)
                ==> hidden_value_group(old(state)@, region.cells@, v).contains(w)),
{
    let ghost g0 = old(state)@;
    let ghost cells = region.cells@;
    let len = region.cells.len();
    proof {
        lemma_narrows_refl(g0);
        crate::state::lemma_frame_refl(g0, cells);
    }
    // Gather the open cells and the union of their candidates.
    let mut free_idx: Vec<usize> = Vec::new();
    let mut uni: Vec<i32> = Vec::new();
    let mut i: usize = 0;
    while i < len
        invariant
            cells == region.cells@,
            g0 == state@,
            g0 == old(state)@,
            len == cells.len(),
            model_wf(*model),
            cells_in_bounds(model.size, cells),
            grid_wf(g0, *model),
            0 <= i <= len,
            forall|t1: int, t2: int|
                0 <= t1 < t2 < free_idx@.len() ==> (#[trigger] free_idx@[t1]) < (
                #[trigger] free_idx@[t2]),
            forall|t: int|
                0 <= t < free_idx@.len() ==> (((#[trigger] free_idx@[t]) as int) < i && gcell(
                    g0,
                    cells[free_idx@[t] as int],
                ).value is None),
            forall|j: int|
                0 <= j < i && gcell(g0, #[trigger] cells[j]).value is None ==> free_idx@.contains(
                    j as usize,
                ),
            uni@.no_duplicates(),
            forall|t: int, ci: int|
                0 <= t < free_idx@.len() && 0 <= ci < gcell(
                    g0,
                    cells[free_idx@[t] as int],
                ).candidates.len() ==> uni@.contains(
                    #[trigger] gcell(g0, cells[(#[trigger] free_idx@[t]) as int]).candidates[ci],
                ),
            union_sourced(g0, cells, uni@, i as int),
        decreases len - i,
    {
        let pos = region.cells[i];
        proof {
            assert(cell_in_bounds(model.size, cells[i as int]));
        }
        let open_now = state.get(pos).value.is_none();
        proof {
            lemma_union_sourced_widen(g0, cells, uni@, i as int, i + 1);
        }
        if open_now {
            let ghost fprev = free_idx@;
            free_idx.push(i);
            proof {
                lemma_push_contains(fprev, i);
            }
            let cand = &state.get(pos).candidates;
            let mut q: usize = 0;
            while q < cand.len()
                invariant
                    cells == region.cells@,
                    g0 == state@,
                    0 <= i < len,
                    len == cells.len(),
                    cand@ == gcell(g0, cells[i as int]).candidates,
                    gcell(g0, cells[i as int]).value is None,
                    0 <= q <= cand@.len(),
                    uni@.no_duplicates(),
                    forall|ci: int| 0 <= ci < q ==> uni@.contains(#[trigger] cand@[ci]),
                    forall|t: int, ci: int|
                        0 <= t < free_idx@.len() - 1 && 0 <= ci < gcell(
                            g0,
                            cells[free_idx@[t] as int],
                        ).candidates.len() ==> uni@.contains(
                            #[trigger] gcell(
                                g0,
                                cells[(#[trigger] free_idx@[t]) as int],
                            ).candidates[ci],
                        ),
                    union_sourced(g0, cells, uni@, i + 1),
                    free_idx@.len() >= 1,
                    free_idx@.last() == i as usize,
                decreases cand@.len() - q,
            {
                let c = cand[q];
                let ghost uprev = uni@;
                if !contains_value(&uni, c) {
                    proof {
                        lemma_push_unique(uprev, c);
                        lemma_push_contains(uprev, c);
                    }
                    uni.push(c);
                }
                proof {
                    assert(union_sourced(g0, cells, uni@, i + 1)) by {
                        assert forall|t: int| 0 <= t < uni@.len() implies value_sourced(
                            g0,
                            cells,
                            #[trigger] uni@[t],
                            i + 1,
                        ) by {
                            if t < uprev.len() {
                                assert(uprev[t] == uni@[t]);
                                assert(value_sourced(g0, cells, uprev[t], i + 1));
                            } else {
                                assert(uni@[t] == c);
                                assert(gcell(g0, cells[i as int]).value is None);
                                assert(gcell(g0, cells[i as int]).candidates.contains(c));
                                assert(value_sourced(g0, cells, c, i + 1)) by {
                                    assert(0 <= i < i + 1 && gcell(g0, cells[i as int]).value
                                        is None && gcell(g0, cells[i as int]).candidates.contains(
                                        c,
                                    ));
                                }
                            }
                        }
                    }
                    assert forall|t: int, ci: int|
                        0 <= t < free_idx@.len() - 1 && 0 <= ci < gcell(
                            g0,
                            cells[free_idx@[t] as int],
                        ).candidates.len() implies uni@.contains(
                        #[trigger] gcell(
                            g0,
                            cells[(#[trigger] free_idx@[t]) as int],
                        ).candidates[ci],
                    ) by {
                        assert(uprev.contains(gcell(
                            g0,
                            cells[free_idx@[t] as int],
                        ).candidates[ci]));
                    }
                    assert forall|ci: int| 0 <= ci < q + 1 implies uni@.contains(
                        #[trigger] cand@[ci],
                    ) by {
                        if ci < q {
                            assert(uprev.contains(cand@[ci]));
                        }
                    }
                }
                q = q + 1;
            }
            proof {
                assert forall|t: int, ci: int|
                    0 <= t < free_idx@.len() && 0 <= ci < gcell(
                        g0,
                        cells[free_idx@[t] as int],
                    ).candidates.len() implies uni@.contains(
                    #[trigger] gcell(
                        g0,
                        cells[(#[trigger] free_idx@[t]) as int],
                    ).candidates[ci],
                ) by {
                    if t == free_idx@.len() - 1 {
                        assert(free_idx@[t] == i as usize);
                    }
                }
                assert forall|j: int|
                    0 <= j < i + 1 && gcell(g0, #[trigger] cells[j]).value
                        is None implies free_idx@.contains(j as usize) by {
                    if j < i {
                        assert(fprev.contains(j as usize));
                    } else {
                        assert(free_idx@.last() == i as usize);
                    }
                }
            }
        }
        i = i + 1;
    }
    let ghost fpts = Seq::new(free_idx@.len(), |t: int| cells[free_idx@[t] as int]);
    proof {
        assert forall|t1: int, t2: int|
            0 <= t1 < fpts.len() && 0 <= t2 < fpts.len() && t1 != t2 implies fpts[t1]
            != fpts[t2] by {
            assert(free_idx@[t1] != free_idx@[t2]) by {
                if t1 < t2 {
                    assert(free_idx@[t1] < free_idx@[t2]);
                } else {
                    assert(free_idx@[t2] < free_idx@[t1]);
                }
            }
            assert(cells[free_idx@[t1] as int] != cells[free_idx@[t2] as int]);
        }
    }
    proof {
        if grid_solved(g0) && free_idx@.len() > 0 {
            let p = cells[free_idx@[0] as int];
            assert(cell_in_bounds(model.size, cells[free_idx@[0] as int]));
            assert(gcell(g0, p).value is Some);
        }
    }
    proof {
        // The collected lists measure the open-cell set and the candidate
        // union exactly.
        let fidx = Seq::new(free_idx@.len(), |t: int| free_idx@[t] as int);
        assert forall|t1: int, t2: int|
            0 <= t1 < fidx.len() && 0 <= t2 < fidx.len() && t1 != t2 implies fidx[t1]
            != fidx[t2] by {
            if t1 < t2 {
                assert(free_idx@[t1] < free_idx@[t2]);
            } else {
                assert(free_idx@[t2] < free_idx@[t1]);
            }
        }
        assert forall|jj: int|
            hidden_free_set(g0, cells).contains(jj) implies fidx.to_set().contains(jj) by {
            assert(free_idx@.contains(jj as usize));
            let t = choose|t: int| 0 <= t < free_idx@.len() && free_idx@[t] == jj as usize;
            assert(fidx[t] == jj);
            assert(fidx.contains(jj));
        }
        assert forall|jj: int|
            fidx.to_set().contains(jj) implies hidden_free_set(g0, cells).contains(jj) by {
            let t = choose|t: int| 0 <= t < fidx.len() && fidx[t] == jj;
        }
        assert(fidx.to_set() =~= hidden_free_set(g0, cells));
        fidx.unique_seq_to_set();
        assert(hidden_free_set(g0, cells).len() == free_idx@.len());
        assert forall|v: i32|
            hidden_union_set(g0, cells).contains(v) implies uni@.to_set().contains(v) by {
            let jj = choose|jj: int|
                0 <= jj < cells.len() && gcell(g0, #[trigger] cells[jj]).value is None && gcell(
                    g0,
                    cells[jj],
                ).candidates.contains(v);
            assert(free_idx@.contains(jj as usize));
            let t = choose|t: int| 0 <= t < free_idx@.len() && free_idx@[t] == jj as usize;
            let ci = choose|ci: int|
                0 <= ci < gcell(g0, cells[jj]).candidates.len() && gcell(
                    g0,
                    cells[jj],
                ).candidates[ci] == v;
            assert(uni@.contains(gcell(g0, cells[(free_idx@[t]) as int]).candidates[ci]));
        }
        assert forall|v: i32|
            uni@.to_set().contains(v) implies hidden_union_set(g0, cells).contains(v) by {
            let t = choose|t: int| 0 <= t < uni@.len() && uni@[t] == v;
            assert(union_sourced(g0, cells, uni@, len as int));
            assert(value_sourced(g0, cells, uni@[t], len as int));
            let jj = choose|jj: int|
                #![trigger cells[jj]]
                0 <= jj < len && gcell(g0, cells[jj]).value is None && gcell(
                    g0,
                    cells[jj],
                ).candidates.contains(uni@[t]);
        }
        assert(uni@.to_set() =~= hidden_union_set(g0, cells));
        uni@.unique_seq_to_set();
        assert(hidden_union_set(g0, cells).len() == uni@.len());
    }
    if uni.len() < free_idx.len() {
        proof {
            assert forall|a: Seq<Seq<i32>>|
                consistent(g0, a) && sat_unique(a, cells) implies false by {
                let vals = vals_at(a, fpts);
                assert forall|t: int|
                    0 <= t < fpts.len() implies cells.contains(#[trigger] fpts[t]) by {
                    assert(fpts[t] == cells[free_idx@[t] as int]);
                }
                lemma_region_vals_nodup(cells, fpts, a);
                assert forall|t: int|
                    0 <= t < vals.len() implies uni@.to_set().contains(#[trigger] vals[t]) by {
                    let p = fpts[t];
                    assert(p == cells[free_idx@[t] as int]);
                    assert(cell_in_bounds(model.size, cells[free_idx@[t] as int]));
                    assert(cell_consistent(gcell(g0, p), a[p.y as int][p.x as int]));
                    assert(gcell(g0, p).candidates.contains(val_at(a, p)));
                    let ci = choose|ci: int|
                        0 <= ci < gcell(g0, p).candidates.len() && gcell(g0, p).candidates[ci]
                            == val_at(a, p);
                    assert(uni@.contains(gcell(g0, p).candidates[ci]));
                }
                uni@.unique_seq_to_set();
                vstd::seq_lib::seq_to_set_is_finite::<i32>(uni@);
                lemma_distinct_within(vals, uni@.to_set());
            }
        }
        return PropagationResult::Contradiction;
    }
    if uni.len() > free_idx.len() {
        return PropagationResult::Unchanged;
    }
    // Record each value's spot list against the frozen state.
    let mut spots: Vec<Vec<usize>> = Vec::new();
    let mut t: usize = 0;
    while t < uni.len()
        invariant
            cells == region.cells@,
            g0 == state@,
            g0 == old(state)@,
            len == cells.len(),
            model_wf(*model),
            cells_in_bounds(model.size, cells),
            grid_wf(g0, *model),
            0 <= t <= uni@.len(),
            spots@.len() == t,
            forall|t2: int|
                0 <= t2 < t ==> spots_ok(g0, cells, free_idx@, (#[trigger] spots@[t2])@, uni@[t2]),
            forall|t1: int, t2: int|
                0 <= t1 < t2 < free_idx@.len() ==> (#[trigger] free_idx@[t1]) < (
                #[trigger] free_idx@[t2]),
            forall|t2: int|
                0 <= t2 < free_idx@.len() ==> (((#[trigger] free_idx@[t2]) as int) < len && gcell(
                    g0,
                    cells[free_idx@[t2] as int],
                ).value is None),
        decreases uni@.len() - t,
    {
        let u = uni[t];
        let mut sp: Vec<usize> = Vec::new();
        let ghost mut src: Seq<int> = Seq::empty();
        let mut q: usize = 0;
        while q < free_idx.len()
            invariant
                cells == region.cells@,
                g0 == state@,
                len == cells.len(),
                model_wf(*model),
                cells_in_bounds(model.size, cells),
                grid_wf(g0, *model),
                0 <= q <= free_idx@.len(),
                forall|t1: int, t2: int|
                    0 <= t1 < t2 < free_idx@.len() ==> (#[trigger] free_idx@[t1]) < (
                    #[trigger] free_idx@[t2]),
                forall|t2: int|
                    0 <= t2 < free_idx@.len() ==> (((#[trigger] free_idx@[t2]) as int) < len
                        && gcell(g0, cells[free_idx@[t2] as int]).value is None),
                src.len() == sp@.len(),
                forall|z1: int, z2: int| 0 <= z1 < z2 < src.len() ==> src[z1] < src[z2],
                forall|z: int|
                    0 <= z < src.len() ==> (0 <= #[trigger] src[z] < q && sp@[z]
                        == free_idx@[src[z]]),
                forall|z: int|
                    0 <= z < sp@.len() ==> (free_idx@.contains(#[trigger] sp@[z]) && ((sp@[z]
                        as int) < cells.len()) && gcell(
                        g0,
                        cells[sp@[z] as int],
                    ).candidates.contains(u)),
                forall|q2: int|
                    0 <= q2 < q && gcell(
                        g0,
                        cells[(#[trigger] free_idx@[q2]) as int],
                    ).candidates.contains(u) ==> sp@.contains(free_idx@[q2]),
            decreases free_idx@.len() - q,
        {
            let fi = free_idx[q];
            let pos = region.cells[fi];
            proof {
                assert(cell_in_bounds(model.size, cells[fi as int]));
            }
            let ghost sprev = sp@;
            if contains_value(&state.get(pos).candidates, u) {
                sp.push(fi);
                proof {
                    lemma_push_contains(sprev, fi);
                    src = src.push(q as int);
                    assert(free_idx@.contains(fi)) by {
                        assert(free_idx@[q as int] == fi);
                    }
                }
            }
            proof {
                assert forall|q2: int|
                    0 <= q2 < q + 1 && gcell(
                        g0,
                        cells[(#[trigger] free_idx@[q2]) as int],
                    ).candidates.contains(u) implies sp@.contains(free_idx@[q2]) by {
                    if q2 < q {
                        assert(sprev.contains(free_idx@[q2]) || sp@.contains(free_idx@[q2]));
                        if sprev.contains(free_idx@[q2]) {
                            let z = choose|z: int|
                                0 <= z < sprev.len() && sprev[z] == free_idx@[q2];
                            assert(sp@[z] == free_idx@[q2]);
                        }
                    } else {
                        assert(sp@.last() == free_idx@[q2]);
                    }
                }
            }
            q = q + 1;
        }
        proof {
            assert forall|z1: int, z2: int| 0 <= z1 < z2 < sp@.len() implies (#[trigger] sp@[z1])
                < (#[trigger] sp@[z2]) by {
                assert(src[z1] < src[z2]);
                assert(sp@[z1] == free_idx@[src[z1]] && sp@[z2] == free_idx@[src[z2]]);
            }
            assert(spots_ok(g0, cells, free_idx@, sp@, uni@[t as int]));
        }
        spots.push(sp);
        t = t + 1;
    }
    // Group values by spot list; a full group pins its spots to its
    // values.
    let mut changed = false;
    let mut tg: usize = 0;
    while tg < uni.len()
        invariant
            cells == region.cells@,
            g0 == old(state)@,
            len == cells.len(),
            model_wf(*model),
            cells_in_bounds(model.size, cells),
            cells.no_duplicates(),
            grid_wf(g0, *model),
            grid_wf(state@, *model),
            grid_live(state@),
            narrows(state@, g0),
            grid_measure(state@) <= grid_measure(g0),
            changed ==> grid_measure(state@) < grid_measure(g0),
            !changed ==> state@ == g0,
            grid_solved(g0) ==> state@ == g0,
            crate::state::frame_outside(state@, g0, cells),
            forall|a: Seq<Seq<i32>>|
                consistent(g0, a) && sat_unique(a, cells) ==> consistent(state@, a),
            0 <= tg <= uni@.len(),
            uni@.no_duplicates(),
            uni@.len() == free_idx@.len(),
            spots@.len() == uni@.len(),
            forall|t2: int|
                0 <= t2 < uni@.len() ==> spots_ok(
                    g0,
                    cells,
                    free_idx@,
                    (#[trigger] spots@[t2])@,
                    uni@[t2],
                ),
            forall|t1: int, t2: int|
                0 <= t1 < t2 < free_idx@.len() ==> (#[trigger] free_idx@[t1]) < (
                #[trigger] free_idx@[t2]),
            forall|t2: int|
                0 <= t2 < free_idx@.len() ==> (((#[trigger] free_idx@[t2]) as int) < len && gcell(
                    g0,
                    cells[free_idx@[t2] as int],
                ).value is None),
            forall|t2: int, ci: int|
                0 <= t2 < free_idx@.len() && 0 <= ci < gcell(
                    g0,
                    cells[free_idx@[t2] as int],
                ).candidates.len() ==> uni@.contains(
                    #[trigger] gcell(
                        g0,
                        cells[(#[trigger] free_idx@[t2]) as int],
                    ).candidates[ci],
                ),
            forall|j: int|
                0 <= j < len && gcell(g0, #[trigger] cells[j]).value is None
                    ==> free_idx@.contains(j as usize),
            uni@.to_set() == hidden_union_set(g0, cells),
            hidden_restricted(g0, state@, cells, uni@, tg as int),
            fpts == Seq::new(free_idx@.len(), |t3: int| cells[free_idx@[t3] as int]),
            fpts.no_duplicates(),
        decreases uni@.len() - tg,
    {
        let mut wvals: Vec<i32> = Vec::new();
        let ghost mut widx: Seq<int> = Seq::empty();
        let mut t2: usize = 0;
        while t2 < uni.len()
            invariant
                0 <= t2 <= uni@.len(),
                0 <= tg < uni@.len(),
                spots@.len() == uni@.len(),
                uni@.no_duplicates(),
                widx.len() == wvals@.len(),
                forall|z1: int, z2: int| 0 <= z1 < z2 < widx.len() ==> widx[z1] < widx[z2],
                forall|z: int|
                    0 <= z < widx.len() ==> (0 <= #[trigger] widx[z] < t2 && wvals@[z]
                        == uni@[widx[z]] && (spots@[widx[z]])@ == (spots@[tg as int])@),
                forall|t3: int|
                    0 <= t3 < t2 && (#[trigger] spots@[t3])@ == (spots@[tg as int])@
                        ==> wvals@.contains(uni@[t3]),
            decreases uni@.len() - t2,
        {
            let ghost wprev = wvals@;
            if vec_indices_eq(&spots[t2], &spots[tg]) {
                wvals.push(uni[t2]);
                proof {
                    widx = widx.push(t2 as int);
                    lemma_push_contains(wprev, uni@[t2 as int]);
                }
            }
            proof {
                assert forall|t3: int|
                    0 <= t3 < t2 + 1 && (#[trigger] spots@[t3])@ == (spots@[tg as int])@ implies wvals@
                    .contains(uni@[t3]) by {
                    if t3 < t2 {
                        assert(wprev.contains(uni@[t3]));
                        if wvals@.len() > wprev.len() {
                        } else {
                            assert(wvals@ == wprev);
                        }
                    } else {
                        assert(wvals@.last() == uni@[t3]);
                    }
                }
            }
            t2 = t2 + 1;
        }
        proof {
            assert forall|z1: int, z2: int|
                0 <= z1 < wvals@.len() && 0 <= z2 < wvals@.len() && z1 != z2 implies wvals@[z1]
                != wvals@[z2] by {
                assert(widx[z1] != widx[z2]) by {
                    if z1 < z2 {
                        assert(widx[z1] < widx[z2]);
                    } else {
                        assert(widx[z2] < widx[z1]);
                    }
                }
                assert(wvals@[z1] == uni@[widx[z1]] && wvals@[z2] == uni@[widx[z2]]);
            }
            // The collected values are exactly the anchor value's group,
            // and the recorded spots its spot set.
            lemma_spot_list_set(g0, cells, free_idx@, (spots@[tg as int])@, uni@[tg as int]);
            assert forall|w: i32|
                wvals@.contains(w) implies hidden_value_group(g0, cells, uni@[tg as int]).contains(
                w,
            ) by {
                let z = choose|z: int| 0 <= z < wvals@.len() && wvals@[z] == w;
                let t3 = widx[z];
                assert(wvals@[z] == uni@[t3] && (spots@[t3])@ == (spots@[tg as int])@);
                lemma_spot_list_set(g0, cells, free_idx@, (spots@[t3])@, uni@[t3]);
                assert(hidden_spot_set(g0, cells, uni@[t3]) =~= hidden_spot_set(
                    g0,
                    cells,
                    uni@[tg as int],
                )) by {
                    assert forall|j: int|
                        hidden_spot_set(g0, cells, uni@[t3]).contains(j) == hidden_spot_set(
                            g0,
                            cells,
                            uni@[tg as int],
                        ).contains(j) by {
                        if 0 <= j < cells.len() {
                            assert(hidden_spot_set(g0, cells, uni@[t3]).contains(j) <==> (spots@[
                                t3])@.contains(j as usize)) by {
                                assert((spots@[t3])@.contains(j as usize)
                                    <==> hidden_spot_set(g0, cells, uni@[t3]).contains(((
                                j as usize)) as int));
                            }
                            assert(hidden_spot_set(g0, cells, uni@[tg as int]).contains(j) <==> (
                            spots@[tg as int])@.contains(j as usize)) by {
                                assert((spots@[tg as int])@.contains(j as usize)
                                    <==> hidden_spot_set(g0, cells, uni@[tg as int]).contains(((
                                j as usize)) as int));
                            }
                        }
                    }
                }
                assert(uni@.contains(uni@[t3]));
                assert(uni@.to_set().contains(w));
            }
            assert forall|w: i32|
                hidden_value_group(g0, cells, uni@[tg as int]).contains(w) implies wvals@.contains(
                w,
            ) by {
                assert(hidden_union_set(g0, cells).contains(w));
                assert(uni@.to_set().contains(w));
                let t3 = choose|t3: int| 0 <= t3 < uni@.len() && uni@[t3] == w;
                lemma_spot_list_set(g0, cells, free_idx@, (spots@[t3])@, uni@[t3]);
                assert forall|x: usize| (spots@[t3])@.contains(x) == (spots@[tg as int])@
                    .contains(x) by {
                    assert((spots@[t3])@.contains(x) <==> hidden_spot_set(
                        g0,
                        cells,
                        uni@[t3],
                    ).contains(x as int));
                    assert((spots@[tg as int])@.contains(x) <==> hidden_spot_set(
                        g0,
                        cells,
                        uni@[tg as int],
                    ).contains(x as int));
                }
                assert(spots_ok(g0, cells, free_idx@, (spots@[t3])@, uni@[t3]));
                lemma_increasing_lists_equal((spots@[t3])@, (spots@[tg as int])@);
                assert(wvals@.contains(uni@[t3]));
            }
            assert(wvals@.to_set() =~= hidden_value_group(g0, cells, uni@[tg as int]));
            wvals@.unique_seq_to_set();
            assert(hidden_value_group(g0, cells, uni@[tg as int]).len() == wvals@.len());
        }
        if wvals.len() == spots[tg].len() {
            let ghost tsp = (spots@[tg as int])@;
            let ghost tpts = Seq::new(tsp.len(), |z: int| cells[tsp[z] as int]);
            proof {
                assert(spots_ok(g0, cells, free_idx@, tsp, uni@[tg as int]));
                assert forall|z1: int, z2: int|
                    0 <= z1 < tpts.len() && 0 <= z2 < tpts.len() && z1 != z2 implies tpts[z1]
                    != tpts[z2] by {
                    assert(tsp[z1] != tsp[z2]) by {
                        if z1 < z2 {
                            assert(tsp[z1] < tsp[z2]);
                        } else {
                            assert(tsp[z2] < tsp[z1]);
                        }
                    }
                    assert(cells[tsp[z1] as int] != cells[tsp[z2] as int]);
                }
            }
            let spl = spots[tg].len();
            let mut z: usize = 0;
            while z < spl
                invariant
                    cells == region.cells@,
                    g0 == old(state)@,
                    len == cells.len(),
                    model_wf(*model),
                    cells_in_bounds(model.size, cells),
                    cells.no_duplicates(),
                    grid_wf(g0, *model),
                    grid_wf(state@, *model),
                    grid_live(state@),
                    narrows(state@, g0),
                    grid_measure(state@) <= grid_measure(g0),
                    changed ==> grid_measure(state@) < grid_measure(g0),
                    !changed ==> state@ == g0,
                    grid_solved(g0) ==> state@ == g0,
                    crate::state::frame_outside(state@, g0, cells),
                    forall|a: Seq<Seq<i32>>|
                        consistent(g0, a) && sat_unique(a, cells) ==> consistent(state@, a),
                    0 <= z <= spl,
                    0 <= tg < uni@.len(),
                    spots@.len() == uni@.len(),
                    uni@.no_duplicates(),
                    uni@.len() == free_idx@.len(),
                    tsp == (spots@[tg as int])@,
                    spl == tsp.len(),
                    spots_ok(g0, cells, free_idx@, tsp, uni@[tg as int]),
                    hidden_restricted(g0, state@, cells, uni@, tg as int),
                    wvals@.to_set() == hidden_value_group(g0, cells, uni@[tg as int]),
                    hidden_value_group(g0, cells, uni@[tg as int]).len() == wvals@.len(),
                    forall|x: usize|
                        #[trigger] tsp.contains(x) <==> hidden_spot_set(
                            g0,
                            cells,
                            uni@[tg as int],
                        ).contains(x as int),
                    forall|z2: int, w: i32|
                        #![trigger gcell(state@, cells[tsp[z2] as int]).candidates.contains(w)]
                        0 <= z2 < z && gcell(state@, cells[tsp[z2] as int]).value is None && gcell(
                            state@,
                            cells[tsp[z2] as int],
                        ).candidates.contains(w) ==> wvals@.contains(w),
                    forall|t2x: int|
                        0 <= t2x < uni@.len() ==> spots_ok(
                            g0,
                            cells,
                            free_idx@,
                            (#[trigger] spots@[t2x])@,
                            uni@[t2x],
                        ),
                    tpts == Seq::new(tsp.len(), |z2: int| cells[tsp[z2] as int]),
                    tpts.no_duplicates(),
                    wvals@.len() == tsp.len(),
                    wvals@.no_duplicates(),
                    forall|z2: int|
                        0 <= z2 < widx.len() ==> (0 <= #[trigger] widx[z2] < uni@.len()
                            && wvals@[z2] == uni@[widx[z2]] && (spots@[widx[z2]])@ == tsp),
                    widx.len() == wvals@.len(),
                    forall|t1: int, t2x: int|
                        0 <= t1 < t2x < free_idx@.len() ==> (#[trigger] free_idx@[t1]) < (
                        #[trigger] free_idx@[t2x]),
                    forall|t2x: int|
                        0 <= t2x < free_idx@.len() ==> (((#[trigger] free_idx@[t2x]) as int) < len
                            && gcell(g0, cells[free_idx@[t2x] as int]).value is None),
                    forall|t2x: int, ci: int|
                        0 <= t2x < free_idx@.len() && 0 <= ci < gcell(
                            g0,
                            cells[free_idx@[t2x] as int],
                        ).candidates.len() ==> uni@.contains(
                            #[trigger] gcell(
                                g0,
                                cells[(#[trigger] free_idx@[t2x]) as int],
                            ).candidates[ci],
                        ),
                    fpts == Seq::new(free_idx@.len(), |t3: int| cells[free_idx@[t3] as int]),
                    fpts.no_duplicates(),
                decreases spl - z,
            {
                let k = spots[tg][z];
                proof {
                    assert(tsp[z as int] == k);
                    assert(free_idx@.contains(k));
                    assert((k as int) < len);
                }
                let pos_k = region.cells[k];
                proof {
                    assert(cell_in_bounds(model.size, cells[k as int]));
                }
                if state.get(pos_k).value.is_none() {
                    let candk = &state.get(pos_k).candidates;
                    let mut mask: Vec<bool> = Vec::new();
                    let mut mq: usize = 0;
                    while mq < candk.len()
                        invariant
                            0 <= mq <= candk@.len(),
                            mask@.len() == mq,
                            forall|z2: int|
                                0 <= z2 < mq ==> mask@[z2] == wvals@.contains(
                                    #[trigger] candk@[z2],
                                ),
                        decreases candk@.len() - mq,
                    {
                        mask.push(contains_value(&wvals, candk[mq]));
                        mq = mq + 1;
                    }
                    let ghost maskv = mask@;
                    let ghost gprev = state@;
                    let res = limit_with_mask(model, state, pos_k, &mask);
                    proof {
                        lemma_narrows_trans(state@, gprev, g0);
                        assert forall|yy: int, xx: int|
                            0 <= yy < gprev.len() && 0 <= xx < gprev[yy].len() && !cells.contains(
                                Point { x: xx as i32, y: yy as i32 },
                            ) implies #[trigger] state@[yy][xx] == gprev[yy][xx] by {
                            assert(cells[k as int] == pos_k);
                            assert(cells.contains(pos_k));
                            if yy == pos_k.y as int && xx == pos_k.x as int {
                                assert(pos_k == (Point { x: xx as i32, y: yy as i32 }));
                            }
                        }
                        crate::state::lemma_frame_trans(state@, gprev, g0, cells);
                        assert forall|i4: int|
                            0 <= i4 < cells.len() implies pt_in_grid(gprev, #[trigger] cells[i4]) by {
                            assert(cell_in_bounds(model.size, cells[i4]));
                        }
                        lemma_hidden_restricted_narrows(g0, state@, gprev, cells, uni@, tg as int);
                        let keptw = crate::state::filter_mask(gcell(gprev, pos_k).candidates, maskv);
                        crate::state::lemma_filter_mask_membership(
                            gcell(gprev, pos_k).candidates,
                            maskv,
                        );
                        if res != PropagationResult::Contradiction {
                        assert forall|z2: int, w: i32|
                            #![trigger gcell(state@, cells[tsp[z2] as int]).candidates.contains(w)]
                            0 <= z2 < z + 1 && gcell(state@, cells[tsp[z2] as int]).value is None
                                && gcell(state@, cells[tsp[z2] as int]).candidates.contains(
                                w,
                            ) implies wvals@.contains(w) by {
                            if z2 == z {
                                assert(cells[tsp[z2] as int] == pos_k);
                                assert(cell_consistent(gcell(state@, pos_k), w));
                                assert(keptw.contains(w));
                                let q = choose|q: int|
                                    0 <= q < gcell(gprev, pos_k).candidates.len() && maskv[q]
                                        && gcell(gprev, pos_k).candidates[q] == w;
                                assert(maskv[q] == wvals@.contains(w));
                            } else {
                                assert(tsp[z2] != tsp[z as int]) by {
                                    assert(tsp[z2] < tsp[z as int]);
                                }
                                assert(cells[tsp[z2] as int] != cells[tsp[z as int] as int]);
                                assert(gcell(state@, cells[tsp[z2] as int]) == gcell(
                                    gprev,
                                    cells[tsp[z2] as int],
                                ));
                            }
                        }
                        }
                        assert forall|a: Seq<Seq<i32>>|
                            consistent(g0, a) && sat_unique(a, cells) implies res
                            != PropagationResult::Contradiction && consistent(state@, a) by {
                            assert(consistent(gprev, a));
                            assert forall|i2: int|
                                0 <= i2 < cells.len() implies pt_in_grid(
                                g0,
                                #[trigger] cells[i2],
                            ) by {
                                assert(cell_in_bounds(model.size, cells[i2]));
                            }
                            assert forall|t3: int|
                                0 <= t3 < fpts.len() implies (cells.contains(#[trigger] fpts[t3])
                                && gcell(g0, fpts[t3]).value is None) by {
                                assert(fpts[t3] == cells[free_idx@[t3] as int]);
                            }
                            assert forall|t3: int, ci: int|
                                0 <= t3 < fpts.len() && 0 <= ci < gcell(
                                    g0,
                                    fpts[t3],
                                ).candidates.len() implies uni@.contains(
                                #[trigger] gcell(g0, #[trigger] fpts[t3]).candidates[ci],
                            ) by {
                                assert(fpts[t3] == cells[free_idx@[t3] as int]);
                            }
                            assert forall|k2: int|
                                0 <= k2 < wvals@.len() implies uni@.contains(
                                #[trigger] wvals@[k2],
                            ) by {
                                assert(wvals@[k2] == uni@[widx[k2]]);
                                assert(uni@.contains(uni@[widx[k2]]));
                            }
                            assert forall|k2: int, t3: int|
                                0 <= k2 < wvals@.len() && 0 <= t3 < fpts.len() && gcell(
                                    g0,
                                    #[trigger] fpts[t3],
                                ).candidates.contains(#[trigger] wvals@[k2]) implies tpts.contains(
                                fpts[t3],
                            ) by {
                                assert((spots@[widx[k2]])@ == tsp);
                                assert(spots_ok(g0, cells, free_idx@, (spots@[widx[k2]])@, uni@[
                                    widx[k2]]));
                                assert(fpts[t3] == cells[free_idx@[t3] as int]);
                                assert(gcell(
                                    g0,
                                    cells[free_idx@[t3] as int],
                                ).candidates.contains(uni@[widx[k2]]));
                                assert(tsp.contains(free_idx@[t3]));
                                let zz = choose|zz: int|
                                    0 <= zz < tsp.len() && tsp[zz] == free_idx@[t3];
                                assert(tpts[zz] == cells[tsp[zz] as int]);
                                assert(tpts[zz] == fpts[t3]);
                            }
                            lemma_hidden_restricts(
                                g0,
                                cells,
                                a,
                                fpts,
                                uni@,
                                tpts,
                                wvals@,
                                z as int,
                            );
                            assert(tpts[z as int] == cells[k as int]);
                            let av = a[pos_k.y as int][pos_k.x as int];
                            assert(av == val_at(a, cells[k as int]));
                            assert(wvals@.contains(av));
                            assert(cell_consistent(gcell(gprev, pos_k), av));
                            assert(gcell(gprev, pos_k).candidates.contains(av));
                            let iv = choose|iv: int|
                                0 <= iv < gcell(gprev, pos_k).candidates.len() && gcell(
                                    gprev,
                                    pos_k,
                                ).candidates[iv] == av;
                            assert(maskv[iv] && gcell(gprev, pos_k).candidates[iv] == av);
                            assert(cell_consistent(gcell(state@, pos_k), av));
                            assert forall|yy: int, xx: int|
                                0 <= yy < state@.len() && 0 <= xx
                                    < state@[yy].len() implies cell_consistent(
                                #[trigger] state@[yy][xx],
                                a[yy][xx],
                            ) by {
                                if !(yy == pos_k.y as int && xx == pos_k.x as int) {
                                    assert(state@[yy][xx] == gprev[yy][xx]);
                                    assert(cell_consistent(gprev[yy][xx], a[yy][xx]));
                                }
                            }
                        }
                    }
                    if res == PropagationResult::Contradiction {
                        return PropagationResult::Contradiction;
                    }
                    if res == PropagationResult::Changed {
                        changed = true;
                    }
                }
                z = z + 1;
            }
            proof {
                // This anchor's restriction is complete.
                assert forall|t: int, k2: int, w: i32|
                    #![trigger uni@[t], gcell(state@, cells[k2]).candidates.contains(w)]
                    0 <= t < tg + 1 && 0 <= k2 < cells.len() && hidden_value_group(
                        g0,
                        cells,
                        uni@[t],
                    ).len() == hidden_spot_set(g0, cells, uni@[t]).len() && hidden_spot_set(
                        g0,
                        cells,
                        uni@[t],
                    ).contains(k2) && gcell(state@, cells[k2]).value is None && gcell(
                        state@,
                        cells[k2],
                    ).candidates.contains(w) implies hidden_value_group(
                    g0,
                    cells,
                    uni@[t],
                ).contains(w) by {
                    if t == tg {
                        assert(tsp.contains(k2 as usize)) by {
                            assert(hidden_spot_set(g0, cells, uni@[tg as int]).contains((
                            k2 as usize) as int));
                        }
                        let z2 = choose|z2: int| 0 <= z2 < tsp.len() && tsp[z2] == k2 as usize;
                        assert((tsp[z2]) as int == k2);
                        assert(gcell(state@, cells[tsp[z2] as int]).candidates.contains(w));
                        assert(wvals@.contains(w));
                        assert(wvals@.to_set().contains(w));
                    }
                }
            }
        } else {
            proof {
                assert forall|t: int, k2: int, w: i32|
                    #![trigger uni@[t], gcell(state@, cells[k2]).candidates.contains(w)]
                    0 <= t < tg + 1 && 0 <= k2 < cells.len() && hidden_value_group(
                        g0,
                        cells,
                        uni@[t],
                    ).len() == hidden_spot_set(g0, cells, uni@[t]).len() && hidden_spot_set(
                        g0,
                        cells,
                        uni@[t],
                    ).contains(k2) && gcell(state@, cells[k2]).value is None && gcell(
                        state@,
                        cells[k2],
                    ).candidates.contains(w) implies hidden_value_group(
                    g0,
                    cells,
                    uni@[t],
                ).contains(w) by {
                    if t == tg {
                        assert(hidden_value_group(g0, cells, uni@[tg as int]).len() == wvals@
                            .len());
                        assert(hidden_spot_set(g0, cells, uni@[tg as int]).len() == (spots@[
                            tg as int])@.len());
                    }
                }
            }
        }
        tg = tg + 1;
    }
    proof {
        assert forall|k: int, v: i32|
            #![trigger gcell(state@, cells[k]).candidates.contains(v)]
            0 <= k < cells.len() && gcell(state@, cells[k]).value is None && gcell(
                state@,
                cells[k],
            ).candidates.contains(v) implies hidden_union_set(g0, cells).contains(v) by {
            assert(cell_in_bounds(model.size, cells[k]));
            assert(crate::state::cell_narrows(gcell(state@, cells[k]), gcell(g0, cells[k])));
            assert(gcell(g0, cells[k]).value is None);
            assert(gcell(g0, cells[k]).candidates.contains(v));
        }
        assert forall|v: i32, k: int, w: i32|
            #![trigger hidden_spot_set(g0, cells, v).contains(k), gcell(state@, cells[k]).candidates.contains(w)]
            hidden_union_set(g0, cells).contains(v) && hidden_value_group(g0, cells, v).len()
                == hidden_spot_set(g0, cells, v).len() && hidden_spot_set(g0, cells, v).contains(
                k,
            ) && 0 <= k < cells.len() && gcell(state@, cells[k]).value is None && gcell(
                state@,
                cells[k],
            ).candidates.contains(w) implies hidden_value_group(g0, cells, v).contains(w) by {
            assert(uni@.to_set().contains(v));
            assert(uni@.contains(v));
            let t = choose|t: int| 0 <= t < uni@.len() && uni@[t] == v;
            assert(uni@[t] == v);
        }
    }
    if changed {
        PropagationResult::Changed
    } else {
        PropagationResult::Unchanged
    }
}

/// Some region cell is committed to `v`.
pub open spec fn region_committed_value(g: Seq<Seq<CellModel>>, cells: Seq<Point>, v: i32) -> bool {
    exists|j: int| #![trigger cells[j]] 0 <= j < cells.len() && gcell(g, cells[j]).value == Some(v)
}

/// Cell `i` is open and `v` is its only candidate that is not already
/// committed somewhere in the region: the placed-value strip pins it.
pub open spec fn strip_pins(g: Seq<Seq<CellModel>>, cells: Seq<Point>, i: int, v: i32) -> bool {
    &&& gcell(g, cells[i]).value is None
    &&& gcell(g, cells[i]).candidates.contains(v)
    &&& !region_committed_value(g, cells, v)
    &&& (forall|w: i32|
        #![trigger gcell(g, cells[i]).candidates.contains(w)]
        gcell(g, cells[i]).candidates.contains(w) && !region_committed_value(g, cells, w) ==> w
            == v)
}

/// Cell `i` is open and keeps at least one candidate under the
/// placed-value strip.
pub open spec fn strip_keeps_one(g: Seq<Seq<CellModel>>, cells: Seq<Point>, i: int) -> bool {
    exists|v: i32|
        #![trigger gcell(g, cells[i]).candidates.contains(v)]
        gcell(g, cells[i]).candidates.contains(v) && !region_committed_value(g, cells, v)
}

/// Some cell among the first `n` of the region is committed to `v`.
pub open spec fn placed_before(g: Seq<Seq<CellModel>>, cells: Seq<Point>, v: i32, n: int) -> bool {
    exists|j: int| 0 <= j < n && gcell(g, #[trigger] cells[j]).value == Some(v)
}

/// The uniqueness rule over a region: rejects duplicated committed values,
/// strips placed values from open cells, then applies the naked- and
/// hidden-subset inferences.
pub fn limit_unique_clue(model: &SudokuModel, region: &Region, state: &mut SolverState) -> (r:
    PropagationResult)
    requires
        model_wf(*model),
        grid_wf(old(state)@, *model),
        grid_live(old(state)@),
        cells_in_bounds(model.size, region.cells@),
        region.cells@.no_duplicates(),
    ensures
        grid_wf(final(state)@, *model),
        narrows(final(state)@, old(state)@),
        r != PropagationResult::Contradiction ==> grid_live(final(state)@),
        grid_measure(final(state)@) <= grid_measure(old(state)@),
        r == PropagationResult::Changed ==> grid_measure(final(state)@) < grid_measure(
            old(state)@,
        ),
        r == PropagationResult::Unchanged ==> final(state)@ == old(state)@,
        forall|a: Seq<Seq<i32>>|
            consistent(old(state)@, a) && sat_unique(a, region.cells@) ==> r
                != PropagationResult::Contradiction && consistent(final(state)@, a),
        grid_solved(old(state)@) && r != PropagationResult::Contradiction ==> sat_unique(
            assignment_of(old(state)@),
            region.cells@,
        ),
        crate::state::frame_outside(final(state)@, old(state)@, region.cells@),
        r != PropagationResult::Contradiction ==> (forall|i: int, j: int|
            0 <= i < region.cells@.len() && 0 <= j < region.cells@.len() && i != j && gcell(
                old(state)@,
                #[trigger] region.cells@[i],
            ).value is Some && gcell(old(state)@, #[trigger] region.cells@[j]).value is Some
                ==> gcell(old(state)@, region.cells@[i]).value != gcell(
                old(state)@,
                region.cells@[j],
            ).value),
        r != PropagationResult::Contradiction ==> (forall|i: int, j: int|
            0 <= i < region.cells@.len() && 0 <= j < region.cells@.len() && gcell(
                old(state)@,
                #[trigger] region.cells@[j],
            ).value is Some && gcell(final(state)@, #[trigger] region.cells@[i]).value is None
                ==> !gcell(final(state)@, region.cells@[i]).candidates.contains(
                (gcell(old(state)@, region.cells@[j]).value->0),
            )),
        (exists|i: int|
            #![trigger region.cells@[i]]
            0 <= i < region.cells@.len() && gcell(old(state)@, region.cells@[i]).value is None
                && !strip_keeps_one(old(state)@, region.cells@, i)) ==> r
            == PropagationResult::Contradiction,
        r != PropagationResult::Contradiction ==> (forall|i: int, v: i32|
            0 <= i < region.cells@.len() && #[trigger] strip_pins(
                old(state)@,
                region.cells@,
                i,
                v,
            ) ==> gcell(final(state)@, region.cells@[i]).value == Some(v)),
        r == PropagationResult::Unchanged ==> naked_pruned(
            old(state)@,
            old(state)@,
            region.cells@,
            region.cells@.len() as int,
        ),
        r == PropagationResult::Unchanged ==> hidden_union_set(old(state)@, region.cells@).len()
            >= hidden_free_set(old(state)@, region.cells@).len(),
{
    let ghost g0 = old(state)@;
    let ghost cells = region.cells@;
    let len = region.cells.len();
    proof {
        lemma_narrows_refl(g0);
        crate::state::lemma_frame_refl(g0, cells);
    }
    // Collect the committed values; a repeat is an immediate
    // contradiction.
    let mut placed: Vec<i32> = Vec::new();
    let mut i: usize = 0;
    while i < len
        invariant
            cells == region.cells@,
            g0 == state@,
            g0 == old(state)@,
            len == cells.len(),
            model_wf(*model),
            cells_in_bounds(model.size, cells),
            cells.no_duplicates(),
            grid_wf(g0, *model),
            0 <= i <= len,
            placed@.no_duplicates(),
            forall|k: int|
                0 <= k < placed@.len() ==> placed_before(g0, cells, #[trigger] placed@[k], i as int),
            forall|j: int|
                0 <= j < i && gcell(g0, #[trigger] cells[j]).value is Some ==> placed@.contains(
                    gcell(g0, cells[j]).value->0,
                ),
            forall|j1: int, j2: int|
                0 <= j1 < j2 < i && gcell(g0, #[trigger] cells[j1]).value is Some && gcell(
                    g0,
                    #[trigger] cells[j2],
                ).value is Some ==> gcell(g0, cells[j1]).value != gcell(g0, cells[j2]).value,
        decreases len - i,
    {
        let pos = region.cells[i];
        proof {
            assert(cell_in_bounds(model.size, cells[i as int]));
        }
        let cv = state.get(pos).value;
        match cv {
            Some(v) => {
                if contains_value(&placed, v) {
                    proof {
                        let k = choose|k: int| 0 <= k < placed@.len() && placed@[k] == v;
                        assert(placed_before(g0, cells, placed@[k], i as int));
                        let j = choose|j: int|
                            0 <= j < i && gcell(g0, #[trigger] cells[j]).value == Some(
                                placed@[k],
                            );
                        assert forall|a: Seq<Seq<i32>>|
                            consistent(g0, a) && sat_unique(a, cells) implies false by {
                            assert(cell_in_bounds(model.size, cells[j]));
                            assert(cell_consistent(gcell(g0, cells[j]), a[cells[j].y
                                as int][cells[j].x as int]));
                            assert(cell_consistent(gcell(g0, cells[i as int]), a[pos.y
                                as int][pos.x as int]));
                            assert(val_at(a, cells[j]) == v);
                            assert(val_at(a, cells[i as int]) == v);
                            assert(val_at(a, cells[j]) != val_at(a, cells[i as int]));
                        }
                    }
                    return PropagationResult::Contradiction;
                }
                let ghost pprev = placed@;
                proof {
                    lemma_push_unique(pprev, v);
                    lemma_push_contains(pprev, v);
                }
                placed.push(v);
                proof {
                    assert forall|k: int| 0 <= k < placed@.len() implies placed_before(
                        g0,
                        cells,
                        #[trigger] placed@[k],
                        i + 1,
                    ) by {
                        if k < pprev.len() {
                            assert(placed_before(g0, cells, pprev[k], i as int));
                            let j = choose|j: int|
                                0 <= j < i && gcell(g0, #[trigger] cells[j]).value == Some(
                                    pprev[k],
                                );
                            assert(gcell(g0, cells[j]).value == Some(placed@[k]));
                        } else {
                            assert(gcell(g0, cells[i as int]).value == Some(placed@[k]));
                        }
                    }
                    assert forall|j1: int, j2: int|
                        0 <= j1 < j2 < i + 1 && gcell(g0, #[trigger] cells[j1]).value is Some
                            && gcell(g0, #[trigger] cells[j2]).value is Some implies gcell(
                        g0,
                        cells[j1],
                    ).value != gcell(g0, cells[j2]).value by {
                        if j2 == i {
                            assert(placed@.contains(gcell(g0, cells[j1]).value->0) || gcell(
                                g0,
                                cells[j1],
                            ).value->0 == v);
                            if gcell(g0, cells[j1]).value->0 == v {
                                assert(pprev.contains(v));
                            }
                        }
                    }
                }
            },
            None => {},
        }
        i = i + 1;
    }
    proof {
        if grid_solved(g0) {
            assert forall|j1: int, j2: int|
                0 <= j1 < cells.len() && 0 <= j2 < cells.len() && j1 != j2 implies val_at(
                assignment_of(g0),
                #[trigger] cells[j1],
            ) != val_at(assignment_of(g0), #[trigger] cells[j2]) by {
                assert(cell_in_bounds(model.size, cells[j1]));
                assert(cell_in_bounds(model.size, cells[j2]));
                assert(gcell(g0, cells[j1]).value is Some);
                assert(gcell(g0, cells[j2]).value is Some);
                if j1 < j2 {
                    assert(gcell(g0, cells[j1]).value != gcell(g0, cells[j2]).value);
                } else {
                    assert(gcell(g0, cells[j2]).value != gcell(g0, cells[j1]).value);
                }
                assert(val_at(assignment_of(g0), cells[j1]) == gcell(g0, cells[j1]).value->0);
                assert(val_at(assignment_of(g0), cells[j2]) == gcell(g0, cells[j2]).value->0);
            }
            assert(sat_unique(assignment_of(g0), cells));
        }
    }
    proof {
        // The collected placed values are exactly the values committed in
        // the region.
        assert forall|w: i32| #[trigger] placed@.contains(w) implies region_committed_value(
            g0,
            cells,
            w,
        ) by {
            let kk = choose|kk: int| 0 <= kk < placed@.len() && placed@[kk] == w;
            assert(placed_before(g0, cells, placed@[kk], len as int));
            let j = choose|j: int|
                0 <= j < len && gcell(g0, #[trigger] cells[j]).value == Some(placed@[kk]);
        }
        assert forall|w: i32| region_committed_value(g0, cells, w) implies #[trigger] placed@
            .contains(w) by {
            let j = choose|j: int|
                #![trigger cells[j]]
                0 <= j < cells.len() && gcell(g0, cells[j]).value == Some(w);
            assert(gcell(g0, cells[j]).value is Some);
        }
    }
    // Strip the placed values from every open cell.
    let mut changed = false;
    let mut i2: usize = 0;
    while i2 < len
        invariant
            cells == region.cells@,
            g0 == old(state)@,
            len == cells.len(),
            model_wf(*model),
            cells_in_bounds(model.size, cells),
            cells.no_duplicates(),
            grid_wf(g0, *model),
            grid_wf(state@, *model),
            grid_live(state@),
            narrows(state@, g0),
            grid_measure(state@) <= grid_measure(g0),
            changed ==> grid_measure(state@) < grid_measure(g0),
            !changed ==> state@ == g0,
            grid_solved(g0) ==> state@ == g0,
            grid_solved(g0) ==> sat_unique(assignment_of(g0), cells),
            crate::state::frame_outside(state@, g0, cells),
            forall|a: Seq<Seq<i32>>|
                consistent(g0, a) && sat_unique(a, cells) ==> consistent(state@, a),
            forall|j: int, w: i32|
                0 <= j < i2 && gcell(state@, #[trigger] cells[j]).value is None
                    && placed@.contains(w) ==> !(#[trigger] gcell(
                    state@,
                    cells[j],
                ).candidates.contains(w)),
            0 <= i2 <= len,
            forall|k: int|
                0 <= k < placed@.len() ==> placed_before(
                    g0,
                    cells,
                    #[trigger] placed@[k],
                    len as int,
                ),
            forall|w: i32|
                #[trigger] placed@.contains(w) <==> region_committed_value(g0, cells, w),
            forall|j: int|
                i2 <= j < len ==> gcell(state@, #[trigger] cells[j]) == gcell(g0, cells[j]),
            forall|j: int|
                0 <= j < i2 && gcell(g0, #[trigger] cells[j]).value is None ==> strip_keeps_one(
                    g0,
                    cells,
                    j,
                ),
            forall|j: int, v: i32|
                0 <= j < i2 && #[trigger] strip_pins(g0, cells, j, v) ==> gcell(
                    state@,
                    cells[j],
                ).value == Some(v),
        decreases len - i2,
    {
        let pos = region.cells[i2];
        proof {
            assert(cell_in_bounds(model.size, cells[i2 as int]));
        }
        if state.get(pos).value.is_none() {
            let candp = &state.get(pos).candidates;
            let mut mask: Vec<bool> = Vec::new();
            let mut q: usize = 0;
            while q < candp.len()
                invariant
                    0 <= q <= candp@.len(),
                    mask@.len() == q,
                    forall|z: int|
                        0 <= z < q ==> mask@[z] == !placed@.contains(#[trigger] candp@[z]),
                decreases candp@.len() - q,
            {
                mask.push(!contains_value(&placed, candp[q]));
                q = q + 1;
            }
            let ghost maskv = mask@;
            let ghost gprev = state@;
            proof {
                assert(cell_wf(
                    gcell(gprev, pos),
                    model.numbers@,
                    Point { x: pos.x as int as i32, y: pos.y as int as i32 },
                ));
                crate::state::lemma_sorted_no_dup(gcell(gprev, pos).candidates);
            }
            let res = limit_with_mask(model, state, pos, &mask);
            proof {
                lemma_narrows_trans(state@, gprev, g0);
                let placed_now = placed@;
                crate::state::lemma_mask_selects(
                    gcell(gprev, pos).candidates,
                    maskv,
                    |v: i32| !placed_now.contains(v),
                );
                let ghost kept2 = crate::state::filter_mask(gcell(gprev, pos).candidates, maskv);
                assert forall|yy: int, xx: int|
                    0 <= yy < gprev.len() && 0 <= xx < gprev[yy].len() && !cells.contains(
                        Point { x: xx as i32, y: yy as i32 },
                    ) implies #[trigger] state@[yy][xx] == gprev[yy][xx] by {
                    assert(cells[i2 as int] == pos);
                    assert(cells.contains(pos));
                    if yy == pos.y as int && xx == pos.x as int {
                        assert(pos == (Point { x: xx as i32, y: yy as i32 }));
                    }
                }
                crate::state::lemma_frame_trans(state@, gprev, g0, cells);
                if res != PropagationResult::Contradiction {
                    assert forall|j: int, w: i32|
                        0 <= j < i2 + 1 && gcell(state@, #[trigger] cells[j]).value is None
                            && placed@.contains(w) implies !(#[trigger] gcell(
                        state@,
                        cells[j],
                    ).candidates.contains(w)) by {
                        if j < i2 {
                            assert(cells[j] != pos);
                            assert(gcell(state@, cells[j]) == gcell(gprev, cells[j]));
                        } else {
                            assert(cells[j] == pos);
                            if gcell(state@, pos).candidates.contains(w) {
                                assert(cell_consistent(gcell(state@, pos), w));
                                assert(kept2.contains(w));
                            }
                        }
                    }
                }
                assert forall|a: Seq<Seq<i32>>|
                    consistent(g0, a) && sat_unique(a, cells) implies res
                    != PropagationResult::Contradiction && consistent(state@, a) by {
                    assert(consistent(gprev, a));
                    let av = a[pos.y as int][pos.x as int];
                    assert(cell_consistent(gcell(gprev, pos), av));
                    assert(gcell(gprev, pos).candidates.contains(av));
                    assert(!placed@.contains(av)) by {
                        if placed@.contains(av) {
                            let k = choose|k: int|
                                0 <= k < placed@.len() && placed@[k] == av;
                            assert(placed_before(g0, cells, placed@[k], len as int));
                            let j = choose|j: int|
                                0 <= j < len && gcell(g0, #[trigger] cells[j]).value == Some(
                                    placed@[k],
                                );
                            assert(cell_in_bounds(model.size, cells[j]));
                            assert(cell_consistent(gcell(g0, cells[j]), a[cells[j].y
                                as int][cells[j].x as int]));
                            assert(val_at(a, cells[j]) == av);
                            assert(cells[j] != cells[i2 as int]) by {
                                assert(cell_narrows(gcell(gprev, pos), gcell(g0, pos)));
                            }
                            assert(j != i2);
                            assert(val_at(a, cells[j]) != val_at(a, cells[i2 as int]));
                        }
                    }
                    let iv = choose|iv: int|
                        0 <= iv < gcell(gprev, pos).candidates.len() && gcell(
                            gprev,
                            pos,
                        ).candidates[iv] == av;
                    assert(maskv[iv] && gcell(gprev, pos).candidates[iv] == av);
                    assert(cell_consistent(gcell(state@, pos), av));
                    assert forall|yy: int, xx: int|
                        0 <= yy < state@.len() && 0 <= xx < state@[yy].len() implies cell_consistent(
                        #[trigger] state@[yy][xx],
                        a[yy][xx],
                    ) by {
                        if !(yy == pos.y as int && xx == pos.x as int) {
                            assert(state@[yy][xx] == gprev[yy][xx]);
                            assert(cell_consistent(gprev[yy][xx], a[yy][xx]));
                        }
                    }
                }
                if grid_solved(g0) {
                    assert(gcell(g0, cells[i2 as int]).value is Some);
                    assert(false);
                }
            }
            if res == PropagationResult::Contradiction {
                return PropagationResult::Contradiction;
            }
            if res == PropagationResult::Changed {
                changed = true;
            }
            proof {
                let placed_now2 = placed@;
                let kept = crate::state::filter_mask(gcell(gprev, pos).candidates, maskv);
                crate::state::lemma_filter_mask_sorted(gcell(gprev, pos).candidates, maskv);
                assert(gcell(gprev, cells[i2 as int]) == gcell(g0, cells[i2 as int]));
                assert(kept.len() >= 1);
                assert(kept.contains(kept[0]));
                assert(gcell(g0, cells[i2 as int]).candidates.contains(kept[0]));
                assert(!placed@.contains(kept[0]));
                assert(!region_committed_value(g0, cells, kept[0]));
                assert(strip_keeps_one(g0, cells, i2 as int));
                assert forall|v: i32|
                    #[trigger] strip_pins(g0, cells, i2 as int, v) implies gcell(
                    state@,
                    cells[i2 as int],
                ).value == Some(v) by {
                    assert(gcell(g0, cells[i2 as int]).candidates.contains(v));
                    assert(!region_committed_value(g0, cells, v));
                    assert(!placed@.contains(v));
                    assert(kept.contains(v));
                    assert forall|z: int| 0 <= z < kept.len() implies #[trigger] kept[z]
                        == v by {
                        assert(kept.contains(kept[z]));
                        assert(gcell(g0, cells[i2 as int]).candidates.contains(kept[z]));
                        assert(!placed@.contains(kept[z]));
                        assert(!region_committed_value(g0, cells, kept[z]));
                    }
                    assert(kept.len() == 1) by {
                        if kept.len() >= 2 {
                            assert(kept[0] == v && kept[1] == v);
                        }
                    }
                    assert(kept[0] == v);
                }
                assert forall|j: int, v: i32|
                    0 <= j < i2 && #[trigger] strip_pins(g0, cells, j, v) implies gcell(
                    state@,
                    cells[j],
                ).value == Some(v) by {
                    assert(cells[j] != pos);
                    assert(gcell(state@, cells[j]) == gcell(gprev, cells[j]));
                }
                assert forall|j: int|
                    i2 + 1 <= j < len implies gcell(state@, #[trigger] cells[j]) == gcell(
                    g0,
                    cells[j],
                ) by {
                    assert(cells[j] != pos);
                    assert(gcell(state@, cells[j]) == gcell(gprev, cells[j]));
                }
            }
        }
        i2 = i2 + 1;
    }
    // The two subset inferences.
    let ghost gmid = state@;
    let rb = find_obvious_pairs(model, region, state);
    proof {
        lemma_narrows_trans(state@, gmid, g0);
    }
    if rb == PropagationResult::Contradiction {
        proof {
            assert forall|a: Seq<Seq<i32>>|
                consistent(g0, a) && sat_unique(a, cells) implies false by {
                assert(consistent(gmid, a));
            }
        }
        return PropagationResult::Contradiction;
    }
    if rb == PropagationResult::Changed {
        changed = true;
    }
    let ghost gmid2 = state@;
    let rc = find_hidden_pairs(model, region, state);
    proof {
        lemma_narrows_trans(state@, gmid2, g0);
    }
    if rc == PropagationResult::Contradiction {
        proof {
            assert forall|a: Seq<Seq<i32>>|
                consistent(g0, a) && sat_unique(a, cells) implies false by {
                assert(consistent(gmid2, a));
            }
        }
        return PropagationResult::Contradiction;
    }
    if rc == PropagationResult::Changed {
        changed = true;
    }
    proof {
        crate::state::lemma_frame_trans(state@, gmid2, gmid, cells);
        crate::state::lemma_frame_trans(state@, gmid, g0, cells);
        lemma_narrows_trans(state@, gmid2, gmid);
        assert forall|i: int, v: i32|
            0 <= i < cells.len() && #[trigger] strip_pins(g0, cells, i, v) implies gcell(
            state@,
            cells[i],
        ).value == Some(v) by {
            assert(gcell(gmid, cells[i]).value == Some(v));
            assert(cell_in_bounds(model.size, cells[i]));
            assert(crate::state::cell_narrows(gcell(state@, cells[i]), gcell(gmid, cells[i])));
        }
        assert forall|i: int, j: int|
            0 <= i < cells.len() && 0 <= j < cells.len() && gcell(
                g0,
                #[trigger] cells[j],
            ).value is Some && gcell(state@, #[trigger] cells[i]).value is None implies !gcell(
            state@,
            cells[i],
        ).candidates.contains((gcell(g0, cells[j]).value->0)) by {
            let w = gcell(g0, cells[j]).value->0;
            assert(placed@.contains(w));
            assert(crate::state::cell_narrows(gcell(state@, cells[i]), gcell(gmid, cells[i])))
                by {
                assert(cell_in_bounds(model.size, cells[i]));
            }
            assert(gcell(gmid, cells[i]).value is None);
            assert(!gcell(gmid, cells[i]).candidates.contains(w));
            if gcell(state@, cells[i]).candidates.contains(w) {
                assert(gcell(gmid, cells[i]).candidates.contains(w));
            }
        }
    }
    if changed {
        PropagationResult::Changed
    } else {
        PropagationResult::Unchanged
    }
}

} // verus!
