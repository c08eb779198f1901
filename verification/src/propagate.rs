//! Per-constraint propagators: each reads the model and the state, narrows
//! candidate sets or reports contradiction, and says whether anything
//! moved. Every propagator is monotone (candidate sets never grow) and
//! sound (a concrete solution consistent with the input state stays
//! consistent with the output state).

use vstd::prelude::*;

use crate::constraint::{sat_property, sat_property_val, sat_relationship_vals, val_at, Property,
    Relationship};
use crate::model::{cell_in_bounds, cells_in_bounds, model_wf, SudokuModel};
use crate::region::Region;
use crate::constraint::sum_at;
use crate::state::{assignment_of, cand_wf, cell_consistent, cell_narrows, cell_wf, CellModel, consistent,
    filter_mask, gcell, grid_live, grid_measure, grid_solved, grid_wf,
    lemma_filter_mask_membership, lemma_filter_mask_sorted, lemma_grid_measure_update,
    lemma_narrows_refl, lemma_narrows_trans, narrows, Precomputed, precomputed_wf, PropagationResult, SolverState};
use crate::vec2::Point;

verus! {

/// Whether a value is even.
pub fn is_even(c: i32) -> (r: bool)
    ensures
        r == (c as int % 2 == 0),
{
    c % 2 == 0
}

/// Whether a value satisfies a cell property.
fn property_allows(v: i32, property: &Property) -> (r: bool)
    ensures
        r == sat_property_val(v, *property),
{
    match property {
        Property::Even => is_even(v),
        Property::Odd => !is_even(v),
        Property::Given(g) => v == *g,
    }
}

/// Whether the relation holds between two concrete values, `v1` being the
/// first cell's.
fn rel_holds(v1: i32, v2: i32, relationship: &Relationship) -> (r: bool)
    ensures
        r == sat_relationship_vals(v1, v2, *relationship),
{
    match relationship {
        Relationship::Less => v2 < v1,
        Relationship::Greater => v2 > v1,
        Relationship::Equal => v1 == v2,
        Relationship::NotEqual => v1 != v2,
        Relationship::Consecutive => {
            let d = v1 as i64 - v2 as i64;
            d == 1 || d == -1
        },
        Relationship::Double => {
            v1 as i64 == 2 * (v2 as i64) || v2 as i64 == 2 * (v1 as i64)
        },
    }
}

/// Narrows the open cell at `pos` to the candidates the mask keeps, with
/// all the bookkeeping the propagators share: well-formedness, narrowing,
/// the measure, liveness, and which values stay consistent.
pub(crate) fn limit_with_mask(model: &SudokuModel, state: &mut SolverState, pos: Point, keep: &Vec<bool>) -> (r:
    PropagationResult)
    requires
        model_wf(*model),
        grid_wf(old(state)@, *model),
        cell_in_bounds(model.size, pos),
        gcell(old(state)@, pos).value is None,
        keep@.len() == gcell(old(state)@, pos).candidates.len(),
    ensures
        grid_wf(final(state)@, *model),
        narrows(final(state)@, old(state)@),
        grid_measure(final(state)@) <= grid_measure(old(state)@),
        r == PropagationResult::Changed ==> grid_measure(final(state)@) < grid_measure(
            old(state)@,
        ),
        r == PropagationResult::Unchanged ==> final(state)@ == old(state)@,
        r != PropagationResult::Contradiction && grid_live(old(state)@) ==> grid_live(
            final(state)@,
        ),
        (exists|i: int| 0 <= i < keep@.len() && #[trigger] keep@[i]
            && gcell(old(state)@, pos).candidates[i] == gcell(old(state)@, pos).candidates[i])
            ==> r != PropagationResult::Contradiction,
        forall|yy: int, xx: int|
            0 <= yy < old(state)@.len() && 0 <= xx < old(state)@[yy].len() && !(yy == pos.y as int
                && xx == pos.x as int) ==> #[trigger] final(state)@[yy][xx] == old(
                state,
            )@[yy][xx],
        forall|v: i32|
            (exists|i: int|
                0 <= i < keep@.len() && #[trigger] keep@[i] && gcell(
                    old(state)@,
                    pos,
                ).candidates[i] == v) ==> cell_consistent(gcell(final(state)@, pos), v),
        (r == PropagationResult::Contradiction <==> filter_mask(
            gcell(old(state)@, pos).candidates,
            keep@,
        ).len() == 0),
        r != PropagationResult::Contradiction ==> (forall|v: i32|
            cell_consistent(gcell(final(state)@, pos), v) <==> #[trigger] filter_mask(
                gcell(old(state)@, pos).candidates,
                keep@,
            ).contains(v)),
        filter_mask(gcell(old(state)@, pos).candidates, keep@).len() == 1 ==> gcell(
            final(state)@,
            pos,
        ).value == Some(filter_mask(gcell(old(state)@, pos).candidates, keep@)[0]),
{
    let ghost g1 = old(state)@;
    let ghost c1 = gcell(g1, pos);
    let ghost ns = model.numbers@;
    proof {
        assert(g1.len() == model.size.y as int);
        assert(g1[pos.y as int].len() == model.size.x as int);
        assert(cell_wf(
            gcell(g1, pos),
            ns,
            Point { x: pos.x as int as i32, y: pos.y as int as i32 },
        )) by {
            assert(0 <= pos.y && (pos.y as int) < g1.len() && 0 <= pos.x && (pos.x as int) < g1[pos.y as int].len());
        }
        assert(c1.pos == pos);
        lemma_filter_mask_membership(c1.candidates, keep@);
        lemma_filter_mask_sorted(c1.candidates, keep@);
    }
    let r = state.limit_cell(pos, keep);
    let ghost g2 = state@;
    let ghost c2 = gcell(g2, pos);
    let ghost kept = filter_mask(c1.candidates, keep@);
    proof {
        let y = pos.y as int;
        let x = pos.x as int;
        // Well-formedness of the touched cell.
        assert(cell_wf(c2, ns, pos)) by {
            if kept.len() == 1 {
                assert(kept.contains(kept[0]));
                assert(c1.candidates.contains(kept[0]));
                assert(ns.contains(kept[0]));
            } else {
                assert(cand_wf(c2.candidates, ns)) by {
                    assert forall|i: int|
                        0 <= i < c2.candidates.len() implies ns.contains(
                        #[trigger] c2.candidates[i],
                    ) by {
                        assert(c2.candidates.contains(c2.candidates[i]));
                        assert(c1.candidates.contains(c2.candidates[i]));
                    }
                }
            }
        }
        assert(grid_wf(g2, *model)) by {
            assert forall|yy: int, xx: int|
                0 <= yy < g2.len() && 0 <= xx < g2[yy].len() implies cell_wf(
                #[trigger] g2[yy][xx],
                ns,
                Point { x: xx as i32, y: yy as i32 },
            ) by {
                if yy == y && xx == x {
                } else {
                    assert(g2[yy][xx] == g1[yy][xx]);
                }
            }
        }
        // Narrowing.
        assert(narrows(g2, g1)) by {
            assert forall|yy: int, xx: int|
                0 <= yy < g1.len() && 0 <= xx < g1[yy].len() implies cell_narrows(
                #[trigger] g2[yy][xx],
                g1[yy][xx],
            ) by {
                if yy == y && xx == x {
                    assert(cell_narrows(c2, c1)) by {
                        if kept.len() == 1 {
                            assert(kept.contains(kept[0]));
                            assert(c1.candidates.contains(kept[0]));
                        } else {
                            assert forall|v: i32|
                                #[trigger] c2.candidates.contains(v) implies c1
                                .candidates.contains(v) by {}
                        }
                    }
                } else {
                    assert(g2[yy][xx] == g1[yy][xx]);
                    match g1[yy][xx].value {
                        Some(v1) => {},
                        None => {},
                    }
                }
            }
        }
        // Measure.
        assert forall|yy: int| 0 <= yy < g1.len() && yy != y implies g1[yy] == g2[yy] by {
            assert(g1[yy] =~= g2[yy]);
        }
        lemma_grid_measure_update(g1, g2, y, x);
        assert(grid_measure(g2) <= grid_measure(g1));
        if r == PropagationResult::Changed {
            assert(grid_measure(g2) < grid_measure(g1));
        }
        // Liveness.
        if r != PropagationResult::Contradiction && grid_live(g1) {
            assert forall|yy: int, xx: int|
                0 <= yy < g2.len() && 0 <= xx < g2[yy].len() implies ((
            #[trigger] g2[yy][xx]).value is None ==> g2[yy][xx].candidates.len() >= 1) by {
                if !(yy == y && xx == x) {
                    assert(g2[yy][xx] == g1[yy][xx]);
                }
            }
        }
        // No false contradiction, and kept values stay consistent.
        if exists|i: int|
            0 <= i < keep@.len() && #[trigger] keep@[i] && c1.candidates[i] == c1.candidates[i] {
            let i = choose|i: int|
                0 <= i < keep@.len() && #[trigger] keep@[i] && c1.candidates[i]
                    == c1.candidates[i];
            assert(kept.contains(c1.candidates[i]));
            assert(kept.len() >= 1);
        }
        assert forall|v: i32|
            (exists|i: int|
                0 <= i < keep@.len() && #[trigger] keep@[i] && c1.candidates[i]
                    == v) implies cell_consistent(gcell(g2, pos), v) by {
            assert(kept.contains(v));
            if kept.len() == 1 {
                assert(kept[0] == v);
            }
        }
        if r != PropagationResult::Contradiction {
            assert forall|v: i32|
                cell_consistent(gcell(g2, pos), v) <==> #[trigger] kept.contains(v) by {
                if kept.len() == 1 {
                    assert(kept.contains(kept[0]));
                    if kept.contains(v) {
                        let i = choose|i: int| 0 <= i < kept.len() && kept[i] == v;
                        assert(i == 0);
                    }
                }
            }
        }
    }
    r
}

/// No value the cell at region index `i` still admits satisfies the
/// property: the cell cannot be filled.
pub open spec fn property_unsatisfiable_cell(
    g: Seq<Seq<CellModel>>,
    cells: Seq<Point>,
    i: int,
    prop: Property,
) -> bool {
    forall|v: i32| cell_consistent(gcell(g, cells[i]), v) ==> !sat_property_val(v, prop)
}

/// The keep-mask for a cell property over a candidate list.
fn property_mask(candidates: &Vec<i32>, property: &Property) -> (r: Vec<bool>)
    ensures
        r@.len() == candidates@.len(),
        forall|k: int|
            0 <= k < r@.len() ==> r@[k] == sat_property_val(#[trigger] candidates@[k], *property),
{
    let mut mask: Vec<bool> = Vec::new();
    let mut k: usize = 0;
    while k < candidates.len()
        invariant
            0 <= k <= candidates@.len(),
            mask@.len() == k,
            forall|j: int|
                0 <= j < k ==> mask@[j] == sat_property_val(
                    #[trigger] candidates@[j],
                    *property,
                ),
        decreases candidates@.len() - k,
    {
        mask.push(property_allows(candidates[k], property));
        k = k + 1;
    }
    mask
}

/// The keep-mask for a relationship whose other side is committed to `w`.
/// When `first_known` holds, `w` is the first cell's value and the masked
/// cell is the second; otherwise the roles are swapped.
fn relationship_mask(
    candidates: &Vec<i32>,
    w: i32,
    first_known: bool,
    relationship: &Relationship,
) -> (r: Vec<bool>)
    ensures
        r@.len() == candidates@.len(),
        forall|k: int|
            0 <= k < r@.len() ==> r@[k] == (if first_known {
                sat_relationship_vals(w, #[trigger] candidates@[k], *relationship)
            } else {
                sat_relationship_vals(#[trigger] candidates@[k], w, *relationship)
            }),
{
    let mut mask: Vec<bool> = Vec::new();
    let mut k: usize = 0;
    while k < candidates.len()
        invariant
            0 <= k <= candidates@.len(),
            mask@.len() == k,
            forall|j: int|
                0 <= j < k ==> mask@[j] == (if first_known {
                    sat_relationship_vals(w, #[trigger] candidates@[j], *relationship)
                } else {
                    sat_relationship_vals(#[trigger] candidates@[j], w, *relationship)
                }),
        decreases candidates@.len() - k,
    {
        let c = candidates[k];
        let keep = if first_known {
            rel_holds(w, c, relationship)
        } else {
            rel_holds(c, w, relationship)
        };
        mask.push(keep);
        k = k + 1;
    }
    mask
}

/// Applies a cell property over a region: checks committed cells and
/// filters the candidates of open ones.
pub fn limit_property_clue(
    model: &SudokuModel,
    region: &Region,
    state: &mut SolverState,
    property: &Property,
) -> (r: PropagationResult)
    requires
        model_wf(*model),
        grid_wf(old(state)@, *model),
        grid_live(old(state)@),
        cells_in_bounds(model.size, region.cells@),
        region.cells@.no_duplicates(),
    ensures
        grid_wf(final(state)@, *model),
        narrows(final(state)@, old(state)@),
        r != PropagationResult::Contradiction ==> grid_live(final(state)@),
        grid_measure(final(state)@) <= grid_measure(old(state)@),
        r == PropagationResult::Changed ==> grid_measure(final(state)@) < grid_measure(
            old(state)@,
        ),
        r == PropagationResult::Unchanged ==> final(state)@ == old(state)@,
        forall|a: Seq<Seq<i32>>|
            consistent(old(state)@, a) && sat_property(a, region.cells@, *property) ==> r
                != PropagationResult::Contradiction && consistent(final(state)@, a),
        grid_solved(old(state)@) && r != PropagationResult::Contradiction ==> sat_property(
            assignment_of(old(state)@),
            region.cells@,
            *property,
        ),
        crate::state::frame_outside(final(state)@, old(state)@, region.cells@),
        (r == PropagationResult::Contradiction <==> (exists|i: int|
            0 <= i < region.cells@.len() && property_unsatisfiable_cell(
                old(state)@,
                region.cells@,
                i,
                *property,
            ))),
        r != PropagationResult::Contradiction ==> (forall|i: int, v: i32|
            0 <= i < region.cells@.len() && #[trigger] cell_consistent(
                gcell(final(state)@, region.cells@[i]),
                v,
            ) ==> sat_property_val(v, *property)),
{
    let ghost g0 = old(state)@;
    let ghost cells = region.cells@;
    proof {
        crate::state::lemma_frame_refl(g0, cells);
    }
    let mut changed = false;
    let mut i: usize = 0;
    while i < region.cells.len()
        invariant
            model_wf(*model),
            cells == region.cells@,
            cells_in_bounds(model.size, cells),
            cells.no_duplicates(),
            grid_wf(state@, *model),
            grid_wf(g0, *model),
            grid_live(state@),
            narrows(state@, g0),
            g0 == old(state)@,
            grid_measure(state@) <= grid_measure(g0),
            changed ==> grid_measure(state@) < grid_measure(g0),
            !changed ==> state@ == g0,
            forall|a: Seq<Seq<i32>>|
                consistent(g0, a) && sat_property(a, cells, *property) ==> consistent(state@, a),
            grid_solved(g0) ==> state@ == g0,
            grid_solved(g0) ==> forall|j: int|
                0 <= j < i ==> sat_property_val(
                    val_at(assignment_of(g0), #[trigger] cells[j]),
                    *property,
                ),
            0 <= i <= cells.len(),
            crate::state::frame_outside(state@, g0, cells),
            forall|j: int|
                i <= j < cells.len() ==> gcell(state@, #[trigger] cells[j]) == gcell(
                    g0,
                    cells[j],
                ),
            forall|j: int, v: i32|
                0 <= j < i && #[trigger] cell_consistent(gcell(state@, cells[j]), v)
                    ==> sat_property_val(v, *property),
            forall|j: int|
                0 <= j < i ==> (exists|v: i32|
                    cell_consistent(gcell(g0, #[trigger] cells[j]), v) && sat_property_val(
                        v,
                        *property,
                    )),
        decreases cells.len() - i,
    {
        let pos = region.cells[i];
        proof {
            assert(cell_in_bounds(model.size, cells[i as int]));
            assert(gcell(state@, cells[i as int]) == gcell(g0, cells[i as int]));
        }
        let cellv = state.get(pos).value;
        match cellv {
            Some(v) => {
                if !property_allows(v, property) {
                    proof {
                        assert(gcell(g0, pos).value == Some(v));
                        assert(property_unsatisfiable_cell(g0, cells, i as int, *property)) by {
                            assert forall|w: i32|
                                cell_consistent(
                                    gcell(g0, cells[i as int]),
                                    w,
                                ) implies !sat_property_val(w, *property) by {}
                        }
                        assert forall|a: Seq<Seq<i32>>|
                            consistent(g0, a) && sat_property(a, cells, *property) implies false by {
                            assert(consistent(state@, a));
                            assert(cell_consistent(gcell(state@, pos), a[pos.y as int][pos.x
                                as int]));
                            assert(val_at(a, cells[i as int]) == v);
                            assert(sat_property_val(val_at(a, cells[i as int]), *property));
                        }
                    }
                    return PropagationResult::Contradiction;
                }
                proof {
                    assert(gcell(g0, pos).value == Some(v));
                    if grid_solved(g0) {
                        assert(val_at(assignment_of(g0), cells[i as int]) == v);
                    }
                    assert(cell_consistent(gcell(g0, cells[i as int]), v));
                    assert forall|w: i32|
                        cell_consistent(gcell(state@, cells[i as int]), w) implies sat_property_val(
                        w,
                        *property,
                    ) by {}
                }
            },
            None => {
                proof {
                    assert(gcell(g0, pos).value is None);
                    assert(cell_wf(
                        gcell(g0, pos),
                        model.numbers@,
                        Point { x: pos.x as int as i32, y: pos.y as int as i32 },
                    ));
                    crate::state::lemma_sorted_no_dup(gcell(g0, pos).candidates);
                }
                let mask = property_mask(&state.get(pos).candidates, property);
                let ghost maskv = mask@;
                let ghost gprev = state@;
                let res = limit_with_mask(model, state, pos, &mask);
                proof {
                    lemma_narrows_trans(state@, gprev, g0);
                    let prop = *property;
                    crate::state::lemma_mask_selects(
                        gcell(g0, pos).candidates,
                        maskv,
                        |v: i32| sat_property_val(v, prop),
                    );
                    assert forall|yy: int, xx: int|
                        0 <= yy < gprev.len() && 0 <= xx < gprev[yy].len() && !cells.contains(
                            Point { x: xx as i32, y: yy as i32 },
                        ) implies #[trigger] state@[yy][xx] == gprev[yy][xx] by {
                        assert(cells.contains(pos));
                        if yy == pos.y as int && xx == pos.x as int {
                            assert(pos == (Point { x: xx as i32, y: yy as i32 }));
                        }
                    }
                    crate::state::lemma_frame_trans(state@, gprev, g0, cells);
                }
                let ghost kept = crate::state::filter_mask(gcell(g0, pos).candidates, maskv);
                if res == PropagationResult::Contradiction {
                    proof {
                        assert(property_unsatisfiable_cell(g0, cells, i as int, *property)) by {
                            assert forall|w: i32|
                                cell_consistent(
                                    gcell(g0, cells[i as int]),
                                    w,
                                ) implies !sat_property_val(w, *property) by {
                                if sat_property_val(w, *property) {
                                    assert(kept.contains(w));
                                }
                            }
                        }
                        assert forall|a: Seq<Seq<i32>>|
                            consistent(g0, a) && sat_property(a, cells, *property) implies false by {
                            assert(consistent(gprev, a));
                            let av = a[pos.y as int][pos.x as int];
                            assert(cell_consistent(gcell(gprev, pos), av));
                            assert(gcell(gprev, pos).candidates.contains(av));
                            assert(sat_property_val(val_at(a, cells[i as int]), *property));
                            assert(kept.contains(av));
                        }
                    }
                    return PropagationResult::Contradiction;
                }
                if res == PropagationResult::Changed {
                    changed = true;
                }
                proof {
                    assert(kept.len() > 0);
                    assert(kept.contains(kept[0]));
                    assert(cell_consistent(gcell(g0, cells[i as int]), kept[0])
                        && sat_property_val(kept[0], *property));
                    assert forall|w: i32|
                        cell_consistent(gcell(state@, cells[i as int]), w) implies sat_property_val(
                        w,
                        *property,
                    ) by {
                        assert(kept.contains(w));
                    }
                    assert forall|j: int, v: i32|
                        0 <= j < i + 1 && #[trigger] cell_consistent(
                            gcell(state@, cells[j]),
                            v,
                        ) implies sat_property_val(v, *property) by {
                        if j < i {
                            assert(cells[j] != pos);
                            assert(gcell(state@, cells[j]) == gcell(gprev, cells[j]));
                        }
                    }
                    assert forall|j: int|
                        i + 1 <= j < cells.len() implies gcell(state@, #[trigger] cells[j])
                        == gcell(g0, cells[j]) by {
                        assert(cells[j] != pos);
                        assert(gcell(gprev, cells[j]) == gcell(g0, cells[j]));
                    }
                    assert forall|a: Seq<Seq<i32>>|
                        consistent(g0, a) && sat_property(a, cells, *property) implies consistent(
                        state@,
                        a,
                    ) by {
                        assert(consistent(gprev, a));
                        let av = a[pos.y as int][pos.x as int];
                        assert(cell_consistent(gcell(gprev, pos), av));
                        assert(gcell(gprev, pos).candidates.contains(av));
                        assert(sat_property_val(val_at(a, cells[i as int]), *property));
                        assert(kept.contains(av));
                        assert(cell_consistent(gcell(state@, pos), av));
                        assert forall|yy: int, xx: int|
                            0 <= yy < state@.len() && 0 <= xx
                                < state@[yy].len() implies cell_consistent(
                            #[trigger] state@[yy][xx],
                            a[yy][xx],
                        ) by {
                            if !(yy == pos.y as int && xx == pos.x as int) {
                                assert(state@[yy][xx] == gprev[yy][xx]);
                                assert(cell_consistent(gprev[yy][xx], a[yy][xx]));
                            }
                        }
                    }
                }
            },
        }
        i = i + 1;
    }
    proof {
        assert forall|j: int|
            0 <= j < cells.len() implies !property_unsatisfiable_cell(
            g0,
            cells,
            j,
            *property,
        ) by {
            let v = choose|v: i32|
                cell_consistent(gcell(g0, #[trigger] cells[j]), v) && sat_property_val(
                    v,
                    *property,
                );
            if property_unsatisfiable_cell(g0, cells, j, *property) {
                assert(!sat_property_val(v, *property));
            }
        }
    }
    if changed {
        PropagationResult::Changed
    } else {
        PropagationResult::Unchanged
    }
}

/// Applies a binary relationship between two distinct cells: verifies it
/// when both are committed, prunes the open side when one is, and reports
/// no information when neither is.
pub fn limit_relationship_clue(
    model: &SudokuModel,
    first: Point,
    second: Point,
    relationship: &Relationship,
    state: &mut SolverState,
) -> (r: PropagationResult)
    requires
        model_wf(*model),
        grid_wf(old(state)@, *model),
        grid_live(old(state)@),
        cell_in_bounds(model.size, first),
        cell_in_bounds(model.size, second),
        first != second,
    ensures
        grid_wf(final(state)@, *model),
        narrows(final(state)@, old(state)@),
        r != PropagationResult::Contradiction ==> grid_live(final(state)@),
        grid_measure(final(state)@) <= grid_measure(old(state)@),
        r == PropagationResult::Changed ==> grid_measure(final(state)@) < grid_measure(
            old(state)@,
        ),
        r == PropagationResult::Unchanged ==> final(state)@ == old(state)@,
        forall|a: Seq<Seq<i32>>|
            consistent(old(state)@, a) && sat_relationship_vals(
                val_at(a, first),
                val_at(a, second),
                *relationship,
            ) ==> r != PropagationResult::Contradiction && consistent(final(state)@, a),
        grid_solved(old(state)@) && r != PropagationResult::Contradiction
            ==> sat_relationship_vals(
            val_at(assignment_of(old(state)@), first),
            val_at(assignment_of(old(state)@), second),
            *relationship,
        ),
        crate::state::frame_outside(final(state)@, old(state)@, seq![first, second]),
        ({
            let g1 = old(state)@;
            let vf = gcell(g1, first).value;
            let vs = gcell(g1, second).value;
            &&& (vf is Some && vs is Some ==> final(state)@ == g1 && (r
                == PropagationResult::Contradiction <==> !sat_relationship_vals(
                vf->0,
                vs->0,
                *relationship,
            )))
            &&& (vf is None && vs is None ==> r == PropagationResult::Unchanged && final(state)@
                == g1)
            &&& (vf is Some && vs is None ==> ({
                &&& gcell(final(state)@, first) == gcell(g1, first)
                &&& (r == PropagationResult::Contradiction <==> (forall|v: i32|
                    gcell(g1, second).candidates.contains(v) ==> !sat_relationship_vals(
                        vf->0,
                        v,
                        *relationship,
                    )))
                &&& (r != PropagationResult::Contradiction ==> (forall|v: i32|
                    cell_consistent(gcell(final(state)@, second), v) <==> (gcell(
                        g1,
                        second,
                    ).candidates.contains(v) && sat_relationship_vals(vf->0, v, *relationship))))
            }))
            &&& (vf is None && vs is Some ==> ({
                &&& gcell(final(state)@, second) == gcell(g1, second)
                &&& (r == PropagationResult::Contradiction <==> (forall|v: i32|
                    gcell(g1, first).candidates.contains(v) ==> !sat_relationship_vals(
                        v,
                        vs->0,
                        *relationship,
                    )))
                &&& (r != PropagationResult::Contradiction ==> (forall|v: i32|
                    cell_consistent(gcell(final(state)@, first), v) <==> (gcell(
                        g1,
                        first,
                    ).candidates.contains(v) && sat_relationship_vals(v, vs->0, *relationship))))
            }))
        }),
{
    let ghost g0 = old(state)@;
    let v1 = state.get(first).value;
    let v2 = state.get(second).value;
    proof {
        lemma_narrows_refl(g0);
        crate::state::lemma_frame_refl(g0, seq![first, second]);
    }
    match (v1, v2) {
        (Option::None, Option::None) => {
            PropagationResult::Unchanged
        },
        (Option::Some(a1), Option::Some(a2)) => {
            if rel_holds(a1, a2, relationship) {
                proof {
                    if grid_solved(g0) {
                        assert(val_at(assignment_of(g0), first) == a1);
                        assert(val_at(assignment_of(g0), second) == a2);
                    }
                }
                PropagationResult::Unchanged
            } else {
                proof {
                    assert forall|a: Seq<Seq<i32>>|
                        consistent(g0, a) && sat_relationship_vals(
                            val_at(a, first),
                            val_at(a, second),
                            *relationship,
                        ) implies false by {
                        assert(cell_consistent(gcell(g0, first), a[first.y as int][first.x
                            as int]));
                        assert(cell_consistent(gcell(g0, second), a[second.y as int][second.x
                            as int]));
                        assert(val_at(a, first) == a1 && val_at(a, second) == a2);
                    }
                }
                PropagationResult::Contradiction
            }
        },
        (Option::Some(w), Option::None) => {
            proof {
                assert(cell_wf(
                    gcell(g0, second),
                    model.numbers@,
                    Point { x: second.x as int as i32, y: second.y as int as i32 },
                ));
                crate::state::lemma_sorted_no_dup(gcell(g0, second).candidates);
            }
            let mask = relationship_mask(&state.get(second).candidates, w, true, relationship);
            let ghost maskv = mask@;
            let res = limit_with_mask(model, state, second, &mask);
            proof {
                let rel = *relationship;
                crate::state::lemma_mask_selects(
                    gcell(g0, second).candidates,
                    maskv,
                    |v: i32| sat_relationship_vals(w, v, rel),
                );
                let kept = crate::state::filter_mask(gcell(g0, second).candidates, maskv);
                assert((res == PropagationResult::Contradiction) == (forall|v: i32|
                    gcell(g0, second).candidates.contains(v) ==> !sat_relationship_vals(
                        w,
                        v,
                        rel,
                    ))) by {
                    if kept.len() == 0 {
                        assert forall|v: i32|
                            gcell(g0, second).candidates.contains(v) implies !sat_relationship_vals(
                            w,
                            v,
                            rel,
                        ) by {
                            if sat_relationship_vals(w, v, rel) {
                                assert(kept.contains(v));
                            }
                        }
                    } else {
                        assert(kept.contains(kept[0]));
                    }
                }
                if res != PropagationResult::Contradiction {
                    assert forall|v: i32|
                        cell_consistent(gcell(state@, second), v) == (gcell(
                            g0,
                            second,
                        ).candidates.contains(v) && sat_relationship_vals(w, v, rel)) by {
                        assert(cell_consistent(gcell(state@, second), v) <==> kept.contains(v));
                    }
                }
                assert(gcell(state@, first) == gcell(g0, first)) by {
                    assert(first.x != second.x || first.y != second.y);
                }
                assert forall|yy: int, xx: int|
                    0 <= yy < g0.len() && 0 <= xx < g0[yy].len() && !seq![first, second].contains(
                        Point { x: xx as i32, y: yy as i32 },
                    ) implies #[trigger] state@[yy][xx] == g0[yy][xx] by {
                    assert(seq![first, second][1] == second);
                    assert(seq![first, second].contains(second));
                    if yy == second.y as int && xx == second.x as int {
                        assert(second == (Point { x: xx as i32, y: yy as i32 }));
                    }
                }
                assert forall|a: Seq<Seq<i32>>|
                    consistent(g0, a) && sat_relationship_vals(
                        val_at(a, first),
                        val_at(a, second),
                        *relationship,
                    ) implies res != PropagationResult::Contradiction && consistent(
                    state@,
                    a,
                ) by {
                    assert(cell_consistent(gcell(g0, first), a[first.y as int][first.x as int]));
                    assert(val_at(a, first) == w);
                    let av = a[second.y as int][second.x as int];
                    assert(cell_consistent(gcell(g0, second), av));
                    assert(gcell(g0, second).candidates.contains(av));
                    let iv = choose|iv: int|
                        0 <= iv < gcell(g0, second).candidates.len() && gcell(
                            g0,
                            second,
                        ).candidates[iv] == av;
                    assert(mask@[iv] && gcell(g0, second).candidates[iv] == av);
                    assert(cell_consistent(gcell(state@, second), av));
                    assert forall|yy: int, xx: int|
                        0 <= yy < state@.len() && 0 <= xx < state@[yy].len() implies cell_consistent(
                        #[trigger] state@[yy][xx],
                        a[yy][xx],
                    ) by {
                        if !(yy == second.y as int && xx == second.x as int) {
                            assert(state@[yy][xx] == g0[yy][xx]);
                            assert(cell_consistent(g0[yy][xx], a[yy][xx]));
                        }
                    }
                }
            }
            res
        },
        (Option::None, Option::Some(w)) => {
            proof {
                assert(cell_wf(
                    gcell(g0, first),
                    model.numbers@,
                    Point { x: first.x as int as i32, y: first.y as int as i32 },
                ));
                crate::state::lemma_sorted_no_dup(gcell(g0, first).candidates);
            }
            let mask = relationship_mask(&state.get(first).candidates, w, false, relationship);
            let ghost maskv = mask@;
            let res = limit_with_mask(model, state, first, &mask);
            proof {
                let rel = *relationship;
                crate::state::lemma_mask_selects(
                    gcell(g0, first).candidates,
                    maskv,
                    |v: i32| sat_relationship_vals(v, w, rel),
                );
                let kept = crate::state::filter_mask(gcell(g0, first).candidates, maskv);
                assert((res == PropagationResult::Contradiction) == (forall|v: i32|
                    gcell(g0, first).candidates.contains(v) ==> !sat_relationship_vals(
                        v,
                        w,
                        rel,
                    ))) by {
                    if kept.len() == 0 {
                        assert forall|v: i32|
                            gcell(g0, first).candidates.contains(v) implies !sat_relationship_vals(
                            v,
                            w,
                            rel,
                        ) by {
                            if sat_relationship_vals(v, w, rel) {
                                assert(kept.contains(v));
                            }
                        }
                    } else {
                        assert(kept.contains(kept[0]));
                    }
                }
                if res != PropagationResult::Contradiction {
                    assert forall|v: i32|
                        cell_consistent(gcell(state@, first), v) == (gcell(
                            g0,
                            first,
                        ).candidates.contains(v) && sat_relationship_vals(v, w, rel)) by {
                        assert(cell_consistent(gcell(state@, first), v) <==> kept.contains(v));
                    }
                }
                assert(gcell(state@, second) == gcell(g0, second)) by {
                    assert(first.x != second.x || first.y != second.y);
                }
                assert forall|yy: int, xx: int|
                    0 <= yy < g0.len() && 0 <= xx < g0[yy].len() && !seq![first, second].contains(
                        Point { x: xx as i32, y: yy as i32 },
                    ) implies #[trigger] state@[yy][xx] == g0[yy][xx] by {
                    assert(seq![first, second][0] == first);
                    assert(seq![first, second].contains(first));
                    if yy == first.y as int && xx == first.x as int {
                        assert(first == (Point { x: xx as i32, y: yy as i32 }));
                    }
                }
                assert forall|a: Seq<Seq<i32>>|
                    consistent(g0, a) && sat_relationship_vals(
                        val_at(a, first),
                        val_at(a, second),
                        *relationship,
                    ) implies res != PropagationResult::Contradiction && consistent(
                    state@,
                    a,
                ) by {
                    assert(cell_consistent(gcell(g0, second), a[second.y as int][second.x
                        as int]));
                    assert(val_at(a, second) == w);
                    let av = a[first.y as int][first.x as int];
                    assert(cell_consistent(gcell(g0, first), av));
                    assert(gcell(g0, first).candidates.contains(av));
                    let iv = choose|iv: int|
                        0 <= iv < gcell(g0, first).candidates.len() && gcell(
                            g0,
                            first,
                        ).candidates[iv] == av;
                    assert(mask@[iv] && gcell(g0, first).candidates[iv] == av);
                    assert(cell_consistent(gcell(state@, first), av));
                    assert forall|yy: int, xx: int|
                        0 <= yy < state@.len() && 0 <= xx < state@[yy].len() implies cell_consistent(
                        #[trigger] state@[yy][xx],
                        a[yy][xx],
                    ) by {
                        if !(yy == first.y as int && xx == first.x as int) {
                            assert(state@[yy][xx] == g0[yy][xx]);
                            assert(cell_consistent(g0[yy][xx], a[yy][xx]));
                        }
                    }
                }
            }
            res
        },
    }
}

/// Every admissible value is positive.
pub open spec fn all_positive(ns: Seq<i32>) -> bool {
    forall|i: int| 0 <= i < ns.len() ==> #[trigger] ns[i] >= 1
}

/// A cell position lies inside a grid's rows.
pub open spec fn pt_in_grid(g: Seq<Seq<CellModel>>, p: Point) -> bool {
    &&& 0 <= p.y
    &&& (p.y as int) < g.len()
    &&& 0 <= p.x
    &&& (p.x as int) < g[p.y as int].len()
}

/// The sum of the committed values over an ordered cell list; open cells
/// contribute nothing.
pub open spec fn committed_sum(g: Seq<Seq<CellModel>>, cells: Seq<Point>) -> int
    decreases cells.len(),
{
    if cells.len() == 0 {
        0
    } else {
        committed_sum(g, cells.drop_last()) + (match gcell(g, cells.last()).value {
            Some(v) => v as int,
            None => 0int,
        })
    }
}

/// The open cells of an ordered cell list, in order.
pub open spec fn free_cells(g: Seq<Seq<CellModel>>, cells: Seq<Point>) -> Seq<Point>
    decreases cells.len(),
{
    if cells.len() == 0 {
        Seq::empty()
    } else {
        free_cells(g, cells.drop_last()) + (if gcell(g, cells.last()).value is None {
            seq![cells.last()]
        } else {
            Seq::empty()
        })
    }
}

/// The assignment's values over an ordered cell list.
pub open spec fn vals_at(a: Seq<Seq<i32>>, cells: Seq<Point>) -> Seq<i32> {
    Seq::new(cells.len(), |i: int| val_at(a, cells[i]))
}

/// A cell-list sum can be peeled off at the back.
proof fn lemma_sum_at_drop_last(a: Seq<Seq<i32>>, cells: Seq<Point>)
    requires
        cells.len() >= 1,
    ensures
        sum_at(a, cells) == sum_at(a, cells.drop_last()) + val_at(a, cells.last()) as int,
    decreases cells.len(),
{
    if cells.len() == 1 {
        assert(sum_at(a, cells) == val_at(a, cells[0]) as int + sum_at(a, cells.drop_first()));
        assert(sum_at(a, cells.drop_first()) == 0);
        assert(sum_at(a, cells.drop_last()) == 0);
    } else {
        lemma_sum_at_drop_last(a, cells.drop_first());
        assert(cells.drop_first().drop_last() =~= cells.drop_last().drop_first());
        assert(cells.drop_last()[0] == cells[0]);
        assert(cells.drop_first().last() == cells.last());
        assert(sum_at(a, cells) == val_at(a, cells[0]) as int + sum_at(a, cells.drop_first()));
        assert(sum_at(a, cells.drop_last()) == val_at(a, cells.drop_last()[0]) as int + sum_at(
            a,
            cells.drop_last().drop_first(),
        ));
    }
}

/// A cell-list sum equals the sum of the value sequence it induces.
proof fn lemma_sum_at_is_seq_sum(a: Seq<Seq<i32>>, cells: Seq<Point>)
    ensures
        sum_at(a, cells) == crate::sums::seq_sum(vals_at(a, cells)),
    decreases cells.len(),
{
    if cells.len() > 0 {
        lemma_sum_at_is_seq_sum(a, cells.drop_first());
        assert(vals_at(a, cells).drop_first() =~= vals_at(a, cells.drop_first()));
        assert(vals_at(a, cells)[0] == val_at(a, cells[0]));
    }
}

/// A consistent assignment's sum over a cell list splits into the
/// committed part and the part over the open cells.
proof fn lemma_killer_split(g: Seq<Seq<CellModel>>, cells: Seq<Point>, a: Seq<Seq<i32>>)
    requires
        consistent(g, a),
        forall|i: int| 0 <= i < cells.len() ==> pt_in_grid(g, #[trigger] cells[i]),
    ensures
        sum_at(a, cells) == committed_sum(g, cells) + sum_at(a, free_cells(g, cells)),
    decreases cells.len(),
{
    if cells.len() > 0 {
        let prev = cells.drop_last();
        assert forall|i: int| 0 <= i < prev.len() implies pt_in_grid(g, #[trigger] prev[i]) by {
            assert(prev[i] == cells[i]);
        }
        lemma_killer_split(g, prev, a);
        lemma_sum_at_drop_last(a, cells);
        let p = cells.last();
        assert(pt_in_grid(g, p));
        assert(cell_consistent(gcell(g, p), a[p.y as int][p.x as int]));
        match gcell(g, p).value {
            Some(v) => {
                assert(free_cells(g, cells) =~= free_cells(g, prev));
                assert(val_at(a, p) == v);
            },
            None => {
                let f = free_cells(g, prev);
                assert(free_cells(g, cells) =~= f + seq![p]);
                assert((f + seq![p]).drop_last() =~= f);
                assert((f + seq![p]).last() == p);
                if f.len() + 1 >= 1 {
                    lemma_sum_at_drop_last(a, f + seq![p]);
                }
            },
        }
    }
}

/// The open cells of a duplicate-free list are themselves duplicate-free
/// open cells of the list.
proof fn lemma_free_cells_props(g: Seq<Seq<CellModel>>, cells: Seq<Point>)
    requires
        cells.no_duplicates(),
    ensures
        free_cells(g, cells).no_duplicates(),
        free_cells(g, cells).len() <= cells.len(),
        forall|i: int|
            0 <= i < free_cells(g, cells).len() ==> (gcell(g, #[trigger] free_cells(g, cells)[i])
                .value is None && cells.contains(free_cells(g, cells)[i])),
    decreases cells.len(),
{
    if cells.len() > 0 {
        let prev = cells.drop_last();
        assert(prev.no_duplicates()) by {
            assert forall|i: int, j: int|
                0 <= i < prev.len() && 0 <= j < prev.len() && i != j implies prev[i] != prev[j] by {
                assert(cells[i] != cells[j]);
            }
        }
        lemma_free_cells_props(g, prev);
        let f = free_cells(g, prev);
        let p = cells.last();
        assert forall|i: int| 0 <= i < f.len() implies cells.contains(#[trigger] f[i]) by {
            assert(prev.contains(f[i]));
            let k = choose|k: int| 0 <= k < prev.len() && prev[k] == f[i];
            assert(cells[k] == f[i]);
        }
        if gcell(g, p).value is None {
            assert(free_cells(g, cells) =~= f.push(p));
            assert(!f.contains(p)) by {
                if f.contains(p) {
                    let k = choose|k: int| 0 <= k < f.len() && f[k] == p;
                    assert(prev.contains(p));
                    let q = choose|q: int| 0 <= q < prev.len() && prev[q] == p;
                    assert(cells[q] == cells[cells.len() - 1]);
                }
            }
            crate::seq_facts::lemma_push_unique(f, p);
            crate::seq_facts::lemma_push_contains(f, p);
            assert forall|i: int|
                0 <= i < free_cells(g, cells).len() implies (gcell(
                g,
                #[trigger] free_cells(g, cells)[i],
            ).value is None && cells.contains(free_cells(g, cells)[i])) by {
                if i < f.len() {
                    assert(free_cells(g, cells)[i] == f[i]);
                } else {
                    assert(free_cells(g, cells)[i] == p);
                    assert(cells.contains(p)) by {
                        assert(cells[cells.len() - 1] == p);
                    }
                }
            }
        } else {
            assert(free_cells(g, cells) =~= f);
        }
    }
}

/// For a consistent assignment that makes a region's values pairwise
/// distinct, the region's sum splits into the committed part plus a sum of
/// distinct admissible values, which the prefix sums bound.
proof fn lemma_killer_bounds(m: SudokuModel, g: Seq<Seq<CellModel>>, cells: Seq<Point>, a: Seq<
    Seq<i32>,
>)
    requires
        model_wf(m),
        grid_wf(g, m),
        cells_in_bounds(m.size, cells),
        cells.no_duplicates(),
        consistent(g, a),
        crate::constraint::sat_unique(a, cells),
    ensures
        ({
            let f = free_cells(g, cells);
            &&& sum_at(a, cells) == committed_sum(g, cells) + sum_at(a, f)
            &&& f.len() <= m.numbers@.len()
            &&& crate::sums::lo_sum(m.numbers@, f.len() as int) <= sum_at(a, f)
            &&& sum_at(a, f) <= crate::sums::hi_sum(m.numbers@, f.len() as int)
            &&& (all_positive(m.numbers@) ==> sum_at(a, f) >= f.len())
        }),
{
    let ns = m.numbers@;
    let f = free_cells(g, cells);
    assert forall|i: int| 0 <= i < cells.len() implies pt_in_grid(g, #[trigger] cells[i]) by {
        assert(cell_in_bounds(m.size, cells[i]));
    }
    lemma_killer_split(g, cells, a);
    lemma_free_cells_props(g, cells);
    let vals = vals_at(a, f);
    assert forall|i: int, j: int|
        0 <= i < vals.len() && 0 <= j < vals.len() && i != j implies vals[i] != vals[j] by {
        assert(f[i] != f[j]);
        assert(cells.contains(f[i]) && cells.contains(f[j]));
        let ci = choose|ci: int| 0 <= ci < cells.len() && cells[ci] == f[i];
        let cj = choose|cj: int| 0 <= cj < cells.len() && cells[cj] == f[j];
        assert(ci != cj);
        assert(val_at(a, cells[ci]) != val_at(a, cells[cj]));
    }
    assert forall|i: int| 0 <= i < vals.len() implies ns.contains(#[trigger] vals[i]) by {
        let p = f[i];
        assert(cells.contains(p));
        let ci = choose|ci: int| 0 <= ci < cells.len() && cells[ci] == p;
        assert(cell_in_bounds(m.size, cells[ci]));
        assert(pt_in_grid(g, p));
        assert(cell_consistent(gcell(g, p), a[p.y as int][p.x as int]));
        assert(gcell(g, p).value is None);
        assert(gcell(g, p).candidates.contains(val_at(a, p)));
        assert(cell_wf(
            gcell(g, p),
            ns,
            Point { x: p.x as int as i32, y: p.y as int as i32 },
        ));
        let k = choose|k: int|
            0 <= k < gcell(g, p).candidates.len() && gcell(g, p).candidates[k] == val_at(a, p);
        assert(ns.contains(gcell(g, p).candidates[k]));
    }
    assert(vals.no_duplicates());
    vstd::seq_lib::seq_to_set_is_finite::<i32>(ns);
    ns.lemma_cardinality_of_set();
    crate::seq_facts::lemma_distinct_within(vals, ns.to_set());
    assert(vals.len() <= ns.len());
    crate::sums::lemma_distinct_sum_bounds(vals, ns);
    lemma_sum_at_is_seq_sum(a, f);
    if all_positive(ns) {
        assert forall|i: int| 0 <= i < vals.len() implies (#[trigger] vals[i]) >= 1 by {
            assert(ns.contains(vals[i]));
            let k = choose|k: int| 0 <= k < ns.len() && ns[k] == vals[i];
            assert(ns[k] >= 1);
        }
        crate::sums::lemma_seq_sum_positive(vals);
    }
}

/// A solved grid is consistent with the assignment it denotes.
proof fn lemma_solved_consistent(g: Seq<Seq<CellModel>>)
    requires
        grid_solved(g),
    ensures
        consistent(g, assignment_of(g)),
{
    let a = assignment_of(g);
    assert forall|y: int, x: int|
        0 <= y < g.len() && 0 <= x < g[y].len() implies cell_consistent(
        #[trigger] g[y][x],
        a[y][x],
    ) by {
        assert(g[y][x].value is Some);
        assert(a[y][x] == g[y][x].value->0);
    }
}

/// The killer rule over a cage: sums the committed cells, and bounds the
/// open part by the prefix sums; pins the last open cell when only one
/// remains.
pub fn limit_killer_clue(
    model: &SudokuModel,
    region: &Region,
    sum: i32,
    precomputed: &Precomputed,
    state: &mut SolverState,
) -> (r: PropagationResult)
    requires
        model_wf(*model),
        grid_wf(old(state)@, *model),
        grid_live(old(state)@),
        cells_in_bounds(model.size, region.cells@),
        region.cells@.no_duplicates(),
        precomputed_wf(*precomputed, model.numbers@),
    ensures
        grid_wf(final(state)@, *model),
        narrows(final(state)@, old(state)@),
        r != PropagationResult::Contradiction ==> grid_live(final(state)@),
        grid_measure(final(state)@) <= grid_measure(old(state)@),
        r == PropagationResult::Changed ==> grid_measure(final(state)@) < grid_measure(
            old(state)@,
        ),
        r == PropagationResult::Unchanged ==> final(state)@ == old(state)@,
        forall|a: Seq<Seq<i32>>|
            consistent(old(state)@, a) && crate::constraint::sat_killer(a, region.cells@, sum)
                && crate::constraint::sat_unique(a, region.cells@) && all_positive(model.numbers@)
                ==> r != PropagationResult::Contradiction && consistent(final(state)@, a),
        grid_solved(old(state)@) && r != PropagationResult::Contradiction
            ==> crate::constraint::sat_killer(assignment_of(old(state)@), region.cells@, sum),
        crate::state::frame_outside(final(state)@, old(state)@, region.cells@),
        ({
            let g1 = old(state)@;
            let cells = region.cells@;
            let ns = model.numbers@;
            let s = committed_sum(g1, cells);
            let fc = free_cells(g1, cells);
            let k = fc.len() as int;
            &&& (s > sum as int ==> r == PropagationResult::Contradiction && final(state)@ == g1)
            &&& (s == sum as int && k > 0 ==> r == PropagationResult::Contradiction
                && final(state)@ == g1)
            &&& (s == sum as int && k == 0 ==> r == PropagationResult::Unchanged && final(state)@
                == g1)
            &&& (s < sum as int && k > ns.len() ==> r == PropagationResult::Contradiction
                && final(state)@ == g1)
            &&& (s < sum as int && k <= ns.len() && s + crate::sums::hi_sum(ns, k) < sum as int
                ==> r == PropagationResult::Contradiction && final(state)@ == g1)
            &&& (s < sum as int && k <= ns.len() && s + crate::sums::lo_sum(ns, k) > sum as int
                ==> r == PropagationResult::Contradiction && final(state)@ == g1)
            &&& (s < sum as int && k <= ns.len() && s + crate::sums::hi_sum(ns, k) >= sum as int
                && s + crate::sums::lo_sum(ns, k) <= sum as int && k >= 2
                ==> r == PropagationResult::Unchanged && final(state)@ == g1)
            &&& (s < sum as int && k <= ns.len() && s + crate::sums::hi_sum(ns, k) >= sum as int
                && s + crate::sums::lo_sum(ns, k) <= sum as int && k == 1 ==> {
                &&& r != PropagationResult::Unchanged
                &&& (r == PropagationResult::Contradiction <==> (forall|v: i32|
                    gcell(g1, fc[0]).candidates.contains(v) ==> s + v as int != sum as int))
                &&& (r != PropagationResult::Contradiction ==> (forall|v: i32|
                    cell_consistent(gcell(final(state)@, fc[0]), v) <==> (gcell(
                        g1,
                        fc[0],
                    ).candidates.contains(v) && s + v as int == sum as int)))
            })
        }),
{
    let ghost g0 = old(state)@;
    let ghost cells = region.cells@;
    let ghost ns = model.numbers@;
    proof {
        crate::sums::lemma_points_count(cells, model.size);
        lemma_narrows_refl(g0);
        crate::state::lemma_frame_refl(g0, cells);
    }
    let mut s: i64 = 0;
    let mut unknowns: Vec<Point> = Vec::new();
    let mut i: usize = 0;
    while i < region.cells.len()
        invariant
            cells == region.cells@,
            g0 == state@,
            g0 == old(state)@,
            grid_wf(g0, *model),
            cells_in_bounds(model.size, cells),
            cells.len() <= 0x4000_0000,
            0 <= i <= cells.len(),
            s as int == committed_sum(g0, cells.take(i as int)),
            unknowns@ == free_cells(g0, cells.take(i as int)),
            unknowns@.len() <= i,
            -(i * 0x8000_0000) <= s as int <= i * 0x8000_0000,
        decreases cells.len() - i,
    {
        let pos = region.cells[i];
        proof {
            assert(cell_in_bounds(model.size, cells[i as int]));
            assert(cells.take(i + 1).drop_last() =~= cells.take(i as int));
            assert(cells.take(i + 1).last() == cells[i as int]);
        }
        let cv = state.get(pos).value;
        match cv {
            Some(v) => {
                s = s + v as i64;
                proof {
                    assert(free_cells(g0, cells.take(i + 1)) =~= unknowns@);
                }
            },
            None => {
                unknowns.push(pos);
                proof {
                    assert(free_cells(g0, cells.take(i + 1)) =~= unknowns@);
                }
            },
        }
        i = i + 1;
    }
    proof {
        assert(cells.take(cells.len() as int) =~= cells);
    }
    let ghost fcells = free_cells(g0, cells);
    if s > sum as i64 {
        proof {
            assert forall|a: Seq<Seq<i32>>|
                consistent(g0, a) && crate::constraint::sat_killer(a, cells, sum)
                    && crate::constraint::sat_unique(a, cells) && all_positive(ns) implies false by {
                lemma_killer_bounds(*model, g0, cells, a);
            }
        }
        return PropagationResult::Contradiction;
    }
    let k = unknowns.len();
    proof {
        if grid_solved(g0) {
            lemma_free_cells_props(g0, cells);
            if fcells.len() > 0 {
                let p = fcells[0];
                assert(cells.contains(p));
                let ci = choose|ci: int| 0 <= ci < cells.len() && cells[ci] == p;
                assert(cell_in_bounds(model.size, cells[ci]));
                assert(gcell(g0, p).value is Some);
            }
            assert(k == 0);
            lemma_solved_consistent(g0);
            assert forall|i2: int|
                0 <= i2 < cells.len() implies pt_in_grid(g0, #[trigger] cells[i2]) by {
                assert(cell_in_bounds(model.size, cells[i2]));
            }
            lemma_killer_split(g0, cells, assignment_of(g0));
            assert(sum_at(assignment_of(g0), fcells) == 0);
            assert(sum_at(assignment_of(g0), cells) == s as int);
        }
    }
    if s == sum as i64 {
        if k > 0 {
            proof {
                assert forall|a: Seq<Seq<i32>>|
                    consistent(g0, a) && crate::constraint::sat_killer(a, cells, sum)
                        && crate::constraint::sat_unique(a, cells) && all_positive(
                        ns,
                    ) implies false by {
                    lemma_killer_bounds(*model, g0, cells, a);
                }
            }
            return PropagationResult::Contradiction;
        }
        return PropagationResult::Unchanged;
    }
    if k > model.numbers.len() {
        proof {
            assert forall|a: Seq<Seq<i32>>|
                consistent(g0, a) && crate::constraint::sat_killer(a, cells, sum)
                    && crate::constraint::sat_unique(a, cells) && all_positive(ns) implies false by {
                lemma_killer_bounds(*model, g0, cells, a);
            }
        }
        return PropagationResult::Contradiction;
    }
    proof {
        crate::sums::lemma_prefix_sum_bounds(ns, k as int);
        assert(k <= 0x4000_0000);
    }
    let lo = precomputed.lowest_sums[k];
    let hi = precomputed.highest_sums[k];
    if s + hi < sum as i64 {
        proof {
            assert forall|a: Seq<Seq<i32>>|
                consistent(g0, a) && crate::constraint::sat_killer(a, cells, sum)
                    && crate::constraint::sat_unique(a, cells) && all_positive(ns) implies false by {
                lemma_killer_bounds(*model, g0, cells, a);
            }
        }
        return PropagationResult::Contradiction;
    }
    if s + lo > sum as i64 {
        proof {
            assert forall|a: Seq<Seq<i32>>|
                consistent(g0, a) && crate::constraint::sat_killer(a, cells, sum)
                    && crate::constraint::sat_unique(a, cells) && all_positive(ns) implies false by {
                lemma_killer_bounds(*model, g0, cells, a);
            }
        }
        return PropagationResult::Contradiction;
    }
    if k == 1 {
        let pos = unknowns[0];
        proof {
            lemma_free_cells_props(g0, cells);
            assert(fcells[0] == pos);
            assert(gcell(g0, pos).value is None);
            assert(cells.contains(pos));
            let ci = choose|ci: int| 0 <= ci < cells.len() && cells[ci] == pos;
            assert(cell_in_bounds(model.size, cells[ci]));
        }
        let cand = &state.get(pos).candidates;
        let mut mask: Vec<bool> = Vec::new();
        let mut j: usize = 0;
        while j < cand.len()
            invariant
                -0x2000_0000_0000_0000 <= s as int <= 0x2000_0000_0000_0000,
                0 <= j <= cand@.len(),
                mask@.len() == j,
                forall|q: int|
                    0 <= q < j ==> mask@[q] == (s as int + (#[trigger] cand@[q]) as int == sum
                        as int),
            decreases cand@.len() - j,
        {
            mask.push(s + cand[j] as i64 == sum as i64);
            j = j + 1;
        }
        let ghost maskv = mask@;
        proof {
            assert(gcell(g0, pos).value is None);
            assert(cell_wf(
                gcell(g0, pos),
                ns,
                Point { x: pos.x as int as i32, y: pos.y as int as i32 },
            ));
            crate::state::lemma_sorted_no_dup(gcell(g0, pos).candidates);
        }
        let res = limit_with_mask(model, state, pos, &mask);
        proof {
            let sg = s as int;
            crate::state::lemma_mask_selects(
                gcell(g0, pos).candidates,
                maskv,
                |v: i32| sg + v as int == sum as int,
            );
            let kept = crate::state::filter_mask(gcell(g0, pos).candidates, maskv);
            crate::state::lemma_filter_mask_sorted(gcell(g0, pos).candidates, maskv);
            assert(res != PropagationResult::Unchanged) by {
                if res == PropagationResult::Unchanged {
                    assert(kept.len() >= 1) by {
                        if kept.len() == 0 {
                            assert(res == PropagationResult::Contradiction);
                        }
                    }
                    if kept.len() >= 2 {
                        assert(kept.contains(kept[0]) && kept.contains(kept[1]));
                        assert(sg + kept[0] as int == sum as int);
                        assert(sg + kept[1] as int == sum as int);
                        assert(kept[0] == kept[1]);
                    }
                    assert(kept.len() == 1);
                    assert(gcell(state@, pos).value == Some(kept[0]));
                    assert(state@ == g0);
                }
            }
            assert((res == PropagationResult::Contradiction) == (forall|v: i32|
                gcell(g0, fcells[0]).candidates.contains(v) ==> s + v as int != sum as int)) by {
                if kept.len() == 0 {
                    assert forall|v: i32|
                        gcell(g0, fcells[0]).candidates.contains(v) implies s + v as int != sum
                        as int by {
                        if sg + v as int == sum as int {
                            assert(kept.contains(v));
                        }
                    }
                } else {
                    assert(kept.contains(kept[0]));
                }
            }
            assert forall|yy: int, xx: int|
                0 <= yy < g0.len() && 0 <= xx < g0[yy].len() && !cells.contains(
                    Point { x: xx as i32, y: yy as i32 },
                ) implies #[trigger] state@[yy][xx] == g0[yy][xx] by {
                assert(cells.contains(pos));
                if yy == pos.y as int && xx == pos.x as int {
                    assert(pos == (Point { x: xx as i32, y: yy as i32 }));
                }
            }
            if res != PropagationResult::Contradiction {
                assert forall|v: i32|
                    cell_consistent(gcell(state@, fcells[0]), v) == (gcell(
                        g0,
                        fcells[0],
                    ).candidates.contains(v) && s as int + v as int == sum as int) by {
                    assert(cell_consistent(gcell(state@, pos), v) <==> kept.contains(v));
                }
            }
            assert forall|a: Seq<Seq<i32>>|
                consistent(g0, a) && crate::constraint::sat_killer(a, cells, sum)
                    && crate::constraint::sat_unique(a, cells) && all_positive(ns) implies res
                != PropagationResult::Contradiction && consistent(state@, a) by {
                lemma_killer_bounds(*model, g0, cells, a);
                assert(sum_at(a, fcells) == val_at(a, pos) as int) by {
                    assert(fcells =~= seq![pos]);
                    assert(sum_at(a, seq![pos]) == val_at(a, pos) as int + sum_at(
                        a,
                        seq![pos].drop_first(),
                    ));
                    assert(sum_at(a, seq![pos].drop_first()) == 0);
                }
                assert(s as int + val_at(a, pos) as int == sum as int);
                let av = a[pos.y as int][pos.x as int];
                assert(cell_consistent(gcell(g0, pos), av));
                assert(gcell(g0, pos).candidates.contains(av));
                let iv = choose|iv: int|
                    0 <= iv < gcell(g0, pos).candidates.len() && gcell(g0, pos).candidates[iv]
                        == av;
                assert(maskv[iv] && gcell(g0, pos).candidates[iv] == av);
                assert(cell_consistent(gcell(state@, pos), av));
                assert forall|yy: int, xx: int|
                    0 <= yy < state@.len() && 0 <= xx < state@[yy].len() implies cell_consistent(
                    #[trigger] state@[yy][xx],
                    a[yy][xx],
                ) by {
                    if !(yy == pos.y as int && xx == pos.x as int) {
                        assert(state@[yy][xx] == g0[yy][xx]);
                        assert(cell_consistent(g0[yy][xx], a[yy][xx]));
                    }
                }
            }
        }
        return res;
    }
    PropagationResult::Unchanged
}

/// The position of an admissible value in the sorted value list.
pub open spec fn nidx(ns: Seq<i32>, v: i32) -> int {
    choose|i: int| 0 <= i < ns.len() && ns[i] == v
}

/// For a value the sorted list holds, `nidx` is its unique position.
proof fn lemma_nidx(ns: Seq<i32>, v: i32)
    requires
        crate::model::sorted_strict(ns),
        ns.contains(v),
    ensures
        0 <= nidx(ns, v) < ns.len(),
        ns[nidx(ns, v)] == v,
        forall|i: int| 0 <= i < ns.len() && ns[i] == v ==> i == nidx(ns, v),
{
    let k = choose|i: int| 0 <= i < ns.len() && ns[i] == v;
    assert(ns[nidx(ns, v)] == v);
    assert forall|i: int| 0 <= i < ns.len() && ns[i] == v implies i == nidx(ns, v) by {
        let j = nidx(ns, v);
        if i < j {
            assert(ns[i] < ns[j]);
        } else if j < i {
            assert(ns[j] < ns[i]);
        }
    }
}

/// Positions in the sorted list order the same way the values do.
proof fn lemma_nidx_increasing(ns: Seq<i32>, v1: i32, v2: i32)
    requires
        crate::model::sorted_strict(ns),
        ns.contains(v1),
        ns.contains(v2),
        v1 < v2,
    ensures
        nidx(ns, v1) < nidx(ns, v2),
{
    lemma_nidx(ns, v1);
    lemma_nidx(ns, v2);
    let i1 = nidx(ns, v1);
    let i2 = nidx(ns, v2);
    if i2 < i1 {
        assert(ns[i2] < ns[i1]);
    } else if i1 == i2 {
    }
}

/// The least admissible-value position the cell at line position `i` can
/// take, carried left to right: a committed cell pins its own value's
/// position, and an open cell must exceed the bound of its left
/// neighbour.
pub open spec fn thermo_min(
    g: Seq<Seq<CellModel>>,
    cells: Seq<Point>,
    ns: Seq<i32>,
    i: int,
) -> int
    decreases i,
{
    let c = gcell(g, cells[i]);
    if c.value is Some {
        nidx(ns, c.value->0)
    } else if i <= 0 {
        0
    } else {
        thermo_min(g, cells, ns, i - 1) + 1
    }
}

/// A consistent assignment draws every cell's value from the admissible
/// values.
proof fn lemma_consistent_val_in_ns(m: SudokuModel, g: Seq<Seq<CellModel>>, a: Seq<Seq<i32>>, p:
    Point)
    requires
        model_wf(m),
        grid_wf(g, m),
        consistent(g, a),
        cell_in_bounds(m.size, p),
    ensures
        m.numbers@.contains(val_at(a, p)),
{
    assert(cell_consistent(gcell(g, p), a[p.y as int][p.x as int]));
    assert(cell_wf(gcell(g, p), m.numbers@, Point { x: p.x as int as i32, y: p.y as int as i32 }));
    match gcell(g, p).value {
        Some(v) => {
            assert(val_at(a, p) == v);
        },
        None => {
            assert(gcell(g, p).candidates.contains(val_at(a, p)));
            let k = choose|k: int|
                0 <= k < gcell(g, p).candidates.len() && gcell(g, p).candidates[k] == val_at(a, p);
            assert(m.numbers@.contains(gcell(g, p).candidates[k]));
        },
    }
}

/// Along a satisfied thermometer, the value positions grow at least as
/// fast as the cell positions.
proof fn lemma_thermo_idx_chain(m: SudokuModel, g: Seq<Seq<CellModel>>, a: Seq<Seq<i32>>, cells:
    Seq<Point>, j: int)
    requires
        model_wf(m),
        grid_wf(g, m),
        consistent(g, a),
        cells_in_bounds(m.size, cells),
        crate::constraint::sat_thermometer(a, cells),
        0 <= j < cells.len(),
    ensures
        j <= nidx(m.numbers@, val_at(a, cells[j])),
        nidx(m.numbers@, val_at(a, cells[j])) < m.numbers@.len(),
    decreases j,
{
    let ns = m.numbers@;
    assert(cell_in_bounds(m.size, cells[j]));
    lemma_consistent_val_in_ns(m, g, a, cells[j]);
    lemma_nidx(ns, val_at(a, cells[j]));
    if j > 0 {
        lemma_thermo_idx_chain(m, g, a, cells, j - 1);
        assert(val_at(a, cells[j - 1]) < val_at(a, cells[j - 1 + 1]));
        lemma_consistent_val_in_ns(m, g, a, cells[j - 1]);
        lemma_nidx_increasing(ns, val_at(a, cells[j - 1]), val_at(a, cells[j]));
    }
}

/// The thermometer rule over an ordered line: a left-to-right scan carries
/// the least admissible value position each cell can take; committed cells
/// must meet it, and open cells drop all candidates below it.
pub fn limit_thermometer_clue(
    line: &crate::region::Line,
    model: &SudokuModel,
    state: &mut SolverState,
) -> (r: PropagationResult)
    requires
        model_wf(*model),
        grid_wf(old(state)@, *model),
        grid_live(old(state)@),
        cells_in_bounds(model.size, line.cells@),
    ensures
        grid_wf(final(state)@, *model),
        narrows(final(state)@, old(state)@),
        r != PropagationResult::Contradiction ==> grid_live(final(state)@),
        grid_measure(final(state)@) <= grid_measure(old(state)@),
        r == PropagationResult::Changed ==> grid_measure(final(state)@) < grid_measure(
            old(state)@,
        ),
        r == PropagationResult::Unchanged ==> final(state)@ == old(state)@,
        forall|a: Seq<Seq<i32>>|
            consistent(old(state)@, a) && crate::constraint::sat_thermometer(a, line.cells@) ==> r
                != PropagationResult::Contradiction && consistent(final(state)@, a),
        grid_solved(old(state)@) && r != PropagationResult::Contradiction
            ==> crate::constraint::sat_thermometer(assignment_of(old(state)@), line.cells@),
        crate::state::frame_outside(final(state)@, old(state)@, line.cells@),
        line.cells@.len() > model.numbers@.len() ==> r == PropagationResult::Contradiction
            && final(state)@ == old(state)@,
        r != PropagationResult::Contradiction ==> (forall|i: int|
            0 <= i < line.cells@.len() ==> #[trigger] thermo_min(
                old(state)@,
                line.cells@,
                model.numbers@,
                i,
            ) < model.numbers@.len()),
        r != PropagationResult::Contradiction ==> (forall|i: int|
            1 <= i < line.cells@.len() && gcell(old(state)@, #[trigger] line.cells@[i]).value
                is Some ==> nidx(
                model.numbers@,
                (gcell(old(state)@, line.cells@[i]).value->0),
            ) >= thermo_min(old(state)@, line.cells@, model.numbers@, i - 1) + 1),
        r != PropagationResult::Contradiction ==> (forall|i: int, v: i32|
            #![trigger gcell(final(state)@, line.cells@[i]).candidates.contains(v)]
            0 <= i < line.cells@.len() && gcell(final(state)@, line.cells@[i]).value is None
                && gcell(final(state)@, line.cells@[i]).candidates.contains(v) ==> (
            model.numbers@.contains(v) && nidx(model.numbers@, v) >= thermo_min(
                old(state)@,
                line.cells@,
                model.numbers@,
                i,
            ))),
{
    let ghost g0 = old(state)@;
    let ghost cells = line.cells@;
    let ghost ns = model.numbers@;
    let len = line.cells.len();
    proof {
        lemma_narrows_refl(g0);
        crate::state::lemma_frame_refl(g0, cells);
    }
    let n = model.numbers.len();
    if len > n {
        proof {
            assert forall|a: Seq<Seq<i32>>|
                consistent(g0, a) && crate::constraint::sat_thermometer(a, cells) implies false by {
                lemma_thermo_idx_chain(*model, g0, a, cells, cells.len() - 1);
            }
        }
        return PropagationResult::Contradiction;
    }
    // Left-to-right scan of per-position minimum value positions.
    let mut mins: Vec<usize> = Vec::new();
    let mut offset: usize = 0;
    let mut i: usize = 0;
    while i < len
        invariant
            cells == line.cells@,
            ns == model.numbers@,
            g0 == state@,
            g0 == old(state)@,
            model_wf(*model),
            grid_wf(g0, *model),
            cells_in_bounds(model.size, cells),
            len == cells.len(),
            n == ns.len(),
            len <= n,
            0 <= i <= len,
            mins@.len() == i,
            offset < n,
            i == 0 ==> offset == 0,
            forall|j: int| 0 <= j < i ==> (#[trigger] mins@[j]) < n,
            forall|j: int|
                0 <= j < i ==> (#[trigger] mins@[j]) as int == thermo_min(g0, cells, ns, j),
            i >= 1 ==> (i - 1) + offset == thermo_min(g0, cells, ns, i - 1),
            forall|j: int|
                1 <= j < i && gcell(g0, #[trigger] cells[j]).value is Some ==> nidx(
                    ns,
                    (gcell(g0, cells[j]).value->0),
                ) >= thermo_min(g0, cells, ns, j - 1) + 1,
            forall|a: Seq<Seq<i32>>, j: int|
                consistent(g0, a) && crate::constraint::sat_thermometer(a, cells) && 0 <= j < i
                    ==> nidx(ns, #[trigger] val_at(a, cells[j])) >= mins@[j],
            forall|a: Seq<Seq<i32>>|
                consistent(g0, a) && crate::constraint::sat_thermometer(a, cells) && i >= 1
                    ==> nidx(ns, #[trigger] val_at(a, cells[i - 1])) >= i - 1 + offset,
            grid_solved(g0) ==> forall|j: int|
                1 <= j < i ==> val_at(assignment_of(g0), cells[j - 1]) < val_at(
                    assignment_of(g0),
                    #[trigger] cells[j],
                ),
            grid_solved(g0) && i >= 1 ==> {
                let c = gcell(g0, cells[i - 1]);
                &&& c.value is Some
                &&& ns.contains(c.value->0)
                &&& nidx(ns, c.value->0) == i - 1 + offset
            },
        decreases len - i,
    {
        let pos = line.cells[i];
        proof {
            assert(cell_in_bounds(model.size, cells[i as int]));
        }
        let cv = state.get(pos).value;
        match cv {
            Some(v) => {
                let vi = match model.number_index(v) {
                    Some(x) => x,
                    None => {
                        proof {
                            assert(cell_wf(
                                gcell(g0, pos),
                                ns,
                                Point { x: pos.x as int as i32, y: pos.y as int as i32 },
                            ));
                            assert(ns.contains(v));
                            assert(false);
                        }
                        return PropagationResult::Contradiction;
                    },
                };
                proof {
                    assert(ns.contains(v)) by {
                        assert(ns[vi as int] == v);
                    }
                    lemma_nidx(ns, v);
                    assert(vi as int == nidx(ns, v));
                }
                if vi < i + offset {
                    proof {
                        assert forall|a: Seq<Seq<i32>>|
                            consistent(g0, a) && crate::constraint::sat_thermometer(
                                a,
                                cells,
                            ) implies false by {
                            assert(cell_consistent(gcell(g0, pos), a[pos.y as int][pos.x
                                as int]));
                            assert(val_at(a, cells[i as int]) == v);
                            if i == 0 {
                                lemma_thermo_idx_chain(*model, g0, a, cells, 0);
                            } else {
                                assert(nidx(ns, val_at(a, cells[i - 1])) >= i - 1 + offset);
                                assert(val_at(a, cells[i - 1]) < val_at(a, cells[i - 1 + 1]));
                                lemma_consistent_val_in_ns(*model, g0, a, cells[i - 1]);
                                lemma_consistent_val_in_ns(*model, g0, a, cells[i as int]);
                                lemma_nidx_increasing(
                                    ns,
                                    val_at(a, cells[i - 1]),
                                    val_at(a, cells[i as int]),
                                );
                            }
                        }
                    }
                    return PropagationResult::Contradiction;
                }
                proof {
                    assert(gcell(g0, pos).value == Some(v));
                    assert(thermo_min(g0, cells, ns, i as int) == vi as int);
                    if i >= 1 {
                        assert(nidx(ns, (gcell(g0, cells[i as int]).value->0)) >= thermo_min(
                            g0,
                            cells,
                            ns,
                            i - 1,
                        ) + 1) by {
                            assert(vi as int >= (i - 1) + offset + 1);
                        }
                    }
                    if grid_solved(g0) {
                        assert(val_at(assignment_of(g0), cells[i as int]) == v);
                        if i >= 1 {
                            let cprev = gcell(g0, cells[i - 1]);
                            assert(nidx(ns, cprev.value->0) == i - 1 + offset);
                            lemma_nidx(ns, cprev.value->0);
                            assert(nidx(ns, v) == vi as int >= i + offset);
                            assert(ns[nidx(ns, cprev.value->0)] < ns[nidx(ns, v)]) by {
                                lemma_nidx(ns, v);
                            }
                            assert(val_at(assignment_of(g0), cells[i - 1]) == cprev.value->0);
                        }
                    }
                    assert forall|a: Seq<Seq<i32>>|
                        consistent(g0, a) && crate::constraint::sat_thermometer(a, cells)
                            && i + 1 >= 1 implies nidx(ns, #[trigger] val_at(a, cells[i + 1 - 1]))
                        >= i + 1 - 1 + (vi - i) by {
                        assert(cell_consistent(gcell(g0, pos), a[pos.y as int][pos.x as int]));
                        assert(val_at(a, cells[i as int]) == v);
                    }
                }
                offset = vi - i;
                mins.push(vi);
            },
            None => {
                let mi = i + offset;
                if mi >= n {
                    proof {
                        assert forall|a: Seq<Seq<i32>>|
                            consistent(g0, a) && crate::constraint::sat_thermometer(
                                a,
                                cells,
                            ) implies false by {
                            if i == 0 {
                                lemma_thermo_idx_chain(*model, g0, a, cells, 0);
                            } else {
                                assert(nidx(ns, val_at(a, cells[i - 1])) >= i - 1 + offset);
                                assert(val_at(a, cells[i - 1]) < val_at(a, cells[i - 1 + 1]));
                                lemma_consistent_val_in_ns(*model, g0, a, cells[i - 1]);
                                lemma_consistent_val_in_ns(*model, g0, a, cells[i as int]);
                                lemma_nidx_increasing(
                                    ns,
                                    val_at(a, cells[i - 1]),
                                    val_at(a, cells[i as int]),
                                );
                                lemma_nidx(ns, val_at(a, cells[i as int]));
                            }
                        }
                    }
                    return PropagationResult::Contradiction;
                }
                proof {
                    if grid_solved(g0) {
                        assert(gcell(g0, cells[i as int]).value is Some);
                        assert(false);
                    }
                    assert(gcell(g0, pos).value is None);
                    assert(thermo_min(g0, cells, ns, i as int) == mi as int) by {
                        if i == 0 {
                        } else {
                            assert(thermo_min(g0, cells, ns, i as int) == thermo_min(
                                g0,
                                cells,
                                ns,
                                i - 1,
                            ) + 1);
                        }
                    }
                    assert forall|a: Seq<Seq<i32>>|
                        consistent(g0, a) && crate::constraint::sat_thermometer(a, cells)
                            && i + 1 >= 1 implies nidx(ns, #[trigger] val_at(a, cells[i + 1 - 1]))
                        >= i + 1 - 1 + offset by {
                        if i == 0 {
                            lemma_thermo_idx_chain(*model, g0, a, cells, 0);
                        } else {
                            assert(nidx(ns, val_at(a, cells[i - 1])) >= i - 1 + offset);
                            assert(val_at(a, cells[i - 1]) < val_at(a, cells[i - 1 + 1]));
                            lemma_consistent_val_in_ns(*model, g0, a, cells[i - 1]);
                            lemma_consistent_val_in_ns(*model, g0, a, cells[i as int]);
                            lemma_nidx_increasing(
                                ns,
                                val_at(a, cells[i - 1]),
                                val_at(a, cells[i as int]),
                            );
                        }
                    }
                }
                mins.push(mi);
            },
        }
        i = i + 1;
    }
    // Pruning pass: drop candidates whose value position is below the
    // carried minimum.
    let mut changed = false;
    let mut i2: usize = 0;
    while i2 < len
        invariant
            cells == line.cells@,
            ns == model.numbers@,
            g0 == old(state)@,
            model_wf(*model),
            grid_wf(g0, *model),
            grid_wf(state@, *model),
            grid_live(state@),
            narrows(state@, g0),
            grid_measure(state@) <= grid_measure(g0),
            changed ==> grid_measure(state@) < grid_measure(g0),
            !changed ==> state@ == g0,
            grid_solved(g0) ==> state@ == g0,
            crate::state::frame_outside(state@, g0, cells),
            cells_in_bounds(model.size, cells),
            len == cells.len(),
            n == ns.len(),
            len <= n,
            mins@.len() == len,
            0 <= i2 <= len,
            crate::model::sorted_strict(ns),
            forall|j: int| 0 <= j < len ==> (#[trigger] mins@[j]) < n,
            forall|j: int, v: i32|
                #![trigger gcell(state@, cells[j]).candidates.contains(v)]
                0 <= j < i2 && gcell(state@, cells[j]).value is None && gcell(
                    state@,
                    cells[j],
                ).candidates.contains(v) ==> (ns.contains(v) && nidx(ns, v) >= mins@[j] as int),
            forall|a: Seq<Seq<i32>>, j: int|
                consistent(g0, a) && crate::constraint::sat_thermometer(a, cells) && 0 <= j < len
                    ==> nidx(ns, #[trigger] val_at(a, cells[j])) >= mins@[j],
            forall|a: Seq<Seq<i32>>|
                consistent(g0, a) && crate::constraint::sat_thermometer(a, cells) ==> consistent(
                    state@,
                    a,
                ),
        decreases len - i2,
    {
        let pos = line.cells[i2];
        proof {
            assert(cell_in_bounds(model.size, cells[i2 as int]));
        }
        let cv = state.get(pos).value;
        if cv.is_none() {
            let m_i = mins[i2];
            let cand = &state.get(pos).candidates;
            let mut mask: Vec<bool> = Vec::new();
            let mut j: usize = 0;
            while j < cand.len()
                invariant
                    ns == model.numbers@,
                    0 <= j <= cand@.len(),
                    mask@.len() == j,
                    crate::model::sorted_strict(ns),
                    forall|q: int|
                        0 <= q < j ==> (ns.contains(#[trigger] cand@[q]) ==> mask@[q] == (nidx(
                            ns,
                            cand@[q],
                        ) >= m_i as int)),
                decreases cand@.len() - j,
            {
                let c = cand[j];
                let keep = match model.number_index(c) {
                    Some(ci) => ci >= m_i,
                    None => false,
                };
                proof {
                    if ns.contains(c) {
                        lemma_nidx(ns, c);
                    }
                }
                mask.push(keep);
                j = j + 1;
            }
            let ghost maskv = mask@;
            let ghost gprev = state@;
            let res = limit_with_mask(model, state, pos, &mask);
            if res == PropagationResult::Contradiction {
                proof {
                    lemma_narrows_trans(state@, gprev, g0);
                    assert forall|yy: int, xx: int|
                        0 <= yy < gprev.len() && 0 <= xx < gprev[yy].len() && !cells.contains(
                            Point { x: xx as i32, y: yy as i32 },
                        ) implies #[trigger] state@[yy][xx] == gprev[yy][xx] by {
                        assert(cells[i2 as int] == pos);
                        assert(cells.contains(pos));
                        if yy == pos.y as int && xx == pos.x as int {
                            assert(pos == (Point { x: xx as i32, y: yy as i32 }));
                        }
                    }
                    crate::state::lemma_frame_trans(state@, gprev, g0, cells);
                    assert forall|a: Seq<Seq<i32>>|
                        consistent(g0, a) && crate::constraint::sat_thermometer(
                            a,
                            cells,
                        ) implies false by {
                        assert(consistent(gprev, a));
                        let av = a[pos.y as int][pos.x as int];
                        assert(cell_consistent(gcell(gprev, pos), av));
                        assert(gcell(gprev, pos).candidates.contains(av));
                        let iv = choose|iv: int|
                            0 <= iv < gcell(gprev, pos).candidates.len() && gcell(
                                gprev,
                                pos,
                            ).candidates[iv] == av;
                        lemma_consistent_val_in_ns(*model, g0, a, cells[i2 as int]);
                        assert(av == val_at(a, cells[i2 as int]));
                        assert(nidx(ns, av) >= mins@[i2 as int]);
                        assert(maskv[iv]);
                    }
                }
                return PropagationResult::Contradiction;
            }
            if res == PropagationResult::Changed {
                changed = true;
            }
            proof {
                lemma_narrows_trans(state@, gprev, g0);
                assert forall|yy: int, xx: int|
                    0 <= yy < gprev.len() && 0 <= xx < gprev[yy].len() && !cells.contains(
                        Point { x: xx as i32, y: yy as i32 },
                    ) implies #[trigger] state@[yy][xx] == gprev[yy][xx] by {
                    assert(cells[i2 as int] == pos);
                    assert(cells.contains(pos));
                    if yy == pos.y as int && xx == pos.x as int {
                        assert(pos == (Point { x: xx as i32, y: yy as i32 }));
                    }
                }
                crate::state::lemma_frame_trans(state@, gprev, g0, cells);
                if grid_solved(g0) {
                    assert(gcell(g0, cells[i2 as int]).value is Some);
                    assert(false);
                }
                let keptt = crate::state::filter_mask(gcell(gprev, pos).candidates, maskv);
                crate::state::lemma_filter_mask_membership(gcell(gprev, pos).candidates, maskv);
                assert(cell_wf(
                    gcell(gprev, pos),
                    ns,
                    Point { x: pos.x as int as i32, y: pos.y as int as i32 },
                ));
                assert forall|j: int, v: i32|
                    #![trigger gcell(state@, cells[j]).candidates.contains(v)]
                    0 <= j < i2 + 1 && gcell(state@, cells[j]).value is None && gcell(
                        state@,
                        cells[j],
                    ).candidates.contains(v) implies (ns.contains(v) && nidx(ns, v) >= mins@[j]
                        as int) by {
                    if cells[j] == pos {
                        assert(cell_consistent(gcell(state@, pos), v));
                        assert(keptt.contains(v));
                        if j == i2 {
                            let q = choose|q: int|
                                0 <= q < gcell(gprev, pos).candidates.len() && maskv[q] && gcell(
                                    gprev,
                                    pos,
                                ).candidates[q] == v;
                            assert(ns.contains(gcell(gprev, pos).candidates[q]));
                            assert(maskv[q] == (nidx(ns, v) >= m_i as int));
                        } else {
                            assert(gcell(gprev, pos).value is None);
                            assert(gcell(gprev, pos).candidates.contains(v)) by {
                                let q = choose|q: int|
                                    0 <= q < gcell(gprev, pos).candidates.len() && maskv[q]
                                        && gcell(gprev, pos).candidates[q] == v;
                            }
                            assert(gcell(gprev, cells[j]).candidates.contains(v));
                        }
                    } else {
                        assert(gcell(state@, cells[j]) == gcell(gprev, cells[j]));
                    }
                }
                assert forall|a: Seq<Seq<i32>>|
                    consistent(g0, a) && crate::constraint::sat_thermometer(
                        a,
                        cells,
                    ) implies consistent(state@, a) by {
                    assert(consistent(gprev, a));
                    let av = a[pos.y as int][pos.x as int];
                    assert(cell_consistent(gcell(gprev, pos), av));
                    assert(gcell(gprev, pos).candidates.contains(av));
                    let iv = choose|iv: int|
                        0 <= iv < gcell(gprev, pos).candidates.len() && gcell(
                            gprev,
                            pos,
                        ).candidates[iv] == av;
                    lemma_consistent_val_in_ns(*model, g0, a, cells[i2 as int]);
                    assert(av == val_at(a, cells[i2 as int]));
                    assert(nidx(ns, av) >= mins@[i2 as int]);
                    assert(maskv[iv] && gcell(gprev, pos).candidates[iv] == av);
                    assert(cell_consistent(gcell(state@, pos), av));
                    assert forall|yy: int, xx: int|
                        0 <= yy < state@.len() && 0 <= xx < state@[yy].len() implies cell_consistent(
                        #[trigger] state@[yy][xx],
                        a[yy][xx],
                    ) by {
                        if !(yy == pos.y as int && xx == pos.x as int) {
                            assert(state@[yy][xx] == gprev[yy][xx]);
                            assert(cell_consistent(gprev[yy][xx], a[yy][xx]));
                        }
                    }
                }
            }
        }
        i2 = i2 + 1;
    }
    proof {
        if grid_solved(g0) {
            assert forall|j: int|
                0 <= j < cells.len() - 1 implies val_at(assignment_of(g0), cells[j]) < val_at(
                assignment_of(g0),
                #[trigger] cells[j + 1],
            ) by {
                assert(val_at(assignment_of(g0), cells[j + 1 - 1]) < val_at(
                    assignment_of(g0),
                    cells[j + 1],
                ));
            }
        }
        assert forall|i3: int| 0 <= i3 < cells.len() implies #[trigger] thermo_min(
            g0,
            cells,
            ns,
            i3,
        ) < ns.len() by {
            assert(mins@[i3] as int == thermo_min(g0, cells, ns, i3));
            assert(mins@[i3] < n);
        }
        assert forall|i3: int, v: i32|
            #![trigger gcell(state@, cells[i3]).candidates.contains(v)]
            0 <= i3 < cells.len() && gcell(state@, cells[i3]).value is None && gcell(
                state@,
                cells[i3],
            ).candidates.contains(v) implies (ns.contains(v) && nidx(ns, v) >= thermo_min(
            g0,
            cells,
            ns,
            i3,
        )) by {
            assert(mins@[i3] as int == thermo_min(g0, cells, ns, i3));
        }
    }
    if changed {
        PropagationResult::Changed
    } else {
        PropagationResult::Unchanged
    }
}

/// The arrow rule: when every cage cell is committed, the cage sum must
/// equal the tail cell's value; an open tail is then pinned to that sum.
/// Otherwise no information is derived.
pub fn limit_arrow_clue(
    model: &SudokuModel,
    region: &Region,
    tail: Point,
    state: &mut SolverState,
) -> (r: PropagationResult)
    requires
        model_wf(*model),
        grid_wf(old(state)@, *model),
        grid_live(old(state)@),
        cells_in_bounds(model.size, region.cells@),
        region.cells@.no_duplicates(),
        cell_in_bounds(model.size, tail),
    ensures
        grid_wf(final(state)@, *model),
        narrows(final(state)@, old(state)@),
        r != PropagationResult::Contradiction ==> grid_live(final(state)@),
        grid_measure(final(state)@) <= grid_measure(old(state)@),
        r == PropagationResult::Changed ==> grid_measure(final(state)@) < grid_measure(
            old(state)@,
        ),
        r == PropagationResult::Unchanged ==> final(state)@ == old(state)@,
        forall|a: Seq<Seq<i32>>|
            consistent(old(state)@, a) && crate::constraint::sat_arrow(a, region.cells@, tail)
                ==> r != PropagationResult::Contradiction && consistent(final(state)@, a),
        grid_solved(old(state)@) && r != PropagationResult::Contradiction
            ==> crate::constraint::sat_arrow(assignment_of(old(state)@), region.cells@, tail),
        crate::state::frame_outside(final(state)@, old(state)@, region.cells@.push(tail)),
        free_cells(old(state)@, region.cells@).len() > 0 ==> r == PropagationResult::Unchanged
            && final(state)@ == old(state)@,
        (r != PropagationResult::Contradiction && free_cells(old(state)@, region.cells@).len()
            == 0 && gcell(old(state)@, tail).value is Some) ==> committed_sum(
            old(state)@,
            region.cells@,
        ) == (gcell(old(state)@, tail).value->0) as int,
        (free_cells(old(state)@, region.cells@).len() == 0 && gcell(old(state)@, tail).value
            is None) ==> r != PropagationResult::Unchanged,
{
    let ghost g0 = old(state)@;
    let ghost cells = region.cells@;
    proof {
        crate::sums::lemma_points_count(cells, model.size);
        lemma_narrows_refl(g0);
        crate::state::lemma_frame_refl(g0, cells.push(tail));
        assert forall|i2: int|
            0 <= i2 < cells.len() implies pt_in_grid(g0, #[trigger] cells[i2]) by {
            assert(cell_in_bounds(model.size, cells[i2]));
        }
    }
    let mut s: i64 = 0;
    let mut unknown_count: usize = 0;
    let mut i: usize = 0;
    while i < region.cells.len()
        invariant
            cells == region.cells@,
            g0 == state@,
            g0 == old(state)@,
            grid_wf(g0, *model),
            cells_in_bounds(model.size, cells),
            cells.len() <= 0x4000_0000,
            0 <= i <= cells.len(),
            s as int == committed_sum(g0, cells.take(i as int)),
            unknown_count as int == free_cells(g0, cells.take(i as int)).len(),
            unknown_count <= i,
            -(i * 0x8000_0000) <= s as int <= i * 0x8000_0000,
        decreases cells.len() - i,
    {
        let pos = region.cells[i];
        proof {
            assert(cell_in_bounds(model.size, cells[i as int]));
            assert(cells.take(i + 1).drop_last() =~= cells.take(i as int));
            assert(cells.take(i + 1).last() == cells[i as int]);
        }
        let cv = state.get(pos).value;
        match cv {
            Some(v) => {
                s = s + v as i64;
            },
            None => {
                unknown_count = unknown_count + 1;
            },
        }
        i = i + 1;
    }
    proof {
        assert(cells.take(cells.len() as int) =~= cells);
    }
    let ghost fcells = free_cells(g0, cells);
    if unknown_count > 0 {
        proof {
            if grid_solved(g0) {
                lemma_free_cells_props(g0, cells);
                let p = fcells[0];
                assert(cells.contains(p));
                let ci = choose|ci: int| 0 <= ci < cells.len() && cells[ci] == p;
                assert(cell_in_bounds(model.size, cells[ci]));
                assert(gcell(g0, p).value is Some);
                assert(false);
            }
        }
        return PropagationResult::Unchanged;
    }
    let tv = state.get(tail).value;
    match tv {
        Some(t) => {
            if s == t as i64 {
                proof {
                    if grid_solved(g0) {
                        lemma_solved_consistent(g0);
                        lemma_killer_split(g0, cells, assignment_of(g0));
                        assert(val_at(assignment_of(g0), tail) == t);
                    }
                }
                PropagationResult::Unchanged
            } else {
                proof {
                    assert forall|a: Seq<Seq<i32>>|
                        consistent(g0, a) && crate::constraint::sat_arrow(
                            a,
                            cells,
                            tail,
                        ) implies false by {
                        lemma_killer_split(g0, cells, a);
                        assert(cell_consistent(gcell(g0, tail), a[tail.y as int][tail.x
                            as int]));
                        assert(val_at(a, tail) == t);
                    }
                }
                PropagationResult::Contradiction
            }
        },
        None => {
            proof {
                if grid_solved(g0) {
                    assert(gcell(g0, tail).value is Some);
                    assert(false);
                }
            }
            let cand = &state.get(tail).candidates;
            let mut mask: Vec<bool> = Vec::new();
            let mut j: usize = 0;
            while j < cand.len()
                invariant
                    -0x2000_0000_0000_0000 <= s as int <= 0x2000_0000_0000_0000,
                    0 <= j <= cand@.len(),
                    mask@.len() == j,
                    forall|q: int|
                        0 <= q < j ==> mask@[q] == ((#[trigger] cand@[q]) as int == s as int),
                decreases cand@.len() - j,
            {
                mask.push(cand[j] as i64 == s);
                j = j + 1;
            }
            let ghost maskv = mask@;
            proof {
                assert(cell_wf(
                    gcell(g0, tail),
                    model.numbers@,
                    Point { x: tail.x as int as i32, y: tail.y as int as i32 },
                ));
                crate::state::lemma_sorted_no_dup(gcell(g0, tail).candidates);
            }
            let res = limit_with_mask(model, state, tail, &mask);
            proof {
                let sg = s as int;
                crate::state::lemma_mask_selects(
                    gcell(g0, tail).candidates,
                    maskv,
                    |v: i32| v as int == sg,
                );
                let kept = crate::state::filter_mask(gcell(g0, tail).candidates, maskv);
                assert(res != PropagationResult::Unchanged) by {
                    if res == PropagationResult::Unchanged {
                        assert(kept.len() >= 1) by {
                            if kept.len() == 0 {
                                assert(res == PropagationResult::Contradiction);
                            }
                        }
                        if kept.len() >= 2 {
                            assert(kept.contains(kept[0]) && kept.contains(kept[1]));
                            assert(kept[0] as int == sg && kept[1] as int == sg);
                            crate::state::lemma_filter_mask_sorted(
                                gcell(g0, tail).candidates,
                                maskv,
                            );
                            assert(kept[0] == kept[1]);
                        }
                        assert(kept.len() == 1);
                        assert(gcell(state@, tail).value == Some(kept[0]));
                        assert(state@ == g0);
                    }
                }
                assert forall|yy: int, xx: int|
                    0 <= yy < g0.len() && 0 <= xx < g0[yy].len() && !cells.push(tail).contains(
                        Point { x: xx as i32, y: yy as i32 },
                    ) implies #[trigger] state@[yy][xx] == g0[yy][xx] by {
                    assert(cells.push(tail)[cells.len() as int] == tail);
                    assert(cells.push(tail).contains(tail));
                    if yy == tail.y as int && xx == tail.x as int {
                        assert(tail == (Point { x: xx as i32, y: yy as i32 }));
                    }
                }
                assert forall|a: Seq<Seq<i32>>|
                    consistent(g0, a) && crate::constraint::sat_arrow(a, cells, tail) implies res
                    != PropagationResult::Contradiction && consistent(state@, a) by {
                    lemma_killer_split(g0, cells, a);
                    assert(sum_at(a, fcells) == 0);
                    let av = a[tail.y as int][tail.x as int];
                    assert(cell_consistent(gcell(g0, tail), av));
                    assert(gcell(g0, tail).candidates.contains(av));
                    assert(val_at(a, tail) as int == s as int);
                    let iv = choose|iv: int|
                        0 <= iv < gcell(g0, tail).candidates.len() && gcell(
                            g0,
                            tail,
                        ).candidates[iv] == av;
                    assert(maskv[iv] && gcell(g0, tail).candidates[iv] == av);
                    assert(cell_consistent(gcell(state@, tail), av));
                    assert forall|yy: int, xx: int|
                        0 <= yy < state@.len() && 0 <= xx < state@[yy].len() implies cell_consistent(
                        #[trigger] state@[yy][xx],
                        a[yy][xx],
                    ) by {
                        if !(yy == tail.y as int && xx == tail.x as int) {
                            assert(state@[yy][xx] == g0[yy][xx]);
                            assert(cell_consistent(g0[yy][xx], a[yy][xx]));
                        }
                    }
                }
            }
            res
        },
    }
}

/// Along a satisfied thermometer whose values are admissible, value
/// positions grow at least as fast as cell positions.
proof fn lemma_thermo_chain_vals(ns: Seq<i32>, a: Seq<Seq<i32>>, cells: Seq<Point>, j: int)
    requires
        crate::model::sorted_strict(ns),
        forall|i: int| 0 <= i < cells.len() ==> ns.contains(#[trigger] val_at(a, cells[i])),
        crate::constraint::sat_thermometer(a, cells),
        0 <= j < cells.len(),
    ensures
        j <= nidx(ns, val_at(a, cells[j])),
        nidx(ns, val_at(a, cells[j])) < ns.len(),
    decreases j,
{
    lemma_nidx(ns, val_at(a, cells[j]));
    if j > 0 {
        lemma_thermo_chain_vals(ns, a, cells, j - 1);
        assert(val_at(a, cells[j - 1]) < val_at(a, cells[j - 1 + 1]));
        lemma_nidx_increasing(ns, val_at(a, cells[j - 1]), val_at(a, cells[j]));
    }
}

/// And they grow no faster, counted from the far end.
proof fn lemma_thermo_chain_vals_rev(ns: Seq<i32>, a: Seq<Seq<i32>>, cells: Seq<Point>, j: int)
    requires
        crate::model::sorted_strict(ns),
        forall|i: int| 0 <= i < cells.len() ==> ns.contains(#[trigger] val_at(a, cells[i])),
        crate::constraint::sat_thermometer(a, cells),
        0 <= j < cells.len(),
    ensures
        nidx(ns, val_at(a, cells[j])) <= ns.len() - (cells.len() - j),
    decreases cells.len() - j,
{
    lemma_nidx(ns, val_at(a, cells[j]));
    if j < cells.len() - 1 {
        lemma_thermo_chain_vals_rev(ns, a, cells, j + 1);
        assert(val_at(a, cells[j]) < val_at(a, cells[j + 1]));
        lemma_nidx_increasing(ns, val_at(a, cells[j]), val_at(a, cells[j + 1]));
    }
}

/// A thermometer of length exactly the number of admissible values, with
/// admissible values along it, forces the whole value list in order: the
/// cell at each position carries exactly that position's value.
pub proof fn lemma_thermometer_full_length(ns: Seq<i32>, a: Seq<Seq<i32>>, cells: Seq<Point>)
    requires
        crate::model::sorted_strict(ns),
        forall|i: int| 0 <= i < cells.len() ==> ns.contains(#[trigger] val_at(a, cells[i])),
        crate::constraint::sat_thermometer(a, cells),
        cells.len() == ns.len(),
    ensures
        forall|i: int| 0 <= i < cells.len() ==> #[trigger] val_at(a, cells[i]) == ns[i],
{
    assert forall|i: int| 0 <= i < cells.len() implies #[trigger] val_at(a, cells[i]) == ns[i] by {
        lemma_thermo_chain_vals(ns, a, cells, i);
        lemma_thermo_chain_vals_rev(ns, a, cells, i);
        lemma_nidx(ns, val_at(a, cells[i]));
        assert(nidx(ns, val_at(a, cells[i])) == i);
    }
}

} // verus!
