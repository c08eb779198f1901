//! The search driver: runs every propagator to a fixed point, then
//! branches on the most-constrained open cell, recursing on a cloned
//! state. The first solution found is returned.

use vstd::prelude::*;

use crate::constraint::{sat_constraint, sat_property_val, sat_relationship_vals, sat_unique,
    Constraint};
use crate::model::{constraint_wf, model_wf, SudokuModel};
use crate::propagate::{all_positive, committed_sum, free_cells, limit_arrow_clue,
    limit_killer_clue, limit_property_clue, limit_relationship_clue, limit_thermometer_clue};
use crate::state::{assignment_of, cell_consistent, cell_wf, CellModel, consistent, empty_grid,
    gcell, grid_dims, grid_live,
    grid_measure, grid_solved, grid_wf, lemma_grid_measure_update, lemma_narrows_refl,
    lemma_narrows_trans, narrows, precomputed_wf, Precomputed, PropagationResult, SolverState};
use crate::unique::limit_unique_clue;
use crate::vec2::Point;

verus! {

/// The immediate checks one propagator pass performs on a state: a state
/// a propagator leaves without contradiction passes its constraint's
/// checks. At a propagation fixed point every constraint passes them.
pub open spec fn constraint_checks_pass(g: Seq<Seq<CellModel>>, c: Constraint, ns: Seq<i32>) -> bool {
    match c {
        Constraint::Unique(r) => ({
            &&& (forall|i: int, j: int|
                0 <= i < r.cells@.len() && 0 <= j < r.cells@.len() && i != j && gcell(
                    g,
                    #[trigger] r.cells@[i],
                ).value is Some && gcell(g, #[trigger] r.cells@[j]).value is Some ==> gcell(
                    g,
                    r.cells@[i],
                ).value != gcell(g, r.cells@[j]).value)
            &&& (forall|i: int, j: int|
                0 <= i < r.cells@.len() && 0 <= j < r.cells@.len() && gcell(
                    g,
                    #[trigger] r.cells@[j],
                ).value is Some && gcell(g, #[trigger] r.cells@[i]).value is None ==> !gcell(
                    g,
                    r.cells@[i],
                ).candidates.contains((gcell(g, r.cells@[j]).value->0)))
            &&& crate::unique::naked_pruned(g, g, r.cells@, r.cells@.len() as int)
            &&& crate::unique::hidden_union_set(g, r.cells@).len()
                >= crate::unique::hidden_free_set(g, r.cells@).len()
        }),
        Constraint::Thermometer(l) => ({
            &&& l.cells@.len() <= ns.len()
            &&& (forall|i: int|
                0 <= i < l.cells@.len() ==> #[trigger] crate::propagate::thermo_min(
                    g,
                    l.cells@,
                    ns,
                    i,
                ) < ns.len())
            &&& (forall|i: int|
                1 <= i < l.cells@.len() && gcell(g, #[trigger] l.cells@[i]).value is Some
                    ==> crate::propagate::nidx(ns, (gcell(g, l.cells@[i]).value->0))
                    >= crate::propagate::thermo_min(g, l.cells@, ns, i - 1) + 1)
            &&& (forall|i: int, v: i32|
                #![trigger gcell(g, l.cells@[i]).candidates.contains(v)]
                0 <= i < l.cells@.len() && gcell(g, l.cells@[i]).value is None && gcell(
                    g,
                    l.cells@[i],
                ).candidates.contains(v) ==> (ns.contains(v) && crate::propagate::nidx(ns, v)
                    >= crate::propagate::thermo_min(g, l.cells@, ns, i)))
        }),
        Constraint::Killer { region, sum } => ({
            let s = committed_sum(g, region.cells@);
            let k = free_cells(g, region.cells@).len() as int;
            &&& s <= sum as int
            &&& (s == sum as int ==> k == 0)
            &&& (s < sum as int ==> k <= ns.len() && s + crate::sums::hi_sum(ns, k) >= sum as int
                && s + crate::sums::lo_sum(ns, k) <= sum as int)
            &&& (s < sum as int ==> k != 1)
        }),
        Constraint::Arrow { region, tail } => ({
            &&& (free_cells(g, region.cells@).len() == 0 && gcell(g, tail).value is Some
                ==> committed_sum(g, region.cells@) == (gcell(g, tail).value->0) as int)
            &&& (free_cells(g, region.cells@).len() == 0 ==> gcell(g, tail).value is Some)
        }),
        Constraint::Relationship { first, second, relationship } => ({
            &&& (gcell(g, first).value is Some && gcell(g, second).value is Some
                ==> sat_relationship_vals(
                gcell(g, first).value->0,
                gcell(g, second).value->0,
                relationship,
            ))
            &&& (gcell(g, first).value is Some && gcell(g, second).value is None ==> (forall|
                v: i32,
            |
                #[trigger] gcell(g, second).candidates.contains(v) ==> sat_relationship_vals(
                    gcell(g, first).value->0,
                    v,
                    relationship,
                )))
            &&& (gcell(g, first).value is None && gcell(g, second).value is Some ==> (forall|
                v: i32,
            |
                #[trigger] gcell(g, first).candidates.contains(v) ==> sat_relationship_vals(
                    v,
                    gcell(g, second).value->0,
                    relationship,
                )))
        }),
        Constraint::Property { region, property } => ({
            &&& !(exists|i: int|
                0 <= i < region.cells@.len() && crate::propagate::property_unsatisfiable_cell(
                    g,
                    region.cells@,
                    i,
                    property,
                ))
            &&& (forall|i: int, v: i32|
                0 <= i < region.cells@.len() && #[trigger] cell_consistent(
                    gcell(g, region.cells@[i]),
                    v,
                ) ==> sat_property_val(v, property))
        }),
    }
}

/// Whether a full assignment satisfies every constraint of the model.
pub open spec fn sat_model(a: Seq<Seq<i32>>, m: SudokuModel) -> bool {
    forall|i: int|
        0 <= i < m.constraints@.len() ==> sat_constraint(a, #[trigger] m.constraints@[i])
}

/// The hypotheses under which the search is complete: the assignment
/// satisfies the model, and on every killer cage it uses pairwise distinct
/// values drawn from positive admissible values (the prefix-sum pruning of
/// the killer rule assumes both).
pub open spec fn solver_complete_for(m: SudokuModel, a: Seq<Seq<i32>>) -> bool {
    &&& sat_model(a, m)
    &&& forall|i: int|
        0 <= i < m.constraints@.len() ==> (#[trigger] m.constraints@[i] matches Constraint::Killer {
            region,
            sum,
        } ==> (sat_unique(a, region.cells@) && all_positive(m.numbers@)))
}

/// An assignment with the model's dimensions whose values are all
/// admissible.
pub open spec fn assignment_in_model(m: SudokuModel, a: Seq<Seq<i32>>) -> bool {
    &&& a.len() == m.size.y as int
    &&& forall|y: int| 0 <= y < a.len() ==> (#[trigger] a[y]).len() == m.size.x as int
    &&& forall|y: int, x: int|
        0 <= y < a.len() && 0 <= x < a[y].len() ==> m.numbers@.contains(#[trigger] a[y][x])
}

/// Runs the propagator matching one constraint.
#[verifier::rlimit(50)]
pub fn limit_state(
    model: &SudokuModel,
    state: &mut SolverState,
    constraint: &Constraint,
    precomputed: &Precomputed,
) -> (r: PropagationResult)
    requires
        model_wf(*model),
        grid_wf(old(state)@, *model),
        grid_live(old(state)@),
        constraint_wf(*constraint, model.size),
        precomputed_wf(*precomputed, model.numbers@),
    ensures
        grid_wf(final(state)@, *model),
        narrows(final(state)@, old(state)@),
        r != PropagationResult::Contradiction ==> grid_live(final(state)@),
        grid_measure(final(state)@) <= grid_measure(old(state)@),
        r == PropagationResult::Changed ==> grid_measure(final(state)@) < grid_measure(
            old(state)@,
        ),
        r == PropagationResult::Unchanged ==> final(state)@ == old(state)@,
        forall|a: Seq<Seq<i32>>|
            consistent(old(state)@, a) && sat_constraint(a, *constraint) && (*constraint matches
            Constraint::Killer { region, sum } ==> (sat_unique(a, region.cells@) && all_positive(
                model.numbers@,
            ))) ==> r != PropagationResult::Contradiction && consistent(final(state)@, a),
        grid_solved(old(state)@) && r != PropagationResult::Contradiction ==> sat_constraint(
            assignment_of(old(state)@),
            *constraint,
        ),
        r == PropagationResult::Unchanged ==> constraint_checks_pass(
            old(state)@,
            *constraint,
            model.numbers@,
        ),
{
    let ghost g1 = old(state)@;
    match constraint {
        Constraint::Unique(region) => {
            let res = limit_unique_clue(model, region, state);
            proof {
                if res == PropagationResult::Unchanged {
                    assert(state@ == g1);
                    assert forall|i: int, j: int|
                        0 <= i < region.cells@.len() && 0 <= j < region.cells@.len() && gcell(
                            g1,
                            #[trigger] region.cells@[j],
                        ).value is Some && gcell(g1, #[trigger] region.cells@[i]).value
                            is None implies !gcell(g1, region.cells@[i]).candidates.contains(
                        (gcell(g1, region.cells@[j]).value->0),
                    ) by {
                        assert(gcell(state@, region.cells@[i]).value is None);
                    }
                }
            }
            res
        },
        Constraint::Thermometer(line) => {
            let res = limit_thermometer_clue(line, model, state);
            proof {
                if res == PropagationResult::Unchanged {
                    assert(state@ == g1);
                }
            }
            res
        },
        Constraint::Property { region, property } => {
            let res = limit_property_clue(model, region, state, property);
            proof {
                if res == PropagationResult::Unchanged {
                    assert(state@ == g1);
                }
            }
            res
        },
        Constraint::Relationship { first, second, relationship } => {
            let res = limit_relationship_clue(model, *first, *second, relationship, state);
            proof {
                if res == PropagationResult::Unchanged {
                    assert(state@ == g1);
                    if gcell(g1, *first).value is Some && gcell(g1, *second).value is None {
                        assert forall|v: i32|
                            #[trigger] gcell(g1, *second).candidates.contains(
                                v,
                            ) implies sat_relationship_vals(
                            gcell(g1, *first).value->0,
                            v,
                            *relationship,
                        ) by {
                            assert(cell_consistent(gcell(g1, *second), v));
                            assert(cell_consistent(gcell(state@, *second), v));
                        }
                    }
                    if gcell(g1, *first).value is None && gcell(g1, *second).value is Some {
                        assert forall|v: i32|
                            #[trigger] gcell(g1, *first).candidates.contains(
                                v,
                            ) implies sat_relationship_vals(
                            v,
                            gcell(g1, *second).value->0,
                            *relationship,
                        ) by {
                            assert(cell_consistent(gcell(g1, *first), v));
                            assert(cell_consistent(gcell(state@, *first), v));
                        }
                    }
                }
            }
            res
        },
        Constraint::Killer { region, sum } => {
            let res = limit_killer_clue(model, region, *sum, precomputed, state);
            proof {
                if res == PropagationResult::Unchanged {
                    let sc = committed_sum(g1, region.cells@);
                    let k = free_cells(g1, region.cells@).len() as int;
                    let ns = model.numbers@;
                    if sc < *sum as int && k == 1 {
                        assert(k <= ns.len());
                        assert(sc + crate::sums::hi_sum(ns, k) >= *sum as int);
                        assert(sc + crate::sums::lo_sum(ns, k) <= *sum as int);
                        assert(res != PropagationResult::Unchanged);
                    }
                }
            }
            res
        },
        Constraint::Arrow { region, tail } => {
            let res = limit_arrow_clue(model, region, *tail, state);
            proof {
                if res == PropagationResult::Unchanged {
                    if free_cells(g1, region.cells@).len() == 0 && gcell(g1, *tail).value
                        is None {
                        assert(res != PropagationResult::Unchanged);
                    }
                }
            }
            res
        },
    }
}

/// Runs every propagator repeatedly until none reports a change; reports
/// whether the pass ended without contradiction.
pub fn try_limit(model: &SudokuModel, precomputed: &Precomputed, state: &mut SolverState) -> (r:
    bool)
    requires
        model_wf(*model),
        grid_wf(old(state)@, *model),
        grid_live(old(state)@),
        precomputed_wf(*precomputed, model.numbers@),
    ensures
        grid_wf(final(state)@, *model),
        narrows(final(state)@, old(state)@),
        grid_measure(final(state)@) <= grid_measure(old(state)@),
        r ==> grid_live(final(state)@),
        forall|a: Seq<Seq<i32>>|
            consistent(old(state)@, a) && solver_complete_for(*model, a) ==> r && consistent(
                final(state)@,
                a,
            ),
        r && grid_solved(final(state)@) ==> sat_model(assignment_of(final(state)@), *model),
        r ==> (forall|i: int|
            0 <= i < model.constraints@.len() ==> constraint_checks_pass(
                final(state)@,
                #[trigger] model.constraints@[i],
                model.numbers@,
            )),
{
    let ghost g0 = old(state)@;
    proof {
        lemma_narrows_refl(g0);
    }
    let mut changed = true;
    while changed
        invariant
            model_wf(*model),
            precomputed_wf(*precomputed, model.numbers@),
            g0 == old(state)@,
            grid_wf(state@, *model),
            grid_live(state@),
            narrows(state@, g0),
            grid_measure(state@) <= grid_measure(g0),
            forall|a: Seq<Seq<i32>>|
                consistent(g0, a) && solver_complete_for(*model, a) ==> consistent(state@, a),
            !changed ==> (grid_solved(state@) ==> sat_model(assignment_of(state@), *model)),
            !changed ==> (forall|i: int|
                0 <= i < model.constraints@.len() ==> constraint_checks_pass(
                    state@,
                    #[trigger] model.constraints@[i],
                    model.numbers@,
                )),
        decreases grid_measure(state@) + (if changed {
            1int
        } else {
            0int
        }),
    {
        changed = false;
        let ghost pass_start = state@;
        let mut ci: usize = 0;
        while ci < model.constraints.len()
            invariant
                model_wf(*model),
                precomputed_wf(*precomputed, model.numbers@),
                g0 == old(state)@,
                grid_wf(state@, *model),
                grid_live(state@),
                narrows(state@, g0),
                narrows(state@, pass_start),
                grid_measure(state@) <= grid_measure(g0),
                grid_measure(state@) <= grid_measure(pass_start),
                grid_measure(pass_start) <= grid_measure(g0),
                changed ==> grid_measure(state@) < grid_measure(pass_start),
                forall|a: Seq<Seq<i32>>|
                    consistent(g0, a) && solver_complete_for(*model, a) ==> consistent(state@, a),
                0 <= ci <= model.constraints@.len(),
                !changed ==> state@ == pass_start,
                !changed ==> (grid_solved(state@) ==> forall|j: int|
                    0 <= j < ci ==> sat_constraint(
                        assignment_of(state@),
                        #[trigger] model.constraints@[j],
                    )),
                !changed ==> (forall|j: int|
                    0 <= j < ci ==> constraint_checks_pass(
                        state@,
                        #[trigger] model.constraints@[j],
                        model.numbers@,
                    )),
            decreases model.constraints@.len() - ci,
        {
            let constraint = &model.constraints[ci];
            proof {
                assert(constraint_wf(model.constraints@[ci as int], model.size));
            }
            let ghost gprev = state@;
            let res = limit_state(model, state, constraint, precomputed);
            proof {
                lemma_narrows_trans(state@, gprev, g0);
                lemma_narrows_trans(state@, gprev, pass_start);
            }
            if res == PropagationResult::Contradiction {
                proof {
                    assert forall|a: Seq<Seq<i32>>|
                        consistent(g0, a) && solver_complete_for(*model, a) implies false by {
                        assert(consistent(gprev, a));
                        assert(sat_constraint(a, model.constraints@[ci as int]));
                    }
                }
                return false;
            }
            if res == PropagationResult::Changed {
                changed = true;
            }
            proof {
                assert forall|a: Seq<Seq<i32>>|
                    consistent(g0, a) && solver_complete_for(*model, a) implies consistent(
                    state@,
                    a,
                ) by {
                    assert(consistent(gprev, a));
                    assert(sat_constraint(a, model.constraints@[ci as int]));
                }
            }
            ci = ci + 1;
        }
    }
    true
}

/// Picks the branch cell: an open cell whose candidate list is no longer
/// than any other open cell's, and the first such cell in row-major order.
/// Returns nothing exactly when every cell is committed.
pub fn pick_branch_cell(model: &SudokuModel, state: &SolverState) -> (r: Option<Point>)
    requires
        model_wf(*model),
        grid_wf(state@, *model),
    ensures
        r is None <==> grid_solved(state@),
        r matches Some(p) ==> ({
            &&& 0 <= p.y && (p.y as int) < state@.len()
            &&& 0 <= p.x && (p.x as int) < state@[p.y as int].len()
            &&& gcell(state@, p).value is None
            &&& (forall|yy: int, xx: int|
                0 <= yy < state@.len() && 0 <= xx < state@[yy].len() && (
                #[trigger] state@[yy][xx]).value is None ==> gcell(state@, p).candidates.len()
                    <= state@[yy][xx].candidates.len())
            &&& (forall|yy: int, xx: int|
                0 <= yy < state@.len() && 0 <= xx < state@[yy].len() && (
                #[trigger] state@[yy][xx]).value is None && state@[yy][xx].candidates.len()
                    == gcell(state@, p).candidates.len() ==> ((p.y as int) < yy || ((p.y as int)
                    == yy && (p.x as int) <= xx)))
        }),
{
    let mut best: Option<Point> = None;
    let mut best_len: usize = 0;
    let mut y: usize = 0;
    while y < state.grid.len()
        invariant
            model_wf(*model),
            grid_wf(state@, *model),
            0 <= y <= state@.len(),
            best is None ==> forall|yy: int, xx: int|
                0 <= yy < y && 0 <= xx < state@[yy].len() ==> (#[trigger] state@[yy][xx]).value
                    is Some,
            best matches Some(p) ==> (0 <= p.y && (p.y as int) < y && 0 <= p.x && (p.x as int)
                < state@[p.y as int].len() && gcell(state@, p).value is None && gcell(
                state@,
                p,
            ).candidates.len() == best_len as int),
            best matches Some(p) ==> (forall|yy: int, xx: int|
                0 <= yy < y && 0 <= xx < state@[yy].len() && (#[trigger] state@[yy][xx]).value
                    is None ==> best_len as int <= state@[yy][xx].candidates.len()),
            best matches Some(p) ==> (forall|yy: int, xx: int|
                0 <= yy < y && 0 <= xx < state@[yy].len() && (#[trigger] state@[yy][xx]).value
                    is None && state@[yy][xx].candidates.len() == best_len as int ==> ((p.y
                    as int) < yy || ((p.y as int) == yy && (p.x as int) <= xx))),
        decreases state@.len() - y,
    {
        let rowlen = state.grid[y].len();
        let mut x: usize = 0;
        while x < rowlen
            invariant
                model_wf(*model),
                grid_wf(state@, *model),
                0 <= y < state@.len(),
                rowlen as int == state@[y as int].len(),
                0 <= x <= rowlen,
                best is None ==> forall|yy: int, xx: int|
                    0 <= yy < y && 0 <= xx < state@[yy].len() ==> (#[trigger] state@[yy][xx]).value
                        is Some,
                best is None ==> forall|xx: int|
                    0 <= xx < x ==> (#[trigger] state@[y as int][xx]).value is Some,
                best matches Some(p) ==> (0 <= p.y && 0 <= p.x && ((p.y as int) < y || ((p.y
                    as int) == y && (p.x as int) < x)) && (p.y as int) < state@.len() && (p.x
                    as int) < state@[p.y as int].len() && gcell(state@, p).value is None && gcell(
                    state@,
                    p,
                ).candidates.len() == best_len as int),
                best matches Some(p) ==> (forall|yy: int, xx: int|
                    0 <= yy < state@.len() && 0 <= xx < state@[yy].len() && (yy < y || (yy == y
                        && xx < x)) && (#[trigger] state@[yy][xx]).value is None ==> best_len
                        as int <= state@[yy][xx].candidates.len()),
                best matches Some(p) ==> (forall|yy: int, xx: int|
                    0 <= yy < state@.len() && 0 <= xx < state@[yy].len() && (yy < y || (yy == y
                        && xx < x)) && (#[trigger] state@[yy][xx]).value is None
                        && state@[yy][xx].candidates.len() == best_len as int ==> ((p.y as int)
                        < yy || ((p.y as int) == yy && (p.x as int) <= xx))),
            decreases rowlen - x,
        {
            let cell = &state.grid[y][x];
            if cell.value.is_none() {
                let clen = cell.candidates.len();
                let this_pos = cell.pos;
                proof {
                    assert(state@[y as int][x as int] == cell@);
                    assert(cell_wf(
                        state@[y as int][x as int],
                        model.numbers@,
                        Point { x: x as i32, y: y as i32 },
                    ));
                    assert(this_pos == (Point { x: x as i32, y: y as i32 }));
                }
                let take_it = match best {
                    Option::None => true,
                    Option::Some(_) => clen < best_len,
                };
                if take_it {
                    best = Some(this_pos);
                    best_len = clen;
                }
            }
            x = x + 1;
        }
        y = y + 1;
    }
    proof {
        if best is None {
            assert(grid_solved(state@));
        } else {
            assert(!grid_solved(state@)) by {
                let p = best->0;
                assert(state@[p.y as int][p.x as int].value is None);
            }
        }
    }
    best
}

/// Propagates to a fixed point, then branches on the first open cell with
/// the fewest candidates, committing each of them in ascending order on a
/// cloned state. Reports whether a solution was found; on success the
/// state holds it.
pub fn bifurcate(model: &SudokuModel, precomputed: &Precomputed, state: &mut SolverState) -> (r:
    bool)
    requires
        model_wf(*model),
        grid_wf(old(state)@, *model),
        grid_live(old(state)@),
        precomputed_wf(*precomputed, model.numbers@),
    ensures
        grid_wf(final(state)@, *model),
        narrows(final(state)@, old(state)@),
        r ==> grid_solved(final(state)@) && sat_model(assignment_of(final(state)@), *model),
        forall|a: Seq<Seq<i32>>|
            consistent(old(state)@, a) && solver_complete_for(*model, a) ==> r,
    decreases grid_measure(state@),
{
    let ghost g0 = old(state)@;
    let ok = try_limit(model, precomputed, state);
    if !ok {
        proof {
            assert forall|a: Seq<Seq<i32>>|
                consistent(g0, a) && solver_complete_for(*model, a) implies false by {}
        }
        return false;
    }
    if state.is_solved() {
        return true;
    }
    let ghost gpost = state@;
    let pos = match pick_branch_cell(model, state) {
        Option::Some(p) => p,
        Option::None => {
            proof {
                assert(grid_solved(state@));
                assert(false);
            }
            return false;
        },
    };
    let cand = crate::state::copy_values(&state.get(pos).candidates);
    proof {
        assert(cand@ == gcell(gpost, pos).candidates);
        assert(cand@.len() >= 1);
        assert(cell_wf(
            gcell(gpost, pos),
            model.numbers@,
            Point { x: pos.x as int as i32, y: pos.y as int as i32 },
        ));
        crate::state::lemma_sorted_no_dup(cand@);
    }
    let mut bi: usize = 0;
    while bi < cand.len()
        invariant
            model_wf(*model),
            precomputed_wf(*precomputed, model.numbers@),
            gpost == state@,
            g0 == old(state)@,
            grid_wf(gpost, *model),
            grid_live(gpost),
            narrows(gpost, g0),
            grid_measure(gpost) <= grid_measure(g0),
            0 <= pos.y && (pos.y as int) < gpost.len(),
            0 <= pos.x && (pos.x as int) < gpost[pos.y as int].len(),
            gcell(gpost, pos).value is None,
            cand@ == gcell(gpost, pos).candidates,
            cand@.no_duplicates(),
            cand@.len() >= 1,
            0 <= bi <= cand@.len(),
            forall|a: Seq<Seq<i32>>|
                consistent(gpost, a) && solver_complete_for(*model, a) ==> exists|z: int|
                    bi <= z < cand@.len() && cand@[z] == a[pos.y as int][pos.x as int],
        decreases cand@.len() - bi,
    {
        let v = cand[bi];
        let mut new_state = state.clone();
        proof {
            assert(new_state@ == gpost);
        }
        new_state.commit(pos, v);
        let ghost gbranch = new_state@;
        proof {
            // The branch state is well-formed, live, and strictly smaller.
            assert(grid_wf(gbranch, *model)) by {
                assert forall|yy: int, xx: int|
                    0 <= yy < gbranch.len() && 0 <= xx < gbranch[yy].len() implies cell_wf(
                    #[trigger] gbranch[yy][xx],
                    model.numbers@,
                    Point { x: xx as i32, y: yy as i32 },
                ) by {
                    if yy == pos.y as int && xx == pos.x as int {
                        assert(cand@.contains(v)) by {
                            assert(cand@[bi as int] == v);
                        }
                        assert(cell_wf(
                            gcell(gpost, pos),
                            model.numbers@,
                            Point { x: xx as i32, y: yy as i32 },
                        ));
                        let k = choose|k: int| 0 <= k < cand@.len() && cand@[k] == v;
                        assert(model.numbers@.contains(cand@[k]));
                    } else {
                        assert(gbranch[yy][xx] == gpost[yy][xx]);
                    }
                }
            }
            assert(grid_live(gbranch)) by {
                assert forall|yy: int, xx: int|
                    0 <= yy < gbranch.len() && 0 <= xx < gbranch[yy].len() implies ((
                #[trigger] gbranch[yy][xx]).value is None ==> gbranch[yy][xx].candidates.len()
                    >= 1) by {
                    if !(yy == pos.y as int && xx == pos.x as int) {
                        assert(gbranch[yy][xx] == gpost[yy][xx]);
                    }
                }
            }
            assert forall|yy: int| 0 <= yy < gpost.len() && yy != pos.y as int implies gpost[yy]
                == gbranch[yy] by {
                assert(gpost[yy] =~= gbranch[yy]);
            }
            lemma_grid_measure_update(gpost, gbranch, pos.y as int, pos.x as int);
            assert(grid_measure(gbranch) < grid_measure(gpost));
        }
        let sub = bifurcate(model, precomputed, &mut new_state);
        if sub {
            proof {
                // The branch narrows the incoming state.
                assert(narrows(gbranch, gpost)) by {
                    assert forall|yy: int, xx: int|
                        0 <= yy < gpost.len() && 0 <= xx
                            < gpost[yy].len() implies crate::state::cell_narrows(
                        #[trigger] gbranch[yy][xx],
                        gpost[yy][xx],
                    ) by {
                        if yy == pos.y as int && xx == pos.x as int {
                            assert(cand@[bi as int] == v);
                            assert(gcell(gpost, pos).candidates.contains(v));
                        } else {
                            assert(gbranch[yy][xx] == gpost[yy][xx]);
                            match gpost[yy][xx].value {
                                Some(v1) => {},
                                None => {},
                            }
                        }
                    }
                }
                lemma_narrows_trans(new_state@, gbranch, gpost);
                lemma_narrows_trans(new_state@, gpost, g0);
            }
            *state = new_state;
            return true;
        }
        proof {
            assert forall|a: Seq<Seq<i32>>|
                consistent(gpost, a) && solver_complete_for(*model, a) implies exists|z: int|
                bi + 1 <= z < cand@.len() && cand@[z] == a[pos.y as int][pos.x as int] by {
                let z = choose|z: int|
                    bi <= z < cand@.len() && cand@[z] == a[pos.y as int][pos.x as int];
                if z == bi {
                    // This branch would have succeeded: the assignment is
                    // consistent with the committed state.
                    assert(a[pos.y as int][pos.x as int] == v);
                    assert(consistent(gbranch, a)) by {
                        assert forall|yy: int, xx: int|
                            0 <= yy < gbranch.len() && 0 <= xx
                                < gbranch[yy].len() implies crate::state::cell_consistent(
                            #[trigger] gbranch[yy][xx],
                            a[yy][xx],
                        ) by {
                            if !(yy == pos.y as int && xx == pos.x as int) {
                                assert(gbranch[yy][xx] == gpost[yy][xx]);
                                assert(crate::state::cell_consistent(gpost[yy][xx], a[yy][xx]));
                            }
                        }
                    }
                    assert(sub);
                    assert(false);
                }
            }
        }
        bi = bi + 1;
    }
    proof {
        assert forall|a: Seq<Seq<i32>>|
            consistent(g0, a) && solver_complete_for(*model, a) implies false by {
            assert(consistent(gpost, a));
            let z = choose|z: int|
                cand@.len() <= z < cand@.len() && cand@[z] == a[pos.y as int][pos.x as int];
        }
        lemma_narrows_refl(state@);
    }
    false
}

/// Builds the starting state from a model and searches for a solution.
/// The flag says whether one was found; on success the returned state is
/// fully committed and satisfies every constraint of the model, and when a
/// satisfying assignment within the admissible values exists (with
/// distinct positive values on every killer cage), success is guaranteed.
/// On failure the state holds the last propagation results.
pub fn solve(model: &SudokuModel) -> (r: (bool, SolverState))
    requires
        model_wf(*model),
    ensures
        grid_wf(r.1@, *model),
        grid_dims(r.1@, model.size),
        r.0 ==> grid_solved(r.1@) && sat_model(assignment_of(r.1@), *model),
        (exists|a: Seq<Seq<i32>>|
            assignment_in_model(*model, a) && solver_complete_for(*model, a)) ==> r.0,
{
    let grid = empty_grid(model.size, &model.numbers);
    let precomputed = Precomputed::new(model);
    let mut state = SolverState { grid };
    proof {
        assert(grid_wf(state@, *model)) by {
            assert forall|y: int, x: int|
                0 <= y < state@.len() && 0 <= x < state@[y].len() implies cell_wf(
                #[trigger] state@[y][x],
                model.numbers@,
                Point { x: x as i32, y: y as i32 },
            ) by {
                assert(state@[y][x].candidates == model.numbers@);
                assert forall|k: int|
                    0 <= k < model.numbers@.len() implies model.numbers@.contains(
                    #[trigger] model.numbers@[k],
                ) by {}
            }
        }
        assert(grid_live(state@));
    }
    let ghost ginit = state@;
    let ok = bifurcate(model, &precomputed, &mut state);
    proof {
        if exists|a: Seq<Seq<i32>>|
            assignment_in_model(*model, a) && solver_complete_for(*model, a) {
            let a = choose|a: Seq<Seq<i32>>|
                assignment_in_model(*model, a) && solver_complete_for(*model, a);
            assert(consistent(ginit, a)) by {
                assert forall|y: int, x: int|
                    0 <= y < ginit.len() && 0 <= x
                        < ginit[y].len() implies crate::state::cell_consistent(
                    #[trigger] ginit[y][x],
                    a[y][x],
                ) by {
                    assert(ginit[y][x].candidates == model.numbers@);
                    assert(model.numbers@.contains(a[y][x]));
                }
            }
            assert(ok);
        }
    }
    (ok, state)
}

} // verus!
