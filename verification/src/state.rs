//! Solver state: a grid of cells each holding either a committed value or a
//! candidate list, the precomputed prefix sums used by the killer rule, and
//! the `limit` primitive that narrows one cell's candidates.

use vstd::prelude::*;

use crate::model::{model_wf, sorted_strict, SudokuModel};
use crate::sums::{hi_sum, lo_sum};
use crate::seq_facts::lemma_distinct_within;
use crate::vec2::Point;

verus! {

/// The outcome of one propagation step.
#[derive(Clone, Copy, Debug, PartialEq, Eq, Structural)]
pub enum PropagationResult {
    /// Some candidate set shrank or some cell was committed.
    Changed,
    /// Nothing moved.
    Unchanged,
    /// The constraint cannot be satisfied from this state.
    Contradiction,
}

/// One grid cell: its position, and either a committed value or the list of
/// candidate values still considered possible.
#[derive(Debug)]
pub struct Cell {
    pub pos: Point,
    pub value: Option<i32>,
    pub candidates: Vec<i32>,
}

/// The mathematical content of a cell.
pub struct CellModel {
    pub pos: Point,
    pub value: Option<i32>,
    pub candidates: Seq<i32>,
}

impl View for Cell {
    type V = CellModel;

    open spec fn view(&self) -> CellModel {
        CellModel { pos: self.pos, value: self.value, candidates: self.candidates@ }
    }
}

impl Clone for Cell {
    /// Clones the cell, preserving its content exactly.
    fn clone(&self) -> (r: Self)
        ensures
            r@ == self@,
    {
        Cell { pos: self.pos, value: self.value, candidates: copy_values(&self.candidates) }
    }
}

/// The solver state: a grid of cells indexed `[row][column]`.
#[derive(Debug)]
pub struct SolverState {
    pub grid: Vec<Vec<Cell>>,
}

impl View for SolverState {
    type V = Seq<Seq<CellModel>>;

    open spec fn view(&self) -> Seq<Seq<CellModel>> {
        Seq::new(self.grid@.len(), |y: int| Seq::new(self.grid@[y]@.len(), |x: int| self.grid@[y]@[x]@))
    }
}

/// The cell of a grid at position `p`.
pub open spec fn gcell(g: Seq<Seq<CellModel>>, p: Point) -> CellModel {
    g[p.y as int][p.x as int]
}

/// Candidate lists are strictly sorted and drawn from the admissible
/// values.
pub open spec fn cand_wf(cands: Seq<i32>, numbers: Seq<i32>) -> bool {
    &&& sorted_strict(cands)
    &&& forall|i: int| 0 <= i < cands.len() ==> numbers.contains(#[trigger] cands[i])
}

/// Well-formedness of one cell at its position: a committed value is
/// admissible and leaves no candidates; an uncommitted cell carries a
/// well-formed candidate list.
pub open spec fn cell_wf(c: CellModel, numbers: Seq<i32>, p: Point) -> bool {
    &&& c.pos == p
    &&& (c.value matches Some(v) ==> numbers.contains(v) && c.candidates.len() == 0)
    &&& (c.value is None ==> cand_wf(c.candidates, numbers))
}

/// The grid has exactly the model's dimensions.
pub open spec fn grid_dims(g: Seq<Seq<CellModel>>, size: Point) -> bool {
    &&& g.len() == size.y as int
    &&& forall|y: int| 0 <= y < g.len() ==> (#[trigger] g[y]).len() == size.x as int
}

/// Well-formedness of a whole grid against a model.
pub open spec fn grid_wf(g: Seq<Seq<CellModel>>, m: SudokuModel) -> bool {
    &&& grid_dims(g, m.size)
    &&& forall|y: int, x: int|
        0 <= y < g.len() && 0 <= x < g[y].len() ==> cell_wf(
            #[trigger] g[y][x],
            m.numbers@,
            Point { x: x as i32, y: y as i32 },
        )
}

/// Every uncommitted cell still has at least one candidate.
pub open spec fn grid_live(g: Seq<Seq<CellModel>>) -> bool {
    forall|y: int, x: int|
        0 <= y < g.len() && 0 <= x < g[y].len() ==> ((#[trigger] g[y][x]).value is None
            ==> g[y][x].candidates.len() >= 1)
}

/// Every cell is committed.
pub open spec fn grid_solved(g: Seq<Seq<CellModel>>) -> bool {
    forall|y: int, x: int|
        0 <= y < g.len() && 0 <= x < g[y].len() ==> (#[trigger] g[y][x]).value is Some
}

/// The full assignment a solved grid denotes (uncommitted cells read as 0).
pub open spec fn assignment_of(g: Seq<Seq<CellModel>>) -> Seq<Seq<i32>> {
    Seq::new(
        g.len(),
        |y: int|
            Seq::new(
                g[y].len(),
                |x: int|
                    if g[y][x].value is Some {
                        g[y][x].value->0
                    } else {
                        0i32
                    },
            ),
    )
}

/// Whether an assignment value is allowed by a cell: a committed cell pins
/// it, an open cell lists it among its candidates.
pub open spec fn cell_consistent(c: CellModel, v: i32) -> bool {
    match c.value {
        Some(w) => v == w,
        None => c.candidates.contains(v),
    }
}

/// Whether a full assignment is consistent with a grid: it matches the
/// grid's dimensions and every cell allows its value.
pub open spec fn consistent(g: Seq<Seq<CellModel>>, a: Seq<Seq<i32>>) -> bool {
    &&& a.len() == g.len()
    &&& forall|y: int| 0 <= y < g.len() ==> (#[trigger] a[y]).len() == g[y].len()
    &&& forall|y: int, x: int|
        0 <= y < g.len() && 0 <= x < g[y].len() ==> cell_consistent(#[trigger] g[y][x], a[y][x])
}

/// One cell narrows another: the position is kept, a committed value is
/// kept, a fresh commitment comes from the old candidates, and candidates
/// only shrink.
pub open spec fn cell_narrows(c2: CellModel, c1: CellModel) -> bool {
    &&& c2.pos == c1.pos
    &&& match c1.value {
        Some(v1) => c2.value == Some(v1) && c2.candidates == c1.candidates,
        None => match c2.value {
            Some(v2) => c1.candidates.contains(v2) && c2.candidates.len() == 0,
            None => forall|v: i32|
                #[trigger] c2.candidates.contains(v) ==> c1.candidates.contains(v),
        },
    }
}

/// One grid narrows another, cell by cell.
pub open spec fn narrows(g2: Seq<Seq<CellModel>>, g1: Seq<Seq<CellModel>>) -> bool {
    &&& g2.len() == g1.len()
    &&& forall|y: int| 0 <= y < g1.len() ==> (#[trigger] g2[y]).len() == g1[y].len()
    &&& forall|y: int, x: int|
        0 <= y < g1.len() && 0 <= x < g1[y].len() ==> cell_narrows(#[trigger] g2[y][x], g1[y][x])
}

/// Narrowing is reflexive.
pub proof fn lemma_narrows_refl(g: Seq<Seq<CellModel>>)
    ensures
        narrows(g, g),
{
    assert forall|y: int, x: int|
        0 <= y < g.len() && 0 <= x < g[y].len() implies cell_narrows(
        #[trigger] g[y][x],
        g[y][x],
    ) by {
        match g[y][x].value {
            Some(v1) => {},
            None => {},
        }
    }
}

/// Narrowing is transitive.
pub proof fn lemma_narrows_trans(
    g3: Seq<Seq<CellModel>>,
    g2: Seq<Seq<CellModel>>,
    g1: Seq<Seq<CellModel>>,
)
    requires
        narrows(g3, g2),
        narrows(g2, g1),
    ensures
        narrows(g3, g1),
{
    assert forall|y: int, x: int|
        0 <= y < g1.len() && 0 <= x < g1[y].len() implies cell_narrows(
        #[trigger] g3[y][x],
        g1[y][x],
    ) by {
        assert(cell_narrows(g3[y][x], g2[y][x]));
        assert(cell_narrows(g2[y][x], g1[y][x]));
    }
}

/// The remaining work in one cell: its candidate count, plus one if it is
/// still uncommitted.
pub open spec fn cell_measure(c: CellModel) -> nat {
    c.candidates.len() + if c.value is None {
        1nat
    } else {
        0nat
    }
}

/// The remaining work in one row.
pub open spec fn row_measure(row: Seq<CellModel>) -> nat
    decreases row.len(),
{
    if row.len() == 0 {
        0
    } else {
        cell_measure(row[0]) + row_measure(row.drop_first())
    }
}

/// The remaining work in a grid; strictly shrinks on every productive
/// propagation step, which bounds the search.
pub open spec fn grid_measure(g: Seq<Seq<CellModel>>) -> nat
    decreases g.len(),
{
    if g.len() == 0 {
        0
    } else {
        row_measure(g[0]) + grid_measure(g.drop_first())
    }
}

/// Replacing one cell of a row changes the row measure by the cell
/// difference.
pub proof fn lemma_row_measure_update(r1: Seq<CellModel>, r2: Seq<CellModel>, x: int)
    requires
        r1.len() == r2.len(),
        0 <= x < r1.len(),
        forall|j: int| 0 <= j < r1.len() && j != x ==> r1[j] == r2[j],
    ensures
        row_measure(r2) + cell_measure(r1[x]) == row_measure(r1) + cell_measure(r2[x]),
    decreases r1.len(),
{
    if x == 0 {
        assert(r1.drop_first() =~= r2.drop_first());
    } else {
        lemma_row_measure_update(r1.drop_first(), r2.drop_first(), x - 1);
        assert(r1.drop_first()[x - 1] == r1[x]);
        assert(r2.drop_first()[x - 1] == r2[x]);
        assert(r1[0] == r2[0]);
    }
}

/// Replacing one cell of a grid changes the grid measure by the cell
/// difference.
pub proof fn lemma_grid_measure_update(
    g1: Seq<Seq<CellModel>>,
    g2: Seq<Seq<CellModel>>,
    y: int,
    x: int,
)
    requires
        g1.len() == g2.len(),
        0 <= y < g1.len(),
        0 <= x < g1[y].len(),
        g1[y].len() == g2[y].len(),
        forall|yy: int| 0 <= yy < g1.len() && yy != y ==> g1[yy] == g2[yy],
        forall|j: int| 0 <= j < g1[y].len() && j != x ==> g1[y][j] == g2[y][j],
    ensures
        grid_measure(g2) + cell_measure(g1[y][x]) == grid_measure(g1) + cell_measure(g2[y][x]),
    decreases g1.len(),
{
    if y == 0 {
        lemma_row_measure_update(g1[0], g2[0], x);
        assert(g1.drop_first() =~= g2.drop_first());
    } else {
        lemma_grid_measure_update(g1.drop_first(), g2.drop_first(), y - 1, x);
        assert(g1.drop_first()[y - 1] == g1[y]);
        assert(g2.drop_first()[y - 1] == g2[y]);
        assert(g1[0] == g2[0]);
    }
}

/// A narrowed cell has no larger a measure, provided its candidate list is
/// duplicate-free.
pub proof fn lemma_cell_narrows_measure(c2: CellModel, c1: CellModel)
    requires
        cell_narrows(c2, c1),
        c2.candidates.no_duplicates(),
    ensures
        cell_measure(c2) <= cell_measure(c1),
{
    match c1.value {
        Some(v1) => {},
        None => {
            match c2.value {
                Some(v2) => {
                    assert(c1.candidates.len() >= 1);
                },
                None => {
                    c1.candidates.lemma_cardinality_of_set();
                    assert forall|i: int|
                        0 <= i < c2.candidates.len() implies c1.candidates.to_set().contains(
                        #[trigger] c2.candidates[i],
                    ) by {
                        assert(c2.candidates.contains(c2.candidates[i]));
                    }
                    lemma_distinct_within(c2.candidates, c1.candidates.to_set());
                },
            }
        },
    }
}

/// A narrowed row has no larger a measure.
pub proof fn lemma_row_narrows_measure(r2: Seq<CellModel>, r1: Seq<CellModel>)
    requires
        r1.len() == r2.len(),
        forall|j: int| 0 <= j < r1.len() ==> cell_narrows(#[trigger] r2[j], r1[j]),
        forall|j: int| 0 <= j < r2.len() ==> (#[trigger] r2[j]).candidates.no_duplicates(),
    ensures
        row_measure(r2) <= row_measure(r1),
    decreases r1.len(),
{
    if r1.len() > 0 {
        assert(cell_narrows(r2[0], r1[0]));
        lemma_cell_narrows_measure(r2[0], r1[0]);
        assert forall|j: int| 0 <= j < r1.drop_first().len() implies cell_narrows(
            #[trigger] r2.drop_first()[j],
            r1.drop_first()[j],
        ) by {
            assert(cell_narrows(r2[j + 1], r1[j + 1]));
        }
        assert forall|j: int|
            0 <= j < r2.drop_first().len() implies (#[trigger] r2.drop_first()[j])
            .candidates.no_duplicates() by {
            assert(r2[j + 1].candidates.no_duplicates());
        }
        lemma_row_narrows_measure(r2.drop_first(), r1.drop_first());
    }
}

/// A narrowed grid has no larger a measure.
pub proof fn lemma_grid_narrows_measure(g2: Seq<Seq<CellModel>>, g1: Seq<Seq<CellModel>>)
    requires
        narrows(g2, g1),
        forall|y: int, x: int|
            0 <= y < g2.len() && 0 <= x < g2[y].len() ==> (#[trigger] g2[y][x])
                .candidates.no_duplicates(),
    ensures
        grid_measure(g2) <= grid_measure(g1),
    decreases g1.len(),
{
    if g1.len() > 0 {
        assert forall|j: int| 0 <= j < g1[0].len() implies cell_narrows(
            #[trigger] g2[0][j],
            g1[0][j],
        ) by {}
        assert forall|j: int|
            0 <= j < g2[0].len() implies (#[trigger] g2[0][j]).candidates.no_duplicates() by {}
        lemma_row_narrows_measure(g2[0], g1[0]);
        assert forall|y: int, x: int|
            0 <= y < g2.drop_first().len() && 0 <= x < g2.drop_first()[y].len() implies (
        #[trigger] g2.drop_first()[y][x]).candidates.no_duplicates() by {
            assert(g2[y + 1][x].candidates.no_duplicates());
        }
        assert(narrows(g2.drop_first(), g1.drop_first())) by {
            assert forall|y: int|
                0 <= y < g1.drop_first().len() implies (#[trigger] g2.drop_first()[y]).len()
                == g1.drop_first()[y].len() by {
                assert(g2[y + 1].len() == g1[y + 1].len());
            }
            assert forall|y: int, x: int|
                0 <= y < g1.drop_first().len() && 0 <= x < g1.drop_first()[y].len()
                implies cell_narrows(#[trigger] g2.drop_first()[y][x], g1.drop_first()[y][x]) by {
                assert(cell_narrows(g2[y + 1][x], g1[y + 1][x]));
            }
        }
        lemma_grid_narrows_measure(g2.drop_first(), g1.drop_first());
    }
}

/// Strictly sorted candidate lists have no duplicates.
pub proof fn lemma_sorted_no_dup(s: Seq<i32>)
    requires
        sorted_strict(s),
    ensures
        s.no_duplicates(),
{
    assert forall|i: int, j: int|
        0 <= i < s.len() && 0 <= j < s.len() && i != j implies s[i] != s[j] by {
        if i < j {
            assert(s[i] < s[j]);
        } else {
            assert(s[j] < s[i]);
        }
    }
}

/// The candidates surviving a keep-mask, in order.
pub open spec fn filter_mask(s: Seq<i32>, keep: Seq<bool>) -> Seq<i32>
    decreases s.len(),
{
    if s.len() == 0 {
        Seq::empty()
    } else {
        filter_mask(s.drop_last(), keep.drop_last()) + if keep[s.len() - 1] {
            seq![s.last()]
        } else {
            Seq::empty()
        }
    }
}

/// What survives a mask: exactly the values at kept positions.
pub proof fn lemma_filter_mask_membership(s: Seq<i32>, keep: Seq<bool>)
    requires
        keep.len() == s.len(),
    ensures
        forall|v: i32|
            #[trigger] filter_mask(s, keep).contains(v) <==> exists|i: int|
                0 <= i < s.len() && keep[i] && s[i] == v,
        filter_mask(s, keep).len() <= s.len(),
    decreases s.len(),
{
    if s.len() > 0 {
        lemma_filter_mask_membership(s.drop_last(), keep.drop_last());
        let f = filter_mask(s, keep);
        let fprev = filter_mask(s.drop_last(), keep.drop_last());
        assert forall|v: i32| #[trigger] f.contains(v) implies exists|i: int|
            0 <= i < s.len() && keep[i] && s[i] == v by {
            let k = choose|k: int| 0 <= k < f.len() && f[k] == v;
            if k < fprev.len() {
                assert(fprev[k] == v);
                assert(fprev.contains(v));
                let i = choose|i: int|
                    0 <= i < s.drop_last().len() && keep.drop_last()[i] && s.drop_last()[i] == v;
                assert(0 <= i < s.len() && keep[i] && s[i] == v);
            } else {
                assert(keep[s.len() - 1] && s[s.len() - 1] == v);
            }
        }
        assert forall|v: i32|
            (exists|i: int| 0 <= i < s.len() && keep[i] && s[i] == v) implies #[trigger] f
            .contains(v) by {
            let i = choose|i: int| 0 <= i < s.len() && keep[i] && s[i] == v;
            if i < s.len() - 1 {
                assert(s.drop_last()[i] == v && keep.drop_last()[i]);
                assert(fprev.contains(v));
                let k = choose|k: int| 0 <= k < fprev.len() && fprev[k] == v;
                assert(f[k] == v);
            } else {
                assert(f.last() == v);
            }
        }
    }
}

/// A mask that keeps everything keeps the sequence; more generally, keeping
/// as many values as there are means every position was kept.
pub proof fn lemma_filter_mask_full(s: Seq<i32>, keep: Seq<bool>)
    requires
        keep.len() == s.len(),
        filter_mask(s, keep).len() == s.len(),
    ensures
        filter_mask(s, keep) == s,
    decreases s.len(),
{
    if s.len() > 0 {
        lemma_filter_mask_membership(s.drop_last(), keep.drop_last());
        if keep[s.len() - 1] {
            lemma_filter_mask_full(s.drop_last(), keep.drop_last());
            assert(filter_mask(s, keep) =~= s);
        } else {
            assert(filter_mask(s, keep).len() <= s.len() - 1);
        }
    }
}

/// Each survivor of a mask occurs in the original sequence, and a strictly
/// sorted sequence stays strictly sorted under masking.
pub proof fn lemma_filter_mask_sorted(s: Seq<i32>, keep: Seq<bool>)
    requires
        keep.len() == s.len(),
        sorted_strict(s),
    ensures
        sorted_strict(filter_mask(s, keep)),
        forall|v: i32| #[trigger] filter_mask(s, keep).contains(v) ==> s.contains(v),
        filter_mask(s, keep).no_duplicates(),
    decreases s.len(),
{
    lemma_filter_mask_membership(s, keep);
    let f = filter_mask(s, keep);
    if s.len() > 0 {
        assert(sorted_strict(s.drop_last())) by {
            assert forall|i: int, j: int|
                0 <= i < j < s.drop_last().len() implies s.drop_last()[i] < s.drop_last()[j] by {
                assert(s[i] < s[j]);
            }
        }
        lemma_filter_mask_sorted(s.drop_last(), keep.drop_last());
        lemma_filter_mask_membership(s.drop_last(), keep.drop_last());
        let fprev = filter_mask(s.drop_last(), keep.drop_last());
        assert forall|i: int, j: int| 0 <= i < j < f.len() implies f[i] < f[j] by {
            if j < fprev.len() {
                assert(fprev[i] < fprev[j]);
            } else if keep[s.len() - 1] && j == fprev.len() {
                assert(f[j] == s.last());
                assert(fprev[i] == f[i]);
                assert(fprev.contains(fprev[i]));
                let k = choose|k: int|
                    0 <= k < s.drop_last().len() && keep.drop_last()[k] && s.drop_last()[k]
                        == fprev[i];
                assert(s[k] < s.last());
            }
        }
    }
    assert forall|v: i32| #[trigger] f.contains(v) implies s.contains(v) by {
        let i = choose|i: int| 0 <= i < s.len() && keep[i] && s[i] == v;
        assert(s[i] == v);
    }
    lemma_sorted_no_dup(f);
}

/// Copies a vector of values.
pub fn copy_values(v: &Vec<i32>) -> (r: Vec<i32>)
    ensures
        r@ == v@,
{
    let mut out: Vec<i32> = Vec::new();
    let mut i: usize = 0;
    while i < v.len()
        invariant
            0 <= i <= v@.len(),
            out@ == v@.take(i as int),
        decreases v@.len() - i,
    {
        out.push(v[i]);
        proof {
            assert(out@ =~= v@.take(i + 1));
        }
        i = i + 1;
    }
    proof {
        assert(out@ =~= v@);
    }
    out
}

impl Cell {
    /// Commits a value to the cell and clears its candidates.
    pub fn set_value(&mut self, value: i32)
        ensures
            final(self)@.pos == old(self)@.pos,
            final(self)@.value == Some(value),
            final(self)@.candidates.len() == 0,
    {
        self.value = Some(value);
        self.candidates = Vec::new();
    }
}

impl Clone for SolverState {
    /// Clones the whole grid, preserving its content exactly.
    fn clone(&self) -> (r: Self)
        ensures
            r@ == self@,
    {
        let mut grid: Vec<Vec<Cell>> = Vec::new();
        let mut y: usize = 0;
        while y < self.grid.len()
            invariant
                0 <= y <= self.grid@.len(),
                grid@.len() == y,
                forall|yy: int|
                    0 <= yy < y ==> (#[trigger] grid@[yy])@.len() == self.grid@[yy]@.len(),
                forall|yy: int, xx: int|
                    0 <= yy < y && 0 <= xx < grid@[yy]@.len() ==> (#[trigger] grid@[yy]@[xx])@
                        == self.grid@[yy]@[xx]@,
            decreases self.grid@.len() - y,
        {
            let src = &self.grid[y];
            let mut row: Vec<Cell> = Vec::new();
            let mut x: usize = 0;
            while x < src.len()
                invariant
                    0 <= x <= src@.len(),
                    row@.len() == x,
                    forall|xx: int| 0 <= xx < x ==> (#[trigger] row@[xx])@ == src@[xx]@,
                decreases src@.len() - x,
            {
                row.push(src[x].clone());
                x = x + 1;
            }
            grid.push(row);
            y = y + 1;
        }
        let r = SolverState { grid };
        proof {
            assert forall|yy: int| 0 <= yy < r@.len() implies #[trigger] r@[yy] =~= self@[yy] by {
                assert(r.grid@[yy]@.len() == self.grid@[yy]@.len());
            }
            assert(r@ =~~= self@);
        }
        r
    }
}

impl SolverState {
    /// Reads the cell at `pos`.
    pub fn get(&self, pos: Point) -> (r: &Cell)
        requires
            0 <= pos.y && (pos.y as int) < self@.len(),
            0 <= pos.x && (pos.x as int) < self@[pos.y as int].len(),
        ensures
            r@ == gcell(self@, pos),
    {
        &self.grid[pos.y as usize][pos.x as usize]
    }

    /// Whether every cell is committed.
    pub fn is_solved(&self) -> (r: bool)
        ensures
            r == grid_solved(self@),
    {
        let mut y: usize = 0;
        while y < self.grid.len()
            invariant
                0 <= y <= self.grid@.len(),
                forall|yy: int, xx: int|
                    0 <= yy < y && 0 <= xx < self@[yy].len() ==> (#[trigger] self@[yy][xx]).value
                        is Some,
            decreases self.grid@.len() - y,
        {
            let row = &self.grid[y];
            let mut x: usize = 0;
            while x < row.len()
                invariant
                    0 <= y < self.grid@.len(),
                    row@ == self.grid@[y as int]@,
                    0 <= x <= row@.len(),
                    forall|yy: int, xx: int|
                        0 <= yy < y && 0 <= xx < self@[yy].len() ==> (
                        #[trigger] self@[yy][xx]).value is Some,
                    forall|xx: int|
                        0 <= xx < x ==> (#[trigger] self@[y as int][xx]).value is Some,
                decreases row@.len() - x,
            {
                if row[x].value.is_none() {
                    assert(self@[y as int][x as int].value is None);
                    return false;
                }
                x = x + 1;
            }
            y = y + 1;
        }
        true
    }

    /// Narrows the cell at `pos` to the candidates selected by `keep`.
    /// Commits the cell when exactly one candidate remains; reports
    /// contradiction when none does; reports whether anything moved.
    pub fn limit_cell(&mut self, pos: Point, keep: &Vec<bool>) -> (r: PropagationResult)
        requires
            0 <= pos.y && (pos.y as int) < old(self)@.len(),
            0 <= pos.x && (pos.x as int) < old(self)@[pos.y as int].len(),
            gcell(old(self)@, pos).value is None,
            gcell(old(self)@, pos).pos == pos,
            keep@.len() == gcell(old(self)@, pos).candidates.len(),
        ensures
            ({
                let g1 = old(self)@;
                let g2 = final(self)@;
                let c1 = gcell(g1, pos);
                let c2 = gcell(g2, pos);
                let kept = filter_mask(c1.candidates, keep@);
                &&& g2.len() == g1.len()
                &&& (forall|yy: int| 0 <= yy < g1.len() ==> (#[trigger] g2[yy]).len()
                    == g1[yy].len())
                &&& (forall|yy: int, xx: int|
                    0 <= yy < g1.len() && 0 <= xx < g1[yy].len() && !(yy == pos.y as int && xx
                        == pos.x as int) ==> #[trigger] g2[yy][xx] == g1[yy][xx])
                &&& c2.pos == c1.pos
                &&& (r == PropagationResult::Contradiction <==> kept.len() == 0)
                &&& (kept.len() == 0 ==> c2.value is None && c2.candidates == kept)
                &&& (kept.len() == 1 ==> c2.value == Some(kept[0]) && c2.candidates.len() == 0)
                &&& (kept.len() >= 2 ==> c2.value is None && c2.candidates == kept)
                &&& (r == PropagationResult::Changed <==> kept.len() >= 1 && (kept.len()
                    < c1.candidates.len() || kept.len() == 1))
                &&& (r == PropagationResult::Unchanged ==> g2 == g1)
            }),
    {
        let y = pos.y as usize;
        let x = pos.x as usize;
        let ghost c1 = gcell(old(self)@, pos);
        let n = self.grid[y][x].candidates.len();
        let mut kept: Vec<i32> = Vec::new();
        let mut k: usize = 0;
        while k < n
            invariant
                0 <= y && (y as int) < self@.len(),
                0 <= x && (x as int) < self@[y as int].len(),
                c1 == gcell(self@, pos),
                y as int == pos.y as int,
                x as int == pos.x as int,
                n == c1.candidates.len(),
                keep@.len() == n,
                0 <= k <= n,
                kept@ == filter_mask(c1.candidates.take(k as int), keep@.take(k as int)),
            decreases n - k,
        {
            let keep_it = keep[k];
            let cv = self.grid[y][x].candidates[k];
            proof {
                assert(cv == c1.candidates[k as int]);
                let st = c1.candidates.take(k + 1);
                let kt = keep@.take(k + 1);
                assert(st.drop_last() =~= c1.candidates.take(k as int));
                assert(kt.drop_last() =~= keep@.take(k as int));
                assert(st[st.len() - 1] == cv);
                if keep_it {
                    assert(filter_mask(st, kt) =~= filter_mask(
                        c1.candidates.take(k as int),
                        keep@.take(k as int),
                    ) + seq![cv]);
                } else {
                    assert(filter_mask(st, kt) =~= filter_mask(
                        c1.candidates.take(k as int),
                        keep@.take(k as int),
                    ));
                }
            }
            if keep_it {
                kept.push(cv);
            }
            k = k + 1;
        }
        proof {
            assert(c1.candidates.take(n as int) =~= c1.candidates);
            assert(keep@.take(n as int) =~= keep@);
        }
        let ghost keptg = filter_mask(c1.candidates, keep@);
        proof {
            assert(kept@ == keptg);
        }
        let r: PropagationResult;
        let newcell: Cell;
        if kept.len() == 0 {
            newcell = Cell { pos, value: None, candidates: kept };
            r = PropagationResult::Contradiction;
        } else if kept.len() == 1 {
            let v = kept[0];
            newcell = Cell { pos, value: Some(v), candidates: Vec::new() };
            r = PropagationResult::Changed;
        } else if kept.len() == n {
            newcell = Cell { pos, value: None, candidates: kept };
            r = PropagationResult::Unchanged;
        } else {
            newcell = Cell { pos, value: None, candidates: kept };
            r = PropagationResult::Changed;
        }
        proof {
            lemma_filter_mask_membership(c1.candidates, keep@);
            if keptg.len() == n {
                lemma_filter_mask_full(c1.candidates, keep@);
            }
        }
        let ghost gmid = self@;
        let row: &mut Vec<Cell> = &mut self.grid[y];
        row.set(x, newcell);
        proof {
            assert forall|yy: int| 0 <= yy < old(self)@.len() implies (#[trigger] self@[yy]).len()
                == old(self)@[yy].len() by {}
            assert forall|yy: int, xx: int|
                0 <= yy < old(self)@.len() && 0 <= xx < old(self)@[yy].len() && !(yy == pos.y as int
                    && xx == pos.x as int) implies #[trigger] self@[yy][xx] == old(
                self,
            )@[yy][xx] by {
                if yy == y as int {
                    assert(self.grid@[yy]@[xx] == old(self).grid@[yy]@[xx]);
                }
            }
            if r == PropagationResult::Unchanged {
                assert(gcell(self@, pos).candidates =~= c1.candidates);
                assert(gcell(self@, pos) == c1);
                assert(self@ =~~= old(self)@);
            }
        }
        r
    }
}

/// Prefix sums over the sorted admissible values: `lowest_sums[k]` is the
/// sum of the `k` smallest values, `highest_sums[k]` of the `k` largest.
#[derive(Clone, Debug)]
pub struct Precomputed {
    pub lowest_sums: Vec<i64>,
    pub highest_sums: Vec<i64>,
}

/// The precomputed tables hold exactly the prefix sums of the admissible
/// values.
pub open spec fn precomputed_wf(p: Precomputed, ns: Seq<i32>) -> bool {
    &&& p.lowest_sums@.len() == ns.len() + 1
    &&& p.highest_sums@.len() == ns.len() + 1
    &&& forall|k: int| 0 <= k <= ns.len() ==> (#[trigger] p.lowest_sums@[k]) as int == lo_sum(ns, k)
    &&& forall|k: int|
        0 <= k <= ns.len() ==> (#[trigger] p.highest_sums@[k]) as int == hi_sum(ns, k)
}

impl Precomputed {
    /// Computes both prefix-sum tables for a model's admissible values.
    pub fn new(model: &SudokuModel) -> (r: Self)
        requires
            model_wf(*model),
        ensures
            precomputed_wf(r, model.numbers@),
    {
        let ghost ns = model.numbers@;
        let n = model.numbers.len();
        let mut lowest: Vec<i64> = Vec::new();
        let mut highest: Vec<i64> = Vec::new();
        lowest.push(0);
        highest.push(0);
        let mut i: usize = 0;
        while i < n
            invariant
                ns == model.numbers@,
                n == ns.len(),
                n <= crate::model::MAX_VALUES,
                0 <= i <= n,
                lowest@.len() == i + 1,
                highest@.len() == i + 1,
                forall|k: int| 0 <= k <= i ==> (#[trigger] lowest@[k]) as int == lo_sum(ns, k),
                forall|k: int| 0 <= k <= i ==> (#[trigger] highest@[k]) as int == hi_sum(ns, k),
            decreases n - i,
        {
            proof {
                crate::sums::lemma_prefix_sum_bounds(ns, i as int);
                crate::sums::lemma_prefix_sum_bounds(ns, i + 1);
            }
            let lv = lowest[i] + model.numbers[i] as i64;
            let hv = highest[i] + model.numbers[n - i - 1] as i64;
            proof {
                assert(lv as int == lo_sum(ns, i + 1));
                assert(hv as int == hi_sum(ns, i + 1));
            }
            lowest.push(lv);
            highest.push(hv);
            i = i + 1;
        }
        Precomputed { lowest_sums: lowest, highest_sums: highest }
    }
}

/// Builds the starting grid: every cell open, with the full admissible
/// value list as its candidates.
pub fn empty_grid(size: Point, candidates: &Vec<i32>) -> (r: Vec<Vec<Cell>>)
    requires
        0 <= size.x,
        0 <= size.y,
    ensures
        r@.len() == size.y as int,
        forall|y: int| 0 <= y < r@.len() ==> (#[trigger] r@[y])@.len() == size.x as int,
        forall|y: int, x: int|
            0 <= y < r@.len() && 0 <= x < r@[y]@.len() ==> {
                let c = (#[trigger] r@[y]@[x])@;
                &&& c.pos == (Point { x: x as i32, y: y as i32 })
                &&& c.value is None
                &&& c.candidates == candidates@
            },
{
    let h = size.y as usize;
    let w = size.x as usize;
    let mut grid: Vec<Vec<Cell>> = Vec::new();
    let mut y: usize = 0;
    while y < h
        invariant
            0 <= y <= h,
            grid@.len() == y,
            forall|yy: int| 0 <= yy < y ==> (#[trigger] grid@[yy])@.len() == w as int,
            forall|yy: int, xx: int|
                0 <= yy < y && 0 <= xx < grid@[yy]@.len() ==> {
                    let c = (#[trigger] grid@[yy]@[xx])@;
                    &&& c.pos == (Point { x: xx as i32, y: yy as i32 })
                    &&& c.value is None
                    &&& c.candidates == candidates@
                },
            w == size.x as int,
            h == size.y as int,
        decreases h - y,
    {
        let mut row: Vec<Cell> = Vec::new();
        let mut x: usize = 0;
        while x < w
            invariant
                0 <= x <= w,
                row@.len() == x,
                forall|xx: int|
                    0 <= xx < x ==> {
                        let c = (#[trigger] row@[xx])@;
                        &&& c.pos == (Point { x: xx as i32, y: y as i32 })
                        &&& c.value is None
                        &&& c.candidates == candidates@
                    },
                w == size.x as int,
                h == size.y as int,
                0 <= y < h,
            decreases w - x,
        {
            row.push(
                Cell {
                    pos: Point { x: x as i32, y: y as i32 },
                    value: None,
                    candidates: copy_values(candidates),
                },
            );
            x = x + 1;
        }
        grid.push(row);
        y = y + 1;
    }
    grid
}

impl SolverState {
    /// Commits `v` into the open cell at `pos`, clearing its candidates.
    pub fn commit(&mut self, pos: Point, v: i32)
        requires
            0 <= pos.y && (pos.y as int) < old(self)@.len(),
            0 <= pos.x && (pos.x as int) < old(self)@[pos.y as int].len(),
            gcell(old(self)@, pos).value is None,
        ensures
            final(self)@.len() == old(self)@.len(),
            forall|yy: int|
                0 <= yy < old(self)@.len() ==> (#[trigger] final(self)@[yy]).len()
                    == old(self)@[yy].len(),
            forall|yy: int, xx: int|
                0 <= yy < old(self)@.len() && 0 <= xx < old(self)@[yy].len() && !(yy == pos.y
                    as int && xx == pos.x as int) ==> #[trigger] final(self)@[yy][xx] == old(
                    self,
                )@[yy][xx],
            gcell(final(self)@, pos).pos == pos,
            gcell(final(self)@, pos).value == Some(v),
            gcell(final(self)@, pos).candidates.len() == 0,
    {
        let y = pos.y as usize;
        let x = pos.x as usize;
        let newcell = Cell { pos, value: Some(v), candidates: Vec::new() };
        let row: &mut Vec<Cell> = &mut self.grid[y];
        row.set(x, newcell);
    }
}

/// The grids agree on every cell outside the listed ones.
pub open spec fn frame_outside(
    g2: Seq<Seq<CellModel>>,
    g1: Seq<Seq<CellModel>>,
    cells: Seq<Point>,
) -> bool {
    &&& g2.len() == g1.len()
    &&& forall|yy: int| 0 <= yy < g1.len() ==> (#[trigger] g2[yy]).len() == g1[yy].len()
    &&& forall|yy: int, xx: int|
        0 <= yy < g1.len() && 0 <= xx < g1[yy].len() && !cells.contains(
            Point { x: xx as i32, y: yy as i32 },
        ) ==> #[trigger] g2[yy][xx] == g1[yy][xx]
}

/// A grid frames itself.
pub proof fn lemma_frame_refl(g: Seq<Seq<CellModel>>, cells: Seq<Point>)
    ensures
        frame_outside(g, g, cells),
{
}

/// Framing composes.
pub proof fn lemma_frame_trans(
    g3: Seq<Seq<CellModel>>,
    g2: Seq<Seq<CellModel>>,
    g1: Seq<Seq<CellModel>>,
    cells: Seq<Point>,
)
    requires
        frame_outside(g3, g2, cells),
        frame_outside(g2, g1, cells),
    ensures
        frame_outside(g3, g1, cells),
{
    assert forall|yy: int, xx: int|
        0 <= yy < g1.len() && 0 <= xx < g1[yy].len() && !cells.contains(
            Point { x: xx as i32, y: yy as i32 },
        ) implies #[trigger] g3[yy][xx] == g1[yy][xx] by {
        assert(g2[yy][xx] == g1[yy][xx]);
        assert(g3[yy][xx] == g2[yy][xx]);
    }
}

/// A mask built from a predicate keeps exactly the candidates satisfying
/// it, provided the candidate list is duplicate-free.
pub proof fn lemma_mask_selects(cand: Seq<i32>, mask: Seq<bool>, pred: spec_fn(i32) -> bool)
    requires
        mask.len() == cand.len(),
        cand.no_duplicates(),
        forall|k: int| 0 <= k < mask.len() ==> mask[k] == pred(#[trigger] cand[k]),
    ensures
        forall|v: i32|
            #[trigger] filter_mask(cand, mask).contains(v) <==> (cand.contains(v) && pred(v)),
{
    lemma_filter_mask_membership(cand, mask);
    assert forall|v: i32| #[trigger] filter_mask(cand, mask).contains(v) implies (cand.contains(v)
        && pred(v)) by {
        let i = choose|i: int| 0 <= i < cand.len() && mask[i] && cand[i] == v;
        assert(cand.contains(cand[i]));
    }
    assert forall|v: i32| cand.contains(v) && pred(v) implies #[trigger] filter_mask(
        cand,
        mask,
    ).contains(v) by {
        let i = choose|i: int| 0 <= i < cand.len() && cand[i] == v;
        assert(mask[i]);
    }
}

/// An assignment consistent with a narrowed grid is consistent with the
/// grid it narrows.
pub proof fn lemma_narrows_consistent(
    g2: Seq<Seq<CellModel>>,
    g1: Seq<Seq<CellModel>>,
    a: Seq<Seq<i32>>,
)
    requires
        narrows(g2, g1),
        consistent(g2, a),
    ensures
        consistent(g1, a),
{
    assert forall|y: int, x: int|
        0 <= y < g1.len() && 0 <= x < g1[y].len() implies cell_consistent(
        #[trigger] g1[y][x],
        a[y][x],
    ) by {
        assert(cell_narrows(g2[y][x], g1[y][x]));
        assert(cell_consistent(g2[y][x], a[y][x]));
        match g1[y][x].value {
            Some(v1) => {},
            None => {
                match g2[y][x].value {
                    Some(v2) => {},
                    None => {
                        assert(g2[y][x].candidates.contains(a[y][x]));
                    },
                }
            },
        }
    }
}

} // verus!
