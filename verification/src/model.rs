//! The puzzle model: a declarative puzzle description, and its expansion
//! into a grid size, the sorted list of admissible values, and a list of
//! expanded constraints.

use vstd::prelude::*;

use crate::constraint::{constraint_built_from, constraint_spec_degenerate_line,
    constraint_spec_misaligned_line, constraint_spec_ok, Constraint, ConstraintSpecifier};
use crate::seq_facts::{lemma_distinct_within, lemma_push_contains};
use crate::vec2::Point;
use crate::BuildError;

verus! {

/// Upper bound on the number of grid cells the solver state will hold.
pub const MAX_CELLS: i64 = 0x4000_0000;

/// Upper bound on the number of admissible values; keeps the precomputed
/// prefix sums within a 64-bit accumulator.
pub const MAX_VALUES: usize = 0x4000_0000;

/// A declarative puzzle: a grid size, a list of inclusive value ranges
/// whose union forms the admissible values, and a list of constraint
/// specifiers. Each range is a point whose `x` is the low end and whose `y`
/// is the high end.
#[derive(Debug)]
pub struct SudokuSpecifier {
    pub size: Point,
    pub numbers: Vec<Point>,
    pub constraints: Vec<ConstraintSpecifier>,
}

/// An expanded puzzle: the grid size, the sorted deduplicated admissible
/// values, and the expanded constraints.
#[derive(Clone, Debug)]
pub struct SudokuModel {
    pub size: Point,
    pub numbers: Vec<i32>,
    pub constraints: Vec<Constraint>,
}

/// Whether `v` lies in some of the inclusive ranges.
pub open spec fn in_some_range(ranges: Seq<Point>, v: int) -> bool {
    exists|j: int|
        0 <= j < ranges.len() && (#[trigger] ranges[j]).x as int <= v <= ranges[j].y as int
}

/// The set of admissible values denoted by a list of inclusive ranges.
pub open spec fn value_set(ranges: Seq<Point>) -> Set<i32> {
    Set::new(|v: i32| in_some_range(ranges, v as int))
}

/// A strictly ascending sequence of values.
pub open spec fn sorted_strict(s: Seq<i32>) -> bool {
    forall|i: int, j: int| 0 <= i < j < s.len() ==> s[i] < s[j]
}

/// Whether a cell position lies on the grid.
pub open spec fn cell_in_bounds(size: Point, p: Point) -> bool {
    0 <= p.x < size.x && 0 <= p.y < size.y
}

/// Whether every listed cell lies on the grid.
pub open spec fn cells_in_bounds(size: Point, cells: Seq<Point>) -> bool {
    forall|i: int| 0 <= i < cells.len() ==> cell_in_bounds(size, #[trigger] cells[i])
}

/// Whether every cell an expanded constraint mentions lies on the grid.
pub open spec fn constraint_in_bounds(c: Constraint, size: Point) -> bool {
    match c {
        Constraint::Unique(r) => cells_in_bounds(size, r.cells@),
        Constraint::Thermometer(l) => cells_in_bounds(size, l.cells@),
        Constraint::Killer { region, sum } => cells_in_bounds(size, region.cells@),
        Constraint::Arrow { region, tail } => cells_in_bounds(size, region.cells@)
            && cell_in_bounds(size, tail),
        Constraint::Relationship { first, second, relationship } => cell_in_bounds(size, first)
            && cell_in_bounds(size, second),
        Constraint::Property { region, property } => cells_in_bounds(size, region.cells@),
    }
}

/// Well-formedness of an expanded constraint: all cells on the grid,
/// regions duplicate-free, and relationships between distinct cells.
pub open spec fn constraint_wf(c: Constraint, size: Point) -> bool {
    &&& constraint_in_bounds(c, size)
    &&& match c {
        Constraint::Unique(r) => r.cells@.no_duplicates(),
        Constraint::Thermometer(l) => true,
        Constraint::Killer { region, sum } => region.cells@.no_duplicates(),
        Constraint::Arrow { region, tail } => region.cells@.no_duplicates(),
        Constraint::Relationship { first, second, relationship } => first != second,
        Constraint::Property { region, property } => region.cells@.no_duplicates(),
    }
}

/// Well-formedness of an expanded model, established by `build_model` and
/// relied on by the solver.
pub open spec fn model_wf(m: SudokuModel) -> bool {
    &&& 0 <= m.size.x
    &&& 0 <= m.size.y
    &&& m.size.x as int * m.size.y as int <= MAX_CELLS as int
    &&& 1 <= m.numbers@.len() <= MAX_VALUES as int
    &&& sorted_strict(m.numbers@)
    &&& forall|i: int|
        0 <= i < m.constraints@.len() ==> constraint_wf(#[trigger] m.constraints@[i], m.size)
}

/// Whether every cell a constraint specifier denotes lies on the grid.
pub open spec fn constraint_spec_in_bounds(cs: ConstraintSpecifier, size: Point) -> bool {
    match cs {
        ConstraintSpecifier::Unique { region } => forall|p: Point|
            #[trigger] crate::region::region_set(region).contains(p) ==> cell_in_bounds(size, p),
        ConstraintSpecifier::Thermometer { line } => cells_in_bounds(
            size,
            crate::region::polyline_seq(line.points@),
        ),
        ConstraintSpecifier::Killer { region, sum } => forall|p: Point|
            #[trigger] crate::region::region_set(region).contains(p) ==> cell_in_bounds(size, p),
        ConstraintSpecifier::Arrow { region, tail } => (forall|p: Point|
            #[trigger] crate::region::region_set(region).contains(p) ==> cell_in_bounds(size, p))
            && cell_in_bounds(size, tail),
        ConstraintSpecifier::Relationship { first, second, relationship } => cell_in_bounds(
            size,
            first,
        ) && cell_in_bounds(size, second),
        ConstraintSpecifier::Property { region, property } => forall|p: Point|
            #[trigger] crate::region::region_set(region).contains(p) ==> cell_in_bounds(size, p),
    }
}

/// Whether a whole puzzle description can be expanded into a model.
pub open spec fn spec_build_ok(s: SudokuSpecifier) -> bool {
    &&& !value_set(s.numbers@).is_empty()
    &&& value_set(s.numbers@).len() <= MAX_VALUES as int
    &&& 0 <= s.size.x
    &&& 0 <= s.size.y
    &&& s.size.x as int * s.size.y as int <= MAX_CELLS as int
    &&& forall|i: int|
        0 <= i < s.constraints@.len() ==> constraint_spec_ok(#[trigger] s.constraints@[i])
    &&& forall|i: int|
        0 <= i < s.constraints@.len() ==> constraint_spec_in_bounds(
            #[trigger] s.constraints@[i],
            s.size,
        )
}

/// Any set of 32-bit values is finite.
proof fn lemma_value_set_finite(ranges: Seq<Point>)
    ensures
        value_set(ranges).finite(),
        value_set(ranges).len() >= 0,
{
    let full = Set::<i32>::range_inclusive(i32::MIN, i32::MAX);
    <i32 as vstd::set_lib::FiniteRange>::range_properties(i32::MIN, i32::MAX);
    assert(<i32 as vstd::set_lib::FiniteRange>::range_set(i32::MIN, i32::MAX).finite());
    assert(full.finite()) by {
        vstd::set::axiom_set_insert_finite(<i32 as vstd::set_lib::FiniteRange>::range_set(i32::MIN, i32::MAX), i32::MAX);
    }
    assert(value_set(ranges) <= full) by {
        assert forall|v: i32| value_set(ranges).contains(v) implies full.contains(v) by {
            if v == i32::MAX {
            } else {
                assert(<i32 as vstd::set_lib::FiniteRange>::range_set(i32::MIN, i32::MAX).contains(v));
            }
        }
    }
    vstd::set_lib::lemma_set_subset_finite(full, value_set(ranges));
}

/// Whether `v` lies in some of the ranges.
fn in_any_range(ranges: &Vec<Point>, v: i64) -> (r: bool)
    ensures
        r == in_some_range(ranges@, v as int),
{
    let mut i: usize = 0;
    while i < ranges.len()
        invariant
            0 <= i <= ranges@.len(),
            forall|j: int|
                0 <= j < i ==> !((#[trigger] ranges@[j]).x as int <= v as int <= ranges@[j].y
                    as int),
        decreases ranges@.len() - i,
    {
        let rg = ranges[i];
        if rg.x as i64 <= v && v <= rg.y as i64 {
            return true;
        }
        i = i + 1;
    }
    false
}

/// Whether every listed cell lies on the grid.
fn points_in_bounds(cells: &Vec<Point>, size: Point) -> (r: bool)
    ensures
        r == cells_in_bounds(size, cells@),
{
    let mut i: usize = 0;
    while i < cells.len()
        invariant
            0 <= i <= cells@.len(),
            forall|j: int| 0 <= j < i ==> cell_in_bounds(size, #[trigger] cells@[j]),
        decreases cells@.len() - i,
    {
        let p = cells[i];
        if !(0 <= p.x && p.x < size.x && 0 <= p.y && p.y < size.y) {
            assert(!cell_in_bounds(size, cells@[i as int]));
            return false;
        }
        i = i + 1;
    }
    true
}

/// Whether every cell an expanded constraint mentions lies on the grid.
fn check_constraint_bounds(c: &Constraint, size: Point) -> (r: bool)
    ensures
        r == constraint_in_bounds(*c, size),
{
    match c {
        Constraint::Unique(r) => points_in_bounds(&r.cells, size),
        Constraint::Thermometer(l) => points_in_bounds(&l.cells, size),
        Constraint::Killer { region, sum } => points_in_bounds(&region.cells, size),
        Constraint::Arrow { region, tail } => {
            let rb = points_in_bounds(&region.cells, size);
            rb && 0 <= tail.x && tail.x < size.x && 0 <= tail.y && tail.y < size.y
        },
        Constraint::Relationship { first, second, relationship } => {
            0 <= first.x && first.x < size.x && 0 <= first.y && first.y < size.y && 0 <= second.x
                && second.x < size.x && 0 <= second.y && second.y < size.y
        },
        Constraint::Property { region, property } => points_in_bounds(&region.cells, size),
    }
}

/// When a duplicate-free cell list covers exactly a denoted set, the list
/// lies on the grid exactly when the denoted set does.
proof fn lemma_bounds_bridge(cells: Seq<Point>, s: Set<Point>, size: Point)
    requires
        cells.to_set() == s,
    ensures
        cells_in_bounds(size, cells) <==> (forall|p: Point|
            #[trigger] s.contains(p) ==> cell_in_bounds(size, p)),
{
    if cells_in_bounds(size, cells) {
        assert forall|p: Point| #[trigger] s.contains(p) implies cell_in_bounds(size, p) by {
            assert(cells.to_set().contains(p));
            let k = choose|k: int| 0 <= k < cells.len() && cells[k] == p;
            assert(cell_in_bounds(size, cells[k]));
        }
    }
    if forall|p: Point| #[trigger] s.contains(p) ==> cell_in_bounds(size, p) {
        assert forall|i: int| 0 <= i < cells.len() implies cell_in_bounds(
            size,
            #[trigger] cells[i],
        ) by {
            assert(cells.contains(cells[i]));
            assert(cells.to_set().contains(cells[i]));
            assert(s.contains(cells[i]));
        }
    }
}

/// The in-bounds check on an expanded constraint agrees with the in-bounds
/// condition on its specifier.
proof fn lemma_constraint_bounds_bridge(c: Constraint, cs: ConstraintSpecifier, size: Point)
    requires
        constraint_built_from(c, cs),
    ensures
        constraint_in_bounds(c, size) <==> constraint_spec_in_bounds(cs, size),
{
    match (c, cs) {
        (Constraint::Unique(r), ConstraintSpecifier::Unique { region }) => {
            lemma_bounds_bridge(r.cells@, crate::region::region_set(region), size);
        },
        (Constraint::Thermometer(l), ConstraintSpecifier::Thermometer { line }) => {
        },
        (
            Constraint::Killer { region: r, sum: s },
            ConstraintSpecifier::Killer { region, sum },
        ) => {
            lemma_bounds_bridge(r.cells@, crate::region::region_set(region), size);
        },
        (
            Constraint::Arrow { region: r, tail: t },
            ConstraintSpecifier::Arrow { region, tail },
        ) => {
            lemma_bounds_bridge(r.cells@, crate::region::region_set(region), size);
        },
        (
            Constraint::Relationship { first: f, second: s, relationship: rel },
            ConstraintSpecifier::Relationship { first, second, relationship },
        ) => {
        },
        (
            Constraint::Property { region: r, property: p },
            ConstraintSpecifier::Property { region, property },
        ) => {
            lemma_bounds_bridge(r.cells@, crate::region::region_set(region), size);
        },
        _ => {
        },
    }
}

impl SudokuModel {
    /// The position of `v` in the sorted admissible values, if present.
    pub fn number_index(&self, v: i32) -> (r: Option<usize>)
        ensures
            r matches Some(i) ==> i < self.numbers@.len() && self.numbers@[i as int] == v,
            r is None <==> !self.numbers@.contains(v),
    {
        let mut i: usize = 0;
        while i < self.numbers.len()
            invariant
                0 <= i <= self.numbers@.len(),
                forall|j: int| 0 <= j < i ==> self.numbers@[j] != v,
            decreases self.numbers@.len() - i,
        {
            if self.numbers[i] == v {
                return Some(i);
            }
            i = i + 1;
        }
        proof {
            if self.numbers@.contains(v) {
                let k = choose|k: int| 0 <= k < self.numbers@.len() && self.numbers@[k] == v;
            }
        }
        None
    }
}

impl SudokuSpecifier {
    /// Expands a puzzle description into a model: materializes the sorted
    /// deduplicated admissible values, expands every constraint, and
    /// validates that every mentioned cell lies on the grid. Fails exactly
    /// when the description cannot be expanded.
    pub fn build_model(&self) -> (r: Result<SudokuModel, BuildError>)
        ensures
            r is Ok <==> spec_build_ok(*self),
            r matches Ok(m) ==> {
                &&& model_wf(m)
                &&& m.size == self.size
                &&& forall|v: i32|
                    #[trigger] m.numbers@.contains(v) <==> value_set(self.numbers@).contains(v)
                &&& m.constraints@.len() == self.constraints@.len()
                &&& forall|i: int|
                    0 <= i < m.constraints@.len() ==> constraint_built_from(
                        #[trigger] m.constraints@[i],
                        self.constraints@[i],
                    )
            },
            r matches Err(e) ==> (e == BuildError::EmptyValues <==> value_set(
                self.numbers@,
            ).is_empty()),
            r matches Err(e) ==> (e == BuildError::TooManyValues ==> value_set(
                self.numbers@,
            ).len() > MAX_VALUES as int),
            r matches Err(e) ==> (e == BuildError::GridTooLarge ==> !(0 <= self.size.x && 0
                <= self.size.y && self.size.x as int * self.size.y as int <= MAX_CELLS as int)),
            r matches Err(e) ==> (e == BuildError::DegenerateLine ==> exists|i: int|
                0 <= i < self.constraints@.len() && constraint_spec_degenerate_line(
                    #[trigger] self.constraints@[i],
                )),
            r matches Err(e) ==> (e == BuildError::MisalignedLine ==> exists|i: int|
                0 <= i < self.constraints@.len() && constraint_spec_misaligned_line(
                    #[trigger] self.constraints@[i],
                )),
            r matches Err(e) ==> (e == BuildError::DegenerateRelationship ==> exists|i: int|
                0 <= i < self.constraints@.len() && (#[trigger] self.constraints@[i] matches
                ConstraintSpecifier::Relationship { first, second, .. } && first == second)),
            r matches Err(e) ==> (e == BuildError::OutOfBoundsCell ==> exists|i: int|
                0 <= i < self.constraints@.len() && !constraint_spec_in_bounds(
                    #[trigger] self.constraints@[i],
                    self.size,
                )),
    {
        proof {
            lemma_value_set_finite(self.numbers@);
        }
        // Locate the extremes of the admissible values.
        let ghost ranges = self.numbers@;
        let mut any = false;
        let mut lo: i64 = 0;
        let mut hi: i64 = 0;
        let mut i: usize = 0;
        while i < self.numbers.len()
            invariant
                ranges == self.numbers@,
                0 <= i <= ranges.len(),
                any <==> exists|j: int|
                    0 <= j < i && (#[trigger] ranges[j]).x as int <= ranges[j].y as int,
                any ==> i32::MIN <= lo <= hi <= i32::MAX,
                any ==> in_some_range(ranges, lo as int),
                forall|w: int|
                    #[trigger] in_some_range(ranges.take(i as int), w) ==> any && lo <= w <= hi,
            decreases ranges.len() - i,
        {
            let rg = self.numbers[i];
            if rg.x <= rg.y {
                if !any {
                    lo = rg.x as i64;
                    hi = rg.y as i64;
                    any = true;
                } else {
                    if (rg.x as i64) < lo {
                        lo = rg.x as i64;
                    }
                    if (rg.y as i64) > hi {
                        hi = rg.y as i64;
                    }
                }
                proof {
                    assert(ranges[i as int].x as int <= ranges[i as int].y as int);
                    assert(ranges[i as int].x as int <= lo + (ranges[i as int].x as int - lo));
                    assert(in_some_range(ranges, lo as int)) by {
                        if lo == ranges[i as int].x as int {
                            assert(0 <= i < ranges.len() && ranges[i as int].x as int <= lo as int
                                <= ranges[i as int].y as int);
                        }
                    }
                }
            }
            proof {
                assert forall|w: int| #[trigger] in_some_range(ranges.take(i + 1), w) implies any
                    && lo <= w <= hi by {
                    let j = choose|j: int|
                        0 <= j < i + 1 && (#[trigger] ranges.take(i + 1)[j]).x as int <= w
                            <= ranges.take(i + 1)[j].y as int;
                    if j < i {
                        assert(ranges.take(i as int)[j] == ranges.take(i + 1)[j]);
                        assert(in_some_range(ranges.take(i as int), w));
                    } else {
                        assert(ranges.take(i + 1)[j] == ranges[i as int]);
                    }
                }
            }
            i = i + 1;
        }
        proof {
            assert(ranges.take(ranges.len() as int) =~= ranges);
        }
        if !any {
            proof {
                assert forall|v: i32| !(#[trigger] value_set(ranges).contains(v)) by {
                    if in_some_range(ranges, v as int) {
                    }
                }
                assert(value_set(ranges).is_empty());
            }
            return Err(BuildError::EmptyValues);
        }
        proof {
            let lov = lo as i32;
            assert(value_set(ranges).contains(lov));
            assert(!value_set(ranges).is_empty());
        }
        // Materialize the sorted deduplicated values by an ascending scan.
        let mut vals: Vec<i32> = Vec::new();
        let mut v: i64 = lo;
        while v <= hi
            invariant
                ranges == self.numbers@,
                i32::MIN <= lo <= hi <= i32::MAX,
                lo <= v <= hi + 1,
                forall|w: int| #[trigger] in_some_range(ranges, w) ==> lo <= w <= hi,
                forall|w: i32|
                    (#[trigger] vals@.contains(w)) == (lo <= (w as int) && (w as int) < v
                        && in_some_range(ranges, w as int)),
                sorted_strict(vals@),
                vals@.no_duplicates(),
                vals@.len() <= MAX_VALUES,
                value_set(ranges).finite(),
                !value_set(ranges).is_empty(),
            decreases hi + 1 - v,
        {
            let ghost old_vals = vals@;
            let inr = in_any_range(&self.numbers, v);
            if inr {
                if vals.len() >= MAX_VALUES {
                    proof {
                        let w = v as i32;
                        let extended = vals@.push(w);
                        assert(!vals@.contains(w));
                        crate::seq_facts::lemma_push_unique(vals@, w);
                        lemma_push_contains(vals@, w);
                        assert forall|k: int|
                            0 <= k < extended.len() implies value_set(ranges).contains(
                            #[trigger] extended[k],
                        ) by {
                            if k < vals@.len() {
                                assert(vals@[k] == extended[k]);
                                assert(vals@.contains(extended[k]));
                            } else {
                                assert(extended[k] == w);
                                assert(in_some_range(ranges, w as int));
                            }
                        }
                        lemma_distinct_within(extended, value_set(ranges));
                        assert(value_set(ranges).len() > MAX_VALUES as int);
                    }
                    return Err(BuildError::TooManyValues);
                }
                let w: i32 = v as i32;
                proof {
                    assert(!vals@.contains(w));
                    crate::seq_facts::lemma_push_unique(vals@, w);
                    lemma_push_contains(vals@, w);
                    assert forall|x: int, y: int|
                        0 <= x < y < vals@.push(w).len() implies vals@.push(w)[x] < vals@.push(
                        w,
                    )[y] by {
                        if y < vals@.len() {
                            assert(vals@[x] < vals@[y]);
                        } else {
                            assert(vals@.push(w)[x] == vals@[x]);
                            assert(vals@.contains(vals@[x]));
                            assert((vals@[x] as int) < v);
                        }
                    }
                }
                vals.push(w);
            }
            proof {
                assert forall|q: i32|
                    (#[trigger] vals@.contains(q)) == (lo <= (q as int) && (q as int) <= v
                        && in_some_range(ranges, q as int)) by {
                    if inr {
                        let w = v as i32;
                        assert(vals@ == old_vals.push(w));
                        lemma_push_contains(old_vals, w);
                        if (q as int) == v {
                            assert(q == w);
                            assert(vals@.contains(q));
                        } else {
                            assert(vals@.contains(q) == old_vals.contains(q));
                        }
                    } else {
                        if (q as int) == v {
                            assert(!in_some_range(ranges, v as int));
                        }
                    }
                }
            }
            v = v + 1;
        }
        proof {
            assert forall|w: i32| #[trigger] vals@.contains(w) == value_set(ranges).contains(
                w,
            ) by {
                if in_some_range(ranges, w as int) {
                    assert(lo <= w as int <= hi);
                }
            }
            assert(vals@.contains(lo as i32));
            assert(vals@.len() >= 1);
            assert(value_set(ranges) <= vals@.to_set()) by {
                assert forall|w: i32| value_set(ranges).contains(w) implies vals@.to_set()
                    .contains(w) by {
                    assert(vals@.contains(w));
                }
            }
            vals@.lemma_cardinality_of_set();
            vstd::set_lib::lemma_len_subset(value_set(ranges), vals@.to_set());
            assert(value_set(ranges).len() <= MAX_VALUES as int);
        }
        // Validate the grid size.
        if self.size.x < 0 || self.size.y < 0 {
            return Err(BuildError::GridTooLarge);
        }
        proof {
            let sx = self.size.x as int;
            let sy = self.size.y as int;
            assert(sx * sy < 0x4000_0000_0000_0000) by (nonlinear_arith)
                requires
                    0 <= sx,
                    sx < 0x8000_0000,
                    0 <= sy,
                    sy < 0x8000_0000,
            ;
        }
        let area: i64 = self.size.x as i64 * self.size.y as i64;
        if area > MAX_CELLS {
            return Err(BuildError::GridTooLarge);
        }
        // Expand and validate every constraint.
        let mut constraints: Vec<Constraint> = Vec::new();
        let mut ci: usize = 0;
        while ci < self.constraints.len()
            invariant
                0 <= ci <= self.constraints@.len(),
                !value_set(self.numbers@).is_empty(),
                value_set(self.numbers@).len() <= MAX_VALUES as int,
                0 <= self.size.x,
                0 <= self.size.y,
                self.size.x as int * self.size.y as int <= MAX_CELLS as int,
                constraints@.len() == ci,
                forall|j: int|
                    0 <= j < ci ==> constraint_built_from(
                        #[trigger] constraints@[j],
                        self.constraints@[j],
                    ),
                forall|j: int|
                    0 <= j < ci ==> constraint_wf(#[trigger] constraints@[j], self.size),
                forall|j: int|
                    0 <= j < ci ==> constraint_spec_ok(#[trigger] self.constraints@[j]),
                forall|j: int|
                    0 <= j < ci ==> constraint_spec_in_bounds(
                        #[trigger] self.constraints@[j],
                        self.size,
                    ),
            decreases self.constraints@.len() - ci,
        {
            let c = match self.constraints[ci].build_constraint() {
                Ok(c) => c,
                Err(e) => {
                    return Err(e);
                },
            };
            if !check_constraint_bounds(&c, self.size) {
                proof {
                    lemma_constraint_bounds_bridge(c, self.constraints@[ci as int], self.size);
                }
                return Err(BuildError::OutOfBoundsCell);
            }
            proof {
                lemma_constraint_bounds_bridge(c, self.constraints@[ci as int], self.size);
                assert(constraint_wf(c, self.size)) by {
                    match c {
                        Constraint::Unique(ref r) => {},
                        Constraint::Thermometer(ref l) => {},
                        Constraint::Killer { ref region, sum } => {},
                        Constraint::Arrow { ref region, tail } => {},
                        Constraint::Relationship { first, second, relationship } => {},
                        Constraint::Property { ref region, property } => {},
                    }
                }
            }
            constraints.push(c);
            ci = ci + 1;
        }
        Ok(SudokuModel { size: self.size, numbers: vals, constraints })
    }
}

} // verus!
