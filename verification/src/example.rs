//! Built-in example puzzles: a 9x9 sudoku with givens and thermometers,
//! and a 9x9 killer puzzle whose cages cover the whole grid.

use vstd::prelude::*;

use crate::constraint::{ConstraintSpecifier, Property};
use crate::model::SudokuSpecifier;
use crate::region::{LineSpecifier, RegionSpecifier};
use crate::vec2::Point;

verus! {

/// The constraint is a uniqueness constraint over the two-waypoint line
/// from `a` to `b`.
pub open spec fn unique_over_line(c: ConstraintSpecifier, a: Point, b: Point) -> bool {
    &&& c matches ConstraintSpecifier::Unique { region }
    &&& region matches RegionSpecifier::Line { points }
    &&& points@ == seq![a, b]
}

/// The constraint is a uniqueness constraint over the box from `a` to `b`.
pub open spec fn unique_over_box(c: ConstraintSpecifier, a: Point, b: Point) -> bool {
    &&& c matches ConstraintSpecifier::Unique { region }
    &&& region matches RegionSpecifier::Box { start, end }
    &&& start == a
    &&& end == b
}

/// The constraint pins the value `v` to exactly the listed cells.
pub open spec fn given_at(c: ConstraintSpecifier, v: i32, pts: Seq<Point>) -> bool {
    &&& c matches ConstraintSpecifier::Property { region, property }
    &&& property == Property::Given(v)
    &&& region matches RegionSpecifier::Many { cells }
    &&& cells@ == pts
}

/// The constraint is a thermometer along the two-waypoint line from `a`
/// to `b`.
pub open spec fn thermometer_on(c: ConstraintSpecifier, a: Point, b: Point) -> bool {
    &&& c matches ConstraintSpecifier::Thermometer { line }
    &&& line.points@ == seq![a, b]
}

/// The constraint is a killer cage of sum `sum` over the box from `a` to
/// `b`.
pub open spec fn killer_box_cage(c: ConstraintSpecifier, a: Point, b: Point, sum: i32) -> bool {
    &&& c matches ConstraintSpecifier::Killer { region, sum: s }
    &&& s == sum
    &&& region matches RegionSpecifier::Box { start, end }
    &&& start == a
    &&& end == b
}

/// The constraint is a killer cage of sum `sum` over exactly the listed
/// cells.
pub open spec fn killer_cells_cage(c: ConstraintSpecifier, pts: Seq<Point>, sum: i32) -> bool {
    &&& c matches ConstraintSpecifier::Killer { region, sum: s }
    &&& s == sum
    &&& region matches RegionSpecifier::Many { cells }
    &&& cells@ == pts
}

/// The constraint is a killer cage of sum `sum` over the union of the two
/// boxes.
pub open spec fn killer_two_box_cage(
    c: ConstraintSpecifier,
    b1: (Point, Point),
    b2: (Point, Point),
    sum: i32,
) -> bool {
    &&& c matches ConstraintSpecifier::Killer { region, sum: s }
    &&& s == sum
    &&& region matches RegionSpecifier::ManyBox { boxes }
    &&& boxes@ == seq![b1, b2]
}

/// The 27 uniqueness constraints of a standard 9x9 sudoku: each row, each
/// column, and each 3x3 box.
fn sudoku_constraints() -> (r: Vec<ConstraintSpecifier>)
    ensures
        r@.len() == 27,
        forall|i: int|
            0 <= i < 9 ==> unique_over_line(
                #[trigger] r@[3 * i],
                Point { x: 0, y: i as i32 },
                Point { x: 8, y: i as i32 },
            ),
        forall|i: int|
            0 <= i < 9 ==> unique_over_line(
                #[trigger] r@[3 * i + 1],
                Point { x: i as i32, y: 0 },
                Point { x: i as i32, y: 8 },
            ),
        forall|i: int|
            0 <= i < 9 ==> unique_over_box(
                #[trigger] r@[3 * i + 2],
                Point { x: ((i % 3) * 3) as i32, y: ((i / 3) * 3) as i32 },
                Point { x: ((i % 3) * 3 + 2) as i32, y: ((i / 3) * 3 + 2) as i32 },
            ),
{
    let mut constraints: Vec<ConstraintSpecifier> = Vec::new();
    let mut i: i32 = 0;
    while i < 9
        invariant
            0 <= i <= 9,
            constraints@.len() == 3 * i,
            forall|j: int|
                0 <= j < i ==> unique_over_line(
                    #[trigger] constraints@[3 * j],
                    Point { x: 0, y: j as i32 },
                    Point { x: 8, y: j as i32 },
                ),
            forall|j: int|
                0 <= j < i ==> unique_over_line(
                    #[trigger] constraints@[3 * j + 1],
                    Point { x: j as i32, y: 0 },
                    Point { x: j as i32, y: 8 },
                ),
            forall|j: int|
                0 <= j < i ==> unique_over_box(
                    #[trigger] constraints@[3 * j + 2],
                    Point { x: ((j % 3) * 3) as i32, y: ((j / 3) * 3) as i32 },
                    Point { x: ((j % 3) * 3 + 2) as i32, y: ((j / 3) * 3 + 2) as i32 },
                ),
        decreases 9 - i,
    {
        let row_pts = vec![Point { x: 0, y: i }, Point { x: 8, y: i }];
        proof {
            assert(row_pts@ =~= seq![Point { x: 0, y: i }, Point { x: 8, y: i }]);
        }
        constraints.push(
            ConstraintSpecifier::Unique {
                region: RegionSpecifier::Line { points: row_pts },
            },
        );
        let col_pts = vec![Point { x: i, y: 0 }, Point { x: i, y: 8 }];
        proof {
            assert(col_pts@ =~= seq![Point { x: i, y: 0 }, Point { x: i, y: 8 }]);
        }
        constraints.push(
            ConstraintSpecifier::Unique {
                region: RegionSpecifier::Line { points: col_pts },
            },
        );
        let bx = i % 3 * 3;
        let by = i / 3 * 3;
        constraints.push(
            ConstraintSpecifier::Unique {
                region: RegionSpecifier::Box {
                    start: Point { x: bx, y: by },
                    end: Point { x: bx + 2, y: by + 2 },
                },
            },
        );
        proof {
            assert(unique_over_line(
                constraints@[3 * (i as int)],
                Point { x: 0, y: i },
                Point { x: 8, y: i },
            ));
            assert(unique_over_line(
                constraints@[3 * (i as int) + 1],
                Point { x: i, y: 0 },
                Point { x: i, y: 8 },
            ));
            assert(unique_over_box(
                constraints@[3 * (i as int) + 2],
                Point { x: bx, y: by },
                Point { x: (bx + 2) as i32, y: (by + 2) as i32 },
            ));
        }
        i = i + 1;
    }
    constraints
}

/// Adds one given-value constraint per entry: each value is pinned to its
/// listed cells.
fn given_constraints(constraints: &mut Vec<ConstraintSpecifier>, given: Vec<(i32, Vec<Point>)>)
    ensures
        final(constraints)@.len() == old(constraints)@.len() + given@.len(),
        forall|j: int|
            0 <= j < old(constraints)@.len() ==> #[trigger] final(constraints)@[j] == old(
                constraints,
            )@[j],
        forall|k: int|
            0 <= k < given@.len() ==> given_at(
                #[trigger] final(constraints)@[old(constraints)@.len() + k],
                given@[k].0,
                given@[k].1@,
            ),
{
    let mut k: usize = 0;
    let n = given.len();
    while k < n
        invariant
            0 <= k <= n,
            n == given@.len(),
            constraints@.len() == old(constraints)@.len() + k,
            forall|j: int|
                0 <= j < old(constraints)@.len() ==> #[trigger] constraints@[j] == old(
                    constraints,
                )@[j],
            forall|q: int|
                0 <= q < k ==> given_at(
                    #[trigger] constraints@[old(constraints)@.len() + q],
                    given@[q].0,
                    given@[q].1@,
                ),
        decreases n - k,
    {
        let num = given[k].0;
        let cellsk = copy_entry_cells(&given, k);
        constraints.push(
            ConstraintSpecifier::Property {
                region: RegionSpecifier::Many { cells: cellsk },
                property: Property::Given(num),
            },
        );
        proof {
            assert(given_at(
                constraints@[old(constraints)@.len() + k],
                given@[k as int].0,
                given@[k as int].1@,
            ));
        }
        k = k + 1;
    }
}

/// Copies the cell list of one given-value entry.
fn copy_entry_cells(given: &Vec<(i32, Vec<Point>)>, k: usize) -> (r: Vec<Point>)
    requires
        k < given@.len(),
    ensures
        r@ == given@[k as int].1@,
{
    let src = &given[k].1;
    let mut out: Vec<Point> = Vec::new();
    let mut i: usize = 0;
    while i < src.len()
        invariant
            0 <= i <= src@.len(),
            src@ == given@[k as int].1@,
            out@ == src@.take(i as int),
        decreases src@.len() - i,
    {
        out.push(src[i]);
        proof {
            assert(out@ =~= src@.take(i + 1));
        }
        i = i + 1;
    }
    proof {
        assert(out@ =~= src@);
    }
    out
}

/// A 9x9 sudoku with the standard uniqueness scaffolding, a fixed set of
/// given values, and six thermometers.
pub fn test_model() -> (r: SudokuSpecifier)
    ensures
        r.size == (Point { x: 9, y: 9 }),
        r.numbers@.len() == 1,
        r.numbers@[0] == (Point { x: 1, y: 9 }),
        r.constraints@.len() == 42,
        forall|i: int|
            0 <= i < 9 ==> unique_over_line(
                #[trigger] r.constraints@[3 * i],
                Point { x: 0, y: i as i32 },
                Point { x: 8, y: i as i32 },
            ),
        forall|i: int|
            0 <= i < 9 ==> unique_over_line(
                #[trigger] r.constraints@[3 * i + 1],
                Point { x: i as i32, y: 0 },
                Point { x: i as i32, y: 8 },
            ),
        forall|i: int|
            0 <= i < 9 ==> unique_over_box(
                #[trigger] r.constraints@[3 * i + 2],
                Point { x: ((i % 3) * 3) as i32, y: ((i / 3) * 3) as i32 },
                Point { x: ((i % 3) * 3 + 2) as i32, y: ((i / 3) * 3 + 2) as i32 },
            ),
        given_at(r.constraints@[27], 1, seq![Point { x: 6, y: 1 }, Point { x: 5, y: 7 }]),
        given_at(r.constraints@[28], 2, seq![Point { x: 4, y: 1 }, Point { x: 7, y: 7 }, Point { x: 2, y: 5 }, Point { x: 5, y: 8 }]),
        given_at(r.constraints@[29], 3, seq![Point { x: 3, y: 4 }]),
        given_at(r.constraints@[30], 4, seq![Point { x: 2, y: 2 }, Point { x: 0, y: 8 }, Point { x: 6, y: 3 }]),
        given_at(r.constraints@[31], 5, seq![Point { x: 3, y: 0 }, Point { x: 5, y: 4 }]),
        given_at(r.constraints@[32], 6, seq![Point { x: 5, y: 2 }, Point { x: 1, y: 7 }, Point { x: 3, y: 6 }]),
        given_at(r.constraints@[33], 7, seq![Point { x: 5, y: 3 }, Point { x: 8, y: 8 }]),
        given_at(r.constraints@[34], 8, seq![Point { x: 3, y: 5 }, Point { x: 2, y: 6 }, Point { x: 4, y: 7 }]),
        given_at(r.constraints@[35], 9, seq![Point { x: 1, y: 0 }, Point { x: 6, y: 6 }, Point { x: 4, y: 4 }]),
        thermometer_on(r.constraints@[36], Point { x: 0, y: 0 }, Point { x: 0, y: 5 }),
        thermometer_on(r.constraints@[37], Point { x: 8, y: 0 }, Point { x: 5, y: 0 }),
        thermometer_on(r.constraints@[38], Point { x: 4, y: 3 }, Point { x: 2, y: 3 }),
        thermometer_on(r.constraints@[39], Point { x: 6, y: 5 }, Point { x: 4, y: 5 }),
        thermometer_on(r.constraints@[40], Point { x: 8, y: 6 }, Point { x: 8, y: 2 }),
        thermometer_on(r.constraints@[41], Point { x: 1, y: 8 }, Point { x: 3, y: 8 }),
{
    let mut constraints = sudoku_constraints();
    let given: Vec<(i32, Vec<Point>)> = vec![
        (1, vec![Point { x: 6, y: 1 }, Point { x: 5, y: 7 }]),
        (
            2,
            vec![
                Point { x: 4, y: 1 },
                Point { x: 7, y: 7 },
                Point { x: 2, y: 5 },
                Point { x: 5, y: 8 },
            ],
        ),
        (3, vec![Point { x: 3, y: 4 }]),
        (4, vec![Point { x: 2, y: 2 }, Point { x: 0, y: 8 }, Point { x: 6, y: 3 }]),
        (5, vec![Point { x: 3, y: 0 }, Point { x: 5, y: 4 }]),
        (6, vec![Point { x: 5, y: 2 }, Point { x: 1, y: 7 }, Point { x: 3, y: 6 }]),
        (7, vec![Point { x: 5, y: 3 }, Point { x: 8, y: 8 }]),
        (8, vec![Point { x: 3, y: 5 }, Point { x: 2, y: 6 }, Point { x: 4, y: 7 }]),
        (9, vec![Point { x: 1, y: 0 }, Point { x: 6, y: 6 }, Point { x: 4, y: 4 }]),
    ];
    proof {
        assert(given@[0].0 == 1 && given@[0].1@ =~= seq![Point { x: 6, y: 1 }, Point { x: 5, y: 7 }]);
        assert(given@[1].0 == 2 && given@[1].1@ =~= seq![Point { x: 4, y: 1 }, Point { x: 7, y: 7 }, Point { x: 2, y: 5 }, Point { x: 5, y: 8 }]);
        assert(given@[2].0 == 3 && given@[2].1@ =~= seq![Point { x: 3, y: 4 }]);
        assert(given@[3].0 == 4 && given@[3].1@ =~= seq![Point { x: 2, y: 2 }, Point { x: 0, y: 8 }, Point { x: 6, y: 3 }]);
        assert(given@[4].0 == 5 && given@[4].1@ =~= seq![Point { x: 3, y: 0 }, Point { x: 5, y: 4 }]);
        assert(given@[5].0 == 6 && given@[5].1@ =~= seq![Point { x: 5, y: 2 }, Point { x: 1, y: 7 }, Point { x: 3, y: 6 }]);
        assert(given@[6].0 == 7 && given@[6].1@ =~= seq![Point { x: 5, y: 3 }, Point { x: 8, y: 8 }]);
        assert(given@[7].0 == 8 && given@[7].1@ =~= seq![Point { x: 3, y: 5 }, Point { x: 2, y: 6 }, Point { x: 4, y: 7 }]);
        assert(given@[8].0 == 9 && given@[8].1@ =~= seq![Point { x: 1, y: 0 }, Point { x: 6, y: 6 }, Point { x: 4, y: 4 }]);
    }
    let ghost clen = constraints@.len() as int;
    let ghost giv = given@;
    given_constraints(&mut constraints, given);
    proof {
        assert(given_at(constraints@[clen + 0], giv[0].0, giv[0].1@));
        assert(given_at(constraints@[clen + 1], giv[1].0, giv[1].1@));
        assert(given_at(constraints@[clen + 2], giv[2].0, giv[2].1@));
        assert(given_at(constraints@[clen + 3], giv[3].0, giv[3].1@));
        assert(given_at(constraints@[clen + 4], giv[4].0, giv[4].1@));
        assert(given_at(constraints@[clen + 5], giv[5].0, giv[5].1@));
        assert(given_at(constraints@[clen + 6], giv[6].0, giv[6].1@));
        assert(given_at(constraints@[clen + 7], giv[7].0, giv[7].1@));
        assert(given_at(constraints@[clen + 8], giv[8].0, giv[8].1@));
    }
    let tpts0 = vec![Point { x: 0, y: 0 }, Point { x: 0, y: 5 }];
    proof {
        assert(tpts0@ =~= seq![Point { x: 0, y: 0 }, Point { x: 0, y: 5 }]);
    }
    constraints.push(
        ConstraintSpecifier::Thermometer { line: LineSpecifier { points: tpts0 } },
    );
    proof {
        assert(thermometer_on(constraints@[36], Point { x: 0, y: 0 }, Point { x: 0, y: 5 }));
    }
    let tpts1 = vec![Point { x: 8, y: 0 }, Point { x: 5, y: 0 }];
    proof {
        assert(tpts1@ =~= seq![Point { x: 8, y: 0 }, Point { x: 5, y: 0 }]);
    }
    constraints.push(
        ConstraintSpecifier::Thermometer { line: LineSpecifier { points: tpts1 } },
    );
    proof {
        assert(thermometer_on(constraints@[37], Point { x: 8, y: 0 }, Point { x: 5, y: 0 }));
    }
    let tpts2 = vec![Point { x: 4, y: 3 }, Point { x: 2, y: 3 }];
    proof {
        assert(tpts2@ =~= seq![Point { x: 4, y: 3 }, Point { x: 2, y: 3 }]);
    }
    constraints.push(
        ConstraintSpecifier::Thermometer { line: LineSpecifier { points: tpts2 } },
    );
    proof {
        assert(thermometer_on(constraints@[38], Point { x: 4, y: 3 }, Point { x: 2, y: 3 }));
    }
    let tpts3 = vec![Point { x: 6, y: 5 }, Point { x: 4, y: 5 }];
    proof {
        assert(tpts3@ =~= seq![Point { x: 6, y: 5 }, Point { x: 4, y: 5 }]);
    }
    constraints.push(
        ConstraintSpecifier::Thermometer { line: LineSpecifier { points: tpts3 } },
    );
    proof {
        assert(thermometer_on(constraints@[39], Point { x: 6, y: 5 }, Point { x: 4, y: 5 }));
    }
    let tpts4 = vec![Point { x: 8, y: 6 }, Point { x: 8, y: 2 }];
    proof {
        assert(tpts4@ =~= seq![Point { x: 8, y: 6 }, Point { x: 8, y: 2 }]);
    }
    constraints.push(
        ConstraintSpecifier::Thermometer { line: LineSpecifier { points: tpts4 } },
    );
    proof {
        assert(thermometer_on(constraints@[40], Point { x: 8, y: 6 }, Point { x: 8, y: 2 }));
    }
    let tpts5 = vec![Point { x: 1, y: 8 }, Point { x: 3, y: 8 }];
    proof {
        assert(tpts5@ =~= seq![Point { x: 1, y: 8 }, Point { x: 3, y: 8 }]);
    }
    constraints.push(
        ConstraintSpecifier::Thermometer { line: LineSpecifier { points: tpts5 } },
    );
    proof {
        assert(thermometer_on(constraints@[41], Point { x: 1, y: 8 }, Point { x: 3, y: 8 }));
    }
    SudokuSpecifier {
        size: Point { x: 9, y: 9 },
        numbers: vec![Point { x: 1, y: 9 }],
        constraints,
    }
}

/// Pushes one killer cage over a single box region.
fn push_killer_box(
    constraints: &mut Vec<ConstraintSpecifier>,
    sx: i32,
    sy: i32,
    ex: i32,
    ey: i32,
    sum: i32,
)
    ensures
        final(constraints)@.len() == old(constraints)@.len() + 1,
        forall|j: int|
            0 <= j < old(constraints)@.len() ==> #[trigger] final(constraints)@[j] == old(
                constraints,
            )@[j],
        killer_box_cage(
            final(constraints)@[old(constraints)@.len() as int],
            Point { x: sx, y: sy },
            Point { x: ex, y: ey },
            sum,
        ),
{
    constraints.push(
        ConstraintSpecifier::Killer {
            region: RegionSpecifier::Box {
                start: Point { x: sx, y: sy },
                end: Point { x: ex, y: ey },
            },
            sum,
        },
    );
}

/// Pushes one killer cage over an enumerated cell list.
fn push_killer_many(constraints: &mut Vec<ConstraintSpecifier>, cells: Vec<Point>, sum: i32)
    ensures
        final(constraints)@.len() == old(constraints)@.len() + 1,
        forall|j: int|
            0 <= j < old(constraints)@.len() ==> #[trigger] final(constraints)@[j] == old(
                constraints,
            )@[j],
        killer_cells_cage(final(constraints)@[old(constraints)@.len() as int], cells@, sum),
{
    constraints.push(
        ConstraintSpecifier::Killer { region: RegionSpecifier::Many { cells }, sum },
    );
}

/// Pushes one killer cage over a union of two boxes.
fn push_killer_two_boxes(
    constraints: &mut Vec<ConstraintSpecifier>,
    b1: (Point, Point),
    b2: (Point, Point),
    sum: i32,
)
    ensures
        final(constraints)@.len() == old(constraints)@.len() + 1,
        forall|j: int|
            0 <= j < old(constraints)@.len() ==> #[trigger] final(constraints)@[j] == old(
                constraints,
            )@[j],
        killer_two_box_cage(final(constraints)@[old(constraints)@.len() as int], b1, b2, sum),
{
    let boxes = vec![b1, b2];
    proof {
        assert(boxes@ =~= seq![b1, b2]);
    }
    constraints.push(
        ConstraintSpecifier::Killer {
            region: RegionSpecifier::ManyBox { boxes },
            sum,
        },
    );
}

/// A 9x9 killer puzzle: the standard uniqueness scaffolding, a handful of
/// givens, and cages whose sums cover all 81 cells.
pub fn killer_test_model() -> (r: SudokuSpecifier)
    ensures
        r.size == (Point { x: 9, y: 9 }),
        r.numbers@.len() == 1,
        r.numbers@[0] == (Point { x: 1, y: 9 }),
        r.constraints@.len() == 69,
        forall|i: int|
            0 <= i < 9 ==> unique_over_line(
                #[trigger] r.constraints@[3 * i],
                Point { x: 0, y: i as i32 },
                Point { x: 8, y: i as i32 },
            ),
        forall|i: int|
            0 <= i < 9 ==> unique_over_line(
                #[trigger] r.constraints@[3 * i + 1],
                Point { x: i as i32, y: 0 },
                Point { x: i as i32, y: 8 },
            ),
        forall|i: int|
            0 <= i < 9 ==> unique_over_box(
                #[trigger] r.constraints@[3 * i + 2],
                Point { x: ((i % 3) * 3) as i32, y: ((i / 3) * 3) as i32 },
                Point { x: ((i % 3) * 3 + 2) as i32, y: ((i / 3) * 3 + 2) as i32 },
            ),
        given_at(r.constraints@[27], 2, seq![Point { x: 4, y: 6 }]),
        given_at(r.constraints@[28], 3, seq![Point { x: 0, y: 4 }]),
        given_at(r.constraints@[29], 4, seq![Point { x: 3, y: 0 }]),
        given_at(r.constraints@[30], 5, seq![Point { x: 6, y: 2 }, Point { x: 8, y: 5 }, Point { x: 7, y: 7 }]),
        given_at(r.constraints@[31], 6, seq![Point { x: 5, y: 1 }]),
        given_at(r.constraints@[32], 7, seq![Point { x: 4, y: 3 }]),
        given_at(r.constraints@[33], 8, seq![Point { x: 1, y: 8 }]),
        given_at(r.constraints@[34], 9, seq![Point { x: 1, y: 0 }]),
        killer_box_cage(r.constraints@[35], Point { x: 0, y: 0 }, Point { x: 0, y: 1 }, 7),
        killer_cells_cage(r.constraints@[36], seq![Point { x: 1, y: 0 }, Point { x: 1, y: 1 }, Point { x: 2, y: 0 }], 16),
        killer_two_box_cage(r.constraints@[37], (Point { x: 3, y: 0 }, Point { x: 4, y: 1 }), (Point { x: 2, y: 1 }, Point { x: 2, y: 1 }), 27),
        killer_box_cage(r.constraints@[38], Point { x: 5, y: 0 }, Point { x: 5, y: 2 }, 9),
        killer_box_cage(r.constraints@[39], Point { x: 6, y: 0 }, Point { x: 8, y: 0 }, 18),
        killer_box_cage(r.constraints@[40], Point { x: 6, y: 1 }, Point { x: 7, y: 1 }, 6),
        killer_box_cage(r.constraints@[41], Point { x: 8, y: 1 }, Point { x: 8, y: 2 }, 10),
        killer_cells_cage(r.constraints@[42], seq![Point { x: 0, y: 2 }], 4),
        killer_box_cage(r.constraints@[43], Point { x: 1, y: 2 }, Point { x: 2, y: 2 }, 10),
        killer_box_cage(r.constraints@[44], Point { x: 3, y: 2 }, Point { x: 4, y: 2 }, 17),
        killer_cells_cage(r.constraints@[45], seq![Point { x: 6, y: 2 }, Point { x: 6, y: 3 }, Point { x: 7, y: 2 }], 19),
        killer_box_cage(r.constraints@[46], Point { x: 0, y: 3 }, Point { x: 1, y: 3 }, 10),
        killer_box_cage(r.constraints@[47], Point { x: 2, y: 3 }, Point { x: 3, y: 3 }, 10),
        killer_two_box_cage(r.constraints@[48], (Point { x: 4, y: 3 }, Point { x: 5, y: 3 }), (Point { x: 5, y: 4 }, Point { x: 5, y: 5 }), 29),
        killer_box_cage(r.constraints@[49], Point { x: 7, y: 3 }, Point { x: 8, y: 3 }, 5),
        killer_two_box_cage(r.constraints@[50], (Point { x: 0, y: 4 }, Point { x: 0, y: 5 }), (Point { x: 1, y: 4 }, Point { x: 1, y: 6 }), 25),
        killer_box_cage(r.constraints@[51], Point { x: 2, y: 4 }, Point { x: 2, y: 5 }, 6),
        killer_box_cage(r.constraints@[52], Point { x: 3, y: 4 }, Point { x: 4, y: 4 }, 6),
        killer_cells_cage(r.constraints@[53], seq![Point { x: 6, y: 4 }, Point { x: 7, y: 4 }, Point { x: 7, y: 5 }], 14),
        killer_cells_cage(r.constraints@[54], seq![Point { x: 8, y: 4 }], 6),
        killer_box_cage(r.constraints@[55], Point { x: 3, y: 5 }, Point { x: 4, y: 5 }, 9),
        killer_box_cage(r.constraints@[56], Point { x: 6, y: 5 }, Point { x: 6, y: 6 }, 16),
        killer_box_cage(r.constraints@[57], Point { x: 8, y: 5 }, Point { x: 8, y: 6 }, 9),
        killer_cells_cage(r.constraints@[58], seq![Point { x: 0, y: 6 }], 1),
        killer_two_box_cage(r.constraints@[59], (Point { x: 2, y: 6 }, Point { x: 2, y: 6 }), (Point { x: 1, y: 7 }, Point { x: 3, y: 7 }), 21),
        killer_cells_cage(r.constraints@[60], seq![Point { x: 3, y: 6 }, Point { x: 4, y: 6 }, Point { x: 4, y: 7 }], 9),
        killer_cells_cage(r.constraints@[61], seq![Point { x: 5, y: 6 }], 7),
        killer_cells_cage(r.constraints@[62], seq![Point { x: 7, y: 6 }, Point { x: 7, y: 7 }, Point { x: 8, y: 7 }], 20),
        killer_cells_cage(r.constraints@[63], seq![Point { x: 0, y: 7 }], 9),
        killer_two_box_cage(r.constraints@[64], (Point { x: 5, y: 7 }, Point { x: 5, y: 8 }), (Point { x: 3, y: 8 }, Point { x: 4, y: 8 }), 21),
        killer_box_cage(r.constraints@[65], Point { x: 6, y: 7 }, Point { x: 6, y: 8 }, 8),
        killer_cells_cage(r.constraints@[66], seq![Point { x: 0, y: 8 }], 7),
        killer_box_cage(r.constraints@[67], Point { x: 1, y: 8 }, Point { x: 2, y: 8 }, 10),
        killer_box_cage(r.constraints@[68], Point { x: 7, y: 8 }, Point { x: 8, y: 8 }, 4),
{
    let mut constraints = sudoku_constraints();
    let given: Vec<(i32, Vec<Point>)> = vec![
        (2, vec![Point { x: 4, y: 6 }]),
        (3, vec![Point { x: 0, y: 4 }]),
        (4, vec![Point { x: 3, y: 0 }]),
        (5, vec![Point { x: 6, y: 2 }, Point { x: 8, y: 5 }, Point { x: 7, y: 7 }]),
        (6, vec![Point { x: 5, y: 1 }]),
        (7, vec![Point { x: 4, y: 3 }]),
        (8, vec![Point { x: 1, y: 8 }]),
        (9, vec![Point { x: 1, y: 0 }]),
    ];
    proof {
        assert(given@[0].0 == 2 && given@[0].1@ =~= seq![Point { x: 4, y: 6 }]);
        assert(given@[1].0 == 3 && given@[1].1@ =~= seq![Point { x: 0, y: 4 }]);
        assert(given@[2].0 == 4 && given@[2].1@ =~= seq![Point { x: 3, y: 0 }]);
        assert(given@[3].0 == 5 && given@[3].1@ =~= seq![Point { x: 6, y: 2 }, Point { x: 8, y: 5 }, Point { x: 7, y: 7 }]);
        assert(given@[4].0 == 6 && given@[4].1@ =~= seq![Point { x: 5, y: 1 }]);
        assert(given@[5].0 == 7 && given@[5].1@ =~= seq![Point { x: 4, y: 3 }]);
        assert(given@[6].0 == 8 && given@[6].1@ =~= seq![Point { x: 1, y: 8 }]);
        assert(given@[7].0 == 9 && given@[7].1@ =~= seq![Point { x: 1, y: 0 }]);
    }
    let ghost kclen = constraints@.len() as int;
    let ghost kgiv = given@;
    given_constraints(&mut constraints, given);
    proof {
        assert(given_at(constraints@[kclen + 0], kgiv[0].0, kgiv[0].1@));
        assert(given_at(constraints@[kclen + 1], kgiv[1].0, kgiv[1].1@));
        assert(given_at(constraints@[kclen + 2], kgiv[2].0, kgiv[2].1@));
        assert(given_at(constraints@[kclen + 3], kgiv[3].0, kgiv[3].1@));
        assert(given_at(constraints@[kclen + 4], kgiv[4].0, kgiv[4].1@));
        assert(given_at(constraints@[kclen + 5], kgiv[5].0, kgiv[5].1@));
        assert(given_at(constraints@[kclen + 6], kgiv[6].0, kgiv[6].1@));
        assert(given_at(constraints@[kclen + 7], kgiv[7].0, kgiv[7].1@));
    }
    push_killer_box(&mut constraints, 0, 0, 0, 1, 7);
    {
        let cage1 = vec![Point { x: 1, y: 0 }, Point { x: 1, y: 1 }, Point { x: 2, y: 0 }];
        proof {
            assert(cage1@ =~= seq![Point { x: 1, y: 0 }, Point { x: 1, y: 1 }, Point { x: 2, y: 0 }]);
        }
        push_killer_many(&mut constraints, cage1, 16);
    }
    push_killer_two_boxes(
        &mut constraints,
        (Point { x: 3, y: 0 }, Point { x: 4, y: 1 }),
        (Point { x: 2, y: 1 }, Point { x: 2, y: 1 }),
        27,
    );
    push_killer_box(&mut constraints, 5, 0, 5, 2, 9);
    push_killer_box(&mut constraints, 6, 0, 8, 0, 18);
    push_killer_box(&mut constraints, 6, 1, 7, 1, 6);
    push_killer_box(&mut constraints, 8, 1, 8, 2, 10);
    {
        let cage6 = vec![Point { x: 0, y: 2 }];
        proof {
            assert(cage6@ =~= seq![Point { x: 0, y: 2 }]);
        }
        push_killer_many(&mut constraints, cage6, 4);
    }
    push_killer_box(&mut constraints, 1, 2, 2, 2, 10);
    push_killer_box(&mut constraints, 3, 2, 4, 2, 17);
    {
        let cage2 = vec![Point { x: 6, y: 2 }, Point { x: 6, y: 3 }, Point { x: 7, y: 2 }];
        proof {
            assert(cage2@ =~= seq![Point { x: 6, y: 2 }, Point { x: 6, y: 3 }, Point { x: 7, y: 2 }]);
        }
        push_killer_many(&mut constraints, cage2, 19);
    }
    push_killer_box(&mut constraints, 0, 3, 1, 3, 10);
    push_killer_box(&mut constraints, 2, 3, 3, 3, 10);
    push_killer_two_boxes(
        &mut constraints,
        (Point { x: 4, y: 3 }, Point { x: 5, y: 3 }),
        (Point { x: 5, y: 4 }, Point { x: 5, y: 5 }),
        29,
    );
    push_killer_box(&mut constraints, 7, 3, 8, 3, 5);
    push_killer_two_boxes(
        &mut constraints,
        (Point { x: 0, y: 4 }, Point { x: 0, y: 5 }),
        (Point { x: 1, y: 4 }, Point { x: 1, y: 6 }),
        25,
    );
    push_killer_box(&mut constraints, 2, 4, 2, 5, 6);
    push_killer_box(&mut constraints, 3, 4, 4, 4, 6);
    {
        let cage3 = vec![Point { x: 6, y: 4 }, Point { x: 7, y: 4 }, Point { x: 7, y: 5 }];
        proof {
            assert(cage3@ =~= seq![Point { x: 6, y: 4 }, Point { x: 7, y: 4 }, Point { x: 7, y: 5 }]);
        }
        push_killer_many(&mut constraints, cage3, 14);
    }
    {
        let cage7 = vec![Point { x: 8, y: 4 }];
        proof {
            assert(cage7@ =~= seq![Point { x: 8, y: 4 }]);
        }
        push_killer_many(&mut constraints, cage7, 6);
    }
    push_killer_box(&mut constraints, 3, 5, 4, 5, 9);
    push_killer_box(&mut constraints, 6, 5, 6, 6, 16);
    push_killer_box(&mut constraints, 8, 5, 8, 6, 9);
    {
        let cage8 = vec![Point { x: 0, y: 6 }];
        proof {
            assert(cage8@ =~= seq![Point { x: 0, y: 6 }]);
        }
        push_killer_many(&mut constraints, cage8, 1);
    }
    push_killer_two_boxes(
        &mut constraints,
        (Point { x: 2, y: 6 }, Point { x: 2, y: 6 }),
        (Point { x: 1, y: 7 }, Point { x: 3, y: 7 }),
        21,
    );
    {
        let cage4 = vec![Point { x: 3, y: 6 }, Point { x: 4, y: 6 }, Point { x: 4, y: 7 }];
        proof {
            assert(cage4@ =~= seq![Point { x: 3, y: 6 }, Point { x: 4, y: 6 }, Point { x: 4, y: 7 }]);
        }
        push_killer_many(&mut constraints, cage4, 9);
    }
    {
        let cage9 = vec![Point { x: 5, y: 6 }];
        proof {
            assert(cage9@ =~= seq![Point { x: 5, y: 6 }]);
        }
        push_killer_many(&mut constraints, cage9, 7);
    }
    {
        let cage5 = vec![Point { x: 7, y: 6 }, Point { x: 7, y: 7 }, Point { x: 8, y: 7 }];
        proof {
            assert(cage5@ =~= seq![Point { x: 7, y: 6 }, Point { x: 7, y: 7 }, Point { x: 8, y: 7 }]);
        }
        push_killer_many(&mut constraints, cage5, 20);
    }
    {
        let cage10 = vec![Point { x: 0, y: 7 }];
        proof {
            assert(cage10@ =~= seq![Point { x: 0, y: 7 }]);
        }
        push_killer_many(&mut constraints, cage10, 9);
    }
    push_killer_two_boxes(
        &mut constraints,
        (Point { x: 5, y: 7 }, Point { x: 5, y: 8 }),
        (Point { x: 3, y: 8 }, Point { x: 4, y: 8 }),
        21,
    );
    push_killer_box(&mut constraints, 6, 7, 6, 8, 8);
    {
        let cage11 = vec![Point { x: 0, y: 8 }];
        proof {
            assert(cage11@ =~= seq![Point { x: 0, y: 8 }]);
        }
        push_killer_many(&mut constraints, cage11, 7);
    }
    push_killer_box(&mut constraints, 1, 8, 2, 8, 10);
    push_killer_box(&mut constraints, 7, 8, 8, 8, 4);
    SudokuSpecifier {
        size: Point { x: 9, y: 9 },
        numbers: vec![Point { x: 1, y: 9 }],
        constraints,
    }
}

} // verus!
