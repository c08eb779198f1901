//! Region and line specifiers and their expansion.
//!
//! A region specifier is a declarative description of a set of grid cells;
//! expansion turns it into a concrete unordered set (kept as a duplicate-free
//! vector). A line specifier is a polyline of waypoints; expansion turns it
//! into an ordered sequence of cells.

use vstd::prelude::*;

use crate::seq_facts::{lemma_no_dup_prefix, lemma_push_contains, lemma_push_unique,
    lemma_take_contains};
use crate::vec2::{box_set, box_seq, box_width, box_height, in_box, min_i, max_i, seg_ok, seg_seq,
    seg_steps, Point};
use crate::BuildError;

verus! {

/// An expanded region: an unordered, duplicate-free collection of cells.
#[derive(Clone, Debug)]
pub struct Region {
    pub cells: Vec<Point>,
}

/// A declarative description of a region of grid cells.
#[derive(Debug)]
pub enum RegionSpecifier {
    /// An explicit list of cells; duplicates collapse.
    Many { cells: Vec<Point> },
    /// An axis-aligned rectangle, inclusive of both corners, in either
    /// corner order.
    Box { start: Point, end: Point },
    /// A union of axis-aligned rectangles.
    ManyBox { boxes: Vec<(Point, Point)> },
    /// A polyline expanded to its covered cells.
    Line { points: Vec<Point> },
    /// Set algebra over two sub-regions.
    Combination {
        op: SetOperation,
        a: std::boxed::Box<RegionSpecifier>,
        b: std::boxed::Box<RegionSpecifier>,
    },
}

/// The set-algebra operators available in a combination region.
#[derive(Clone, Copy, Debug, PartialEq, Eq, Structural)]
pub enum SetOperation {
    Union,
    Intersection,
    Difference,
}

/// An expanded line: an ordered sequence of cells.
#[derive(Clone, Debug)]
pub struct Line {
    pub cells: Vec<Point>,
}

/// A declarative description of a line: a polyline over at least two
/// waypoints, with consecutive waypoints aligned horizontally, vertically,
/// or along a 45-degree diagonal.
#[derive(Clone, Debug)]
pub struct LineSpecifier {
    pub points: Vec<Point>,
}

/// Whether every consecutive waypoint pair of a polyline forms a valid
/// segment, and there are at least two waypoints.
pub open spec fn polyline_ok(pts: Seq<Point>) -> bool {
    &&& pts.len() >= 2
    &&& forall|i: int| 0 <= i < pts.len() - 1 ==> seg_ok(pts[i], #[trigger] pts[i + 1])
}

/// The ordered cells covered by a polyline: each segment contributes its
/// cells, with interior junction points emitted exactly once.
pub open spec fn polyline_seq(pts: Seq<Point>) -> Seq<Point>
    decreases pts.len(),
{
    if pts.len() < 2 {
        Seq::empty()
    } else if pts.len() == 2 {
        seg_seq(pts[0], pts[1], true)
    } else {
        seg_seq(pts[0], pts[1], false) + polyline_seq(pts.drop_first())
    }
}

/// The total step count of a polyline: the sum of its segments' lengths.
pub open spec fn polyline_steps(pts: Seq<Point>) -> int
    decreases pts.len(),
{
    if pts.len() < 2 {
        0
    } else {
        seg_steps(pts[0], pts[1]) + polyline_steps(pts.drop_first())
    }
}

/// Whether some consecutive waypoint pair of a polyline coincides, or the
/// polyline has fewer than two waypoints.
pub open spec fn polyline_degenerate(pts: Seq<Point>) -> bool {
    pts.len() < 2 || exists|i: int| 0 <= i < pts.len() - 1 && pts[i] == #[trigger] pts[i + 1]
}

/// Whether some consecutive waypoint pair of a polyline is misaligned:
/// distinct, but neither axis-aligned nor exactly diagonal.
pub open spec fn polyline_misaligned(pts: Seq<Point>) -> bool {
    exists|i: int|
        0 <= i < pts.len() - 1 && pts[i] != #[trigger] pts[i + 1] && !seg_ok(pts[i], pts[i + 1])
}

/// Whether every line inside a region specifier is a valid polyline.
pub open spec fn region_spec_ok(rs: RegionSpecifier) -> bool
    decreases rs,
{
    match rs {
        RegionSpecifier::Many { .. } => true,
        RegionSpecifier::Box { .. } => true,
        RegionSpecifier::ManyBox { .. } => true,
        RegionSpecifier::Line { points } => polyline_ok(points@),
        RegionSpecifier::Combination { op, a, b } => region_spec_ok(*a) && region_spec_ok(*b),
    }
}

/// Whether some line inside a region specifier has a degenerate segment or
/// too few waypoints.
pub open spec fn region_spec_degenerate(rs: RegionSpecifier) -> bool
    decreases rs,
{
    match rs {
        RegionSpecifier::Line { points } => polyline_degenerate(points@),
        RegionSpecifier::Combination { op, a, b } => region_spec_degenerate(*a)
            || region_spec_degenerate(*b),
        _ => false,
    }
}

/// Whether some line inside a region specifier has a misaligned segment.
pub open spec fn region_spec_misaligned(rs: RegionSpecifier) -> bool
    decreases rs,
{
    match rs {
        RegionSpecifier::Line { points } => polyline_misaligned(points@),
        RegionSpecifier::Combination { op, a, b } => region_spec_misaligned(*a)
            || region_spec_misaligned(*b),
        _ => false,
    }
}

/// The set of cells a region specifier denotes.
pub open spec fn region_set(rs: RegionSpecifier) -> Set<Point>
    decreases rs,
{
    match rs {
        RegionSpecifier::Many { cells } => cells@.to_set(),
        RegionSpecifier::Box { start, end } => box_set(start, end),
        RegionSpecifier::ManyBox { boxes } => Set::new(
            |p: Point|
                exists|j: int|
                    0 <= j < boxes@.len() && in_box(#[trigger] boxes@[j].0, boxes@[j].1, p),
        ),
        RegionSpecifier::Line { points } => polyline_seq(points@).to_set(),
        RegionSpecifier::Combination { op, a, b } => match op {
            SetOperation::Union => region_set(*a).union(region_set(*b)),
            SetOperation::Intersection => region_set(*a).intersect(region_set(*b)),
            SetOperation::Difference => region_set(*a).difference(region_set(*b)),
        },
    }
}

/// Region expansion is deterministic: any two expansions of the same
/// specifier cover the same cell set, because each equals the set the
/// specifier denotes.
pub proof fn lemma_region_expansion_deterministic(r1: Region, r2: Region, rs: RegionSpecifier)
    requires
        r1.cells@.to_set() == region_set(rs),
        r2.cells@.to_set() == region_set(rs),
    ensures
        r1.cells@.to_set() == r2.cells@.to_set(),
{
}

/// Line expansion preserves endpoint count: a valid polyline whose segment
/// step counts sum to `polyline_steps` expands to exactly one more cell
/// than that sum.
pub proof fn lemma_polyline_cell_count(pts: Seq<Point>)
    requires
        polyline_ok(pts),
    ensures
        polyline_seq(pts).len() == 1 + polyline_steps(pts),
    decreases pts.len(),
{
    assert(seg_ok(pts[0int], pts[0int + 1]));
    assert(seg_steps(pts[0], pts[1]) >= 0);
    if pts.len() == 2 {
        assert(polyline_seq(pts) == seg_seq(pts[0], pts[1], true));
        assert(seg_seq(pts[0], pts[1], true).len() == seg_steps(pts[0], pts[1]) + 1);
        assert(pts.drop_first().len() < 2);
        assert(polyline_steps(pts.drop_first()) == 0);
        assert(polyline_steps(pts) == seg_steps(pts[0], pts[1]));
    } else {
        let rest = pts.drop_first();
        assert forall|i: int| 0 <= i < rest.len() - 1 implies seg_ok(
            rest[i],
            #[trigger] rest[i + 1],
        ) by {
            let j = i + 1;
            assert(seg_ok(pts[j], pts[j + 1]));
            assert(rest[i] == pts[j] && rest[i + 1] == pts[j + 1]);
        }
        lemma_polyline_cell_count(rest);
        assert(polyline_seq(pts) == seg_seq(pts[0], pts[1], false) + polyline_seq(rest));
        assert(seg_seq(pts[0], pts[1], false).len() == seg_steps(pts[0], pts[1]));
        assert(polyline_steps(pts) == seg_steps(pts[0], pts[1]) + polyline_steps(rest));
    }
}

/// Whether a vector of points holds `p`.
fn contains_point(cells: &Vec<Point>, p: Point) -> (r: bool)
    ensures
        r == cells@.contains(p),
{
    let mut i: usize = 0;
    while i < cells.len()
        invariant
            0 <= i <= cells@.len(),
            forall|j: int| 0 <= j < i ==> cells@[j] != p,
        decreases cells@.len() - i,
    {
        if cells[i] == p {
            return true;
        }
        i = i + 1;
    }
    false
}

/// Appends `p` unless it is already present, keeping the vector
/// duplicate-free.
fn insert_unique(cells: &mut Vec<Point>, p: Point)
    requires
        old(cells)@.no_duplicates(),
    ensures
        final(cells)@.no_duplicates(),
        forall|q: Point|
            #![trigger final(cells)@.contains(q)]
            #![trigger old(cells)@.contains(q)]
            final(cells)@.contains(q) <==> old(cells)@.contains(q) || q == p,
{
    if !contains_point(cells, p) {
        proof {
            lemma_push_unique(cells@, p);
            lemma_push_contains(cells@, p);
        }
        cells.push(p);
    }
}

/// Copies a vector of points.
fn copy_points(cells: &Vec<Point>) -> (r: Vec<Point>)
    ensures
        r@ == cells@,
{
    let mut out: Vec<Point> = Vec::new();
    let mut i: usize = 0;
    while i < cells.len()
        invariant
            0 <= i <= cells@.len(),
            out@ == cells@.take(i as int),
        decreases cells@.len() - i,
    {
        out.push(cells[i]);
        proof {
            assert(out@ =~= cells@.take(i + 1));
        }
        i = i + 1;
    }
    proof {
        assert(out@ =~= cells@);
    }
    out
}

/// Every cell of a box enumeration lies in the box, and every cell of the
/// box is enumerated.
proof fn lemma_box_seq_covers(start: Point, end: Point)
    ensures
        forall|p: Point| #[trigger] box_seq(start, end).contains(p) <==> in_box(start, end, p),
{
    let xmin = min_i(start.x as int, end.x as int);
    let ymin = min_i(start.y as int, end.y as int);
    let w = box_width(start, end);
    let h = box_height(start, end);
    assert forall|p: Point| #[trigger] box_seq(start, end).contains(p) implies in_box(
        start,
        end,
        p,
    ) by {
        let k = choose|k: int| 0 <= k < box_seq(start, end).len() && box_seq(start, end)[k] == p;
        assert(0 <= k % w < w && 0 <= k / w < h) by (nonlinear_arith)
            requires
                w >= 1,
                h >= 1,
                0 <= k < w * h,
        ;
    }
    assert forall|p: Point| in_box(start, end, p) implies #[trigger] box_seq(
        start,
        end,
    ).contains(p) by {
        let k = (p.y as int - ymin) * w + (p.x as int - xmin);
        assert(0 <= k < w * h && k % w == p.x as int - xmin && k / w == p.y as int - ymin)
            by (nonlinear_arith)
            requires
                w >= 1,
                h >= 1,
                0 <= p.y as int - ymin <= h - 1,
                0 <= p.x as int - xmin <= w - 1,
                k == (p.y as int - ymin) * w + (p.x as int - xmin),
        ;
        assert(box_seq(start, end)[k] == p);
    }
}

/// Inserts every cell of `src` into `out`, collapsing duplicates.
fn insert_all(out: &mut Vec<Point>, src: &Vec<Point>)
    requires
        old(out)@.no_duplicates(),
    ensures
        final(out)@.no_duplicates(),
        forall|q: Point|
            #![trigger final(out)@.contains(q)]
            #![trigger old(out)@.contains(q)]
            #![trigger src@.contains(q)]
            final(out)@.contains(q) <==> old(out)@.contains(q) || src@.contains(q),
{
    let mut i: usize = 0;
    while i < src.len()
        invariant
            0 <= i <= src@.len(),
            out@.no_duplicates(),
            forall|q: Point|
                out@.contains(q) <==> old(out)@.contains(q) || src@.take(i as int).contains(q),
        decreases src@.len() - i,
    {
        insert_unique(out, src[i]);
        proof {
            lemma_take_contains(src@, i as int);
        }
        i = i + 1;
    }
    proof {
        assert(src@.take(src@.len() as int) =~= src@);
    }
}

impl RegionSpecifier {
    /// Expands a region specifier into its concrete, duplicate-free cell
    /// collection. Fails exactly when a line inside the specifier is not a
    /// valid polyline.
    pub fn build_region(&self) -> (r: Result<Region, BuildError>)
        ensures
            r is Ok <==> region_spec_ok(*self),
            r matches Ok(reg) ==> reg.cells@.no_duplicates() && reg.cells@.to_set() == region_set(
                *self,
            ),
            r matches Err(e) ==> e == BuildError::DegenerateLine || e == BuildError::MisalignedLine,
            r matches Err(e) ==> (e == BuildError::DegenerateLine ==> region_spec_degenerate(
                *self,
            )) && (e == BuildError::MisalignedLine ==> region_spec_misaligned(*self)),
        decreases *self,
    {
        match self {
            RegionSpecifier::Many { cells } => {
                let mut out: Vec<Point> = Vec::new();
                insert_all(&mut out, cells);
                proof {
                    assert(out@.to_set() =~= cells@.to_set());
                }
                Ok(Region { cells: out })
            },
            RegionSpecifier::Box { start, end } => {
                let bs = Point::loop_box(start, end);
                let mut out: Vec<Point> = Vec::new();
                insert_all(&mut out, &bs);
                proof {
                    lemma_box_seq_covers(*start, *end);
                    assert forall|q: Point| out@.to_set().contains(q) implies box_set(
                        *start,
                        *end,
                    ).contains(q) by {
                        assert(bs@.contains(q));
                    }
                    assert forall|q: Point| box_set(*start, *end).contains(q) implies out@
                        .to_set().contains(q) by {
                        assert(in_box(*start, *end, q));
                        assert(bs@.contains(q));
                    }
                    assert(out@.to_set() =~= box_set(*start, *end));
                }
                Ok(Region { cells: out })
            },
            RegionSpecifier::ManyBox { boxes } => {
                let mut out: Vec<Point> = Vec::new();
                let mut i: usize = 0;
                while i < boxes.len()
                    invariant
                        0 <= i <= boxes@.len(),
                        out@.no_duplicates(),
                        forall|q: Point|
                            out@.contains(q) <==> exists|j: int|
                                0 <= j < i && in_box(#[trigger] boxes@[j].0, boxes@[j].1, q),
                    decreases boxes@.len() - i,
                {
                    let pair = boxes[i];
                    let bstart = pair.0;
                    let bend = pair.1;
                    let ghost prev = out@;
                    let bs = Point::loop_box(&bstart, &bend);
                    insert_all(&mut out, &bs);
                    proof {
                        lemma_box_seq_covers(bstart, bend);
                        assert(bstart == boxes@[i as int].0 && bend == boxes@[i as int].1);
                        assert forall|q: Point| out@.contains(q) implies exists|j: int|
                            0 <= j < i + 1 && in_box(#[trigger] boxes@[j].0, boxes@[j].1, q) by {
                            if prev.contains(q) {
                                let j = choose|j: int|
                                    0 <= j < i && in_box(#[trigger] boxes@[j].0, boxes@[j].1, q);
                                assert(0 <= j < i + 1 && in_box(boxes@[j].0, boxes@[j].1, q));
                            } else {
                                assert(bs@.contains(q));
                                assert(in_box(boxes@[i as int].0, boxes@[i as int].1, q));
                            }
                        }
                        assert forall|q: Point|
                            exists|j: int|
                                0 <= j < i + 1 && in_box(
                                    #[trigger] boxes@[j].0,
                                    boxes@[j].1,
                                    q,
                                ) implies out@.contains(q) by {
                            let j = choose|j: int|
                                0 <= j < i + 1 && in_box(#[trigger] boxes@[j].0, boxes@[j].1, q);
                            if j < i {
                                assert(prev.contains(q));
                            } else {
                                assert(in_box(bstart, bend, q));
                                assert(bs@.contains(q));
                            }
                        }
                    }
                    i = i + 1;
                }
                proof {
                    assert(out@.to_set() =~= region_set(*self));
                }
                Ok(Region { cells: out })
            },
            RegionSpecifier::Line { points } => {
                let line = build_line(points)?;
                let mut out: Vec<Point> = Vec::new();
                insert_all(&mut out, &line);
                proof {
                    assert(out@.to_set() =~= polyline_seq(points@).to_set());
                }
                Ok(Region { cells: out })
            },
            RegionSpecifier::Combination { op, a, b } => {
                let ra = a.build_region()?;
                let rb = b.build_region()?;
                let out: Vec<Point> = match op {
                    SetOperation::Union => {
                        let mut u = copy_points(&ra.cells);
                        insert_all(&mut u, &rb.cells);
                        proof {
                            assert forall|q: Point| u@.to_set().contains(q) implies region_set(
                                **a,
                            ).union(region_set(**b)).contains(q) by {
                                if ra.cells@.contains(q) {
                                    assert(ra.cells@.to_set().contains(q));
                                } else {
                                    assert(rb.cells@.to_set().contains(q));
                                }
                            }
                            assert forall|q: Point|
                                region_set(**a).union(region_set(**b)).contains(q) implies u@
                                .to_set().contains(q) by {
                                if region_set(**a).contains(q) {
                                    assert(ra.cells@.contains(q));
                                } else {
                                    assert(rb.cells@.contains(q));
                                }
                            }
                            assert(u@.to_set() =~= region_set(**a).union(region_set(**b)));
                        }
                        u
                    },
                    SetOperation::Intersection => {
                        let mut u: Vec<Point> = Vec::new();
                        let mut i: usize = 0;
                        while i < ra.cells.len()
                            invariant
                                0 <= i <= ra.cells@.len(),
                                ra.cells@.no_duplicates(),
                                u@.no_duplicates(),
                                forall|q: Point|
                                    u@.contains(q) <==> ra.cells@.take(i as int).contains(q)
                                        && rb.cells@.contains(q),
                            decreases ra.cells@.len() - i,
                        {
                            let p = ra.cells[i];
                            proof {
                                lemma_no_dup_prefix(ra.cells@, i as int);
                                lemma_take_contains(ra.cells@, i as int);
                            }
                            let ghost u_before = u@;
                            if contains_point(&rb.cells, p) {
                                proof {
                                    lemma_push_unique(u_before, p);
                                    lemma_push_contains(u_before, p);
                                }
                                u.push(p);
                            }
                            proof {
                                assert forall|q: Point| u@.contains(q) implies ra.cells@.take(
                                    i + 1,
                                ).contains(q) && rb.cells@.contains(q) by {
                                    if !u_before.contains(q) {
                                        assert(q == ra.cells@[i as int]);
                                    }
                                }
                                assert forall|q: Point|
                                    ra.cells@.take(i + 1).contains(q) && rb.cells@.contains(
                                        q,
                                    ) implies u@.contains(q) by {
                                    if ra.cells@.take(i as int).contains(q) {
                                        assert(u_before.contains(q));
                                    } else {
                                        assert(q == ra.cells@[i as int]);
                                    }
                                }
                            }
                            i = i + 1;
                        }
                        proof {
                            assert(ra.cells@.take(ra.cells@.len() as int) =~= ra.cells@);
                            assert forall|q: Point| u@.to_set().contains(q) implies region_set(
                                **a,
                            ).intersect(region_set(**b)).contains(q) by {
                                assert(ra.cells@.to_set().contains(q));
                                assert(rb.cells@.to_set().contains(q));
                            }
                            assert forall|q: Point|
                                region_set(**a).intersect(region_set(**b)).contains(q) implies u@
                                .to_set().contains(q) by {
                                assert(ra.cells@.contains(q));
                                assert(rb.cells@.contains(q));
                            }
                            assert(u@.to_set() =~= region_set(**a).intersect(region_set(**b)));
                        }
                        u
                    },
                    SetOperation::Difference => {
                        let mut u: Vec<Point> = Vec::new();
                        let mut i: usize = 0;
                        while i < ra.cells.len()
                            invariant
                                0 <= i <= ra.cells@.len(),
                                ra.cells@.no_duplicates(),
                                u@.no_duplicates(),
                                forall|q: Point|
                                    u@.contains(q) <==> ra.cells@.take(i as int).contains(q)
                                        && !rb.cells@.contains(q),
                            decreases ra.cells@.len() - i,
                        {
                            let p = ra.cells[i];
                            proof {
                                lemma_no_dup_prefix(ra.cells@, i as int);
                                lemma_take_contains(ra.cells@, i as int);
                            }
                            let ghost u_before = u@;
                            if !contains_point(&rb.cells, p) {
                                proof {
                                    lemma_push_unique(u_before, p);
                                    lemma_push_contains(u_before, p);
                                }
                                u.push(p);
                            }
                            proof {
                                assert forall|q: Point| u@.contains(q) implies ra.cells@.take(
                                    i + 1,
                                ).contains(q) && !rb.cells@.contains(q) by {
                                    if !u_before.contains(q) {
                                        assert(q == ra.cells@[i as int]);
                                    }
                                }
                                assert forall|q: Point|
                                    ra.cells@.take(i + 1).contains(q) && !rb.cells@.contains(
                                        q,
                                    ) implies u@.contains(q) by {
                                    if ra.cells@.take(i as int).contains(q) {
                                        assert(u_before.contains(q));
                                    } else {
                                        assert(q == ra.cells@[i as int]);
                                    }
                                }
                            }
                            i = i + 1;
                        }
                        proof {
                            assert(ra.cells@.take(ra.cells@.len() as int) =~= ra.cells@);
                            assert forall|q: Point| u@.to_set().contains(q) implies region_set(
                                **a,
                            ).difference(region_set(**b)).contains(q) by {
                                assert(ra.cells@.to_set().contains(q));
                                assert(!rb.cells@.to_set().contains(q));
                            }
                            assert forall|q: Point|
                                region_set(**a).difference(region_set(**b)).contains(q) implies u@
                                .to_set().contains(q) by {
                                assert(ra.cells@.contains(q));
                                assert(!rb.cells@.contains(q));
                            }
                            assert(u@.to_set() =~= region_set(**a).difference(region_set(**b)));
                        }
                        u
                    },
                };
                Ok(Region { cells: out })
            },
        }
    }
}

impl LineSpecifier {
    /// Expands a line specifier into its ordered cell sequence. Fails
    /// exactly when the polyline is invalid.
    pub fn build_line(&self) -> (r: Result<Line, BuildError>)
        ensures
            r is Ok <==> polyline_ok(self.points@),
            r matches Ok(line) ==> line.cells@ == polyline_seq(self.points@),
            r matches Err(e) ==> e == BuildError::DegenerateLine || e == BuildError::MisalignedLine,
            r matches Err(e) ==> (e == BuildError::DegenerateLine ==> polyline_degenerate(
                self.points@,
            )) && (e == BuildError::MisalignedLine ==> polyline_misaligned(self.points@)),
    {
        let cells = build_line(&self.points)?;
        Ok(Line { cells })
    }
}

/// Expands a polyline into its ordered cell sequence: each adjacent waypoint
/// pair contributes a segment, and only the last segment includes its
/// endpoint, so interior junction points appear once.
fn build_line(points: &Vec<Point>) -> (r: Result<Vec<Point>, BuildError>)
    ensures
        r is Ok <==> polyline_ok(points@),
        r matches Ok(cells) ==> cells@ == polyline_seq(points@),
        r matches Err(e) ==> e == BuildError::DegenerateLine || e == BuildError::MisalignedLine,
        r matches Err(e) ==> (e == BuildError::DegenerateLine ==> polyline_degenerate(points@)) && (
        e == BuildError::MisalignedLine ==> polyline_misaligned(points@)),
{
    if points.len() < 2 {
        return Err(BuildError::DegenerateLine);
    }
    let mut cells: Vec<Point> = Vec::new();
    proof {
        assert(points@.skip(0) =~= points@);
    }
    let mut i: usize = 0;
    while i < points.len() - 1
        invariant
            points@.len() >= 2,
            0 <= i <= points@.len() - 1,
            forall|j: int| 0 <= j < i ==> seg_ok(points@[j], #[trigger] points@[j + 1]),
            cells@ + polyline_seq(points@.skip(i as int)) =~= polyline_seq(points@),
        decreases points@.len() - i,
    {
        let include_end = i + 2 == points.len();
        let seg = match Point::loop_line(&points[i], &points[i + 1], include_end) {
            Ok(seg) => seg,
            Err(e) => {
                proof {
                    if points@[i as int] == points@[i + 1] {
                        assert(polyline_degenerate(points@));
                    } else {
                        assert(polyline_misaligned(points@));
                    }
                }
                return Err(e);
            },
        };
        let ghost suffix = points@.skip(i as int);
        proof {
            assert(suffix.len() == points@.len() - i);
            assert(suffix.drop_first() =~= points@.skip(i + 1));
            assert(suffix[0] == points@[i as int] && suffix[1] == points@[i + 1]);
            if include_end {
                assert(polyline_seq(suffix) == seg_seq(points@[i as int], points@[i + 1], true));
                assert(polyline_seq(points@.skip(i + 1)) == Seq::<Point>::empty());
                assert(polyline_seq(suffix) =~= seg@ + polyline_seq(points@.skip(i + 1)));
            } else {
                assert(polyline_seq(suffix) == seg_seq(points@[i as int], points@[i + 1], false)
                    + polyline_seq(suffix.drop_first()));
                assert(polyline_seq(suffix) =~= seg@ + polyline_seq(points@.skip(i + 1)));
            }
        }
        let ghost cells_before = cells@;
        let mut k: usize = 0;
        while k < seg.len()
            invariant
                0 <= k <= seg@.len(),
                cells@ == cells_before + seg@.take(k as int),
            decreases seg@.len() - k,
        {
            cells.push(seg[k]);
            proof {
                assert(cells@ =~= cells_before + seg@.take(k + 1));
            }
            k = k + 1;
        }
        proof {
            assert(seg@.take(seg@.len() as int) =~= seg@);
            assert(cells@ + polyline_seq(points@.skip(i + 1)) =~= cells_before + (seg@
                + polyline_seq(points@.skip(i + 1))));
        }
        i = i + 1;
    }
    proof {
        assert(polyline_seq(points@.skip(points@.len() - 1)) == Seq::<Point>::empty());
        assert(cells@ =~= polyline_seq(points@));
    }
    Ok(cells)
}

} // verus!
