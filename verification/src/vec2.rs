//! Integer 2D points used for cell coordinates and direction vectors,
//! together with the two geometric enumerators: axis-aligned box iteration
//! and straight-or-diagonal line iteration.

use vstd::prelude::*;

use crate::BuildError;

verus! {

/// A 2D point with integer coordinates. Used both for cell positions and
/// for direction vectors.
#[derive(Clone, Copy, Debug, Hash, PartialEq, Eq, Structural)]
pub struct Point {
    pub x: i32,
    pub y: i32,
}

/// Sign of an integer, as used to step along a line.
pub open spec fn sgn(d: int) -> int {
    if d > 0 {
        1
    } else if d < 0 {
        -1
    } else {
        0
    }
}

/// Absolute value of an integer.
pub open spec fn abs(d: int) -> int {
    if d >= 0 {
        d
    } else {
        -d
    }
}

/// Smaller of two integers.
pub open spec fn min_i(a: int, b: int) -> int {
    if a <= b {
        a
    } else {
        b
    }
}

/// Larger of two integers.
pub open spec fn max_i(a: int, b: int) -> int {
    if a <= b {
        b
    } else {
        a
    }
}

/// Whether `p` lies inside the axis-aligned box spanned by the two corners
/// `start` and `end` (inclusive of both, in either corner order).
pub open spec fn in_box(start: Point, end: Point, p: Point) -> bool {
    &&& min_i(start.x as int, end.x as int) <= p.x as int <= max_i(start.x as int, end.x as int)
    &&& min_i(start.y as int, end.y as int) <= p.y as int <= max_i(start.y as int, end.y as int)
}

/// The set of grid cells inside the box spanned by two corners.
pub open spec fn box_set(start: Point, end: Point) -> Set<Point> {
    Set::new(|p: Point| in_box(start, end, p))
}

/// Width of the box spanned by two corners.
pub open spec fn box_width(start: Point, end: Point) -> int {
    max_i(start.x as int, end.x as int) - min_i(start.x as int, end.x as int) + 1
}

/// Height of the box spanned by two corners.
pub open spec fn box_height(start: Point, end: Point) -> int {
    max_i(start.y as int, end.y as int) - min_i(start.y as int, end.y as int) + 1
}

/// The cells of the box spanned by two corners, enumerated in row-major
/// order (y outer, x inner).
pub open spec fn box_seq(start: Point, end: Point) -> Seq<Point> {
    let xmin = min_i(start.x as int, end.x as int);
    let ymin = min_i(start.y as int, end.y as int);
    let w = box_width(start, end);
    Seq::new(
        (box_width(start, end) * box_height(start, end)) as nat,
        |k: int| Point { x: (xmin + k % w) as i32, y: (ymin + k / w) as i32 },
    )
}

/// Whether a single line segment is valid: the endpoints differ, and the
/// displacement is axis-aligned or an exact 45-degree diagonal.
pub open spec fn seg_ok(start: Point, end: Point) -> bool {
    let dx = end.x as int - start.x as int;
    let dy = end.y as int - start.y as int;
    &&& !(dx == 0 && dy == 0)
    &&& (dx == 0 || dy == 0 || abs(dx) == abs(dy))
}

/// Number of unit steps from `start` to `end` along a valid segment.
pub open spec fn seg_steps(start: Point, end: Point) -> int {
    max_i(abs(end.x as int - start.x as int), abs(end.y as int - start.y as int))
}

/// The `i`-th point along the segment from `start` towards `end`.
pub open spec fn seg_pt(start: Point, end: Point, i: int) -> Point {
    let dx = end.x as int - start.x as int;
    let dy = end.y as int - start.y as int;
    Point { x: (start.x as int + sgn(dx) * i) as i32, y: (start.y as int + sgn(dy) * i) as i32 }
}

/// Truncating integer division, as machine division computes it: the
/// magnitudes are divided and the quotient carries the sign of the exact
/// quotient, rounding toward zero.
pub open spec fn div_trunc(a: int, b: int) -> int {
    if (a < 0) != (b < 0) {
        -(abs(a) / abs(b))
    } else {
        abs(a) / abs(b)
    }
}

/// The ordered cells of the segment from `start` to `end`, with the final
/// endpoint included exactly when `include_end` holds.
pub open spec fn seg_seq(start: Point, end: Point, include_end: bool) -> Seq<Point> {
    let n = seg_steps(start, end) + if include_end {
        1int
    } else {
        0int
    };
    Seq::new(n as nat, |i: int| seg_pt(start, end, i))
}

impl Point {
    /// Builds a point from its two coordinates.
    pub fn new(x: i32, y: i32) -> (r: Self)
        ensures
            r == (Point { x, y }),
    {
        Point { x, y }
    }

    /// The origin.
    pub fn zero() -> (r: Self)
        ensures
            r == (Point { x: 0, y: 0 }),
    {
        Point { x: 0, y: 0 }
    }

    /// The point with both coordinates one.
    pub fn one() -> (r: Self)
        ensures
            r == (Point { x: 1, y: 1 }),
    {
        Point { x: 1, y: 1 }
    }

    /// The unit vector pointing up (towards smaller y).
    pub fn up() -> (r: Self)
        ensures
            r == (Point { x: 0i32, y: -1i32 }),
    {
        Point { x: 0, y: -1 }
    }

    /// The unit vector pointing down (towards larger y).
    pub fn down() -> (r: Self)
        ensures
            r == (Point { x: 0, y: 1 }),
    {
        Point { x: 0, y: 1 }
    }

    /// The unit vector pointing left.
    pub fn left() -> (r: Self)
        ensures
            r == (Point { x: -1i32, y: 0i32 }),
    {
        Point { x: -1, y: 0 }
    }

    /// The unit vector pointing right.
    pub fn right() -> (r: Self)
        ensures
            r == (Point { x: 1, y: 0 }),
    {
        Point { x: 1, y: 0 }
    }

    /// Component-wise addition.
    pub fn add(self, rhs: Point) -> (r: Self)
        requires
            i32::MIN <= self.x as int + rhs.x as int <= i32::MAX,
            i32::MIN <= self.y as int + rhs.y as int <= i32::MAX,
        ensures
            r.x as int == self.x as int + rhs.x as int,
            r.y as int == self.y as int + rhs.y as int,
    {
        Point { x: self.x + rhs.x, y: self.y + rhs.y }
    }

    /// Component-wise subtraction.
    pub fn sub(self, rhs: Point) -> (r: Self)
        requires
            i32::MIN <= self.x as int - rhs.x as int <= i32::MAX,
            i32::MIN <= self.y as int - rhs.y as int <= i32::MAX,
        ensures
            r.x as int == self.x as int - rhs.x as int,
            r.y as int == self.y as int - rhs.y as int,
    {
        Point { x: self.x - rhs.x, y: self.y - rhs.y }
    }

    /// Scalar multiplication.
    pub fn mul(self, rhs: i32) -> (r: Self)
        requires
            i32::MIN <= self.x as int * rhs as int <= i32::MAX,
            i32::MIN <= self.y as int * rhs as int <= i32::MAX,
        ensures
            r.x as int == self.x as int * rhs as int,
            r.y as int == self.y as int * rhs as int,
    {
        Point { x: self.x * rhs, y: self.y * rhs }
    }

    /// Scalar division, truncating toward zero; the divisor must not be
    /// zero and the division must not overflow.
    pub fn div(self, rhs: i32) -> (r: Self)
        requires
            rhs != 0,
            !(self.x == i32::MIN && rhs == -1),
            !(self.y == i32::MIN && rhs == -1),
        ensures
            r.x as int == div_trunc(self.x as int, rhs as int),
            r.y as int == div_trunc(self.y as int, rhs as int),
    {
        Point { x: div_i32(self.x, rhs), y: div_i32(self.y, rhs) }
    }

    /// Widens both coordinates.
    pub fn convert(self) -> (r: (i64, i64))
        ensures
            r.0 as int == self.x as int,
            r.1 as int == self.y as int,
    {
        (self.x as i64, self.y as i64)
    }

    /// Builds a point from a pair of wider coordinates known to fit.
    pub fn convert_from(xy: (i64, i64)) -> (r: Self)
        requires
            i32::MIN <= xy.0 <= i32::MAX,
            i32::MIN <= xy.1 <= i32::MAX,
        ensures
            r.x as int == xy.0 as int,
            r.y as int == xy.1 as int,
    {
        Point { x: xy.0 as i32, y: xy.1 as i32 }
    }

    /// Converts to a pair of unsigned indices; succeeds exactly when both
    /// coordinates are non-negative.
    pub fn try_convert(self) -> (r: Option<(usize, usize)>)
        ensures
            r is Some <==> self.x >= 0 && self.y >= 0,
            r matches Some(p) ==> p.0 as int == self.x as int && p.1 as int == self.y as int,
    {
        if self.x >= 0 && self.y >= 0 {
            Some((self.x as usize, self.y as usize))
        } else {
            None
        }
    }

    /// Builds a point from a pair of unsigned indices; succeeds exactly when
    /// both fit in a coordinate.
    pub fn try_convert_from(xy: (usize, usize)) -> (r: Option<Self>)
        ensures
            r is Some <==> xy.0 <= i32::MAX && xy.1 <= i32::MAX,
            r matches Some(p) ==> p.x as int == xy.0 as int && p.y as int == xy.1 as int,
    {
        if xy.0 <= i32::MAX as usize && xy.1 <= i32::MAX as usize {
            Some(Point { x: xy.0 as i32, y: xy.1 as i32 })
        } else {
            None
        }
    }

    /// Recovers a point from a row-major index into a grid of width `width`.
    pub fn from_index(index: usize, width: usize) -> (r: Self)
        requires
            width > 0,
            index % width <= i32::MAX,
            index / width <= i32::MAX,
        ensures
            r.x as int == index as int % width as int,
            r.y as int == index as int / width as int,
    {
        Point { x: (index % width) as i32, y: (index / width) as i32 }
    }

    /// The row-major index of a point in a grid of width `width`.
    pub fn to_index(self, width: usize) -> (r: usize)
        requires
            self.x >= 0,
            self.y >= 0,
            self.y as int * width as int + self.x as int <= usize::MAX,
        ensures
            r as int == self.y as int * width as int + self.x as int,
    {
        self.y as usize * width + self.x as usize
    }

    /// Enumerates every cell of the axis-aligned box spanned by the two
    /// corners, in row-major order, inclusive of both corners.
    pub fn loop_box(start: &Point, end: &Point) -> (r: Vec<Point>)
        ensures
            r@ == box_seq(*start, *end),
    {
        let xmin: i64 = if start.x <= end.x {
            start.x as i64
        } else {
            end.x as i64
        };
        let xmax: i64 = if start.x <= end.x {
            end.x as i64
        } else {
            start.x as i64
        };
        let ymin: i64 = if start.y <= end.y {
            start.y as i64
        } else {
            end.y as i64
        };
        let ymax: i64 = if start.y <= end.y {
            end.y as i64
        } else {
            start.y as i64
        };
        let ghost w = box_width(*start, *end);
        let ghost h = box_height(*start, *end);
        let mut cells: Vec<Point> = Vec::new();
        let mut yy: i64 = ymin;
        while yy <= ymax
            invariant
                xmin == min_i(start.x as int, end.x as int),
                xmax == max_i(start.x as int, end.x as int),
                ymin == min_i(start.y as int, end.y as int),
                ymax == max_i(start.y as int, end.y as int),
                w == xmax - xmin + 1,
                h == ymax - ymin + 1,
                ymin <= yy <= ymax + 1,
                cells@.len() == (yy - ymin) * w,
                forall|k: int|
                    0 <= k < cells@.len() ==> cells@[k] == box_seq(*start, *end)[k],
            decreases ymax + 1 - yy,
        {
            let mut xx: i64 = xmin;
            while xx <= xmax
                invariant
                    xmin == min_i(start.x as int, end.x as int),
                    xmax == max_i(start.x as int, end.x as int),
                    ymin == min_i(start.y as int, end.y as int),
                    ymax == max_i(start.y as int, end.y as int),
                    w == xmax - xmin + 1,
                    h == ymax - ymin + 1,
                    ymin <= yy <= ymax,
                    xmin <= xx <= xmax + 1,
                    cells@.len() == (yy - ymin) * w + (xx - xmin),
                    forall|k: int|
                        0 <= k < cells@.len() ==> cells@[k] == box_seq(*start, *end)[k],
                decreases xmax + 1 - xx,
            {
                let ghost k = (yy - ymin) * w + (xx - xmin);
                proof {
                    lemma_row_major_index(xmin as int, ymin as int, w, h, yy as int, xx as int);
                    assert(box_seq(*start, *end).len() == (w * h) as nat);
                    assert(box_seq(*start, *end)[k] == (Point {
                        x: xx as i32,
                        y: yy as i32,
                    }));
                }
                cells.push(Point { x: xx as i32, y: yy as i32 });
                xx = xx + 1;
            }
            proof {
                assert((yy - ymin) * w + w == (yy + 1 - ymin) * w) by (nonlinear_arith);
            }
            yy = yy + 1;
        }
        proof {
            assert((ymax + 1 - ymin) * w == w * h) by (nonlinear_arith)
                requires
                    h == ymax + 1 - ymin,
            ;
            assert(cells@.len() == box_seq(*start, *end).len());
            assert(cells@ =~= box_seq(*start, *end));
        }
        cells
    }

    /// Enumerates the cells of the straight or 45-degree line from `start`
    /// to `end`. The final endpoint is included exactly when `include_end`
    /// holds. Fails when the endpoints coincide or are not aligned.
    pub fn loop_line(start: &Point, end: &Point, include_end: bool) -> (r: Result<
        Vec<Point>,
        BuildError,
    >)
        ensures
            r is Ok <==> seg_ok(*start, *end),
            r matches Ok(cells) ==> cells@ == seg_seq(*start, *end, include_end),
            r matches Err(e) ==> (e == BuildError::DegenerateLine <==> *start == *end),
            r matches Err(e) ==> (e == BuildError::MisalignedLine <==> *start != *end),
    {
        let dx: i64 = end.x as i64 - start.x as i64;
        let dy: i64 = end.y as i64 - start.y as i64;
        if dx == 0 && dy == 0 {
            return Err(BuildError::DegenerateLine);
        }
        let ax: i64 = if dx >= 0 {
            dx
        } else {
            -dx
        };
        let ay: i64 = if dy >= 0 {
            dy
        } else {
            -dy
        };
        if dx != 0 && dy != 0 && ax != ay {
            return Err(BuildError::MisalignedLine);
        }
        let steps: i64 = if ax >= ay {
            ax
        } else {
            ay
        };
        let sx: i64 = if dx > 0 {
            1
        } else if dx < 0 {
            -1
        } else {
            0
        };
        let sy: i64 = if dy > 0 {
            1
        } else if dy < 0 {
            -1
        } else {
            0
        };
        let count: i64 = if include_end {
            steps + 1
        } else {
            steps
        };
        let mut cells: Vec<Point> = Vec::new();
        let mut i: i64 = 0;
        while i < count
            invariant
                seg_ok(*start, *end),
                steps == seg_steps(*start, *end),
                sx == sgn(end.x as int - start.x as int),
                sy == sgn(end.y as int - start.y as int),
                count == steps + if include_end {
                    1int
                } else {
                    0int
                },
                0 <= i <= count,
                cells@.len() == i,
                forall|k: int|
                    0 <= k < i ==> cells@[k] == seg_pt(*start, *end, k),
            decreases count - i,
        {
            proof {
                lemma_seg_pt_in_range(*start, *end, i as int);
            }
            let x: i64 = start.x as i64 + sx * i;
            let y: i64 = start.y as i64 + sy * i;
            cells.push(Point { x: x as i32, y: y as i32 });
            i = i + 1;
        }
        proof {
            assert(cells@ =~= seg_seq(*start, *end, include_end));
        }
        Ok(cells)
    }
}

/// Truncating division of one coordinate by a nonzero divisor.
fn div_i32(a: i32, b: i32) -> (r: i32)
    requires
        b != 0,
        !(a == i32::MIN && b == -1),
    ensures
        r as int == div_trunc(a as int, b as int),
{
    let aa: i64 = if a >= 0 {
        a as i64
    } else {
        -(a as i64)
    };
    let bb: i64 = if b >= 0 {
        b as i64
    } else {
        -(b as i64)
    };
    let q: i64 = aa / bb;
    proof {
        let ai = aa as int;
        let bi = bb as int;
        assert(ai == abs(a as int));
        assert(bi == abs(b as int));
        assert(0 <= ai / bi && ai / bi <= ai) by (nonlinear_arith)
            requires
                ai >= 0,
                bi >= 1,
        ;
        if a == i32::MIN {
            assert(bb >= 2 || b == 1);
            if bb >= 2 {
                assert(ai / bi < ai) by (nonlinear_arith)
                    requires
                        ai >= 2,
                        bi >= 2,
                ;
            }
        }
    }
    let neg = (a < 0) != (b < 0);
    let res: i64 = if neg {
        -q
    } else {
        q
    };
    res as i32
}

/// The `k = (yy - ymin) * w + (xx - xmin)`-th cell of a row-major box
/// enumeration is the cell at `(xx, yy)`.
proof fn lemma_row_major_index(xmin: int, ymin: int, w: int, h: int, yy: int, xx: int)
    requires
        w >= 1,
        h >= 1,
        ymin <= yy <= ymin + h - 1,
        xmin <= xx <= xmin + w - 1,
    ensures
        0 <= (yy - ymin) * w + (xx - xmin) < w * h,
        ((yy - ymin) * w + (xx - xmin)) % w == xx - xmin,
        ((yy - ymin) * w + (xx - xmin)) / w == yy - ymin,
{
    let q = yy - ymin;
    let rm = xx - xmin;
    assert(0 <= q * w + rm < w * h) by (nonlinear_arith)
        requires
            w >= 1,
            0 <= q <= h - 1,
            0 <= rm <= w - 1,
    ;
    assert((q * w + rm) % w == rm && (q * w + rm) / w == q) by (nonlinear_arith)
        requires
            w >= 1,
            0 <= q,
            0 <= rm < w,
    ;
}

/// Every point along a valid segment has coordinates between those of its
/// endpoints, so they fit in a coordinate.
proof fn lemma_seg_pt_in_range(start: Point, end: Point, i: int)
    requires
        seg_ok(start, end),
        0 <= i <= seg_steps(start, end),
    ensures
        min_i(start.x as int, end.x as int) <= start.x as int + sgn(
            end.x as int - start.x as int,
        ) * i <= max_i(start.x as int, end.x as int),
        min_i(start.y as int, end.y as int) <= start.y as int + sgn(
            end.y as int - start.y as int,
        ) * i <= max_i(start.y as int, end.y as int),
        seg_pt(start, end, i).x as int == start.x as int + sgn(end.x as int - start.x as int) * i,
        seg_pt(start, end, i).y as int == start.y as int + sgn(end.y as int - start.y as int) * i,
{
    let dx = end.x as int - start.x as int;
    let dy = end.y as int - start.y as int;
    let s = seg_steps(start, end);
    assert(sgn(dx) * i == if dx > 0 {
        i
    } else if dx < 0 {
        -i
    } else {
        0int
    });
    assert(sgn(dy) * i == if dy > 0 {
        i
    } else if dy < 0 {
        -i
    } else {
        0int
    });
    assert(abs(dx) <= s && abs(dy) <= s);
}

} // verus!
