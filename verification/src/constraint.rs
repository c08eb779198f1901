//! Constraint specifiers, expanded constraints, and the meaning of a
//! constraint: what it demands of a fully assigned grid.

use vstd::prelude::*;

use crate::region::{polyline_degenerate, polyline_misaligned, polyline_ok, polyline_seq,
    region_set, region_spec_degenerate, region_spec_misaligned, region_spec_ok, Line,
    LineSpecifier, Region, RegionSpecifier};
use crate::vec2::Point;
use crate::BuildError;

verus! {

/// A binary relation between the values of two distinct cells.
#[derive(Clone, Copy, Debug, PartialEq, Eq, Structural)]
pub enum Relationship {
    Greater,
    Less,
    Equal,
    NotEqual,
    Consecutive,
    Double,
}

/// A property of a single cell's value.
#[derive(Clone, Copy, Debug, PartialEq, Eq, Structural)]
pub enum Property {
    Even,
    Odd,
    Given(i32),
}

/// A declarative constraint over regions and lines that are not yet
/// expanded.
#[derive(Debug)]
pub enum ConstraintSpecifier {
    /// All cells of the region carry distinct values.
    Unique { region: RegionSpecifier },
    /// Values strictly increase along the ordered line.
    Thermometer { line: LineSpecifier },
    /// Values in the region sum to exactly `sum`; uniqueness is not implied.
    Killer { region: RegionSpecifier, sum: i32 },
    /// Values in the region sum to the value at the `tail` cell.
    Arrow { region: RegionSpecifier, tail: Point },
    /// A binary relation between two distinct cells.
    Relationship { first: Point, second: Point, relationship: Relationship },
    /// Every cell of the region satisfies the property.
    Property { region: RegionSpecifier, property: Property },
}

/// A constraint whose regions and lines have been expanded to concrete
/// cells.
#[derive(Clone, Debug)]
pub enum Constraint {
    Unique(Region),
    Thermometer(Line),
    Killer { region: Region, sum: i32 },
    Arrow { region: Region, tail: Point },
    Relationship { first: Point, second: Point, relationship: Relationship },
    Property { region: Region, property: Property },
}

/// The value an assignment gives to the cell at `p`. An assignment is a
/// grid of values indexed `[row][column]`.
pub open spec fn val_at(a: Seq<Seq<i32>>, p: Point) -> i32 {
    a[p.y as int][p.x as int]
}

/// The sum of the assignment's values over an ordered list of cells.
pub open spec fn sum_at(a: Seq<Seq<i32>>, cells: Seq<Point>) -> int
    decreases cells.len(),
{
    if cells.len() == 0 {
        0
    } else {
        val_at(a, cells[0]) as int + sum_at(a, cells.drop_first())
    }
}

/// All cells of the region carry pairwise distinct values.
pub open spec fn sat_unique(a: Seq<Seq<i32>>, cells: Seq<Point>) -> bool {
    forall|i: int, j: int|
        0 <= i < cells.len() && 0 <= j < cells.len() && i != j ==> val_at(a, #[trigger] cells[i])
            != val_at(a, #[trigger] cells[j])
}

/// Values strictly increase along the ordered line.
pub open spec fn sat_thermometer(a: Seq<Seq<i32>>, cells: Seq<Point>) -> bool {
    forall|i: int|
        0 <= i < cells.len() - 1 ==> val_at(a, cells[i]) < val_at(a, #[trigger] cells[i + 1])
}

/// The region's values sum to exactly `sum`.
pub open spec fn sat_killer(a: Seq<Seq<i32>>, cells: Seq<Point>, sum: i32) -> bool {
    sum_at(a, cells) == sum as int
}

/// The region's values sum to the value at the tail cell.
pub open spec fn sat_arrow(a: Seq<Seq<i32>>, cells: Seq<Point>, tail: Point) -> bool {
    sum_at(a, cells) == val_at(a, tail) as int
}

/// The relation `rel` holds between the two values, `v1` being the value
/// of the first cell. `Less` keeps the second cell's value below the
/// first's, and `Greater` above it.
pub open spec fn sat_relationship_vals(v1: i32, v2: i32, rel: Relationship) -> bool {
    match rel {
        Relationship::Less => v2 < v1,
        Relationship::Greater => v2 > v1,
        Relationship::Equal => v1 == v2,
        Relationship::NotEqual => v1 != v2,
        Relationship::Consecutive => v1 as int - v2 as int == 1 || v2 as int - v1 as int == 1,
        Relationship::Double => v1 as int == 2 * v2 as int || v2 as int == 2 * v1 as int,
    }
}

/// The value satisfies the cell property.
pub open spec fn sat_property_val(v: i32, prop: Property) -> bool {
    match prop {
        Property::Even => v as int % 2 == 0,
        Property::Odd => v as int % 2 != 0,
        Property::Given(g) => v == g,
    }
}

/// Every cell of the region satisfies the property.
pub open spec fn sat_property(a: Seq<Seq<i32>>, cells: Seq<Point>, prop: Property) -> bool {
    forall|i: int| 0 <= i < cells.len() ==> sat_property_val(val_at(a, #[trigger] cells[i]), prop)
}

/// Whether a full assignment satisfies an expanded constraint.
pub open spec fn sat_constraint(a: Seq<Seq<i32>>, c: Constraint) -> bool {
    match c {
        Constraint::Unique(r) => sat_unique(a, r.cells@),
        Constraint::Thermometer(l) => sat_thermometer(a, l.cells@),
        Constraint::Killer { region, sum } => sat_killer(a, region.cells@, sum),
        Constraint::Arrow { region, tail } => sat_arrow(a, region.cells@, tail),
        Constraint::Relationship { first, second, relationship } => sat_relationship_vals(
            val_at(a, first),
            val_at(a, second),
            relationship,
        ),
        Constraint::Property { region, property } => sat_property(a, region.cells@, property),
    }
}

/// Whether a constraint specifier is well-formed: its lines are valid
/// polylines and a relationship names two distinct cells.
pub open spec fn constraint_spec_ok(cs: ConstraintSpecifier) -> bool {
    match cs {
        ConstraintSpecifier::Unique { region } => region_spec_ok(region),
        ConstraintSpecifier::Thermometer { line } => polyline_ok(line.points@),
        ConstraintSpecifier::Killer { region, sum } => region_spec_ok(region),
        ConstraintSpecifier::Arrow { region, tail } => region_spec_ok(region),
        ConstraintSpecifier::Relationship { first, second, relationship } => first != second,
        ConstraintSpecifier::Property { region, property } => region_spec_ok(region),
    }
}

/// Whether an expanded constraint is the expansion of a given specifier:
/// same variant, equal scalar fields, and each region expanded to the cell
/// set its specifier denotes.
pub open spec fn constraint_built_from(c: Constraint, cs: ConstraintSpecifier) -> bool {
    match (c, cs) {
        (Constraint::Unique(r), ConstraintSpecifier::Unique { region }) => r.cells@.no_duplicates()
            && r.cells@.to_set() == region_set(region),
        (Constraint::Thermometer(l), ConstraintSpecifier::Thermometer { line }) => l.cells@
            == polyline_seq(line.points@),
        (
            Constraint::Killer { region: r, sum: s },
            ConstraintSpecifier::Killer { region, sum },
        ) => r.cells@.no_duplicates() && r.cells@.to_set() == region_set(region) && s == sum,
        (Constraint::Arrow { region: r, tail: t }, ConstraintSpecifier::Arrow { region, tail }) => r
            .cells@.no_duplicates() && r.cells@.to_set() == region_set(region) && t == tail,
        (
            Constraint::Relationship { first: f, second: s, relationship: rel },
            ConstraintSpecifier::Relationship { first, second, relationship },
        ) => f == first && s == second && rel == relationship && f != s,
        (
            Constraint::Property { region: r, property: p },
            ConstraintSpecifier::Property { region, property },
        ) => r.cells@.no_duplicates() && r.cells@.to_set() == region_set(region) && p == property,
        _ => false,
    }
}

/// Whether a constraint specifier mentions a degenerate line, or is a
/// relationship between one and the same cell.
pub open spec fn constraint_spec_degenerate_line(cs: ConstraintSpecifier) -> bool {
    match cs {
        ConstraintSpecifier::Unique { region } => region_spec_degenerate(region),
        ConstraintSpecifier::Thermometer { line } => polyline_degenerate(line.points@),
        ConstraintSpecifier::Killer { region, sum } => region_spec_degenerate(region),
        ConstraintSpecifier::Arrow { region, tail } => region_spec_degenerate(region),
        ConstraintSpecifier::Relationship { .. } => false,
        ConstraintSpecifier::Property { region, property } => region_spec_degenerate(region),
    }
}

/// Whether a constraint specifier mentions a misaligned line.
pub open spec fn constraint_spec_misaligned_line(cs: ConstraintSpecifier) -> bool {
    match cs {
        ConstraintSpecifier::Unique { region } => region_spec_misaligned(region),
        ConstraintSpecifier::Thermometer { line } => polyline_misaligned(line.points@),
        ConstraintSpecifier::Killer { region, sum } => region_spec_misaligned(region),
        ConstraintSpecifier::Arrow { region, tail } => region_spec_misaligned(region),
        ConstraintSpecifier::Relationship { .. } => false,
        ConstraintSpecifier::Property { region, property } => region_spec_misaligned(region),
    }
}

impl ConstraintSpecifier {
    /// Expands a constraint specifier into its concrete constraint. Fails
    /// exactly when a contained line is invalid or a relationship names the
    /// same cell twice.
    pub fn build_constraint(&self) -> (r: Result<Constraint, BuildError>)
        ensures
            r is Ok <==> constraint_spec_ok(*self),
            r matches Ok(c) ==> constraint_built_from(c, *self),
            r matches Err(e) ==> e == BuildError::DegenerateLine || e == BuildError::MisalignedLine
                || e == BuildError::DegenerateRelationship,
            r matches Err(e) ==> (e == BuildError::DegenerateLine
                ==> constraint_spec_degenerate_line(*self)) && (e == BuildError::MisalignedLine
                ==> constraint_spec_misaligned_line(*self)) && (e
                == BuildError::DegenerateRelationship ==> (*self matches
            ConstraintSpecifier::Relationship { first, second, .. } && first == second)),
    {
        match self {
            ConstraintSpecifier::Unique { region } => {
                let r = region.build_region()?;
                Ok(Constraint::Unique(r))
            },
            ConstraintSpecifier::Thermometer { line } => {
                let l = line.build_line()?;
                Ok(Constraint::Thermometer(l))
            },
            ConstraintSpecifier::Killer { region, sum } => {
                let r = region.build_region()?;
                Ok(Constraint::Killer { region: r, sum: *sum })
            },
            ConstraintSpecifier::Arrow { region, tail } => {
                let r = region.build_region()?;
                Ok(Constraint::Arrow { region: r, tail: *tail })
            },
            ConstraintSpecifier::Relationship { first, second, relationship } => {
                if *first == *second {
                    Err(BuildError::DegenerateRelationship)
                } else {
                    Ok(
                        Constraint::Relationship {
                            first: *first,
                            second: *second,
                            relationship: *relationship,
                        },
                    )
                }
            },
            ConstraintSpecifier::Property { region, property } => {
                let r = region.build_region()?;
                Ok(Constraint::Property { region: r, property: *property })
            },
        }
    }
}

} // verus!
