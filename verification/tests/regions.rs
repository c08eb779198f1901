use sudoku_solver::region::{LineSpecifier, RegionSpecifier, SetOperation};
use sudoku_solver::vec2::Point;
use sudoku_solver::BuildError;

fn pt(x: i32, y: i32) -> Point {
    Point { x, y }
}

fn sorted_cells(spec: &RegionSpecifier) -> Vec<Point> {
    let mut cells = spec.build_region().unwrap().cells;
    cells.sort_by_key(|p| (p.y, p.x));
    cells
}

#[test]
fn many_region_collapses_duplicates() {
    let spec = RegionSpecifier::Many { cells: vec![pt(1, 1), pt(0, 0), pt(1, 1)] };
    let region = spec.build_region().unwrap();
    assert_eq!(region.cells.len(), 2);
}

#[test]
fn box_region_matches_enumeration() {
    let spec = RegionSpecifier::Box { start: pt(1, 1), end: pt(0, 0) };
    assert_eq!(
        sorted_cells(&spec),
        vec![pt(0, 0), pt(1, 0), pt(0, 1), pt(1, 1)]
    );
}

#[test]
fn many_box_region_unions_boxes() {
    let spec = RegionSpecifier::ManyBox {
        boxes: vec![(pt(0, 0), pt(1, 0)), (pt(1, 0), pt(2, 0))],
    };
    assert_eq!(sorted_cells(&spec), vec![pt(0, 0), pt(1, 0), pt(2, 0)]);
}

#[test]
fn line_region_covers_polyline() {
    let spec = RegionSpecifier::Line { points: vec![pt(0, 0), pt(2, 0), pt(2, 2)] };
    assert_eq!(
        sorted_cells(&spec),
        vec![pt(0, 0), pt(1, 0), pt(2, 0), pt(2, 1), pt(2, 2)]
    );
}

#[test]
fn combination_regions_apply_set_algebra() {
    let a = RegionSpecifier::Box { start: pt(0, 0), end: pt(2, 0) };
    let b = RegionSpecifier::Box { start: pt(1, 0), end: pt(3, 0) };
    let union = RegionSpecifier::Combination {
        op: SetOperation::Union,
        a: Box::new(RegionSpecifier::Box { start: pt(0, 0), end: pt(2, 0) }),
        b: Box::new(RegionSpecifier::Box { start: pt(1, 0), end: pt(3, 0) }),
    };
    assert_eq!(sorted_cells(&union), vec![pt(0, 0), pt(1, 0), pt(2, 0), pt(3, 0)]);
    let inter = RegionSpecifier::Combination {
        op: SetOperation::Intersection,
        a: Box::new(RegionSpecifier::Box { start: pt(0, 0), end: pt(2, 0) }),
        b: Box::new(RegionSpecifier::Box { start: pt(1, 0), end: pt(3, 0) }),
    };
    assert_eq!(sorted_cells(&inter), vec![pt(1, 0), pt(2, 0)]);
    let diff = RegionSpecifier::Combination {
        op: SetOperation::Difference,
        a: Box::new(a),
        b: Box::new(b),
    };
    assert_eq!(sorted_cells(&diff), vec![pt(0, 0)]);
}

#[test]
fn region_expansion_is_repeatable() {
    let spec = RegionSpecifier::Line { points: vec![pt(0, 0), pt(0, 3), pt(2, 3)] };
    let first = sorted_cells(&spec);
    let second = sorted_cells(&spec);
    assert_eq!(first, second);
}

#[test]
fn line_specifier_expands_in_order() {
    let spec = LineSpecifier { points: vec![pt(0, 0), pt(3, 0), pt(3, 2)] };
    let line = spec.build_line().unwrap();
    assert_eq!(
        line.cells,
        vec![pt(0, 0), pt(1, 0), pt(2, 0), pt(3, 0), pt(3, 1), pt(3, 2)]
    );
}

#[test]
fn line_cell_count_is_one_more_than_total_steps() {
    let spec = LineSpecifier { points: vec![pt(0, 0), pt(3, 0), pt(3, 2)] };
    let line = spec.build_line().unwrap();
    assert_eq!(line.cells.len(), 1 + 3 + 2);
}

#[test]
fn line_specifier_rejects_bad_polylines() {
    let too_short = LineSpecifier { points: vec![pt(0, 0)] };
    assert!(matches!(too_short.build_line(), Err(BuildError::DegenerateLine)));
    let repeated = LineSpecifier { points: vec![pt(0, 0), pt(0, 0)] };
    assert!(matches!(repeated.build_line(), Err(BuildError::DegenerateLine)));
    let knight = LineSpecifier { points: vec![pt(0, 0), pt(1, 2)] };
    assert!(matches!(knight.build_line(), Err(BuildError::MisalignedLine)));
    let bad_region = RegionSpecifier::Line { points: vec![pt(0, 0), pt(1, 2)] };
    assert!(matches!(bad_region.build_region(), Err(BuildError::MisalignedLine)));
}
