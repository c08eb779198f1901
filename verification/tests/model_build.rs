use sudoku_solver::constraint::{Constraint, ConstraintSpecifier, Property, Relationship};
use sudoku_solver::model::{SudokuSpecifier, SudokuModel};
use sudoku_solver::region::RegionSpecifier;
use sudoku_solver::state::Precomputed;
use sudoku_solver::vec2::Point;
use sudoku_solver::BuildError;

fn pt(x: i32, y: i32) -> Point {
    Point { x, y }
}

#[test]
fn build_model_materializes_sorted_deduplicated_values() {
    let spec = SudokuSpecifier {
        size: pt(2, 2),
        numbers: vec![pt(3, 5), pt(1, 4), pt(9, 9)],
        constraints: vec![],
    };
    let model = spec.build_model().unwrap();
    assert_eq!(model.numbers, vec![1, 2, 3, 4, 5, 9]);
    assert_eq!(model.size, pt(2, 2));
}

#[test]
fn build_model_rejects_empty_values() {
    let spec = SudokuSpecifier {
        size: pt(2, 2),
        numbers: vec![pt(5, 3)],
        constraints: vec![],
    };
    assert_eq!(spec.build_model().unwrap_err(), BuildError::EmptyValues);
    let none_at_all = SudokuSpecifier { size: pt(2, 2), numbers: vec![], constraints: vec![] };
    assert_eq!(none_at_all.build_model().unwrap_err(), BuildError::EmptyValues);
}

#[test]
fn build_model_rejects_oversized_grids() {
    let spec = SudokuSpecifier {
        size: pt(0x10000, 0x10000),
        numbers: vec![pt(1, 9)],
        constraints: vec![],
    };
    assert_eq!(spec.build_model().unwrap_err(), BuildError::GridTooLarge);
    let negative = SudokuSpecifier { size: pt(-1, 3), numbers: vec![pt(1, 9)], constraints: vec![] };
    assert_eq!(negative.build_model().unwrap_err(), BuildError::GridTooLarge);
}

#[test]
fn build_model_rejects_degenerate_relationships() {
    let spec = SudokuSpecifier {
        size: pt(2, 2),
        numbers: vec![pt(1, 4)],
        constraints: vec![ConstraintSpecifier::Relationship {
            first: pt(0, 0),
            second: pt(0, 0),
            relationship: Relationship::Less,
        }],
    };
    assert_eq!(spec.build_model().unwrap_err(), BuildError::DegenerateRelationship);
}

#[test]
fn build_model_rejects_out_of_bounds_cells() {
    let spec = SudokuSpecifier {
        size: pt(2, 2),
        numbers: vec![pt(1, 4)],
        constraints: vec![ConstraintSpecifier::Property {
            region: RegionSpecifier::Many { cells: vec![pt(5, 0)] },
            property: Property::Even,
        }],
    };
    assert_eq!(spec.build_model().unwrap_err(), BuildError::OutOfBoundsCell);
}

#[test]
fn build_model_propagates_line_errors() {
    let degenerate = SudokuSpecifier {
        size: pt(3, 3),
        numbers: vec![pt(1, 3)],
        constraints: vec![ConstraintSpecifier::Unique {
            region: RegionSpecifier::Line { points: vec![pt(0, 0), pt(0, 0)] },
        }],
    };
    assert_eq!(degenerate.build_model().unwrap_err(), BuildError::DegenerateLine);
    let misaligned = SudokuSpecifier {
        size: pt(3, 3),
        numbers: vec![pt(1, 3)],
        constraints: vec![ConstraintSpecifier::Unique {
            region: RegionSpecifier::Line { points: vec![pt(0, 0), pt(1, 2)] },
        }],
    };
    assert_eq!(misaligned.build_model().unwrap_err(), BuildError::MisalignedLine);
}

#[test]
fn build_constraint_expands_regions() {
    let spec = ConstraintSpecifier::Killer {
        region: RegionSpecifier::Box { start: pt(0, 0), end: pt(1, 0) },
        sum: 5,
    };
    match spec.build_constraint().unwrap() {
        Constraint::Killer { region, sum } => {
            assert_eq!(sum, 5);
            assert_eq!(region.cells.len(), 2);
        }
        _ => panic!("wrong constraint variant"),
    }
}

#[test]
fn number_index_finds_each_admissible_value() {
    let spec = SudokuSpecifier { size: pt(1, 1), numbers: vec![pt(2, 4)], constraints: vec![] };
    let model = spec.build_model().unwrap();
    assert_eq!(model.number_index(2), Some(0));
    assert_eq!(model.number_index(3), Some(1));
    assert_eq!(model.number_index(4), Some(2));
    assert_eq!(model.number_index(5), None);
}

#[test]
fn precomputed_prefix_sums_are_exact() {
    let spec = SudokuSpecifier { size: pt(2, 2), numbers: vec![pt(1, 4)], constraints: vec![] };
    let model = spec.build_model().unwrap();
    let pre = Precomputed::new(&model);
    assert_eq!(pre.lowest_sums, vec![0, 1, 3, 6, 10]);
    assert_eq!(pre.highest_sums, vec![0, 4, 7, 9, 10]);
}

#[test]
fn model_from_example_builds() {
    let model: SudokuModel = sudoku_solver::example::test_model().build_model().unwrap();
    assert_eq!(model.numbers, vec![1, 2, 3, 4, 5, 6, 7, 8, 9]);
    assert_eq!(model.constraints.len(), 42);
}
