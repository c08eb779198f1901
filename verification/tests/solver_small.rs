use sudoku_solver::constraint::{Constraint, ConstraintSpecifier, Property, Relationship};
use sudoku_solver::model::SudokuSpecifier;
use sudoku_solver::region::RegionSpecifier;
use sudoku_solver::solver::solve;
use sudoku_solver::state::{empty_grid, Precomputed, PropagationResult, SolverState};
use sudoku_solver::vec2::Point;

fn pt(x: i32, y: i32) -> Point {
    Point { x, y }
}

fn value_at(state: &SolverState, x: i32, y: i32) -> i32 {
    state.grid[y as usize][x as usize].value.expect("cell should be committed")
}

#[test]
fn four_by_four_latin_square() {
    let mut constraints = Vec::new();
    for i in 0..4 {
        constraints.push(ConstraintSpecifier::Unique {
            region: RegionSpecifier::Box { start: pt(0, i), end: pt(3, i) },
        });
        constraints.push(ConstraintSpecifier::Unique {
            region: RegionSpecifier::Box { start: pt(i, 0), end: pt(i, 3) },
        });
    }
    let spec = SudokuSpecifier { size: pt(4, 4), numbers: vec![pt(1, 4)], constraints };
    let model = spec.build_model().unwrap();
    let (ok, state) = solve(&model);
    assert!(ok, "a latin square exists");
    for y in 0..4 {
        for x in 0..4 {
            let v = value_at(&state, x, y);
            assert!((1..=4).contains(&v));
            for x2 in 0..4 {
                if x2 != x {
                    assert_ne!(v, value_at(&state, x2, y));
                }
            }
            for y2 in 0..4 {
                if y2 != y {
                    assert_ne!(v, value_at(&state, x, y2));
                }
            }
        }
    }
}

#[test]
fn three_by_three_toy_with_even_diagonal() {
    let constraints = vec![
        ConstraintSpecifier::Unique {
            region: RegionSpecifier::Box { start: pt(0, 0), end: pt(2, 2) },
        },
        ConstraintSpecifier::Property {
            region: RegionSpecifier::Many { cells: vec![pt(0, 0), pt(1, 1), pt(2, 2)] },
            property: Property::Even,
        },
    ];
    let spec = SudokuSpecifier { size: pt(3, 3), numbers: vec![pt(1, 9)], constraints };
    let model = spec.build_model().unwrap();
    let (ok, state) = solve(&model);
    assert!(ok, "the toy puzzle has solutions");
    let mut seen = Vec::new();
    for y in 0..3 {
        for x in 0..3 {
            let v = value_at(&state, x, y);
            assert!(!seen.contains(&v));
            seen.push(v);
        }
    }
    for d in 0..3 {
        let v = value_at(&state, d, d);
        assert_eq!(v % 2, 0, "diagonal value {} should be even", v);
    }
}

#[test]
fn relationship_double_pins_the_second_cell() {
    let constraints = vec![
        ConstraintSpecifier::Relationship {
            first: pt(0, 0),
            second: pt(0, 1),
            relationship: Relationship::Double,
        },
        ConstraintSpecifier::Property {
            region: RegionSpecifier::Many { cells: vec![pt(0, 0)] },
            property: Property::Given(2),
        },
    ];
    let spec = SudokuSpecifier { size: pt(1, 2), numbers: vec![pt(1, 3)], constraints };
    let model = spec.build_model().unwrap();
    let (ok, state) = solve(&model);
    assert!(ok, "double relationship puzzle solves");
    assert_eq!(value_at(&state, 0, 0), 2);
    assert_eq!(value_at(&state, 0, 1), 1);
}

#[test]
fn contradictory_givens_report_no_solution() {
    let constraints = vec![
        ConstraintSpecifier::Property {
            region: RegionSpecifier::Many { cells: vec![pt(0, 0)] },
            property: Property::Given(1),
        },
        ConstraintSpecifier::Property {
            region: RegionSpecifier::Many { cells: vec![pt(0, 0)] },
            property: Property::Given(2),
        },
    ];
    let spec = SudokuSpecifier { size: pt(1, 1), numbers: vec![pt(1, 9)], constraints };
    let model = spec.build_model().unwrap();
    assert!(!solve(&model).0);
}

#[test]
fn full_length_thermometer_forces_the_value_list() {
    let constraints = vec![ConstraintSpecifier::Thermometer {
        line: sudoku_solver::region::LineSpecifier { points: vec![pt(0, 0), pt(3, 0)] },
    }];
    let spec = SudokuSpecifier { size: pt(4, 1), numbers: vec![pt(1, 4)], constraints };
    let model = spec.build_model().unwrap();
    let (ok, state) = solve(&model);
    assert!(ok, "the full thermometer solves");
    for x in 0..4 {
        assert_eq!(value_at(&state, x, 0), x + 1);
    }
}

#[test]
fn unreachable_killer_sum_is_detected_without_search() {
    let spec = SudokuSpecifier {
        size: pt(2, 1),
        numbers: vec![pt(1, 9)],
        constraints: vec![ConstraintSpecifier::Killer {
            region: RegionSpecifier::Box { start: pt(0, 0), end: pt(1, 0) },
            sum: 30,
        }],
    };
    let model = spec.build_model().unwrap();
    // One direct propagator call on the untouched starting state reports
    // the contradiction: 30 exceeds the sum of the two largest values.
    let precomputed = Precomputed::new(&model);
    let mut state = SolverState { grid: empty_grid(model.size, &model.numbers) };
    match &model.constraints[0] {
        Constraint::Killer { region, sum } => {
            let r = sudoku_solver::propagate::limit_killer_clue(
                &model,
                region,
                *sum,
                &precomputed,
                &mut state,
            );
            assert_eq!(r, PropagationResult::Contradiction);
        }
        _ => panic!("expected a killer constraint"),
    }
    assert!(!solve(&model).0);
}

#[test]
fn reachable_killer_sum_is_kept() {
    let spec = SudokuSpecifier {
        size: pt(2, 1),
        numbers: vec![pt(1, 9)],
        constraints: vec![ConstraintSpecifier::Killer {
            region: RegionSpecifier::Box { start: pt(0, 0), end: pt(1, 0) },
            sum: 17,
        }],
    };
    let model = spec.build_model().unwrap();
    let (ok, state) = solve(&model);
    assert!(ok, "a 17 cage over two cells solves");
    assert_eq!(value_at(&state, 0, 0) + value_at(&state, 1, 0), 17);
}

#[test]
fn arrow_pins_tail_to_cage_sum() {
    let constraints = vec![
        ConstraintSpecifier::Arrow {
            region: RegionSpecifier::Box { start: pt(0, 0), end: pt(1, 0) },
            tail: pt(2, 0),
        },
        ConstraintSpecifier::Property {
            region: RegionSpecifier::Many { cells: vec![pt(0, 0)] },
            property: Property::Given(3),
        },
        ConstraintSpecifier::Property {
            region: RegionSpecifier::Many { cells: vec![pt(1, 0)] },
            property: Property::Given(4),
        },
    ];
    let spec = SudokuSpecifier { size: pt(3, 1), numbers: vec![pt(1, 9)], constraints };
    let model = spec.build_model().unwrap();
    let (ok, state) = solve(&model);
    assert!(ok, "the arrow puzzle solves");
    assert_eq!(value_at(&state, 2, 0), 7);
}

#[test]
fn relationship_with_both_cells_open_is_not_a_contradiction() {
    // With neither cell committed the relationship gives no information;
    // the search still finds the unique increasing pair.
    let constraints = vec![ConstraintSpecifier::Relationship {
        first: pt(0, 0),
        second: pt(0, 1),
        relationship: Relationship::Less,
    }];
    let spec = SudokuSpecifier { size: pt(1, 2), numbers: vec![pt(1, 2)], constraints };
    let model = spec.build_model().unwrap();
    let (ok, state) = solve(&model);
    assert!(ok, "a decreasing pair exists");
    assert!(value_at(&state, 0, 1) < value_at(&state, 0, 0));
}

#[test]
fn relationship_greater_prunes_the_open_side() {
    // Greater keeps the second cell's value above the first's.
    let constraints = vec![
        ConstraintSpecifier::Relationship {
            first: pt(0, 0),
            second: pt(0, 1),
            relationship: Relationship::Greater,
        },
        ConstraintSpecifier::Property {
            region: RegionSpecifier::Many { cells: vec![pt(0, 0)] },
            property: Property::Given(1),
        },
    ];
    let spec = SudokuSpecifier { size: pt(1, 2), numbers: vec![pt(1, 2)], constraints };
    let model = spec.build_model().unwrap();
    let (ok, state) = solve(&model);
    assert!(ok, "second greater than first solves");
    assert_eq!(value_at(&state, 0, 0), 1);
    assert_eq!(value_at(&state, 0, 1), 2);
}

#[test]
fn relationship_consecutive_prunes_the_open_side() {
    let constraints = vec![
        ConstraintSpecifier::Relationship {
            first: pt(0, 0),
            second: pt(0, 1),
            relationship: Relationship::Consecutive,
        },
        ConstraintSpecifier::Property {
            region: RegionSpecifier::Many { cells: vec![pt(0, 0)] },
            property: Property::Given(5),
        },
        ConstraintSpecifier::Relationship {
            first: pt(0, 0),
            second: pt(0, 1),
            relationship: Relationship::Greater,
        },
    ];
    let spec = SudokuSpecifier { size: pt(1, 2), numbers: vec![pt(1, 9)], constraints };
    let model = spec.build_model().unwrap();
    let (ok, state) = solve(&model);
    assert!(ok, "a consecutive larger neighbour exists");
    assert_eq!(value_at(&state, 0, 1), 6);
}

#[test]
fn relationship_equal_and_not_equal() {
    let constraints = vec![
        ConstraintSpecifier::Relationship {
            first: pt(0, 0),
            second: pt(0, 1),
            relationship: Relationship::Equal,
        },
        ConstraintSpecifier::Relationship {
            first: pt(0, 1),
            second: pt(1, 0),
            relationship: Relationship::NotEqual,
        },
        ConstraintSpecifier::Property {
            region: RegionSpecifier::Many { cells: vec![pt(0, 0)] },
            property: Property::Given(1),
        },
    ];
    let spec = SudokuSpecifier { size: pt(2, 2), numbers: vec![pt(1, 2)], constraints };
    let model = spec.build_model().unwrap();
    let (ok, state) = solve(&model);
    assert!(ok, "equal then not-equal solves");
    assert_eq!(value_at(&state, 0, 1), 1);
    assert_eq!(value_at(&state, 0, 1 + 0), 1);
    assert_eq!(value_at(&state, 1, 0), 2);
}

#[test]
fn double_relationship_handles_negative_values() {
    let constraints = vec![
        ConstraintSpecifier::Relationship {
            first: pt(0, 0),
            second: pt(0, 1),
            relationship: Relationship::Double,
        },
        ConstraintSpecifier::Property {
            region: RegionSpecifier::Many { cells: vec![pt(0, 1)] },
            property: Property::Given(-1),
        },
    ];
    let spec = SudokuSpecifier { size: pt(1, 2), numbers: vec![pt(-2, -1)], constraints };
    let model = spec.build_model().unwrap();
    let (ok, state) = solve(&model);
    assert!(ok, "a doubled negative pair exists");
    assert_eq!(value_at(&state, 0, 0), -2);
}

#[test]
fn odd_property_prunes_candidates() {
    let constraints = vec![
        ConstraintSpecifier::Property {
            region: RegionSpecifier::Many { cells: vec![pt(0, 0)] },
            property: Property::Odd,
        },
        ConstraintSpecifier::Property {
            region: RegionSpecifier::Many { cells: vec![pt(0, 0)] },
            property: Property::Given(2),
        },
    ];
    let spec = SudokuSpecifier { size: pt(1, 1), numbers: vec![pt(1, 3)], constraints };
    let model = spec.build_model().unwrap();
    assert!(!solve(&model).0);
    let only_odd = SudokuSpecifier {
        size: pt(1, 1),
        numbers: vec![pt(2, 3)],
        constraints: vec![ConstraintSpecifier::Property {
            region: RegionSpecifier::Many { cells: vec![pt(0, 0)] },
            property: Property::Odd,
        }],
    };
    let model = only_odd.build_model().unwrap();
    let (ok, state) = solve(&model);
    assert!(ok, "an odd value exists");
    assert_eq!(value_at(&state, 0, 0), 3);
}

#[test]
fn killer_bounds_follow_the_prefix_sum_rule_on_negatives() {
    // The killer rule treats a committed sum above the target as a
    // contradiction, as the prefix-sum pruning assumes positive values;
    // with a negative admissible value the pair (5, -1) would reach the
    // target, but the rule prunes the branch first.
    let constraints = vec![
        ConstraintSpecifier::Killer {
            region: RegionSpecifier::Box { start: pt(0, 0), end: pt(1, 0) },
            sum: 4,
        },
        ConstraintSpecifier::Property {
            region: RegionSpecifier::Many { cells: vec![pt(0, 0)] },
            property: Property::Given(5),
        },
    ];
    let mut numbers = Vec::new();
    numbers.push(pt(-1, -1));
    numbers.push(pt(5, 5));
    let spec = SudokuSpecifier { size: pt(2, 1), numbers, constraints };
    let model = spec.build_model().unwrap();
    assert!(!solve(&model).0);
}
