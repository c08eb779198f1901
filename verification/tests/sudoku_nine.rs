use sudoku_solver::example::{killer_test_model, test_model};
use sudoku_solver::constraint::Constraint;
use sudoku_solver::model::SudokuModel;
use sudoku_solver::solver::solve;
use sudoku_solver::state::SolverState;

fn committed(state: &SolverState, x: usize, y: usize) -> i32 {
    state.grid[y][x].value.expect("cell should be committed")
}

fn check_standard_sudoku(state: &SolverState) {
    for y in 0..9 {
        for x in 0..9 {
            let v = committed(state, x, y);
            assert!((1..=9).contains(&v));
        }
    }
    for i in 0..9 {
        let mut row = [false; 10];
        let mut col = [false; 10];
        for j in 0..9 {
            let rv = committed(state, j, i) as usize;
            assert!(!row[rv], "duplicate in row {}", i);
            row[rv] = true;
            let cv = committed(state, i, j) as usize;
            assert!(!col[cv], "duplicate in column {}", i);
            col[cv] = true;
        }
    }
    for by in 0..3 {
        for bx in 0..3 {
            let mut seen = [false; 10];
            for dy in 0..3 {
                for dx in 0..3 {
                    let v = committed(state, bx * 3 + dx, by * 3 + dy) as usize;
                    assert!(!seen[v], "duplicate in box {},{}", bx, by);
                    seen[v] = true;
                }
            }
        }
    }
}

fn check_model_constraints(model: &SudokuModel, state: &SolverState) {
    for c in &model.constraints {
        match c {
            Constraint::Unique(region) => {
                for (i, p) in region.cells.iter().enumerate() {
                    for q in region.cells.iter().skip(i + 1) {
                        assert_ne!(
                            committed(state, p.x as usize, p.y as usize),
                            committed(state, q.x as usize, q.y as usize),
                        );
                    }
                }
            }
            Constraint::Thermometer(line) => {
                for w in line.cells.windows(2) {
                    assert!(
                        committed(state, w[0].x as usize, w[0].y as usize)
                            < committed(state, w[1].x as usize, w[1].y as usize)
                    );
                }
            }
            Constraint::Killer { region, sum } => {
                let total: i64 = region
                    .cells
                    .iter()
                    .map(|p| committed(state, p.x as usize, p.y as usize) as i64)
                    .sum();
                assert_eq!(total, *sum as i64);
            }
            Constraint::Arrow { region, tail } => {
                let total: i64 = region
                    .cells
                    .iter()
                    .map(|p| committed(state, p.x as usize, p.y as usize) as i64)
                    .sum();
                assert_eq!(total, committed(state, tail.x as usize, tail.y as usize) as i64);
            }
            Constraint::Relationship { .. } => {}
            Constraint::Property { region, property } => {
                for p in &region.cells {
                    let v = committed(state, p.x as usize, p.y as usize);
                    match property {
                        sudoku_solver::constraint::Property::Even => assert_eq!(v % 2, 0),
                        sudoku_solver::constraint::Property::Odd => assert_ne!(v % 2, 0),
                        sudoku_solver::constraint::Property::Given(g) => assert_eq!(v, *g),
                    }
                }
            }
        }
    }
}

#[test]
fn nine_by_nine_thermometer_sudoku_solves() {
    let model = test_model().build_model().unwrap();
    let (ok, state) = solve(&model);
    assert!(ok, "the thermometer sudoku has a solution");
    check_standard_sudoku(&state);
    check_model_constraints(&model, &state);
}

#[test]
fn nine_by_nine_killer_sudoku_solves() {
    let model = killer_test_model().build_model().unwrap();
    let (ok, state) = solve(&model);
    assert!(ok, "the killer sudoku has a solution");
    check_standard_sudoku(&state);
    check_model_constraints(&model, &state);
}
