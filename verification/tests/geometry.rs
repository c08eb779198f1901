use sudoku_solver::vec2::Point;
use sudoku_solver::BuildError;

#[test]
fn point_constructors_and_directions() {
    assert_eq!(Point::new(3, -2), Point { x: 3, y: -2 });
    assert_eq!(Point::zero(), Point { x: 0, y: 0 });
    assert_eq!(Point::one(), Point { x: 1, y: 1 });
    assert_eq!(Point::up(), Point { x: 0, y: -1 });
    assert_eq!(Point::down(), Point { x: 0, y: 1 });
    assert_eq!(Point::left(), Point { x: -1, y: 0 });
    assert_eq!(Point::right(), Point { x: 1, y: 0 });
}

#[test]
fn point_arithmetic() {
    let a = Point::new(2, 3);
    let b = Point::new(-1, 4);
    assert_eq!(a.add(b), Point { x: 1, y: 7 });
    assert_eq!(a.sub(b), Point { x: 3, y: -1 });
    assert_eq!(a.mul(3), Point { x: 6, y: 9 });
    assert_eq!(Point::new(6, 9).div(3), Point { x: 2, y: 3 });
    assert_eq!(Point::new(-7, 7).div(2), Point { x: -3, y: 3 });
    assert_eq!(Point::new(7, -7).div(-2), Point { x: -3, y: 3 });
}

#[test]
fn point_conversions() {
    let p = Point::new(5, 7);
    assert_eq!(p.convert(), (5i64, 7i64));
    assert_eq!(Point::convert_from((5i64, 7i64)), p);
    assert_eq!(p.try_convert(), Some((5usize, 7usize)));
    assert_eq!(Point::new(-1, 0).try_convert(), None);
    assert_eq!(Point::try_convert_from((5usize, 7usize)), Some(p));
    assert_eq!(Point::try_convert_from((usize::MAX, 0)), None);
}

#[test]
fn point_indexing() {
    assert_eq!(Point::from_index(11, 4), Point { x: 3, y: 2 });
    assert_eq!(Point::new(3, 2).to_index(4), 11);
}

#[test]
fn box_enumeration_row_major() {
    let cells = Point::loop_box(&Point::new(0, 0), &Point::new(1, 1));
    assert_eq!(
        cells,
        vec![
            Point { x: 0, y: 0 },
            Point { x: 1, y: 0 },
            Point { x: 0, y: 1 },
            Point { x: 1, y: 1 },
        ]
    );
}

#[test]
fn box_enumeration_normalizes_corners() {
    let a = Point::loop_box(&Point::new(2, 3), &Point::new(0, 1));
    let b = Point::loop_box(&Point::new(0, 1), &Point::new(2, 3));
    assert_eq!(a, b);
    assert_eq!(a.len(), 9);
}

#[test]
fn line_enumeration_diagonal() {
    let cells = Point::loop_line(&Point::new(0, 0), &Point::new(2, 2), true).unwrap();
    assert_eq!(
        cells,
        vec![Point { x: 0, y: 0 }, Point { x: 1, y: 1 }, Point { x: 2, y: 2 }]
    );
    let open = Point::loop_line(&Point::new(0, 0), &Point::new(2, 2), false).unwrap();
    assert_eq!(open.len(), 2);
}

#[test]
fn line_enumeration_errors() {
    assert_eq!(
        Point::loop_line(&Point::new(1, 1), &Point::new(1, 1), true),
        Err(BuildError::DegenerateLine)
    );
    assert_eq!(
        Point::loop_line(&Point::new(0, 0), &Point::new(1, 2), true),
        Err(BuildError::MisalignedLine)
    );
}
