use mazegen::matrix::Matrix;

#[test]
fn at_out_of_bounds() {
    let width: usize = 3;
    let height: usize = 3;

    let maze = Matrix::new(width, height, 0);
    assert_eq!(maze.at(2, 4), None);
    assert_eq!(maze.at(0, 4), None);
    assert_eq!(maze.at(5, 4), None);
    assert_eq!(maze.at(5, 2), None);
}

#[test]
fn at_in_of_bounds() {
    let width: usize = 3;
    let height: usize = 3;

    let maze = Matrix::new(width, height, 0);
    assert_eq!(maze.at(0, 0), Some(0));
    assert_eq!(maze.at(1, 1), Some(0));
}

#[test]
fn new_fills_every_cell() {
    let grid = Matrix::new(4, 7, 9u8);
    assert_eq!(grid.row_count(), 4);
    assert_eq!(grid.col_count(), 7);
    for i in 0..4 {
        for j in 0..7 {
            assert_eq!(grid.at(i, j), Some(9));
        }
    }
    assert_eq!(grid.at(4, 0), None);
    assert_eq!(grid.at(0, 7), None);
}

#[test]
fn in_bounds_knows_the_edges() {
    let grid = Matrix::new(2, 5, false);
    assert!(grid.in_bounds(0, 0));
    assert!(grid.in_bounds(1, 4));
    assert!(!grid.in_bounds(2, 0));
    assert!(!grid.in_bounds(0, 5));
    assert!(!grid.in_bounds(2, 5));
    assert!(!grid.in_bounds(usize::MAX, usize::MAX));
}

#[test]
fn update_changes_one_cell() {
    let mut grid = Matrix::new(3, 4, 0u32);
    assert!(grid.update(1, 2, 5));
    for i in 0..3 {
        for j in 0..4 {
            let expected = if (i, j) == (1, 2) { 5 } else { 0 };
            assert_eq!(grid.at(i, j), Some(expected));
        }
    }
    assert!(grid.update(1, 2, 6));
    assert_eq!(grid.at(1, 2), Some(6));
    // row-major: the last cell of a row is not the first of the next
    assert!(grid.update(0, 3, 7));
    assert_eq!(grid.at(0, 3), Some(7));
    assert_eq!(grid.at(1, 0), Some(0));
}

#[test]
fn update_out_of_bounds_changes_nothing() {
    let mut grid = Matrix::new(3, 4, 1u8);
    assert!(!grid.update(3, 0, 0));
    assert!(!grid.update(0, 4, 0));
    assert!(!grid.update(7, 9, 0));
    for i in 0..3 {
        for j in 0..4 {
            assert_eq!(grid.at(i, j), Some(1));
        }
    }
}

#[test]
fn empty_grid_has_no_cell() {
    let mut grid = Matrix::new(0, 5, 1u8);
    assert!(!grid.in_bounds(0, 0));
    assert_eq!(grid.at(0, 0), None);
    assert!(!grid.update(0, 0, 2));

    let grid = Matrix::new(5, 0, 1u8);
    assert_eq!(grid.at(0, 0), None);
}
