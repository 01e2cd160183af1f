use dungeon::grids::Grid;
use dungeon::pos::Pos;

#[test]
fn test_stuff() {
    let mut grid = Grid::new(3, 2, 0);
    *grid.get_mut(0, 1) = 5;

    assert_eq!(*grid.get(Pos::new(1, 0).x, Pos::new(1, 0).y), 0);

    assert_eq!(grid.into_iter_values(), vec![0, 0, 0, 5, 0, 0]);
}

#[test]
fn readme_test() {
    let mut grid = Grid::new(3, 2, 0); // A 3x2 grid filled with zeros.
    *grid.get_mut(0, 1) = 5;

    // Accessing using Pos.
    assert_eq!(grid.get_opt(Pos::new(1, 0)), Some(&0));

    // Converting grid to a Vec.
    assert_eq!(grid.into_iter_values(), vec![0, 0, 0, 5, 0, 0]);
}

#[test]
fn test_row_iter_empty_grid() {
    let grid: Grid<i32> = Grid::new(0, 0, 0);
    let mut row_iter = grid.row_iter().into_iter();

    assert!(row_iter.next().is_none());
}

#[test]
fn test_row_iter_single_row() {
    let grid = Grid::new(3, 1, 42);
    let mut row_iter = grid.row_iter().into_iter();

    if let Some(row) = row_iter.next() {
        assert_eq!(row, vec![42, 42, 42]);
    } else {
        panic!("Expected one row, but got none");
    }

    assert!(row_iter.next().is_none());
}

#[test]
fn test_row_iter_multiple_rows() {
    let grid = Grid::filled_with(3, 3, |x, y| x + y);
    let mut row_iter = grid.row_iter().into_iter();

    let expected_rows = vec![vec![0, 1, 2], vec![1, 2, 3], vec![2, 3, 4]];

    for (i, expected_row) in expected_rows.iter().enumerate() {
        if let Some(row) = row_iter.next() {
            assert_eq!(&row, expected_row, "Row {} did not match", i);
        } else {
            panic!("Expected more rows, but got none");
        }
    }

    assert!(row_iter.next().is_none(), "Expected no more rows");
}

#[test]
fn test_grid_mul() {
    let mut mask_grid = Grid::filled_with(3, 3, |x, y| if y > 0 { 0 } else { x + 9 });
    let mut value_grid = Grid::filled_with(3, 3, |x, y| x + y);

    mask_grid.clamp_values(0, 1);
    let result = value_grid.mul(&mask_grid);

    let expected_data = vec![
        0, 1, 2, //
        0, 0, 0, //
        0, 0, 0,
    ];

    assert_eq!(expected_data, result.data);

    // test inplace multiplication too
    assert_ne!(expected_data, value_grid.data);
    value_grid.mul_inplace(&mask_grid);
    assert_eq!(expected_data, value_grid.data);

    // scalar multiplication
    let doubled = value_grid.mul_scalar(2);
    assert_eq!(4, *doubled.get(2, 0));
}

#[test]
fn test_grid_add() {
    let mut a = Grid::new(3, 3, 1);
    let b = Grid::new(3, 3, 2);
    let c = a.add(&b);
    assert_eq!(3, *c.get(2, 2));

    // inplace
    a.add_inplace(&b);
    assert_eq!(3, *a.get(2, 2));
}

#[test]
fn grid_clamped_access_stays_inside() {
    let grid = Grid::filled_with(4, 3, |x, y| x * 10 + y);
    assert_eq!(*grid.get_clamped(-5, 1), 1);
    assert_eq!(*grid.get_clamped(9, 9), 32);
    assert_eq!(*grid.get_clamped_v(Pos::new(2, -1)), 20);
    assert_eq!(grid.get_opt(Pos::new(4, 0)), None);
    assert!(grid.is_valid(Pos::new(3, 2)));
    assert!(!grid.is_valid(Pos::new(3, 3)));
}

#[test]
fn grid_fill_and_iterate_rect() {
    let mut grid = Grid::new(4, 4, 0);
    grid.fill_rect(Pos::new(1, 1), Pos::new(3, 3), 7);
    assert_eq!(grid.data, vec![0, 0, 0, 0, 0, 7, 7, 0, 0, 7, 7, 0, 0, 0, 0, 0]);
    let cells = grid.iter_rect(Pos::new(1, 1), Pos::new(3, 2));
    assert_eq!(cells, vec![(1, 1, 7), (2, 1, 7)]);
    let coords = grid.coords();
    assert_eq!(coords[5], Pos::new(1, 1));
    assert_eq!(grid.iter()[6], (2, 1, 7));
    assert_eq!(grid.iter_coords()[10], (Pos::new(2, 2), 7));
    assert_eq!(grid.len(), 16);
    assert!(!grid.is_empty());
}
