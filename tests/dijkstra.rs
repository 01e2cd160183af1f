use dungeon::dijkstra::{dijkstra, dijkstra_path, get_neighbors};
use dungeon::grids::Grid;
use dungeon::pos::Pos;

#[test]
fn get_neighbors_test() {
    let grid = Grid::new(10, 10, 0);
    let neighbors = get_neighbors(Pos::new(1, 1), &grid);
    assert_eq!(8, neighbors.len());
    assert!(neighbors.contains(&Pos::new(0, 1)));
    assert!(neighbors.contains(&Pos::new(2, 1)));
    assert!(neighbors.contains(&Pos::new(1, 0)));
    assert!(neighbors.contains(&Pos::new(1, 2)));

    let neighbors = get_neighbors(Pos::new(0, 0), &grid);
    assert_eq!(3, neighbors.len());
    assert!(neighbors.contains(&Pos::new(0, 1)));
    assert!(neighbors.contains(&Pos::new(1, 0)));
    assert!(neighbors.contains(&Pos::new(1, 1)));
}

#[test]
fn dijkstra_map_test() {
    // basic
    let mut grid = Grid::new(10, 10, 0);
    let pos = Pos::new(5, 5);
    *grid.get_clamped_mut(pos.x, pos.y) = 5;
    dijkstra(&mut grid, &[pos], |_| 1);
    assert_eq!(2, *grid.get(2, 5));

    // higher cost
    let mut grid = Grid::new(10, 10, 0);
    let pos = Pos::new(5, 5);
    *grid.get_clamped_mut(pos.x, pos.y) = 5;
    dijkstra(&mut grid, &[pos], |_| 2);
    assert_eq!(0, *grid.get(2, 5));
    assert_eq!(1, *grid.get(3, 5));

    // multiple seeds
    let mut grid = Grid::new(10, 10, 0);
    let pos = Pos::new(5, 5);
    *grid.get_clamped_mut(pos.x, pos.y) = 5;
    let pos2 = Pos::new(1, 4);
    *grid.get_clamped_mut(pos2.x, pos2.y) = 5;
    dijkstra(&mut grid, &[pos, pos2], |_| 1);
    assert_eq!(4, *grid.get(2, 5));
    assert_eq!(3, *grid.get(3, 5));
}

#[test]
fn dijkstra_two_steps_from_seed_of_five() {
    let mut grid = Grid::new(9, 9, 0);
    *grid.get_mut(4, 4) = 5;
    dijkstra(&mut grid, &[Pos::new(4, 4)], |_| 1);
    assert_eq!(3, *grid.get(6, 4));
    assert_eq!(3, *grid.get(2, 2));
    assert_eq!(4, *grid.get(5, 5));
    assert_eq!(1, *grid.get(0, 0));
    assert_eq!(1, *grid.get(8, 8));
    // a neighbour never outweighs a cell by more than the cell's cost
    for y in 0..9 {
        for x in 0..9 {
            for n in get_neighbors(Pos::new(x, y), &grid) {
                assert!(*grid.get(n.x, n.y) <= *grid.get(x, y) + 1);
            }
        }
    }
}

#[test]
fn dijkstra_walls_keep_their_value() {
    let mut grid = Grid::new(5, 1, 0);
    *grid.get_mut(0, 0) = 10;
    dijkstra(&mut grid, &[Pos::new(0, 0)], |p: Pos| if p.x == 2 { i32::MAX } else { 1 });
    assert_eq!(*grid.get(1, 0), 9);
    assert_eq!(*grid.get(2, 0), 0);
    assert_eq!(*grid.get(3, 0), 0);
}

#[test]
fn dijkstra_path_climbs_to_the_maximum() {
    let mut grid = Grid::new(10, 10, 0);
    *grid.get_mut(5, 5) = 9;
    dijkstra(&mut grid, &[Pos::new(5, 5)], |_| 1);
    let path = dijkstra_path(&grid, Pos::new(1, 5));
    assert_eq!(path.first(), Some(&Pos::new(1, 5)));
    assert_eq!(path.last(), Some(&Pos::new(5, 5)));
    for w in path.windows(2) {
        assert!(grid.get(w[1].x, w[1].y) > grid.get(w[0].x, w[0].y));
    }
    // the top row is inside the grid too
    let top = dijkstra_path(&grid, Pos::new(5, 0));
    assert_eq!(top.first(), Some(&Pos::new(5, 0)));
    assert_eq!(top.last(), Some(&Pos::new(5, 5)));
    // outside the grid or on non-positive values there is no path
    assert!(dijkstra_path(&grid, Pos::new(-1, 3)).is_empty());
    let zero = Grid::new(4, 4, 0);
    assert!(dijkstra_path(&zero, Pos::new(1, 1)).is_empty());
}
