use dungeon::pos::Pos;
use dungeon::shadowcasting::compute_fov;

fn inside_map<T>(pos: Pos, map: &Vec<Vec<T>>) -> bool {
    pos.y >= 0 && pos.x >= 0 && (pos.y as usize) < map.len() && (pos.x as usize) < map[0].len()
}

fn visible_of(origin: (i32, i32), tiles: &Vec<Vec<usize>>) -> Vec<Pos> {
    let is_blocking = |pos: Pos| !inside_map(pos, tiles) || tiles[pos.y as usize][pos.x as usize] == 1;
    let mut visible = Vec::new();
    for pos in compute_fov(Pos::new(origin.0, origin.1), 8, &is_blocking) {
        if inside_map(pos, tiles) && !visible.contains(&pos) {
            visible.push(pos);
        }
    }
    visible
}

fn matching_visible(expected: Vec<Vec<usize>>, visible: Vec<Pos>) {
    for y in 0..expected.len() {
        for x in 0..expected[0].len() {
            assert_eq!(expected[y][x] == 1, visible.contains(&Pos::new(x as i32, y as i32)));
        }
    }
}

#[test]
fn test_expansive_walls() {
    let tiles = vec![
        vec![1, 1, 1, 1, 1, 1, 1],
        vec![1, 0, 0, 0, 0, 0, 1],
        vec![1, 0, 0, 0, 0, 0, 1],
        vec![1, 1, 1, 1, 1, 1, 1],
    ];
    let visible = visible_of((1, 2), &tiles);
    let expected = vec![
        vec![1, 1, 1, 1, 1, 1, 1],
        vec![1, 1, 1, 1, 1, 1, 1],
        vec![1, 1, 1, 1, 1, 1, 1],
        vec![1, 1, 1, 1, 1, 1, 1],
    ];
    matching_visible(expected, visible);
}

#[test]
fn test_expanding_shadows() {
    let tiles = vec![
        vec![0, 0, 0, 0, 0, 0, 0],
        vec![0, 1, 0, 0, 0, 0, 0],
        vec![0, 0, 0, 0, 0, 0, 0],
        vec![0, 0, 0, 0, 0, 0, 0],
        vec![0, 0, 0, 0, 0, 0, 0],
    ];
    let visible = visible_of((0, 0), &tiles);
    let expected = vec![
        vec![1, 1, 1, 1, 1, 1, 1],
        vec![1, 1, 1, 1, 1, 1, 1],
        vec![1, 1, 0, 0, 1, 1, 1],
        vec![1, 1, 0, 0, 0, 0, 1],
        vec![1, 1, 1, 0, 0, 0, 0],
    ];
    matching_visible(expected, visible);
}

#[test]
fn test_no_blind_corners() {
    let tiles = vec![
        vec![0, 0, 0, 0, 0, 0, 0],
        vec![1, 1, 1, 1, 0, 0, 0],
        vec![0, 0, 0, 1, 0, 0, 0],
        vec![0, 0, 0, 1, 0, 0, 0],
    ];
    let visible = visible_of((3, 0), &tiles);
    let expected = vec![
        vec![1, 1, 1, 1, 1, 1, 1],
        vec![1, 1, 1, 1, 1, 1, 1],
        vec![0, 0, 0, 0, 1, 1, 1],
        vec![0, 0, 0, 0, 0, 1, 1],
    ];
    matching_visible(expected, visible);
}

#[test]
fn fov_is_symmetric_on_open_points() {
    let tiles = vec![
        vec![1, 1, 1, 1, 1, 1, 1, 1],
        vec![1, 0, 0, 0, 0, 0, 0, 1],
        vec![1, 0, 0, 1, 0, 0, 0, 1],
        vec![1, 0, 0, 0, 0, 1, 0, 1],
        vec![1, 0, 0, 0, 0, 0, 0, 1],
        vec![1, 1, 1, 1, 1, 1, 1, 1],
    ];
    let open: Vec<(i32, i32)> = (0..6)
        .flat_map(|y| (0..8).map(move |x| (x, y)))
        .filter(|&(x, y)| tiles[y as usize][x as usize] == 0)
        .collect();
    for &a in &open {
        let from_a = visible_of(a, &tiles);
        for &b in &open {
            let from_b = visible_of(b, &tiles);
            assert_eq!(
                from_a.contains(&Pos::new(b.0, b.1)),
                from_b.contains(&Pos::new(a.0, a.1)),
                "{:?} {:?}",
                a,
                b
            );
        }
    }
}
