use dungeon::input::{sleep_ticks, SleepForTick};
use dungeon::pos::Pos;
use dungeon::rand::RandomGenerator;
use dungeon::rational::{gcd, Rational};
use dungeon::text::TextCacheKey;
use dungeon::tile_map::Room;
use dungeon::tiles::{generate_draw_tile, DrawTile, Environment, LogicTile};

#[test]
fn handle_back_and_forth() {
    let key = TextCacheKey { hash_code: 124414, total_length: u32::MAX as _ };
    let handle = key.to_handle();
    let new_key = TextCacheKey::from_handle(handle);
    assert_eq!(key, new_key);
}

#[test]
fn test_size_assumption() {}

#[test]
fn room_test() {
    let r = Room { x: 0, y: 0, w: 5, h: 3 };
    assert_eq!(15, r.tile_count());
    assert_eq!(Pos::new(0, 0), r.tile_pos(0));
    assert_eq!(Pos::new(3, 0), r.tile_pos(3));
    assert_eq!(Pos::new(4, 2), r.tile_pos(14));
    assert_eq!(Pos::new(2, 1), r.pos());
}

#[test]
fn rational_normal_form() {
    let r = Rational::new(4, -6);
    assert_eq!((r.nr, r.denom), (-2, 3));
    let z = Rational::new(0, -5);
    assert_eq!((z.nr, z.denom), (0, 1));
    assert_eq!(gcd(12, 18), 6);
    assert_eq!(Rational::new(-7, 2).floor(), -4);
    assert_eq!(Rational::new(-7, 2).ceil(), -3);
    assert_eq!(Rational::new(7, 2).floor(), 3);
    assert_eq!(Rational::new(7, 2).ceil(), 4);
    let s = Rational::new(1, 2).add(Rational::new(1, 3));
    assert_eq!((s.nr, s.denom), (5, 6));
    let d = Rational::new(1, 2).sub(Rational::new(1, 3));
    assert_eq!((d.nr, d.denom), (1, 6));
    let m = Rational::new(2, 3).mul(Rational::new(3, 4));
    assert_eq!((m.nr, m.denom), (1, 2));
    assert!(Rational::new(1, 3).le(&Rational::new(1, 2)));
    assert!(!Rational::new(1, 2).le(&Rational::new(1, 3)));
    assert!(Rational::new(2, 4).eq(&Rational::new(1, 2)));
}

#[test]
fn random_generator_is_a_fixed_lcg() {
    let mut a = RandomGenerator::new(12345);
    let mut b = RandomGenerator::new(12345);
    let x = a.next();
    assert_eq!(x, b.next());
    let expected = 6364136223846793005u64.wrapping_mul(12345).wrapping_add(1442695040888963407) >> 5;
    assert_eq!(x, expected);
    for _ in 0..100 {
        let v = a.next_in_range(3, 7);
        assert!((3..7).contains(&v));
    }
    assert_eq!(a.next_in_range(5, 5), 5);
    let d = a.random_direction();
    assert!(d.0.abs() <= 1 && d.1.abs() <= 1);
    let p = a.pick_random(&[7, 8, 9]);
    assert!([7, 8, 9].contains(&p));
}

#[test]
fn positions_and_lines() {
    let a = Pos::new(1, 1);
    let b = Pos::new(4, 3);
    assert_eq!(a.distance_manhattan(b), 5);
    assert_eq!(a.distance(b), 3);
    let line = a.bresenham(b);
    assert_eq!(line, vec![Pos::new(1, 1), Pos::new(2, 2), Pos::new(3, 2), Pos::new(4, 3)]);
    let back = b.bresenham(a);
    assert_eq!(back.first(), Some(&b));
    assert_eq!(back.last(), Some(&a));
    assert_eq!(back.len(), 4);
    let ring = Pos::new(0, 0).circle_around(2);
    assert_eq!(ring.len(), 16);
    assert!(ring.iter().all(|p| Pos::new(0, 0).distance(*p) == 2));
}

#[test]
fn draw_tiles_and_sleeping() {
    assert_eq!(generate_draw_tile(LogicTile::Wall, Environment::Catacomb, LogicTile::Wall), DrawTile::SkullWallTop);
    assert_eq!(generate_draw_tile(LogicTile::Wall, Environment::Catacomb, LogicTile::Floor), DrawTile::SkullWallBot);
    assert_eq!(generate_draw_tile(LogicTile::Floor, Environment::Catacomb, LogicTile::Wall), DrawTile::GrayFloor);
    let mut s: SleepForTick = sleep_ticks(2);
    assert!(!s.poll_tick());
    assert!(!s.poll_tick());
    assert!(s.poll_tick());
}
