use vstd::prelude::*;

use crate::pos::{abs, chebyshev, Pos};
use crate::rational::{lemma_normal_small, normal, Rational};

verus! {

/// The largest scan radius: it keeps every slope computation inside 32 bits.
pub const MAX_FOV_RADIUS: i32 = 10000;

#[derive(Copy, Clone, Eq, PartialEq, Structural, Debug)]
enum Cardinal {
    North,
    East,
    South,
    West,
}

impl Cardinal {
    fn from_index(index: usize) -> (r: Cardinal)
        requires
            index < 4,
        ensures
            index == 0 ==> r == Cardinal::North,
            index == 1 ==> r == Cardinal::East,
            index == 2 ==> r == Cardinal::South,
            index == 3 ==> r == Cardinal::West,
    {
        if index == 0 {
            Cardinal::North
        } else if index == 1 {
            Cardinal::East
        } else if index == 2 {
            Cardinal::South
        } else {
            Cardinal::West
        }
    }
}

#[derive(Copy, Clone, Eq, PartialEq, Structural, Debug)]
struct Quadrant {
    cardinal: Cardinal,
    ox: i32,
    oy: i32,
}

/// Where the tile at (`depth`, `col`) of a quadrant lies on the map.
spec fn transformed(q: Quadrant, depth: int, col: int) -> (int, int) {
    match q.cardinal {
        Cardinal::North => (q.ox + col, q.oy - depth),
        Cardinal::South => (q.ox + col, q.oy + depth),
        Cardinal::East => (q.ox + depth, q.oy + col),
        Cardinal::West => (q.ox - depth, q.oy + col),
    }
}

/// The origin lies far enough from the edges of `i32` that every tile within
/// `radius + 1` of it can be addressed.
pub open spec fn origin_in_range(origin: Pos, radius: int) -> bool {
    &&& i32::MIN + radius + 2 <= origin.x <= i32::MAX - radius - 2
    &&& i32::MIN + radius + 2 <= origin.y <= i32::MAX - radius - 2
}

impl Quadrant {
    fn new(cardinal: Cardinal, origin: Pos) -> (r: Quadrant)
        ensures
            r.cardinal == cardinal,
            r.ox == origin.x,
            r.oy == origin.y,
    {
        Quadrant { cardinal, ox: origin.x, oy: origin.y }
    }

    /// Maps a tile given as (depth, column) to a map position.
    fn transform(&self, tile: Pos) -> (r: Pos)
        requires
            origin_in_range(Pos { x: self.ox, y: self.oy }, MAX_FOV_RADIUS as int),
            0 <= tile.x <= MAX_FOV_RADIUS + 1,
            abs(tile.y as int) <= tile.x,
        ensures
            (r.x as int, r.y as int) == transformed(*self, tile.x as int, tile.y as int),
            chebyshev(Pos { x: self.ox, y: self.oy }, r) == tile.x,
    {
        let row = tile.x;
        let col = tile.y;
        match self.cardinal {
            Cardinal::North => Pos::new(self.ox + col, self.oy - row),
            Cardinal::South => Pos::new(self.ox + col, self.oy + row),
            Cardinal::East => Pos::new(self.ox + row, self.oy + col),
            Cardinal::West => Pos::new(self.ox - row, self.oy + col),
        }
    }
}

#[derive(Copy, Clone, Debug)]
struct Row {
    depth: i32,
    start_slope: Rational,
    end_slope: Rational,
}

/// A slope whose parts stay small relative to the depth of the row it belongs to.
spec fn slope_ok(s: Rational, depth: int) -> bool {
    &&& s.wf()
    &&& s.denom <= 2 * depth
    &&& abs(s.nr as int) <= 2 * depth + 1
}

/// The first column of a row: the start slope rounded, halves upwards.
spec fn row_lo(row: Row) -> int {
    let n = normal(row.depth * row.start_slope.nr, row.start_slope.denom as int);
    let lo = normal(2 * n.nr + n.denom, 2 * n.denom).floor_of();
    if lo < -row.depth { -row.depth as int } else { lo }
}

/// The last column of a row: the end slope rounded, halves downwards.
spec fn row_hi(row: Row) -> int {
    let m = normal(row.depth * row.end_slope.nr, row.end_slope.denom as int);
    let hi = normal(2 * m.nr - m.denom, 2 * m.denom).ceil_of();
    if hi > row.depth { row.depth as int } else { hi }
}

/// The row every quadrant starts with.
spec fn first_row(row: Row) -> bool {
    &&& row.depth == 1
    &&& row.start_slope == (Rational { nr: -1i32, denom: 1 })
    &&& row.end_slope == (Rational { nr: 1, denom: 1 })
}

/// The map position of the tile at (`depth`, `col`) of a quadrant.
spec fn tpos(q: Quadrant, depth: int, col: int) -> Pos {
    Pos { x: transformed(q, depth, col).0 as i32, y: transformed(q, depth, col).1 as i32 }
}

/// The quadrant of the `i`-th cardinal direction around `origin`.
spec fn quad(i: int, origin: Pos) -> Quadrant {
    Quadrant {
        cardinal: if i == 0 { Cardinal::North } else if i == 1 { Cardinal::East } else if i == 2 { Cardinal::South } else { Cardinal::West },
        ox: origin.x,
        oy: origin.y,
    }
}

/// With depth 1, the start slope `s` lies at or below column `c`.
spec fn start_below(s: Rational, c: int) -> bool {
    normal(1 * s.nr, s.denom as int).value_le(Rational { nr: c as i32, denom: 1 })
}

proof fn lemma_first_row(row: Row)
    requires
        first_row(row),
    ensures
        row_lo(row) == -1,
        row_hi(row) == 1,
{
    lemma_normal_small(-1);
    lemma_normal_small(1);
    assert(normal(-1, 1) == (Rational { nr: -1i32, denom: 1 }));
    assert(normal(-1, 2) == (Rational { nr: -1i32, denom: 2 }));
    assert(-1int / 2 == -1);
    assert(normal(1, 1) == (Rational { nr: 1i32, denom: 1 }));
    assert(normal(1, 2) == (Rational { nr: 1i32, denom: 2 }));
    assert((1 + 2 - 1) / 2int == 1);
}

/// After a wall, the start slope moves to the near edge of column `c`, which
/// lies below every later column.
proof fn lemma_new_start_below(c: int, ck: int)
    requires
        -1 <= c <= 1,
        c < ck <= 2,
    ensures
        start_below(normal(2 * c - 1, 2), ck),
{
    let s = normal(2 * c - 1, 2);
    crate::rational::lemma_normal(2 * c - 1, 2);
    crate::rational::lemma_normal(s.nr as int, s.denom as int);
    let n2 = normal(1 * s.nr, s.denom as int);
    assert(ck as i32 as int == ck);
    assert(n2.nr <= ck * n2.denom) by (nonlinear_arith)
        requires
            n2.nr * s.denom == s.nr * n2.denom,
            s.nr * 2 == (2 * c - 1) * s.denom,
            s.denom > 0,
            n2.denom > 0,
            c < ck,
    ;
}

spec fn row_ok(row: Row) -> bool {
    &&& 1 <= row.depth <= MAX_FOV_RADIUS + 1
    &&& slope_ok(row.start_slope, row.depth as int)
    &&& slope_ok(row.end_slope, row.depth as int)
}

impl Row {
    fn new(depth: i32, start_slope: Rational, end_slope: Rational) -> (r: Row)
        ensures
            r.depth == depth,
            r.start_slope == start_slope,
            r.end_slope == end_slope,
    {
        Row { depth, start_slope, end_slope }
    }

    /// `depth * slope`, exactly.
    fn scaled(&self, slope: Rational) -> (r: Rational)
        requires
            1 <= self.depth <= MAX_FOV_RADIUS + 1,
            slope_ok(slope, self.depth as int),
        ensures
            r == normal(self.depth * slope.nr, slope.denom as int),
            r.wf(),
            abs(r.nr as int) <= 0x1000_0000,
            r.denom <= 0x1000_0000,
    {
        let d = Rational::new(self.depth, 1);
        proof {
            let dd = self.depth as int;
            let sn = slope.nr as int;
            assert(-(10001 * 20003) <= dd * sn <= 10001 * 20003) by (nonlinear_arith)
                requires
                    1 <= dd <= 10001,
                    -(2 * dd + 1) <= sn <= 2 * dd + 1,
            ;
            lemma_normal_small(self.depth as int);
        }
        d.mul(slope)
    }

    /// The columns of this row, from `min_col` to `max_col`: the rounded
    /// slopes, kept inside the octant.
    fn tiles(&self) -> (r: Vec<Pos>)
        requires
            row_ok(*self),
        ensures
            forall|i: int|
                0 <= i < r@.len() ==> (#[trigger] r@[i]).x == self.depth && abs(r@[i].y as int) <= self.depth,
            r@.len() == if row_hi(*self) >= row_lo(*self) { row_hi(*self) - row_lo(*self) + 1 } else { 0 },
            forall|i: int| 0 <= i < r@.len() ==> (#[trigger] r@[i]).y == row_lo(*self) + i,
    {
        let depth_times_start = self.scaled(self.start_slope);
        let depth_times_end = self.scaled(self.end_slope);
        let mut min_col = round_ties_up(depth_times_start);
        let mut max_col = round_ties_down(depth_times_end);
        // a row never reaches past the diagonals of its octant
        if min_col < -self.depth {
            min_col = -self.depth;
        }
        if max_col > self.depth {
            max_col = self.depth;
        }
        let mut r: Vec<Pos> = Vec::new();
        if min_col > max_col {
            return r;
        }
        let mut col = min_col;
        while col <= max_col
            invariant
                -self.depth <= min_col <= col,
                max_col <= self.depth,
                self.depth <= MAX_FOV_RADIUS + 1,
                col <= max_col + 1,
                forall|i: int|
                    0 <= i < r@.len() ==> (#[trigger] r@[i]).x == self.depth && abs(r@[i].y as int) <= self.depth,
                min_col == row_lo(*self),
                max_col == row_hi(*self),
                r@.len() == col - min_col,
                forall|i: int| 0 <= i < r@.len() ==> (#[trigger] r@[i]).y == min_col + i,
            decreases max_col + 1 - col,
        {
            r.push(Pos::new(self.depth, col));
            col += 1;
        }
        r
    }

    fn next(&self) -> (r: Row)
        requires
            self.depth < i32::MAX,
        ensures
            r.depth == self.depth + 1,
            r.start_slope == self.start_slope,
            r.end_slope == self.end_slope,
    {
        Row::new(self.depth + 1, self.start_slope, self.end_slope)
    }
}

/// The slope of the near edge of a tile given as (depth, column).
fn slope(tile: Pos) -> (r: Rational)
    requires
        1 <= tile.x <= MAX_FOV_RADIUS + 1,
        abs(tile.y as int) <= tile.x,
    ensures
        r == normal(2 * tile.y - 1, 2 * tile.x),
        slope_ok(r, tile.x as int),
{
    let row_depth = tile.x;
    let col = tile.y;
    Rational::new(2 * col - 1, 2 * row_depth)
}

/// The column of `tile` lies inside the closed slope window of `row`.
fn is_symmetric(row: Row, tile: Pos) -> (r: bool)
    requires
        row_ok(row),
        abs(tile.y as int) <= row.depth,
    ensures
        r == ({
            let lo = normal(row.depth * row.start_slope.nr, row.start_slope.denom as int);
            let hi = normal(row.depth * row.end_slope.nr, row.end_slope.denom as int);
            lo.value_le(Rational { nr: tile.y, denom: 1 }) && Rational { nr: tile.y, denom: 1 }.value_le(hi)
        }),
{
    let col = tile.y;
    let depth_times_start = row.scaled(row.start_slope);
    let depth_times_end = row.scaled(row.end_slope);
    let col_rat = Rational::new(col, 1);
    proof {
        lemma_normal_small(col as int);
    }
    depth_times_start.le(&col_rat) && col_rat.le(&depth_times_end)
}

/// Rounds to the nearest integer, halves upwards.
fn round_ties_up(n: Rational) -> (r: i32)
    requires
        n.wf(),
        abs(n.nr as int) <= 0x1000_0000,
        n.denom <= 0x1000_0000,
    ensures
        r == normal(2 * n.nr + n.denom, 2 * n.denom).floor_of(),
{
    let half = Rational::new(1, 2);
    proof {
        lemma_normal_small(0);
    }
    n.add(half).floor()
}

/// Rounds to the nearest integer, halves downwards.
fn round_ties_down(n: Rational) -> (r: i32)
    requires
        n.wf(),
        abs(n.nr as int) <= 0x1000_0000,
        n.denom <= 0x1000_0000,
    ensures
        r == normal(2 * n.nr - n.denom, 2 * n.denom).ceil_of(),
{
    let half = Rational::new(1, 2);
    proof {
        lemma_normal_small(0);
    }
    n.sub(half).ceil()
}

/// What the caller's blocking test must satisfy: it can be asked about any
/// position, and it reports every position farther than `radius` from the origin
/// as blocking, which bounds the scan.
pub open spec fn blocks_beyond<F: Fn(Pos) -> bool>(is_blocking: &F, origin: Pos, radius: int) -> bool {
    &&& forall|p: Pos| is_blocking.requires((p,))
    &&& forall|p: Pos, b: bool| #[trigger] is_blocking.ensures((p,), b) && chebyshev(origin, p) > radius ==> b
}

/// Computes the field of view from `origin` by symmetric recursive shadowcasting
/// and returns the visible positions in the order in which they were found (a
/// position may appear more than once). `is_blocking` tells walls from open tiles.
pub fn compute_fov<F: Fn(Pos) -> bool>(origin: Pos, radius: i32, is_blocking: &F) -> (r: Vec<Pos>)
    requires
        0 <= radius <= MAX_FOV_RADIUS,
        origin_in_range(origin, MAX_FOV_RADIUS as int),
        blocks_beyond(is_blocking, origin, radius as int),
    ensures
        r@.len() >= 1,
        r@[0] == origin,
        forall|i: int| 0 <= i < r@.len() ==> chebyshev(origin, #[trigger] r@[i]) <= radius + 1,
        forall|p: Pos| chebyshev(origin, p) == 1 ==> r@.contains(p),
{
    let mut visible: Vec<Pos> = Vec::new();
    visible.push(origin);
    let mut i: usize = 0;
    while i < 4
        invariant
            0 <= radius <= MAX_FOV_RADIUS,
            origin_in_range(origin, MAX_FOV_RADIUS as int),
            blocks_beyond(is_blocking, origin, radius as int),
            visible@.len() >= 1,
            visible@[0] == origin,
            forall|k: int| 0 <= k < visible@.len() ==> chebyshev(origin, #[trigger] visible@[k]) <= radius + 1,
            i <= 4,
            forall|qi: int, c: int| 0 <= qi < i && -1 <= c <= 1 ==> visible@.contains(#[trigger] tpos(quad(qi, origin), 1, c)),
        decreases 4 - i,
    {
        let quadrant = Quadrant::new(Cardinal::from_index(i), origin);
        let start = Rational::new(-1, 1);
        let end = Rational::new(1, 1);
        proof {
            lemma_normal_small(-1);
            lemma_normal_small(1);
        }
        let first_row = Row::new(1, start, end);
        let ghost vb = visible@;
        scan(first_row, quadrant, radius, is_blocking, &mut visible);
        proof {
            assert(quadrant == quad(i as int, origin));
            assert forall|qi: int, c: int| 0 <= qi < i + 1 && -1 <= c <= 1 implies visible@.contains(#[trigger] tpos(quad(qi, origin), 1, c)) by {
                if qi < i {
                    assert(vb.contains(tpos(quad(qi, origin), 1, c)));
                    let t = choose|t: int| 0 <= t < vb.len() && vb[t] == tpos(quad(qi, origin), 1, c);
                    assert(visible@.subrange(0, vb.len() as int)[t] == visible@[t]);
                }
            }
        }
        i += 1;
    }
    proof {
        assert forall|p: Pos| chebyshev(origin, p) == 1 implies visible@.contains(p) by {
            let dx = p.x - origin.x;
            let dy = p.y - origin.y;
            if dy == -1 {
                assert(tpos(quad(0, origin), 1, dx) == p);
            } else if dy == 1 {
                assert(tpos(quad(2, origin), 1, dx) == p);
            } else if dx == 1 {
                assert(tpos(quad(1, origin), 1, dy) == p);
            } else {
                assert(tpos(quad(3, origin), 1, dy) == p);
            }
        }
    }
    visible
}

fn scan<F: Fn(Pos) -> bool>(row: Row, quadrant: Quadrant, radius: i32, is_blocking: &F, visible: &mut Vec<Pos>)
    requires
        row_ok(row),
        row.depth <= radius + 1,
        0 <= radius <= MAX_FOV_RADIUS,
        origin_in_range(Pos { x: quadrant.ox, y: quadrant.oy }, MAX_FOV_RADIUS as int),
        blocks_beyond(is_blocking, Pos { x: quadrant.ox, y: quadrant.oy }, radius as int),
        old(visible)@.len() >= 1,
        forall|k: int|
            0 <= k < old(visible)@.len() ==> chebyshev(Pos { x: quadrant.ox, y: quadrant.oy }, #[trigger] old(visible)@[k])
                <= radius + 1,
    ensures
        final(visible)@.len() >= old(visible)@.len(),
        final(visible)@[0] == old(visible)@[0],
        final(visible)@.subrange(0, old(visible)@.len() as int) == old(visible)@,
        first_row(row) ==> forall|c: int| -1 <= c <= 1 ==> final(visible)@.contains(#[trigger] tpos(quadrant, 1, c)),
        forall|k: int|
            0 <= k < final(visible)@.len() ==> chebyshev(Pos { x: quadrant.ox, y: quadrant.oy }, #[trigger] final(visible)@[k])
                <= radius + 1,
    decreases radius + 1 - row.depth,
{
    let ghost origin = Pos { x: quadrant.ox, y: quadrant.oy };
    let ghost first = visible@[0];
    let mut prev_tile: Option<Pos> = None;
    let mut cur = row;
    let tiles = cur.tiles();
    proof {
        if first_row(row) {
            lemma_first_row(row);
            lemma_normal_small(-1);
            assert forall|k: int| 0 <= k < tiles@.len() implies start_below(cur.start_slope, #[trigger] tiles@[k].y as int) by {
                assert(normal(-1, 1) == (Rational { nr: -1i32, denom: 1 }));
                assert(1 * cur.start_slope.nr == -1);
                assert(tiles@[k].y == k - 1);
                assert(normal(1 * cur.start_slope.nr, cur.start_slope.denom as int) == (Rational { nr: -1i32, denom: 1 }));
            }
        }
        assert(visible@.subrange(0, visible@.len() as int) =~= visible@);
    }
    let mut i: usize = 0;
    while i < tiles.len()
        invariant
            row_ok(cur),
            cur.depth <= radius + 1,
            0 <= radius <= MAX_FOV_RADIUS,
            origin == (Pos { x: quadrant.ox, y: quadrant.oy }),
            origin_in_range(origin, MAX_FOV_RADIUS as int),
            blocks_beyond(is_blocking, origin, radius as int),
            forall|k: int|
                0 <= k < tiles@.len() ==> (#[trigger] tiles@[k]).x == cur.depth && abs(tiles@[k].y as int) <= cur.depth,
            prev_tile.is_some() ==> prev_tile.unwrap().x == cur.depth && abs(prev_tile.unwrap().y as int) <= cur.depth,
            cur.depth == row.depth,
            cur.end_slope == row.end_slope,
            i <= tiles@.len(),
            visible@.len() >= old(visible)@.len(),
            visible@.subrange(0, old(visible)@.len() as int) == old(visible)@,
            first_row(row) ==> tiles@.len() == 3,
            first_row(row) ==> forall|k: int| 0 <= k < tiles@.len() ==> (#[trigger] tiles@[k]).y == k - 1,
            first_row(row) ==> forall|k: int| 0 <= k < i ==> visible@.contains(#[trigger] tpos(quadrant, 1, k - 1)),
            first_row(row) ==> forall|k: int| i <= k < tiles@.len() ==> start_below(cur.start_slope, #[trigger] tiles@[k].y as int),
            old(visible)@.len() >= 1,
            first == old(visible)@[0],
            visible@.len() >= old(visible)@.len(),
            visible@[0] == first,
            forall|k: int| 0 <= k < visible@.len() ==> chebyshev(origin, #[trigger] visible@[k]) <= radius + 1,
        decreases tiles@.len() - i,
    {
        let tile = tiles[i];
        let tile_pos = quadrant.transform(tile);
        let tile_is_wall = is_blocking(tile_pos);
        let tile_is_floor = !tile_is_wall;

        let prev_is_wall = match prev_tile {
            Some(prev) => is_blocking(quadrant.transform(prev)),
            None => false,
        };
        let prev_is_floor = match prev_tile {
            Some(prev) => !is_blocking(quadrant.transform(prev)),
            None => false,
        };
        assert(prev_is_floor ==> cur.depth <= radius);

        let ghost vb = visible@;
        let symmetric = is_symmetric(cur, tile);
        let marked = tile_is_wall || symmetric;
        if marked {
            visible.push(tile_pos);
        }
        proof {
            assert(visible@.subrange(0, old(visible)@.len() as int) =~= vb.subrange(0, old(visible)@.len() as int));
            if first_row(row) {
                lemma_normal_small(1);
                assert(normal(1, 1) == (Rational { nr: 1i32, denom: 1 }));
                assert(start_below(cur.start_slope, tiles@[i as int].y as int));
                assert(normal(cur.depth * cur.end_slope.nr, cur.end_slope.denom as int) == (Rational { nr: 1i32, denom: 1 }));
                assert(normal(cur.depth * cur.start_slope.nr, cur.start_slope.denom as int) == normal(1 * cur.start_slope.nr, cur.start_slope.denom as int));
                assert(tile.y == i - 1);
                assert(tile.y <= 1);
                assert((tile.y as int) * 1 <= 1 * 1);
                let lo = normal(cur.depth * cur.start_slope.nr, cur.start_slope.denom as int);
                assert(lo.value_le(Rational { nr: tile.y, denom: 1 }));
                assert((Rational { nr: tile.y, denom: 1 }).value_le(Rational { nr: 1i32, denom: 1 }));
                assert(symmetric);
                assert(marked);
                assert(visible@[vb.len() as int] == tpos(quadrant, 1, i - 1));
                assert forall|k: int| 0 <= k < i + 1 implies visible@.contains(#[trigger] tpos(quadrant, 1, k - 1)) by {
                    if k < i {
                        assert(vb.contains(tpos(quadrant, 1, k - 1)));
                        let t = choose|t: int| 0 <= t < vb.len() && vb[t] == tpos(quadrant, 1, k - 1);
                        assert(visible@[t] == vb[t]);
                    }
                }
            }
        }

        if prev_is_wall && tile_is_floor {
            cur.start_slope = slope(tile);
            proof {
                if first_row(row) {
                    assert forall|k: int| i + 1 <= k < tiles@.len() implies start_below(cur.start_slope, #[trigger] tiles@[k].y as int) by {
                        lemma_new_start_below(tile.y as int, tiles@[k].y as int);
                    }
                }
            }
        }

        if prev_is_floor && tile_is_wall {
            let mut next_cur = cur.next();
            next_cur.end_slope = slope(tile);
            scan(next_cur, quadrant, radius, is_blocking, visible);
        }

        prev_tile = Some(tile);
        i += 1;
    }

    let continue_down = match prev_tile {
        Some(tile) => !is_blocking(quadrant.transform(tile)),
        None => false,
    };
    assert(continue_down ==> cur.depth <= radius);
    let ghost vd = visible@;
    if continue_down {
        scan(cur.next(), quadrant, radius, is_blocking, visible);
        proof {
            assert(visible@.subrange(0, old(visible)@.len() as int) =~= vd.subrange(0, old(visible)@.len() as int)) by {
                assert forall|t: int| 0 <= t < old(visible)@.len() implies visible@[t] == vd[t] by {
                    assert(visible@.subrange(0, vd.len() as int)[t] == visible@[t]);
                }
            }
            if first_row(row) {
                assert forall|c: int| -1 <= c <= 1 implies visible@.contains(#[trigger] tpos(quadrant, 1, c)) by {
                    assert(vd.contains(tpos(quadrant, 1, (c + 1) - 1)));
                    let t = choose|t: int| 0 <= t < vd.len() && vd[t] == tpos(quadrant, 1, c);
                    assert(visible@.subrange(0, vd.len() as int)[t] == visible@[t]);
                }
            }
        }
    } else {
        proof {
            if first_row(row) {
                assert forall|c: int| -1 <= c <= 1 implies visible@.contains(#[trigger] tpos(quadrant, 1, c)) by {
                    assert(visible@.contains(tpos(quadrant, 1, (c + 1) - 1)));
                }
            }
        }
    }
}

} // verus!
