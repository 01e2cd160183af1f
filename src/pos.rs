use vstd::prelude::*;

use crate::grids::Grid;

verus! {

/// A position on the tile grid.
#[derive(Debug, Default, Clone, Copy, PartialEq, Eq, Structural, Hash, PartialOrd, Ord)]
pub struct Pos {
    pub x: i32,
    pub y: i32,
}

/// An integer offset between two positions.
#[derive(Debug, Default, Clone, Copy, PartialEq, Eq, Structural, Hash)]
pub struct IVec {
    pub x: i32,
    pub y: i32,
}

pub open spec fn abs(v: int) -> int {
    if v < 0 { -v } else { v }
}

/// Manhattan distance between two positions.
pub open spec fn manhattan(a: Pos, b: Pos) -> int {
    abs(a.x - b.x) + abs(a.y - b.y)
}

/// Chebyshev distance: diagonal steps count as one.
pub open spec fn chebyshev(a: Pos, b: Pos) -> int {
    let dx = abs(a.x - b.x);
    let dy = abs(a.y - b.y);
    if dx < dy { dy } else { dx }
}

pub open spec fn inside(p: Pos, w: int, h: int) -> bool {
    0 <= p.x < w && 0 <= p.y < h
}

/// The eight neighbour offsets, in the order in which they are visited.
pub open spec fn dir8(i: int) -> (int, int) {
    if i == 0 { (-1, 0) }
    else if i == 1 { (1, 0) }
    else if i == 2 { (0, -1) }
    else if i == 3 { (1, -1) }
    else if i == 4 { (-1, -1) }
    else if i == 5 { (0, 1) }
    else if i == 6 { (1, 1) }
    else { (-1, 1) }
}

/// The four orthogonal neighbour offsets, in the order in which they are visited.
pub open spec fn dir4(i: int) -> (int, int) {
    if i == 0 { (-1, 0) }
    else if i == 1 { (1, 0) }
    else if i == 2 { (0, -1) }
    else { (0, 1) }
}

pub open spec fn offset(p: Pos, d: (int, int)) -> Pos {
    Pos { x: (p.x + d.0) as i32, y: (p.y + d.1) as i32 }
}

pub open spec fn offset_inside(p: Pos, d: (int, int), w: int, h: int) -> bool {
    0 <= p.x + d.0 < w && 0 <= p.y + d.1 < h
}

/// The in-grid neighbours among the first `k` of the eight directions.
pub open spec fn nbrs8(p: Pos, w: int, h: int, k: int) -> Seq<Pos>
    decreases k,
{
    if k <= 0 {
        seq![]
    } else {
        let prev = nbrs8(p, w, h, k - 1);
        if offset_inside(p, dir8(k - 1), w, h) {
            prev.push(offset(p, dir8(k - 1)))
        } else {
            prev
        }
    }
}

/// The in-grid neighbours among the first `k` of the four orthogonal directions.
pub open spec fn nbrs4(p: Pos, w: int, h: int, k: int) -> Seq<Pos>
    decreases k,
{
    if k <= 0 {
        seq![]
    } else {
        let prev = nbrs4(p, w, h, k - 1);
        if offset_inside(p, dir4(k - 1), w, h) {
            prev.push(offset(p, dir4(k - 1)))
        } else {
            prev
        }
    }
}

/// Every element of `nbrs8` lies inside the grid and is one king step away.
pub proof fn lemma_nbrs8_inside(p: Pos, w: int, h: int, k: int)
    requires
        0 <= k <= 8,
        w <= i32::MAX,
        h <= i32::MAX,
    ensures
        nbrs8(p, w, h, k).len() <= k,
        forall|i: int|
            0 <= i < nbrs8(p, w, h, k).len() ==> {
                let q = #[trigger] nbrs8(p, w, h, k)[i];
                inside(q, w, h) && chebyshev(p, q) == 1
            },
    decreases k,
{
    if k > 0 {
        lemma_nbrs8_inside(p, w, h, k - 1);
        let d = dir8(k - 1);
        assert(abs(d.0) <= 1 && abs(d.1) <= 1 && (abs(d.0) == 1 || abs(d.1) == 1));
    }
}

/// `nbrs8` holds exactly the in-grid positions one king step away.
pub proof fn lemma_nbrs8_complete(p: Pos, w: int, h: int, q: Pos)
    requires
        w <= i32::MAX,
        h <= i32::MAX,
    ensures
        nbrs8(p, w, h, 8).contains(q) <==> (inside(q, w, h) && chebyshev(p, q) == 1),
{
    lemma_nbrs8_inside(p, w, h, 8);
    if inside(q, w, h) && chebyshev(p, q) == 1 {
        let d = (q.x - p.x, q.y - p.y);
        let j: int = choose|j: int| 0 <= j < 8 && dir8(j) == d;
        assert(exists|j: int| 0 <= j < 8 && dir8(j) == d) by {
            if d == (-1int, 0int) { assert(dir8(0) == d); }
            else if d == (1int, 0int) { assert(dir8(1) == d); }
            else if d == (0int, -1int) { assert(dir8(2) == d); }
            else if d == (1int, -1int) { assert(dir8(3) == d); }
            else if d == (-1int, -1int) { assert(dir8(4) == d); }
            else if d == (0int, 1int) { assert(dir8(5) == d); }
            else if d == (1int, 1int) { assert(dir8(6) == d); }
            else { assert(dir8(7) == d); }
        }
        lemma_nbrs8_prefix(p, w, h, j + 1, 8);
        assert(offset(p, dir8(j)) == q);
        assert(nbrs8(p, w, h, j + 1).last() == q);
        let s = nbrs8(p, w, h, j + 1);
        assert(nbrs8(p, w, h, 8)[s.len() - 1] == q);
    }
    if nbrs8(p, w, h, 8).contains(q) {
        let i = choose|i: int| 0 <= i < nbrs8(p, w, h, 8).len() && nbrs8(p, w, h, 8)[i] == q;
        assert(inside(nbrs8(p, w, h, 8)[i], w, h));
    }
}

/// Later directions only add to the neighbours found so far.
pub proof fn lemma_nbrs8_prefix(p: Pos, w: int, h: int, j: int, k: int)
    requires
        0 <= j <= k <= 8,
    ensures
        nbrs8(p, w, h, j).len() <= nbrs8(p, w, h, k).len(),
        forall|i: int| 0 <= i < nbrs8(p, w, h, j).len() ==> nbrs8(p, w, h, k)[i] == #[trigger] nbrs8(p, w, h, j)[i],
    decreases k - j,
{
    if j < k {
        lemma_nbrs8_prefix(p, w, h, j, k - 1);
    }
}

fn dir8_exec(i: usize) -> (r: (i32, i32))
    requires
        i < 8,
    ensures
        r.0 == dir8(i as int).0,
        r.1 == dir8(i as int).1,
{
    if i == 0 { (-1, 0) }
    else if i == 1 { (1, 0) }
    else if i == 2 { (0, -1) }
    else if i == 3 { (1, -1) }
    else if i == 4 { (-1, -1) }
    else if i == 5 { (0, 1) }
    else if i == 6 { (1, 1) }
    else { (-1, 1) }
}

fn dir4_exec(i: usize) -> (r: (i32, i32))
    requires
        i < 4,
    ensures
        r.0 == dir4(i as int).0,
        r.1 == dir4(i as int).1,
{
    if i == 0 { (-1, 0) }
    else if i == 1 { (1, 0) }
    else if i == 2 { (0, -1) }
    else { (0, 1) }
}

impl Pos {
    pub fn new(x: i32, y: i32) -> (r: Pos)
        ensures
            r.x == x,
            r.y == y,
    {
        Pos { x, y }
    }

    /// Neighbours in 8 directions that lie inside the grid.
    pub fn neighbors<T>(&self, grid: &Grid<T>) -> (r: Vec<Pos>)
        ensures
            r@ == nbrs8(*self, grid.width as int, grid.height as int, 8),
    {
        let w = grid.width as i64;
        let h = grid.height as i64;
        let mut r: Vec<Pos> = Vec::new();
        let mut i: usize = 0;
        while i < 8
            invariant
                i <= 8,
                w == grid.width,
                h == grid.height,
                r@ == nbrs8(*self, w as int, h as int, i as int),
            decreases 8 - i,
        {
            let d = dir8_exec(i);
            let nx = self.x as i64 + d.0 as i64;
            let ny = self.y as i64 + d.1 as i64;
            if 0 <= nx && nx < w && 0 <= ny && ny < h {
                r.push(Pos { x: nx as i32, y: ny as i32 });
            }
            i += 1;
        }
        r
    }

    /// Neighbours in 4 directions that lie inside the grid.
    pub fn neighbors_orth<T>(&self, grid: &Grid<T>) -> (r: Vec<Pos>)
        ensures
            r@ == nbrs4(*self, grid.width as int, grid.height as int, 4),
    {
        let w = grid.width as i64;
        let h = grid.height as i64;
        let mut r: Vec<Pos> = Vec::new();
        let mut i: usize = 0;
        while i < 4
            invariant
                i <= 4,
                w == grid.width,
                h == grid.height,
                r@ == nbrs4(*self, w as int, h as int, i as int),
            decreases 4 - i,
        {
            let d = dir4_exec(i);
            let nx = self.x as i64 + d.0 as i64;
            let ny = self.y as i64 + d.1 as i64;
            if 0 <= nx && nx < w && 0 <= ny && ny < h {
                r.push(Pos { x: nx as i32, y: ny as i32 });
            }
            i += 1;
        }
        r
    }

    pub fn distance_manhattan(&self, other: Pos) -> (r: i32)
        requires
            manhattan(*self, other) <= i32::MAX,
        ensures
            r == manhattan(*self, other),
    {
        let dx = if self.x >= other.x { self.x - other.x } else { other.x - self.x };
        let dy = if self.y >= other.y { self.y - other.y } else { other.y - self.y };
        dx + dy
    }

    /// Chebyshev distance.
    pub fn distance(&self, other: Pos) -> (r: i32)
        requires
            chebyshev(*self, other) <= i32::MAX,
        ensures
            r == chebyshev(*self, other),
    {
        let dx = if self.x >= other.x { self.x - other.x } else { other.x - self.x };
        let dy = if self.y >= other.y { self.y - other.y } else { other.y - self.y };
        if dx < dy { dy } else { dx }
    }
}


/// A point of a line, with the axes swapped back for steep lines.
pub open spec fn line_point(steep: bool, x: int, y: int) -> Pos {
    if steep { Pos { x: y as i32, y: x as i32 } } else { Pos { x: x as i32, y: y as i32 } }
}

/// How many times a line of `dx` steps along its long axis and `dy` along its
/// short one has stepped sideways after `k` steps: the error term starts at
/// half a step and each sideways step comes as soon as it turns negative.
pub open spec fn side_steps(k: int, dx: int, dy: int) -> int {
    if dx == 0 { 0 } else { (k * dy - dx / 2 + dx - 1) / dx }
}

/// The points of a line that is not steep from (`x1`, `y1`) to (`x2`, `y2`),
/// axes swapped back when `steep`.
pub open spec fn line_gen(steep: bool, x1: int, y1: int, x2: int, y2: int) -> Seq<Pos> {
    let dx = x2 - x1;
    let dy = abs(y2 - y1);
    Seq::new(
        (dx + 1) as nat,
        |k: int| line_point(steep, x1 + k, if y1 < y2 { y1 + side_steps(k, dx, dy) } else { y1 - side_steps(k, dx, dy) }),
    )
}

/// The Bresenham line from `a` to `b`: one point per step along the longer
/// axis, walked from the end with the smaller coordinate on that axis, then
/// put in order from `a` to `b`.
pub open spec fn bresenham_line(a: Pos, b: Pos) -> Seq<Pos> {
    let steep = abs(b.y - a.y) > abs(b.x - a.x);
    let ax = if steep { a.y as int } else { a.x as int };
    let ay = if steep { a.x as int } else { a.y as int };
    let bx = if steep { b.y as int } else { b.x as int };
    let by = if steep { b.x as int } else { b.y as int };
    let rev = ax > bx;
    let x1 = if rev { bx } else { ax };
    let y1 = if rev { by } else { ay };
    let x2 = if rev { ax } else { bx };
    let y2 = if rev { ay } else { by };
    let gen = line_gen(steep, x1, y1, x2, y2);
    if rev { Seq::new(gen.len(), |k: int| gen[gen.len() - 1 - k]) } else { gen }
}

/// Positions far enough from the edges of `i32` for lines between them.
pub open spec fn line_ok(p: Pos) -> bool {
    -0x3fff_ffff <= p.x <= 0x3fff_ffff && -0x3fff_ffff <= p.y <= 0x3fff_ffff
}

impl Pos {
    /// The points of the line from `self` to `b` by Bresenham's algorithm: one
    /// point per step along the longer axis, from `self` to `b`, each a king
    /// step from the one before.
    /// The points of a line that is not steep, from (`x1`, `y1`) to (`x2`, `y2`)
    /// with `x1 <= x2`, axes swapped back when `is_steep`.
    #[verifier::rlimit(80)]
    fn line_points(is_steep: bool, x1: i32, y1: i32, x2: i32, y2: i32) -> (points: Vec<Pos>)
        requires
            -0x3fff_ffff <= x1 <= x2 <= 0x3fff_ffff,
            -0x3fff_ffff <= y1 <= 0x3fff_ffff,
            -0x3fff_ffff <= y2 <= 0x3fff_ffff,
            abs(y2 - y1) <= x2 - x1,
        ensures
            points@ == line_gen(is_steep, x1 as int, y1 as int, x2 as int, y2 as int),
            points@.len() == x2 - x1 + 1,
            points@[0] == line_point(is_steep, x1 as int, y1 as int),
            points@.last() == line_point(is_steep, x2 as int, y2 as int),
            forall|i: int| 0 <= i < points@.len() - 1 ==> chebyshev(#[trigger] points@[i], points@[i + 1]) == 1,
    {
        let mut points: Vec<Pos> = Vec::new();
        let dx = x2 - x1;
        let dy = if y2 >= y1 { y2 - y1 } else { y1 - y2 };
        let mut err = dx / 2;
        let mut y = y1;
        let ystep: i32 = if y1 < y2 { 1 } else { -1 };
        let mut x = x1;
        let ghost mut m: int = 0;
        let ghost mut ys: Seq<int> = seq![];
        while x <= x2
            invariant
                dy <= dx,
                dx == x2 - x1,
                0 <= dy,
                dy == if y2 >= y1 { y2 - y1 } else { y1 - y2 },
                ystep == if y1 < y2 { 1int } else { -1int },
                -0x3fff_ffff <= x1 <= x2 <= 0x3fff_ffff,
                -0x3fff_ffff <= y1 <= 0x3fff_ffff,
                -0x3fff_ffff <= y2 <= 0x3fff_ffff,
                x1 <= x <= x2 + 1,
                0 <= m <= dy + 1,
                dx == 0 ==> m == 0,
                x == x1 ==> m == 0,
                (if y1 < y2 { y == y1 + m } else { y == y1 - m }),
                forall|k: int| 0 <= k < ys.len() ==> (if y1 < y2 { y1 <= #[trigger] ys[k] <= y2 } else { y2 <= ys[k] <= y1 }),
                forall|k: int| 0 <= k < ys.len() ==> #[trigger] ys[k] == if y1 < y2 { y1 + side_steps(k, dx as int, dy as int) } else { y1 - side_steps(k, dx as int, dy as int) },
                err == dx / 2 - (x - x1) * dy + m * dx,
                0 <= err,
                err < dx || (dx == 0 && err == 0),
                points@.len() == x - x1,
                ys.len() == x - x1,
                forall|k: int| 0 <= k < ys.len() ==> #[trigger] points@[k] == line_point(is_steep, x1 + k, ys[k]),
                ys.len() > 0 ==> ys[0] == y1,
                ys.len() > 0 ==> (y - ys.last() == 0 || y - ys.last() == ystep),
                forall|k: int| 0 <= k < ys.len() - 1 ==> (#[trigger] ys[k + 1] - ys[k] == 0 || ys[k + 1] - ys[k] == ystep),
                x == x2 + 1 ==> ys.last() == y2,
            decreases x2 + 1 - x,
        {
            proof {
                let k = x - x1;
                if dx > 0 {
                    assert(m <= dy) by (nonlinear_arith)
                        requires
                            err == dx / 2 - k * dy + m * dx,
                            0 <= k <= dx,
                            0 <= err < dx,
                            0 <= dx / 2,
                            2 * (dx / 2) <= dx,
                            0 <= m,
                            0 <= dy,
                    ;
                }
                if x == x2 {
                    assert(m == dy) by (nonlinear_arith)
                        requires
                            err == dx / 2 - k * dy + m * dx,
                            k == dx,
                            0 <= err,
                            err < dx || (dx == 0 && err == 0),
                            0 <= dx / 2 <= dx,
                            2 * (dx / 2) <= dx,
                            dx - 1 <= 2 * (dx / 2),
                            0 <= m <= dy,
                            dy <= dx,
                    ;
                }
            }
            if is_steep {
                points.push(Pos { x: y, y: x });
            } else {
                points.push(Pos { x: x, y: y });
            }
            let ghost m0 = m;
            let ghost xk = (x - x1) as int;
            proof {
                if dx > 0 {
                    let di = dx as int;
                    assert(xk * dy - di / 2 + di - 1 == m * di + (di - 1 - err)) by (nonlinear_arith)
                        requires
                            err == di / 2 - xk * dy + m * di,
                    ;
                    vstd::arithmetic::div_mod::lemma_fundamental_div_mod_converse(xk * dy - di / 2 + di - 1, di, m, di - 1 - err);
                    assert(side_steps(xk, di, dy as int) == m);
                } else {
                    assert(side_steps(xk, dx as int, dy as int) == 0);
                }
                ys = ys.push(y as int);
                assert((xk + 1) * dy == xk * dy + dy) by (nonlinear_arith);
                assert((m0 + 1) * dx == m0 * dx + dx) by (nonlinear_arith);
            }
            err -= dy;
            if err < 0 {
                y += ystep;
                err += dx;
                proof {
                    m = m + 1;
                }
            }
            x += 1;
        }
        proof {
            assert forall|k: int| 0 <= k < points@.len() - 1 implies chebyshev(#[trigger] points@[k], points@[k + 1]) == 1 by {
                assert(points@[k] == line_point(is_steep, x1 + k, ys[k]));
                assert(points@[k + 1] == line_point(is_steep, x1 + k + 1, ys[k + 1]));
                assert(ys[k + 1] - ys[k] == 0 || ys[k + 1] - ys[k] == ystep);
                assert(if y1 < y2 { y1 <= ys[k] <= y2 } else { y2 <= ys[k] <= y1 });
                assert(if y1 < y2 { y1 <= ys[k + 1] <= y2 } else { y2 <= ys[k + 1] <= y1 });
            }
            assert(points@[0] == line_point(is_steep, x1 as int, y1 as int));
            assert(points@.last() == line_point(is_steep, x2 as int, y2 as int));
            assert(points@ =~= line_gen(is_steep, x1 as int, y1 as int, x2 as int, y2 as int));
        }
        points
    }

    pub fn bresenham(&self, b: Pos) -> (points: Vec<Pos>)
        requires
            line_ok(*self),
            line_ok(b),
        ensures
            points@ == bresenham_line(*self, b),
            points@.len() == chebyshev(*self, b) + 1,
            points@[0] == *self,
            points@.last() == b,
            forall|i: int| 0 <= i < points@.len() - 1 ==> chebyshev(#[trigger] points@[i], points@[i + 1]) == 1,
    {
        let mut x1 = self.x;
        let mut y1 = self.y;
        let mut x2 = b.x;
        let mut y2 = b.y;
        let adx = if x2 >= x1 { x2 - x1 } else { x1 - x2 };
        let ady = if y2 >= y1 { y2 - y1 } else { y1 - y2 };
        let is_steep = ady > adx;
        if is_steep {
            let t = x1; x1 = y1; y1 = t;
            let t = x2; x2 = y2; y2 = t;
        }
        let mut reversed = false;
        if x1 > x2 {
            let t = x1; x1 = x2; x2 = t;
            let t = y1; y1 = y2; y2 = t;
            reversed = true;
        }
        let mut points = Pos::line_points(is_steep, x1, y1, x2, y2);
        if reversed {
            let mut rev: Vec<Pos> = Vec::new();
            let mut i = points.len();
            while i > 0
                invariant
                    i <= points@.len(),
                    rev@.len() == points@.len() - i,
                    forall|k: int| 0 <= k < rev@.len() ==> #[trigger] rev@[k] == points@[points@.len() - 1 - k],
                decreases i,
            {
                i -= 1;
                rev.push(points[i]);
            }
            proof {
                assert(rev@ =~= Seq::new(points@.len(), |k: int| points@[points@.len() - 1 - k]));
                assert forall|k: int| 0 <= k < rev@.len() - 1 implies chebyshev(#[trigger] rev@[k], rev@[k + 1]) == 1 by {
                    let j = points@.len() - 2 - k;
                    assert(chebyshev(points@[j], points@[j + 1]) == 1);
                }
            }
            points = rev;
        }
        points
    }

    /// The ring of positions at Chebyshev distance `radius`: the top and bottom
    /// rows first, column by column, then the left and right columns, row by row.
    pub fn circle_around(self, radius: i32) -> (r: Vec<Pos>)
        requires
            0 < radius <= 0x1000_0000,
            line_ok(self),
        ensures
            r@.len() == 8 * radius,
            forall|i: int| 0 <= i < r@.len() ==> chebyshev(self, #[trigger] r@[i]) == radius,
            forall|p: Pos| chebyshev(self, p) == radius ==> r@.contains(p),
    {
        let mut r: Vec<Pos> = Vec::new();
        let mut x = self.x - radius;
        while x <= self.x + radius
            invariant
                0 < radius <= 0x1000_0000,
                line_ok(self),
                self.x - radius <= x <= self.x + radius + 1,
                r@.len() == 2 * (x - (self.x - radius)),
                forall|i: int| 0 <= i < r@.len() ==> chebyshev(self, #[trigger] r@[i]) == radius,
                forall|p: Pos| self.x - radius <= p.x < x && (p.y == self.y - radius || p.y == self.y + radius) ==> r@.contains(p),
            decreases self.x + radius + 1 - x,
        {
            let ghost before = r@;
            r.push(Pos { x, y: self.y - radius });
            r.push(Pos { x, y: self.y + radius });
            proof {
                assert forall|p: Pos| self.x - radius <= p.x < x + 1 && (p.y == self.y - radius || p.y == self.y + radius) implies r@.contains(p) by {
                    if p.x == x {
                        if p.y == self.y - radius {
                            assert(r@[before.len() as int] == p);
                        } else {
                            assert(r@[before.len() as int + 1] == p);
                        }
                    } else {
                        assert(before.contains(p));
                        let k = choose|k: int| 0 <= k < before.len() && before[k] == p;
                        assert(r@[k] == p);
                    }
                }
            }
            x += 1;
        }
        let mut y = self.y - radius + 1;
        while y <= self.y + radius - 1
            invariant
                0 < radius <= 0x1000_0000,
                line_ok(self),
                self.y - radius + 1 <= y <= self.y + radius,
                r@.len() == 2 * (2 * radius + 1) + 2 * (y - (self.y - radius + 1)),
                forall|i: int| 0 <= i < r@.len() ==> chebyshev(self, #[trigger] r@[i]) == radius,
                forall|p: Pos| self.x - radius <= p.x <= self.x + radius && (p.y == self.y - radius || p.y == self.y + radius) ==> r@.contains(p),
                forall|p: Pos| self.y - radius + 1 <= p.y < y && (p.x == self.x - radius || p.x == self.x + radius) ==> r@.contains(p),
            decreases self.y + radius - y,
        {
            let ghost before = r@;
            r.push(Pos { x: self.x - radius, y });
            r.push(Pos { x: self.x + radius, y });
            proof {
                assert forall|p: Pos| self.x - radius <= p.x <= self.x + radius && (p.y == self.y - radius || p.y == self.y + radius) implies r@.contains(p) by {
                    assert(before.contains(p));
                    let k = choose|k: int| 0 <= k < before.len() && before[k] == p;
                    assert(r@[k] == p);
                }
                assert forall|p: Pos| self.y - radius + 1 <= p.y < y + 1 && (p.x == self.x - radius || p.x == self.x + radius) implies r@.contains(p) by {
                    if p.y == y {
                        if p.x == self.x - radius {
                            assert(r@[before.len() as int] == p);
                        } else {
                            assert(r@[before.len() as int + 1] == p);
                        }
                    } else {
                        assert(before.contains(p));
                        let k = choose|k: int| 0 <= k < before.len() && before[k] == p;
                        assert(r@[k] == p);
                    }
                }
            }
            y += 1;
        }
        r
    }
}

impl IVec {
    pub fn new(x: i32, y: i32) -> (r: IVec)
        ensures
            r.x == x,
            r.y == y,
    {
        IVec { x, y }
    }
}

} // verus!
