use vstd::prelude::*;

use crate::pos::Pos;

verus! {

/// A dense row-major 2D grid: the cell `(x, y)` is stored at `x + y * width`.
#[derive(Clone, Debug)]
pub struct Grid<T> {
    pub data: Vec<T>,
    pub width: i32,
    pub height: i32,
}

impl<T> Grid<T> {
    /// The dimensions are non-negative and the storage holds exactly one value per cell.
    pub open spec fn wf(&self) -> bool {
        &&& 0 <= self.width
        &&& 0 <= self.height
        &&& self.width * self.height <= i32::MAX
        &&& self.data@.len() == self.width * self.height
    }

    pub open spec fn in_grid(&self, x: int, y: int) -> bool {
        0 <= x < self.width && 0 <= y < self.height
    }

    /// The value stored for the cell `(x, y)`.
    pub open spec fn cell(&self, x: int, y: int) -> T {
        self.data@[x + y * self.width]
    }
}

pub proof fn lemma_cell_index(w: int, h: int, x: int, y: int)
    requires
        0 <= x < w,
        0 <= y < h,
    ensures
        0 <= x + y * w < w * h,
{
    assert(y * w <= (h - 1) * w) by (nonlinear_arith)
        requires
            0 <= y < h,
            0 < w,
    ;
    assert((h - 1) * w + w == w * h) by (nonlinear_arith);
    assert(0 <= y * w) by (nonlinear_arith)
        requires
            0 <= y,
            0 < w,
    ;
}

/// Different in-grid cells are stored at different places.
pub proof fn lemma_cell_index_unique(w: int, x1: int, y1: int, x2: int, y2: int)
    requires
        0 <= x1 < w,
        0 <= x2 < w,
        x1 + y1 * w == x2 + y2 * w,
    ensures
        x1 == x2,
        y1 == y2,
{
    if y1 < y2 {
        assert(y1 * w + w <= y2 * w) by (nonlinear_arith)
            requires
                y1 < y2,
                0 < w,
        ;
    } else if y2 < y1 {
        assert(y2 * w + w <= y1 * w) by (nonlinear_arith)
            requires
                y2 < y1,
                0 < w,
        ;
    }
}

/// The cell stored at index `i`.
pub proof fn lemma_index_cell(w: int, h: int, i: int)
    requires
        0 <= i < w * h,
        0 <= w,
        0 <= h,
    ensures
        0 < w,
        0 <= i % w < w,
        0 <= i / w < h,
        i == i % w + (i / w) * w,
{
    if w == 0 {
        assert(w * h == 0);
    }
    assert(i == (i / w) * w + i % w) by (nonlinear_arith)
        requires
            0 < w,
    ;
    assert(i / w < h) by (nonlinear_arith)
        requires
            0 < w,
            0 <= i < w * h,
    ;
}

impl<T: Copy> Grid<T> {
    pub fn new(width: i32, height: i32, value: T) -> (r: Grid<T>)
        requires
            0 <= width,
            0 <= height,
            width * height <= i32::MAX,
        ensures
            r.wf(),
            r.width == width,
            r.height == height,
            forall|i: int| 0 <= i < r.data@.len() ==> r.data@[i] == value,
    {
        let n = (width * height) as usize;
        let mut data: Vec<T> = Vec::new();
        while data.len() < n
            invariant
                data.len() <= n,
                forall|i: int| 0 <= i < data@.len() ==> data@[i] == value,
            decreases n - data.len(),
        {
            data.push(value);
        }
        Grid { data, width, height }
    }

    /// A grid whose cell `(x, y)` holds `f(x, y)`.
    pub fn filled_with<F: Fn(i32, i32) -> T>(width: i32, height: i32, f: F) -> (r: Grid<T>)
        requires
            0 <= width,
            0 <= height,
            width * height <= i32::MAX,
            forall|x: i32, y: i32| 0 <= x < width && 0 <= y < height ==> f.requires((x, y)),
        ensures
            r.wf(),
            r.width == width,
            r.height == height,
            forall|x: i32, y: i32|
                0 <= x < width && 0 <= y < height ==> f.ensures((x, y), #[trigger] r.cell(x as int, y as int)),
    {
        let mut data: Vec<T> = Vec::new();
        let mut y: i32 = 0;
        while y < height
            invariant
                0 <= y <= height,
                0 <= width,
                width * height <= i32::MAX,
                forall|x: i32, y: i32| 0 <= x < width && 0 <= y < height ==> f.requires((x, y)),
                data@.len() == y * width,
                forall|xx: i32, yy: i32|
                    0 <= xx < width && 0 <= yy < y ==> f.ensures((xx, yy), #[trigger] data@[xx + yy * width]),
            decreases height - y,
        {
            let mut x: i32 = 0;
            while x < width
                invariant
                    0 <= x <= width,
                    0 <= y < height,
                    width * height <= i32::MAX,
                    forall|x: i32, y: i32| 0 <= x < width && 0 <= y < height ==> f.requires((x, y)),
                    data@.len() == y * width + x,
                    forall|xx: i32, yy: i32|
                        0 <= xx < width && 0 <= yy < y ==> f.ensures((xx, yy), #[trigger] data@[xx + yy * width]),
                    forall|xx: i32|
                        0 <= xx < x ==> f.ensures((xx, y), #[trigger] data@[xx + y * width]),
                decreases width - x,
            {
                let v = f(x, y);
                proof {
                    lemma_cell_index(width as int, height as int, x as int, y as int);
                    assert forall|xx: i32, yy: i32| 0 <= xx < width && 0 <= yy < y implies #[trigger] (xx + yy * width) < data@.len() by {
                        lemma_cell_index(width as int, y as int, xx as int, yy as int);
                        assert(width * y == y * width) by (nonlinear_arith);
                    }
                }
                let ghost old_data = data@;
                data.push(v);
                assert(forall|i: int| 0 <= i < old_data.len() ==> data@[i] == old_data[i]);
                x += 1;
            }
            assert((y + 1) * width == y * width + width) by (nonlinear_arith);
            y += 1;
        }
        assert(height * width == width * height) by (nonlinear_arith);
        Grid { data, width, height }
    }

    pub fn width(&self) -> (r: i32)
        ensures
            r == self.width,
    {
        self.width
    }

    pub fn height(&self) -> (r: i32)
        ensures
            r == self.height,
    {
        self.height
    }

    pub fn is_valid(&self, coord: Pos) -> (r: bool)
        ensures
            r == self.in_grid(coord.x as int, coord.y as int),
    {
        coord.x >= 0 && coord.x < self.width() && coord.y >= 0 && coord.y < self.height()
    }

    pub fn get(&self, x: i32, y: i32) -> (r: &T)
        requires
            self.wf(),
            self.in_grid(x as int, y as int),
        ensures
            *r == self.cell(x as int, y as int),
    {
        proof {
            lemma_cell_index(self.width as int, self.height as int, x as int, y as int);
        }
        &self.data[(x + y * self.width) as usize]
    }

    pub fn get_opt(&self, pos: Pos) -> (r: Option<&T>)
        requires
            self.wf(),
        ensures
            self.in_grid(pos.x as int, pos.y as int) ==> r == Some(&self.cell(pos.x as int, pos.y as int)),
            !self.in_grid(pos.x as int, pos.y as int) ==> r.is_none(),
    {
        if pos.x < 0 || pos.x >= self.width || pos.y < 0 || pos.y >= self.height {
            return None;
        }
        Some(self.get(pos.x, pos.y))
    }

    pub fn get_mut(&mut self, x: i32, y: i32) -> (r: &mut T)
        requires
            old(self).wf(),
            old(self).in_grid(x as int, y as int),
        ensures
            *r == old(self).cell(x as int, y as int),
            final(self).width == old(self).width,
            final(self).height == old(self).height,
            final(self).data@ == old(self).data@.update(x + y * old(self).width, *final(r)),
    {
        proof {
            lemma_cell_index(self.width as int, self.height as int, x as int, y as int);
        }
        let i = (x + y * self.width) as usize;
        &mut self.data[i]
    }

    pub fn get_clamped(&self, x: i32, y: i32) -> (r: &T)
        requires
            self.wf(),
            self.width >= 1,
            self.height >= 1,
        ensures
            *r == self.cell(clamp(x as int, 0, self.width - 1), clamp(y as int, 0, self.height - 1)),
    {
        let x = clamp_i32(x, 0, self.width - 1);
        let y = clamp_i32(y, 0, self.height - 1);
        self.get(x, y)
    }

    pub fn get_clamped_v(&self, v: Pos) -> (r: &T)
        requires
            self.wf(),
            self.width >= 1,
            self.height >= 1,
        ensures
            *r == self.cell(clamp(v.x as int, 0, self.width - 1), clamp(v.y as int, 0, self.height - 1)),
    {
        self.get_clamped(v.x, v.y)
    }

    pub fn get_clamped_mut(&mut self, x: i32, y: i32) -> (r: &mut T)
        requires
            old(self).wf(),
            old(self).width >= 1,
            old(self).height >= 1,
        ensures
            ({
                let cx = clamp(x as int, 0, old(self).width - 1);
                let cy = clamp(y as int, 0, old(self).height - 1);
                &&& *r == old(self).cell(cx, cy)
                &&& final(self).width == old(self).width
                &&& final(self).height == old(self).height
                &&& final(self).data@ == old(self).data@.update(cx + cy * old(self).width, *final(r))
            }),
    {
        let x = clamp_i32(x, 0, self.width - 1);
        let y = clamp_i32(y, 0, self.height - 1);
        self.get_mut(x, y)
    }

    /// Sets every cell with `from.x <= x < to.x` and `from.y <= y < to.y` to `val`.
    pub fn fill_rect(&mut self, from: Pos, to: Pos, val: T)
        requires
            old(self).wf(),
            from.x < to.x && from.y < to.y ==> 0 <= from.x && to.x <= old(self).width && 0 <= from.y
                && to.y <= old(self).height,
        ensures
            final(self).wf(),
            final(self).width == old(self).width,
            final(self).height == old(self).height,
            forall|x: int, y: int|
                old(self).in_grid(x, y) ==> #[trigger] final(self).cell(x, y) == if from.x <= x < to.x
                    && from.y <= y < to.y {
                    val
                } else {
                    old(self).cell(x, y)
                },
    {
        if from.x >= to.x || from.y >= to.y {
            return;
        }
        let ghost w = self.width as int;
        let ghost h = self.height as int;
        let ghost before = *self;
        let mut x = from.x;
        while x < to.x
            invariant
                from.x <= x <= to.x,
                from.y < to.y,
                self.wf(),
                self.width == w,
                self.height == h,
                0 <= from.x && to.x <= w && 0 <= from.y && to.y <= h,
                forall|cx: int, cy: int|
                    0 <= cx < w && 0 <= cy < h ==> #[trigger] self.cell(cx, cy) == if from.x <= cx < x
                        && from.y <= cy < to.y {
                        val
                    } else {
                        before.cell(cx, cy)
                    },
            decreases to.x - x,
        {
            let mut y = from.y;
            while y < to.y
                invariant
                    from.x <= x < to.x,
                    from.y <= y <= to.y,
                    self.wf(),
                    self.width == w,
                    self.height == h,
                    0 <= from.x && to.x <= w && 0 <= from.y && to.y <= h,
                    forall|cx: int, cy: int|
                        0 <= cx < w && 0 <= cy < h ==> #[trigger] self.cell(cx, cy) == if (from.x <= cx < x
                            && from.y <= cy < to.y) || (cx == x && from.y <= cy < y) {
                            val
                        } else {
                            before.cell(cx, cy)
                        },
                decreases to.y - y,
            {
                proof {
                    lemma_cell_index(w, h, x as int, y as int);
                }
                let ghost prev = *self;
                let i = (x + y * self.width) as usize;
                self.data.set(i, val);
                proof {
                    assert forall|cx: int, cy: int| 0 <= cx < w && 0 <= cy < h implies #[trigger] self.cell(cx, cy)
                        == if (from.x <= cx < x && from.y <= cy < to.y) || (cx == x && from.y <= cy < y + 1) {
                        val
                    } else {
                        before.cell(cx, cy)
                    } by {
                        lemma_cell_index(w, h, cx, cy);
                        if cx + cy * w == x + y * w {
                            lemma_cell_index_unique(w, cx, cy, x as int, y as int);
                        } else {
                            assert(self.cell(cx, cy) == prev.cell(cx, cy));
                        }
                    }
                }
                y += 1;
            }
            x += 1;
        }
    }

    /// The cells of the rectangle `from.x <= x < to.x`, `from.y <= y < to.y`, column by column.
    pub fn iter_rect(&self, from: Pos, to: Pos) -> (r: Vec<(i32, i32, T)>)
        requires
            self.wf(),
            from.x < to.x && from.y < to.y ==> 0 <= from.x && to.x <= self.width && 0 <= from.y
                && to.y <= self.height,
        ensures
            from.x >= to.x || from.y >= to.y ==> r@.len() == 0,
            from.x < to.x && from.y < to.y ==> r@.len() == (to.x - from.x) * (to.y - from.y),
            from.x < to.x && from.y < to.y ==> forall|i: int, j: int|
                0 <= i < to.x - from.x && 0 <= j < to.y - from.y ==> #[trigger] r@[i * (to.y - from.y) + j]
                    == ((from.x + i) as i32, (from.y + j) as i32, self.cell(from.x + i, from.y + j)),
    {
        let mut r: Vec<(i32, i32, T)> = Vec::new();
        if from.x >= to.x || from.y >= to.y {
            return r;
        }
        let ghost ny = to.y - from.y;
        let mut x = from.x;
        while x < to.x
            invariant
                from.x <= x <= to.x,
                from.y < to.y,
                ny == to.y - from.y,
                self.wf(),
                0 <= from.x && to.x <= self.width && 0 <= from.y && to.y <= self.height,
                r@.len() == (x - from.x) * ny,
                forall|i: int, j: int|
                    0 <= i < x - from.x && 0 <= j < ny ==> #[trigger] r@[i * ny + j]
                        == ((from.x + i) as i32, (from.y + j) as i32, self.cell(from.x + i, from.y + j)),
            decreases to.x - x,
        {
            let mut y = from.y;
            while y < to.y
                invariant
                    from.x <= x < to.x,
                    from.y <= y <= to.y,
                    ny == to.y - from.y,
                    self.wf(),
                    0 <= from.x && to.x <= self.width && 0 <= from.y && to.y <= self.height,
                    r@.len() == (x - from.x) * ny + (y - from.y),
                    forall|i: int, j: int|
                        0 <= i < x - from.x && 0 <= j < ny ==> #[trigger] r@[i * ny + j]
                            == ((from.x + i) as i32, (from.y + j) as i32, self.cell(from.x + i, from.y + j)),
                    forall|j: int|
                        0 <= j < y - from.y ==> #[trigger] r@[(x - from.x) * ny + j]
                            == (x, (from.y + j) as i32, self.cell(x as int, from.y + j)),
                decreases to.y - y,
            {
                let v = *self.get(x, y);
                let ghost old_r = r@;
                r.push((x, y, v));
                proof {
                    assert forall|i: int, j: int| 0 <= i < x - from.x && 0 <= j < ny implies #[trigger] (i * ny + j)
                        < old_r.len() by {
                        assert(i * ny + j < (x - from.x) * ny) by (nonlinear_arith)
                            requires
                                0 <= i < x - from.x,
                                0 <= j < ny,
                        ;
                    }
                }
                y += 1;
            }
            proof {
                let xi = x - from.x;
                assert((xi + 1) * ny == xi * ny + ny) by (nonlinear_arith);
                assert forall|i: int, j: int| 0 <= i < xi + 1 && 0 <= j < ny implies #[trigger] r@[i * ny + j]
                    == ((from.x + i) as i32, (from.y + j) as i32, self.cell(from.x + i, from.y + j)) by {
                    if i == xi {
                        assert(r@[xi * ny + j] == (x, (from.y + j) as i32, self.cell(x as int, from.y + j)));
                    }
                }
            }
            x += 1;
        }
        r
    }

    /// Every cell with its coordinates, in storage order.
    pub fn iter(&self) -> (r: Vec<(i32, i32, T)>)
        requires
            self.wf(),
        ensures
            r@.len() == self.data@.len(),
            forall|i: int|
                0 <= i < r@.len() ==> #[trigger] r@[i] == ((i % self.width as int) as i32, (i
                    / self.width as int) as i32, self.data@[i]),
    {
        let mut r: Vec<(i32, i32, T)> = Vec::new();
        let mut i: usize = 0;
        while i < self.data.len()
            invariant
                self.wf(),
                i <= self.data@.len(),
                r@.len() == i,
                forall|k: int|
                    0 <= k < i ==> #[trigger] r@[k] == ((k % self.width as int) as i32, (k
                        / self.width as int) as i32, self.data@[k]),
            decreases self.data@.len() - i,
        {
            proof {
                lemma_index_cell(self.width as int, self.height as int, i as int);
            }
            let ii = i as i32;
            r.push((ii % self.width, ii / self.width, self.data[i]));
            i += 1;
        }
        r
    }

    pub fn iter_values(&self) -> (r: Vec<T>)
        ensures
            r@ == self.data@,
    {
        let mut r: Vec<T> = Vec::new();
        let mut i: usize = 0;
        while i < self.data.len()
            invariant
                i <= self.data@.len(),
                r@ == self.data@.subrange(0, i as int),
            decreases self.data@.len() - i,
        {
            r.push(self.data[i]);
            i += 1;
        }
        assert(r@ =~= self.data@);
        r
    }

    pub fn into_iter_values(self) -> (r: Vec<T>)
        ensures
            r@ == self.data@,
    {
        self.data
    }

    /// Every cell as a position with its value, in storage order.
    pub fn iter_coords(&self) -> (r: Vec<(Pos, T)>)
        requires
            self.wf(),
        ensures
            r@.len() == self.data@.len(),
            forall|i: int|
                0 <= i < r@.len() ==> #[trigger] r@[i] == (storage_pos(i, self.width as int), self.data@[i]),
    {
        let cells = self.iter();
        let mut r: Vec<(Pos, T)> = Vec::new();
        let mut i: usize = 0;
        while i < cells.len()
            invariant
                i <= cells@.len(),
                cells@.len() == self.data@.len(),
                r@.len() == i,
                forall|k: int|
                    0 <= k < cells@.len() ==> #[trigger] cells@[k] == ((k % self.width as int) as i32, (k
                        / self.width as int) as i32, self.data@[k]),
                forall|k: int|
                    0 <= k < i ==> #[trigger] r@[k] == (storage_pos(k, self.width as int), self.data@[k]),
            decreases cells@.len() - i,
        {
            let (x, y, v) = cells[i];
            r.push((Pos::new(x, y), v));
            i += 1;
        }
        r
    }

    /// The position of every cell, in storage order.
    pub fn coords(&self) -> (r: Vec<Pos>)
        requires
            self.wf(),
        ensures
            r@.len() == self.data@.len(),
            forall|i: int|
                0 <= i < r@.len() ==> #[trigger] r@[i] == storage_pos(i, self.width as int),
    {
        let cells = self.iter_coords();
        let mut r: Vec<Pos> = Vec::new();
        let mut i: usize = 0;
        while i < cells.len()
            invariant
                i <= cells@.len(),
                cells@.len() == self.data@.len(),
                r@.len() == i,
                forall|k: int|
                    0 <= k < cells@.len() ==> #[trigger] cells@[k] == (storage_pos(k, self.width as int), self.data@[k]),
                forall|k: int|
                    0 <= k < i ==> #[trigger] r@[k] == storage_pos(k, self.width as int),
            decreases cells@.len() - i,
        {
            r.push(cells[i].0);
            i += 1;
        }
        r
    }

    pub fn len(&self) -> (r: usize)
        ensures
            r == self.data@.len(),
    {
        self.data.len()
    }

    pub fn is_empty(&self) -> (r: bool)
        ensures
            r == (self.data@.len() == 0),
    {
        self.data.len() == 0
    }

    /// The rows of the grid, top to bottom.
    pub fn row_iter(&self) -> (r: Vec<Vec<T>>)
        requires
            self.wf(),
        ensures
            r@.len() == self.height,
            forall|y: int|
                0 <= y < self.height ==> (#[trigger] r@[y])@ == self.data@.subrange(
                    y * self.width,
                    y * self.width + self.width,
                ),
    {
        let mut r: Vec<Vec<T>> = Vec::new();
        let mut y: i32 = 0;
        while y < self.height
            invariant
                self.wf(),
                0 <= y <= self.height,
                r@.len() == y,
                forall|yy: int|
                    0 <= yy < y ==> (#[trigger] r@[yy])@ == self.data@.subrange(
                        yy * self.width,
                        yy * self.width + self.width,
                    ),
            decreases self.height - y,
        {
            assert((y + 1) * self.width <= self.width * self.height) by (nonlinear_arith)
                requires
                    0 <= y < self.height,
                    0 <= self.width,
            ;
            assert((y + 1) * self.width == y * self.width + self.width) by (nonlinear_arith);
            assert(0 <= y * self.width) by (nonlinear_arith)
                requires
                    0 <= y,
                    0 <= self.width,
            ;
            let start = (y * self.width) as usize;
            let end = start + self.width as usize;
            let mut row: Vec<T> = Vec::new();
            let mut i = start;
            while i < end
                invariant
                    start <= i <= end,
                    end <= self.data@.len(),
                    row@ == self.data@.subrange(start as int, i as int),
                decreases end - i,
            {
                row.push(self.data[i]);
                i += 1;
            }
            r.push(row);
            y += 1;
        }
        r
    }

    /// Both grids have the same dimensions; callers must make sure of it.
    pub fn ensure_dimensions_match<R>(&self, other: &Grid<R>)
        requires
            self.width == other.width,
            self.height == other.height,
    {
    }
}

impl Grid<i32> {
    /// Cell-wise product of two grids of the same dimensions.
    pub fn mul(&self, other: &Grid<i32>) -> (r: Grid<i32>)
        requires
            self.wf(),
            other.wf(),
            self.width == other.width,
            self.height == other.height,
            forall|i: int|
                0 <= i < self.data@.len() ==> i32::MIN <= #[trigger] self.data@[i] * other.data@[i] <= i32::MAX,
        ensures
            r.wf(),
            r.width == self.width,
            r.height == self.height,
            forall|i: int| 0 <= i < r.data@.len() ==> #[trigger] r.data@[i] == self.data@[i] * other.data@[i],
    {
        self.ensure_dimensions_match(other);
        let mut data: Vec<i32> = Vec::new();
        let mut i: usize = 0;
        while i < self.data.len()
            invariant
                self.data@.len() == other.data@.len(),
                i <= self.data@.len(),
                data@.len() == i,
                forall|k: int|
                    0 <= k < self.data@.len() ==> i32::MIN <= #[trigger] self.data@[k] * other.data@[k] <= i32::MAX,
                forall|k: int| 0 <= k < i ==> #[trigger] data@[k] == self.data@[k] * other.data@[k],
            decreases self.data@.len() - i,
        {
            data.push(self.data[i] * other.data[i]);
            i += 1;
        }
        Grid { data, width: self.width, height: self.height }
    }

    /// Multiplies each cell by the cell at the same place in `other`.
    pub fn mul_inplace(&mut self, other: &Grid<i32>) -> (r: &mut Grid<i32>)
        requires
            old(self).wf(),
            other.wf(),
            old(self).width == other.width,
            old(self).height == other.height,
            forall|i: int|
                0 <= i < old(self).data@.len() ==> i32::MIN <= #[trigger] old(self).data@[i] * other.data@[i]
                    <= i32::MAX,
        ensures
            r.wf(),
            r.width == old(self).width,
            r.height == old(self).height,
            r.data@.len() == old(self).data@.len(),
            forall|i: int| 0 <= i < r.data@.len() ==> #[trigger] r.data@[i] == old(self).data@[i] * other.data@[i],
            *final(self) == *final(r),
    {
        self.ensure_dimensions_match(other);
        let ghost before = self.data@;
        let mut i: usize = 0;
        while i < self.data.len()
            invariant
                self.wf(),
                self.width == other.width,
                self.height == other.height,
                before.len() == self.data@.len(),
                self.data@.len() == other.data@.len(),
                i <= self.data@.len(),
                forall|k: int| 0 <= k < before.len() ==> i32::MIN <= #[trigger] before[k] * other.data@[k] <= i32::MAX,
                forall|k: int| 0 <= k < i ==> #[trigger] self.data@[k] == before[k] * other.data@[k],
                forall|k: int| i <= k < before.len() ==> #[trigger] self.data@[k] == before[k],
            decreases self.data@.len() - i,
        {
            let v = self.data[i] * other.data[i];
            self.data.set(i, v);
            i += 1;
        }
        self
    }

    /// Cell-wise sum of two grids of the same dimensions.
    pub fn add(&self, other: &Grid<i32>) -> (r: Grid<i32>)
        requires
            self.wf(),
            other.wf(),
            self.width == other.width,
            self.height == other.height,
            forall|i: int|
                0 <= i < self.data@.len() ==> i32::MIN <= #[trigger] self.data@[i] + other.data@[i] <= i32::MAX,
        ensures
            r.wf(),
            r.width == self.width,
            r.height == self.height,
            forall|i: int| 0 <= i < r.data@.len() ==> #[trigger] r.data@[i] == self.data@[i] + other.data@[i],
    {
        self.ensure_dimensions_match(other);
        let mut data: Vec<i32> = Vec::new();
        let mut i: usize = 0;
        while i < self.data.len()
            invariant
                self.data@.len() == other.data@.len(),
                i <= self.data@.len(),
                data@.len() == i,
                forall|k: int|
                    0 <= k < self.data@.len() ==> i32::MIN <= #[trigger] self.data@[k] + other.data@[k] <= i32::MAX,
                forall|k: int| 0 <= k < i ==> #[trigger] data@[k] == self.data@[k] + other.data@[k],
            decreases self.data@.len() - i,
        {
            data.push(self.data[i] + other.data[i]);
            i += 1;
        }
        Grid { data, width: self.width, height: self.height }
    }

    /// Adds to each cell the cell at the same place in `other`.
    pub fn add_inplace(&mut self, other: &Grid<i32>) -> (r: &mut Grid<i32>)
        requires
            old(self).wf(),
            other.wf(),
            old(self).width == other.width,
            old(self).height == other.height,
            forall|i: int|
                0 <= i < old(self).data@.len() ==> i32::MIN <= #[trigger] old(self).data@[i] + other.data@[i]
                    <= i32::MAX,
        ensures
            r.wf(),
            r.width == old(self).width,
            r.height == old(self).height,
            r.data@.len() == old(self).data@.len(),
            forall|i: int| 0 <= i < r.data@.len() ==> #[trigger] r.data@[i] == old(self).data@[i] + other.data@[i],
            *final(self) == *final(r),
    {
        self.ensure_dimensions_match(other);
        let ghost before = self.data@;
        let mut i: usize = 0;
        while i < self.data.len()
            invariant
                self.wf(),
                self.width == other.width,
                self.height == other.height,
                before.len() == self.data@.len(),
                self.data@.len() == other.data@.len(),
                i <= self.data@.len(),
                forall|k: int| 0 <= k < before.len() ==> i32::MIN <= #[trigger] before[k] + other.data@[k] <= i32::MAX,
                forall|k: int| 0 <= k < i ==> #[trigger] self.data@[k] == before[k] + other.data@[k],
                forall|k: int| i <= k < before.len() ==> #[trigger] self.data@[k] == before[k],
            decreases self.data@.len() - i,
        {
            let v = self.data[i] + other.data[i];
            self.data.set(i, v);
            i += 1;
        }
        self
    }

    /// Each cell multiplied by `scalar`.
    pub fn mul_scalar(&self, scalar: i32) -> (r: Grid<i32>)
        requires
            self.wf(),
            forall|i: int| 0 <= i < self.data@.len() ==> i32::MIN <= #[trigger] self.data@[i] * scalar <= i32::MAX,
        ensures
            r.wf(),
            r.width == self.width,
            r.height == self.height,
            forall|i: int| 0 <= i < r.data@.len() ==> #[trigger] r.data@[i] == self.data@[i] * scalar,
    {
        let mut data: Vec<i32> = Vec::new();
        let mut i: usize = 0;
        while i < self.data.len()
            invariant
                i <= self.data@.len(),
                data@.len() == i,
                forall|k: int| 0 <= k < self.data@.len() ==> i32::MIN <= #[trigger] self.data@[k] * scalar <= i32::MAX,
                forall|k: int| 0 <= k < i ==> #[trigger] data@[k] == self.data@[k] * scalar,
            decreases self.data@.len() - i,
        {
            data.push(self.data[i] * scalar);
            i += 1;
        }
        Grid { data, width: self.width, height: self.height }
    }

    /// Clamps every value so that `min <= value <= max` where `min <= max`;
    /// a value below `min` becomes `min`, one above `max` becomes `max`.
    pub fn clamp_values(&mut self, min: i32, max: i32)
        requires
            old(self).wf(),
        ensures
            final(self).wf(),
            final(self).width == old(self).width,
            final(self).height == old(self).height,
            final(self).data@.len() == old(self).data@.len(),
            forall|i: int|
                0 <= i < old(self).data@.len() ==> #[trigger] final(self).data@[i] == if old(self).data@[i]
                    < min {
                    min as int
                } else if old(self).data@[i] > max {
                    max as int
                } else {
                    old(self).data@[i] as int
                },
    {
        let ghost before = self.data@;
        let mut i: usize = 0;
        while i < self.data.len()
            invariant
                self.wf(),
                self.width == old(self).width,
                self.height == old(self).height,
                before == old(self).data@,
                before.len() == self.data@.len(),
                i <= self.data@.len(),
                forall|k: int|
                    0 <= k < i ==> #[trigger] self.data@[k] == if before[k] < min {
                        min as int
                    } else if before[k] > max {
                        max as int
                    } else {
                        before[k] as int
                    },
                forall|k: int| i <= k < before.len() ==> #[trigger] self.data@[k] == before[k],
            decreases self.data@.len() - i,
        {
            let v = self.data[i];
            if v < min {
                self.data.set(i, min);
            } else if v > max {
                self.data.set(i, max);
            }
            i += 1;
        }
    }
}

/// The position of the cell stored at index `i` of a grid of width `w`.
pub open spec fn storage_pos(i: int, w: int) -> Pos {
    Pos { x: (i % w) as i32, y: (i / w) as i32 }
}

pub open spec fn clamp(v: int, lo: int, hi: int) -> int {
    if v < lo {
        lo
    } else if v > hi {
        hi
    } else {
        v
    }
}

fn clamp_i32(v: i32, lo: i32, hi: i32) -> (r: i32)
    requires
        lo <= hi,
    ensures
        r == clamp(v as int, lo as int, hi as int),
{
    if v < lo {
        lo
    } else if v > hi {
        hi
    } else {
        v
    }
}

} // verus!
