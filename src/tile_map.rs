use vstd::prelude::*;

use crate::grids::Grid;
use crate::pos::Pos;
use crate::tiles::{Decor, LogicTile};

verus! {

/// The map of a level: its cells, the decor lying on them, the stairs and the rooms.
#[derive(Debug)]
pub struct TileMap {
    pub tiles: Grid<LogicTile>,
    pub decor: Vec<DecorWithPos>,
    pub up_stairs: Pos,
    pub down_stairs: Pos,
    pub rooms: Vec<Room>,
}

#[derive(Debug, Clone, Copy)]
pub struct DecorWithPos(pub Pos, pub Decor);

/// A rectangular room.
#[derive(Debug, Clone, Copy)]
pub struct Room {
    pub x: i32,
    pub y: i32,
    pub w: i32,
    pub h: i32,
}

impl TileMap {
    pub fn new(w: i32, h: i32, start_tile: LogicTile) -> (r: TileMap)
        requires
            0 <= w,
            0 <= h,
            w * h <= i32::MAX,
        ensures
            r.tiles.wf(),
            r.tiles.width == w,
            r.tiles.height == h,
            forall|i: int| 0 <= i < r.tiles.data@.len() ==> r.tiles.data@[i] == start_tile,
            r.decor@.len() == 0,
            r.rooms@.len() == 0,
            r.up_stairs == (Pos { x: 0, y: 0 }),
            r.down_stairs == (Pos { x: 0, y: 0 }),
    {
        TileMap {
            tiles: Grid::new(w, h, start_tile),
            decor: Vec::new(),
            up_stairs: Pos::new(0, 0),
            down_stairs: Pos::new(0, 0),
            rooms: Vec::new(),
        }
    }

    /// Puts a wall all around the border.
    pub fn enwall(&mut self)
        requires
            old(self).tiles.wf(),
            old(self).tiles.width >= 1,
            old(self).tiles.height >= 1,
        ensures
            final(self).tiles.wf(),
            final(self).tiles.width == old(self).tiles.width,
            final(self).tiles.height == old(self).tiles.height,
            forall|x: int, y: int|
                old(self).tiles.in_grid(x, y) ==> #[trigger] final(self).tiles.cell(x, y) == if x == 0 || y == 0 || x
                    == old(self).tiles.width - 1 || y == old(self).tiles.height - 1 {
                    LogicTile::Wall
                } else {
                    old(self).tiles.cell(x, y)
                },
    {
        let w = self.tiles.width;
        let h = self.tiles.height;
        self.tiles.fill_rect(Pos::new(0, 0), Pos::new(w, 1), LogicTile::Wall);
        self.tiles.fill_rect(Pos::new(0, h - 1), Pos::new(w, h), LogicTile::Wall);
        self.tiles.fill_rect(Pos::new(0, 0), Pos::new(1, h), LogicTile::Wall);
        self.tiles.fill_rect(Pos::new(w - 1, 0), Pos::new(w, h), LogicTile::Wall);
    }

    pub fn add_decor(&mut self, pos: Pos, decor: Decor)
        ensures
            final(self).decor@ == old(self).decor@.push(DecorWithPos(pos, decor)),
            final(self).tiles == old(self).tiles,
    {
        self.decor.push(DecorWithPos(pos, decor));
    }

    /// A wall inside the map; outside the map there are no walls.
    pub fn is_wall(&self, pos: Pos) -> (r: bool)
        requires
            self.tiles.wf(),
        ensures
            r == (self.tiles.in_grid(pos.x as int, pos.y as int) && self.tiles.cell(pos.x as int, pos.y as int)
                == LogicTile::Wall),
    {
        match self.tiles.get_opt(pos) {
            Some(t) => *t == LogicTile::Wall,
            None => false,
        }
    }

    pub fn blocks_vision(&self, pos: Pos) -> (r: bool)
        requires
            self.tiles.wf(),
        ensures
            r == (self.tiles.in_grid(pos.x as int, pos.y as int) && self.tiles.cell(pos.x as int, pos.y as int)
                == LogicTile::Wall),
    {
        self.is_wall(pos)
    }
}

impl Room {
    /// The centre of the room.
    pub fn pos(&self) -> (r: Pos)
        requires
            0 <= self.w,
            0 <= self.h,
            self.x + self.w / 2 <= i32::MAX,
            self.y + self.h / 2 <= i32::MAX,
        ensures
            r.x == self.x + self.w / 2,
            r.y == self.y + self.h / 2,
    {
        let x = self.x + self.w / 2;
        let y = self.y + self.h / 2;
        Pos { x, y }
    }

    pub fn tile_count(&self) -> (r: i32)
        requires
            i32::MIN <= self.w * self.h <= i32::MAX,
        ensures
            r == self.w * self.h,
    {
        self.w * self.h
    }

    /// The position of tile number `nr`, counting row by row.
    pub fn tile_pos(&self, nr: i32) -> (r: Pos)
        requires
            self.w > 0,
            0 <= nr,
            self.x + nr % self.w <= i32::MAX,
            self.y + nr / self.w <= i32::MAX,
        ensures
            r.x == self.x + nr % self.w,
            r.y == self.y + nr / self.w,
    {
        let dx = nr % self.w;
        let dy = nr / self.w;
        Pos::new(self.x + dx, self.y + dy)
    }
}

} // verus!
