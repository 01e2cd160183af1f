use vstd::prelude::*;

verus! {

/// A graphical tile of the tile set.
#[derive(Debug, Clone, Copy, PartialEq, Eq, Structural)]
pub enum DrawTile {
    Empty,
    SkullWallTop,
    SkullWallBot,
    GrayFloor,
    DownStairs,
    UpStairs,
    Rock,
    Arrow,
}

/// What a map cell is for the rules of the game.
#[derive(Debug, Clone, Copy, PartialEq, Eq, Structural)]
pub enum LogicTile {
    Wall,
    Floor,
    Empty,
}

/// The look of a level.
#[derive(Debug, Clone, Copy, PartialEq, Eq, Structural)]
pub enum Environment {
    Catacomb,
}

/// Anything that can lie on top of a tile, below items and actors.
#[derive(Debug, Clone, Copy, PartialEq, Eq, Structural)]
pub enum Decor {
    BloodRed1,
    BloodRed2,
}

/// The picture of a creature.
#[derive(Debug, Clone, Copy, PartialEq, Eq, Structural)]
pub enum CreatureSprite {
    Dwarf,
    Goblin,
    GoblinBrute,
    GoblinArcher,
}

/// The tile to draw for `lt`: a wall shows its top face when another wall lies below it.
pub open spec fn draw_tile_for(lt: LogicTile, env: Environment, below: LogicTile) -> DrawTile {
    match lt {
        LogicTile::Wall => if below == LogicTile::Wall { DrawTile::SkullWallTop } else { DrawTile::SkullWallBot },
        LogicTile::Floor => DrawTile::GrayFloor,
        LogicTile::Empty => DrawTile::Empty,
    }
}

pub fn generate_draw_tile(lt: LogicTile, env: Environment, below: LogicTile) -> (r: DrawTile)
    ensures
        r == draw_tile_for(lt, env, below),
{
    match env {
        Environment::Catacomb => match lt {
            LogicTile::Wall => match below {
                LogicTile::Wall => DrawTile::SkullWallTop,
                _ => DrawTile::SkullWallBot,
            },
            LogicTile::Floor => DrawTile::GrayFloor,
            LogicTile::Empty => DrawTile::Empty,
        },
    }
}

} // verus!
