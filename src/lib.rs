pub mod grids;
pub mod pos;
pub mod rational;
pub mod shadowcasting;
pub mod dijkstra;
pub mod genarena;
pub mod rand;
pub mod tiles;
pub mod tile_map;
pub mod animation;
pub mod game;
pub mod game_ai;
pub mod input;
pub mod text;
