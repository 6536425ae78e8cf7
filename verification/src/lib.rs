//! Grid maps, compact grid paths and a delayed path-finding queue for
//! bots that walk on a wall grid.

pub mod vec2;
pub mod card_dir;
pub mod short_path;
pub mod grid;
pub mod pathfind;
pub mod game;
