//! Dungeon generation and room logic for a top-down dungeon crawler: the dungeon map and its
//! consistency check, room layouts, the distance field enemies follow, door handling and the
//! minimap.

pub mod consts;
pub mod grid;
pub mod distance;
pub mod dungeon;
pub mod layout;
mod random;
pub mod generate;
pub mod room;
pub mod minimap;
pub mod entities;
pub mod laws;
