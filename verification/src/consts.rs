use vstd::prelude::*;

verus! {

/// Number of rows of the dungeon map.
pub const DUNGEON_GRID_ROWS: usize = 8;
/// Number of columns of the dungeon map.
pub const DUNGEON_GRID_COLS: usize = 9;

/// Number of columns of a room's tile grid.
pub const ROOM_WIDTH: usize = 15;
/// Number of rows of a room's tile grid.
pub const ROOM_HEIGHT: usize = 9;

} // verus!
