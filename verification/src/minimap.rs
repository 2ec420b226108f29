use vstd::prelude::*;
use crate::consts::{DUNGEON_GRID_COLS, DUNGEON_GRID_ROWS};
use crate::dungeon::Dungeon;
use crate::grid::{is_room, DungeonGrid};

verus! {

/// What the minimap knows of the dungeon: the room the player is in, and for each cell of the
/// map 0 (unknown), 1 (seen through a door), 2 (visited) or 3 (the current room).
#[derive(Clone, Copy, Debug)]
pub struct Minimap {
    pub cur_room: (usize, usize),
    pub visited: [[usize; DUNGEON_GRID_COLS]; DUNGEON_GRID_ROWS],
}

/// The mark of the cell `(a, b)` of a minimap.
pub open spec fn mark(visited: [[usize; DUNGEON_GRID_COLS]; DUNGEON_GRID_ROWS], a: int, b: int) -> int {
    visited@[a]@[b] as int
}

/// `(a, b)` is a room next to the current room `(r, c)` that the minimap reveals: the one
/// below or to the right, or the one above or to the left when it is not in the first row or
/// column.
pub open spec fn revealed(grid: DungeonGrid, r: int, c: int, a: int, b: int) -> bool {
    ||| (a == r - 1 && b == c && r > 1 && is_room(grid, a, b))
    ||| (a == r + 1 && b == c && r < DUNGEON_GRID_ROWS - 1 && is_room(grid, a, b))
    ||| (a == r && b == c - 1 && c > 1 && is_room(grid, a, b))
    ||| (a == r && b == c + 1 && c < DUNGEON_GRID_COLS - 1 && is_room(grid, a, b))
}

/// The mark of `(a, b)` after moving from `old_cur` into `cur`: 3 for the current room, 2 for
/// the room left, and revealed neighbours raised to at least 1.
pub open spec fn mark_after(
    visited: [[usize; DUNGEON_GRID_COLS]; DUNGEON_GRID_ROWS],
    old_cur: (usize, usize),
    grid: DungeonGrid,
    cur: (usize, usize),
    a: int,
    b: int,
) -> int {
    if (a, b) == (cur.0 as int, cur.1 as int) {
        3
    } else {
        let base = if (a, b) == (old_cur.0 as int, old_cur.1 as int) { 2 } else { mark(visited, a, b) };
        if revealed(grid, cur.0 as int, cur.1 as int, a, b) && base < 1 {
            1
        } else {
            base
        }
    }
}

impl Minimap {
    /// A minimap that knows nothing yet, the player standing in `cur_room`.
    pub fn new(cur_room: (usize, usize)) -> (result: Minimap)
        ensures
            result.cur_room == cur_room,
            forall|a: int, b: int|
                0 <= a < DUNGEON_GRID_ROWS && 0 <= b < DUNGEON_GRID_COLS ==> #[trigger] mark(result.visited, a, b) == 0,
    {
        Minimap { cur_room, visited: [[0usize; DUNGEON_GRID_COLS]; DUNGEON_GRID_ROWS] }
    }

    /// Records that the player moved into `cur_room`.
    pub fn visit_room(&mut self, dungeon: &Dungeon, cur_room: (usize, usize))
        requires
            old(self).cur_room.0 < DUNGEON_GRID_ROWS,
            old(self).cur_room.1 < DUNGEON_GRID_COLS,
            cur_room.0 < DUNGEON_GRID_ROWS,
            cur_room.1 < DUNGEON_GRID_COLS,
        ensures
            final(self).cur_room == cur_room,
            forall|a: int, b: int|
                0 <= a < DUNGEON_GRID_ROWS && 0 <= b < DUNGEON_GRID_COLS ==> #[trigger] mark(final(self).visited, a, b)
                    == mark_after(old(self).visited, old(self).cur_room, dungeon.grid_view(), cur_room, a, b),
    {
        let (r, c) = cur_room;
        let grid = dungeon.get_grid();
        let ghost v0 = self.visited;
        let ghost g = dungeon.grid_view();
        self.visited[self.cur_room.0][self.cur_room.1] = 2;
        self.cur_room = cur_room;
        self.visited[r][c] = 3;
        let ghost v1 = self.visited;
        proof {
            assert forall|a: int, b: int| 0 <= a < DUNGEON_GRID_ROWS && 0 <= b < DUNGEON_GRID_COLS
                implies #[trigger] mark(v1, a, b) == if (a, b) == (r as int, c as int) { 3 } else if (a, b) == (old(self).cur_room.0 as int, old(self).cur_room.1 as int) { 2 } else { mark(v0, a, b) } by {
            }
        }
        if r > 1 && grid[r - 1][c] != 0 {
            self.visited[r - 1][c] = if 1 > self.visited[r - 1][c] { 1 } else { self.visited[r - 1][c] };
        }
        if r < DUNGEON_GRID_ROWS - 1 && grid[r + 1][c] != 0 {
            self.visited[r + 1][c] = if 1 > self.visited[r + 1][c] { 1 } else { self.visited[r + 1][c] };
        }
        if c > 1 && grid[r][c - 1] != 0 {
            self.visited[r][c - 1] = if 1 > self.visited[r][c - 1] { 1 } else { self.visited[r][c - 1] };
        }
        if c < DUNGEON_GRID_COLS - 1 && grid[r][c + 1] != 0 {
            self.visited[r][c + 1] = if 1 > self.visited[r][c + 1] { 1 } else { self.visited[r][c + 1] };
        }
    }
}

} // verus!
