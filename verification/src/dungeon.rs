use vstd::prelude::*;
use crate::consts::{DUNGEON_GRID_COLS, DUNGEON_GRID_ROWS};
use crate::distance::RoomGrid;
use crate::grid::{cell, DungeonGrid};

verus! {

/// One of the four sides of a room.
#[derive(Clone, Copy, Debug, PartialEq, Eq, Structural)]
pub enum Direction {
    North,
    South,
    West,
    East,
}

/// What kind of room a room is.
#[derive(Clone, Copy, Debug, PartialEq, Eq, Structural)]
pub enum RoomTag {
    Start,
    Empty,
    Mob,
    Boss,
    Item,
}

/// What a blocking tile of a room is.
#[derive(Clone, Copy, Debug, PartialEq, Eq)]
pub enum BlockTag {
    Door { dir: Direction, is_open: bool, connects_to: (usize, usize) },
    Wall,
    Stone,
    Spikes,
}

/// A stationary obstacle of a room, standing on the tile with index `cell` (row-major).
#[derive(Clone, Copy, Debug, PartialEq, Eq)]
pub struct Block {
    pub cell: usize,
    pub tag: BlockTag,
}

/// The two kinds of enemies.
#[derive(Clone, Copy, Debug, PartialEq, Eq, Structural)]
pub enum EnemyTag {
    Shooter,
    Chaser,
}

/// An enemy of a room, standing on the tile with index `cell` (row-major).
#[derive(Clone, Copy, Debug, PartialEq, Eq, Structural)]
pub struct Enemy {
    pub cell: usize,
    pub tag: EnemyTag,
}

/// The errors of a dungeon lookup.
#[derive(Clone, Copy, Debug, PartialEq, Eq)]
pub enum DungeonError {
    UnknownGridCoords((usize, usize)),
    UnknownRoomIndex(usize),
}

/// A room of the dungeon.
#[derive(Debug)]
pub struct Room {
    pub tag: RoomTag,
    pub grid: RoomGrid,
    pub dungeon_coords: (usize, usize),
    /// Indices into `obstacles` of the doors that lead to other rooms.
    pub doors: Vec<usize>,
    pub obstacles: Vec<Block>,
    pub enemies: Vec<Enemy>,
    pub just_entered: bool,
}

impl Room {
    /// Each entry of `doors` names an obstacle that is a door.
    pub open spec fn wf(&self) -> bool {
        forall|k: int|
            0 <= k < self.doors@.len() ==> {
                &&& (#[trigger] self.doors@[k]) < self.obstacles@.len()
                &&& self.obstacles@[self.doors@[k] as int].tag is Door
            }
    }
}

/// The dungeon: a map of rooms and the rooms themselves.
#[derive(Debug)]
pub struct Dungeon {
    pub(crate) grid: [[usize; DUNGEON_GRID_COLS]; DUNGEON_GRID_ROWS],
    pub(crate) rooms: Vec<Room>,
}

impl Dungeon {
    /// The map of the dungeon.
    pub closed spec fn grid_view(&self) -> DungeonGrid {
        self.grid
    }

    /// The rooms; the room with index `k` is `rooms_view()[k - 1]`.
    pub closed spec fn rooms_view(&self) -> Seq<Room> {
        self.rooms@
    }

    /// The map and the rooms agree: each map index names a room standing at that cell, and
    /// each room stands at a cell holding its index.
    pub open spec fn wf(&self) -> bool {
        &&& forall|i: int, j: int|
            0 <= i < DUNGEON_GRID_ROWS && 0 <= j < DUNGEON_GRID_COLS && #[trigger] cell(self.grid_view(), i, j) != 0
                ==> {
                &&& cell(self.grid_view(), i, j) <= self.rooms_view().len()
                &&& self.rooms_view()[cell(self.grid_view(), i, j) - 1].dungeon_coords == (i as usize, j as usize)
            }
        &&& forall|k: int|
            0 <= k < self.rooms_view().len() ==> {
                &&& (#[trigger] self.rooms_view()[k]).dungeon_coords.0 < DUNGEON_GRID_ROWS
                &&& self.rooms_view()[k].dungeon_coords.1 < DUNGEON_GRID_COLS
                &&& cell(
                    self.grid_view(),
                    self.rooms_view()[k].dungeon_coords.0 as int,
                    self.rooms_view()[k].dungeon_coords.1 as int,
                ) == k + 1
                &&& self.rooms_view()[k].wf()
            }
    }

    /// Puts a map and its rooms together.
    pub(crate) fn from_parts(grid: DungeonGrid, rooms: Vec<Room>) -> (result: Dungeon)
        ensures
            result.grid_view() == grid,
            result.rooms_view() == rooms@,
    {
        Dungeon { grid, rooms }
    }

    /// The index held at `coords`, or the lookup error.
    pub open spec fn spec_room_index(&self, coords: (usize, usize)) -> Result<usize, DungeonError> {
        if coords.0 < DUNGEON_GRID_ROWS && coords.1 < DUNGEON_GRID_COLS {
            Ok(self.grid_view()@[coords.0 as int]@[coords.1 as int])
        } else {
            Err(DungeonError::UnknownGridCoords(coords))
        }
    }

    fn get_room_index(&self, dungeon_coords: (usize, usize)) -> (result: Result<usize, DungeonError>)
        ensures
            result == self.spec_room_index(dungeon_coords),
    {
        if !(dungeon_coords.0 < DUNGEON_GRID_ROWS) {
            return Err(DungeonError::UnknownGridCoords(dungeon_coords));
        }
        if !(dungeon_coords.1 < DUNGEON_GRID_COLS) {
            return Err(DungeonError::UnknownGridCoords(dungeon_coords));
        }
        Ok(self.grid[dungeon_coords.0][dungeon_coords.1])
    }

    /// The room at `dungeon_coords`: an error for a cell off the map or without a room.
    pub fn get_room(&self, dungeon_coords: (usize, usize)) -> (result: Result<&Room, DungeonError>)
        ensures
            match self.spec_room_index(dungeon_coords) {
                Err(e) => result == Err::<&Room, DungeonError>(e),
                Ok(index) => if 1 <= index <= self.rooms_view().len() {
                    result == Ok::<&Room, DungeonError>(&self.rooms_view()[index - 1])
                } else {
                    result == Err::<&Room, DungeonError>(DungeonError::UnknownRoomIndex(index))
                },
            },
    {
        let index = self.get_room_index(dungeon_coords)?;
        if !(1 <= index && index <= self.rooms.len()) {
            return Err(DungeonError::UnknownRoomIndex(index));
        }
        Ok(&self.rooms[index - 1])
    }

    /// The room at `dungeon_coords`, to be changed in place: an error for a cell off the map or
    /// without a room, and then the dungeon is left as it was.
    pub fn get_room_mut(&mut self, dungeon_coords: (usize, usize)) -> (result: Result<&mut Room, DungeonError>)
        ensures
            final(self).grid_view() == old(self).grid_view(),
            match old(self).spec_room_index(dungeon_coords) {
                Err(e) => result == Err::<&mut Room, DungeonError>(e)
                    && final(self).rooms_view() == old(self).rooms_view(),
                Ok(index) => if 1 <= index <= old(self).rooms_view().len() {
                    match result {
                        Ok(room) => {
                            &&& *room == old(self).rooms_view()[index - 1]
                            &&& final(self).rooms_view() == old(self).rooms_view().update(index - 1, *final(room))
                        },
                        Err(_) => false,
                    }
                } else {
                    result == Err::<&mut Room, DungeonError>(DungeonError::UnknownRoomIndex(index))
                        && final(self).rooms_view() == old(self).rooms_view()
                },
            },
    {
        let index = self.get_room_index(dungeon_coords)?;
        if !(1 <= index && index <= self.rooms.len()) {
            return Err(DungeonError::UnknownRoomIndex(index));
        }
        Ok(&mut self.rooms[index - 1])
    }

    /// The dungeon map: 0 where there is no room, the room's index where there is one.
    pub fn get_grid(&self) -> (result: &[[usize; DUNGEON_GRID_COLS]; DUNGEON_GRID_ROWS])
        ensures
            *result == self.grid_view(),
    {
        &self.grid
    }

    /// The cell of the start room.
    pub fn get_start_room_coords() -> (result: (usize, usize))
        ensures
            result == (3usize, 5usize),
    {
        (3, 5)
    }
}

} // verus!
