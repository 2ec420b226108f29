use vstd::prelude::*;
use crate::consts::{DUNGEON_GRID_COLS, DUNGEON_GRID_ROWS};
use crate::distance::{in_room, is_distance_grid, is_walk, lemma_walk_extend, lemma_walk_prefix, shortest_walk, tile, walk_of_len, walkable, RoomGrid};
use crate::dungeon::{Block, BlockTag, Direction, Dungeon, Enemy, EnemyTag, Room};
use crate::layout::parse_items;
use crate::generate::{generated, grown, offered, pick, spec_door_connects};
use crate::grid::{
    adjacent, all_rooms_reachable, cell, spec_cardinals, consistency_check_defined, indices_distinct, is_room, lemma_reachable_is_room,
    lemma_walk_from_start_some, reachable, walk_from_start, DungeonGrid,
};
use crate::minimap::{mark, mark_after};
use crate::room::{doors_set, is_open_door, open_doors};

verus! {

/// Looking up a cell that holds a room gives the room standing at that cell.
pub proof fn law_lookup_gives_room_at(d: Dungeon, coords: (usize, usize))
    requires
        d.wf(),
        coords.0 < DUNGEON_GRID_ROWS,
        coords.1 < DUNGEON_GRID_COLS,
        cell(d.grid_view(), coords.0 as int, coords.1 as int) != 0,
    ensures
        d.spec_room_index(coords) == Ok::<usize, crate::dungeon::DungeonError>(
            cell(d.grid_view(), coords.0 as int, coords.1 as int) as usize,
        ),
        1 <= cell(d.grid_view(), coords.0 as int, coords.1 as int) <= d.rooms_view().len(),
        d.rooms_view()[cell(d.grid_view(), coords.0 as int, coords.1 as int) - 1].dungeon_coords == coords,
{
}

/// After a room is changed in place through `get_room_mut`, looking up the same cell gives the
/// changed room; and the dungeon stays well formed when the changed room keeps its cell and
/// its doors sound.
pub proof fn law_lookup_after_change(d1: Dungeon, d2: Dungeon, coords: (usize, usize), room: Room)
    requires
        d1.wf(),
        coords.0 < DUNGEON_GRID_ROWS,
        coords.1 < DUNGEON_GRID_COLS,
        cell(d1.grid_view(), coords.0 as int, coords.1 as int) != 0,
        d2.grid_view() == d1.grid_view(),
        d2.rooms_view() == d1.rooms_view().update(cell(d1.grid_view(), coords.0 as int, coords.1 as int) - 1, room),
    ensures
        d2.spec_room_index(coords) == d1.spec_room_index(coords),
        d2.rooms_view()[cell(d1.grid_view(), coords.0 as int, coords.1 as int) - 1] == room,
        room.dungeon_coords == coords && room.wf() ==> d2.wf(),
{
    let k = cell(d1.grid_view(), coords.0 as int, coords.1 as int) - 1;
    if room.dungeon_coords == coords && room.wf() {
        assert forall|t: int| 0 <= t < d2.rooms_view().len() implies {
            &&& (#[trigger] d2.rooms_view()[t]).dungeon_coords.0 < DUNGEON_GRID_ROWS
            &&& d2.rooms_view()[t].dungeon_coords.1 < DUNGEON_GRID_COLS
            &&& cell(
                d2.grid_view(),
                d2.rooms_view()[t].dungeon_coords.0 as int,
                d2.rooms_view()[t].dungeon_coords.1 as int,
            ) == t + 1
            &&& d2.rooms_view()[t].wf()
        } by {
            if t != k {
                assert(d2.rooms_view()[t] == d1.rooms_view()[t]);
            }
        }
    }
}

/// Doors come in pairs: when two rooms touch, each has a door slot leading to the other, on
/// opposite sides.
pub proof fn law_doors_pair_up(grid: DungeonGrid, i: int, j: int)
    requires
        is_room(grid, i, j),
    ensures
        is_room(grid, i + 1, j) ==> {
            &&& spec_door_connects(grid, i, j)[3] == Some((((i + 1) as usize, j as usize), Direction::South))
            &&& spec_door_connects(grid, i + 1, j)[0] == Some(((i as usize, j as usize), Direction::North))
        },
        is_room(grid, i, j + 1) ==> {
            &&& spec_door_connects(grid, i, j)[2] == Some(((i as usize, (j + 1) as usize), Direction::East))
            &&& spec_door_connects(grid, i, j + 1)[1] == Some(((i as usize, j as usize), Direction::West))
        },
{
}

/// A dungeon that comes out of the generator passes the consistency check: the check's walk
/// ends without leaving the room indices, its room indices are distinct, and every room can be
/// reached from the start room; by the contract of `check_dungeon_consistency`, the check then
/// answers `true`.
pub proof fn law_generated_passes_check(d: Dungeon)
    requires
        generated(d),
    ensures
        walk_from_start(d.grid_view(), d.rooms_view().len() as int) is Some,
        consistency_check_defined(d.grid_view(), d.rooms_view().len() as int),
        indices_distinct(d.grid_view()),
        all_rooms_reachable(d.grid_view(), d.rooms_view().len() as int),
{
    let g = d.grid_view();
    assert forall|c: (int, int)| #[trigger] reachable(g, c) implies cell(g, c.0, c.1) <= d.rooms_view().len() by {
        lemma_reachable_is_room(g, c);
    }
    lemma_walk_from_start_some(g, d.rooms_view().len() as int);
    assert forall|a: int, b: int, c: int, e: int|
        is_room(g, a, b) && is_room(g, c, e) && (a != c || b != e) implies #[trigger] cell(g, a, b) != #[trigger] cell(
        g,
        c,
        e,
    ) by {
        if cell(g, a, b) == cell(g, c, e) {
            assert(d.rooms_view()[cell(g, a, b) - 1].dungeon_coords == (a as usize, b as usize));
            assert(d.rooms_view()[cell(g, c, e) - 1].dungeon_coords == (c as usize, e as usize));
        }
    }
}

/// Walking the distance field uphill leads to the target: every free tile that holds a
/// distance has a neighbour holding exactly one more.
pub proof fn law_distance_uphill(g: RoomGrid, t: (int, int), r: RoomGrid, i: int, j: int)
    requires
        in_room(t.0, t.1),
        is_distance_grid(g, t, r),
        in_room(i, j),
        (i, j) != t,
        tile(g, i, j) == 0,
        tile(r, i, j) != 0,
    ensures
        exists|a: int, b: int| #![trigger tile(r, a, b)]
            adjacent((a, b), (i, j)) && in_room(a, b) && tile(r, a, b) == tile(r, i, j) + 1,
{
    assert(tile(r, i, j) != 0);
    let d = i32::MAX - tile(r, i, j);
    assert(shortest_walk(g, t, (i, j), d));
    let p = choose|p: Seq<(int, int)>| #[trigger] is_walk(g, t, p) && p.len() == d + 1 && p.last() == (i, j);
    assert(p[0] == t);
    assert(d >= 1);
    lemma_walk_prefix(g, t, p);
    let w = p.drop_last().last();
    assert(walk_of_len(g, t, w, d - 1));
    if w == t {
        if d > 1 {
            let q = seq![t, (i, j)];
            assert(q[1] == (i, j));
            assert(q.last() == (i, j));
            assert(is_walk(g, t, q));
            assert(walk_of_len(g, t, (i, j), 1));
        }
        assert(tile(r, w.0, w.1) == tile(r, i, j) + 1);
    } else {
        assert(p[p.len() - 2] == w);
        assert(in_room(w.0, w.1) && tile(g, w.0, w.1) == 0);
        assert(walkable(g, t, w));
        assert(tile(r, w.0, w.1) != 0);
        let dw = i32::MAX - tile(r, w.0, w.1);
        assert(shortest_walk(g, t, w, dw));
        assert(dw <= d - 1) by {
            if dw > d - 1 {
                assert(!walk_of_len(g, t, w, d - 1));
            }
        }
        lemma_walk_extend(g, t, w, dw, (i, j));
        assert(dw >= d - 1) by {
            if dw < d - 1 {
                assert(!walk_of_len(g, t, (i, j), dw + 1));
            }
        }
        assert(tile(r, w.0, w.1) == tile(r, i, j) + 1);
    }
}

proof fn lemma_no_open_doors(obstacles: Seq<Block>, doors: Seq<usize>)
    requires
        forall|k: int| 0 <= k < doors.len() ==> !is_open_door(obstacles[#[trigger] doors[k] as int]),
    ensures
        open_doors(obstacles, doors) == 0,
    decreases doors.len(),
{
    if doors.len() > 0 {
        let rest = doors.drop_last();
        assert forall|k: int| 0 <= k < rest.len() implies !is_open_door(obstacles[#[trigger] rest[k] as int]) by {
            assert(rest[k] == doors[k]);
        }
        lemma_no_open_doors(obstacles, rest);
        assert(!is_open_door(obstacles[doors[doors.len() - 1] as int]));
    }
}

/// Once the doors of a room are shut, shutting them again shuts none: a room still under
/// attack plays its door sound only once.
pub proof fn law_shut_doors_stay_shut(before: Seq<Block>, doors: Seq<usize>, after: Seq<Block>)
    requires
        doors_set(before, doors, false, after),
        forall|k: int| 0 <= k < doors.len() ==> #[trigger] doors[k] < before.len(),
    ensures
        open_doors(after, doors) == 0,
{
    assert forall|k: int| 0 <= k < doors.len() implies !is_open_door(after[#[trigger] doors[k] as int]) by {
        let m = doors[k] as int;
        assert(doors.contains(m as usize));
    }
    lemma_no_open_doors(after, doors);
}

/// A cell the minimap marks as visited (or current) stays marked at least visited, the room
/// just left becomes visited, the room entered becomes current, and marks stay within 0..=3.
pub proof fn law_minimap_keeps_visits(
    visited: [[usize; DUNGEON_GRID_COLS]; DUNGEON_GRID_ROWS],
    old_cur: (usize, usize),
    grid: DungeonGrid,
    cur: (usize, usize),
    a: int,
    b: int,
)
    ensures
        mark(visited, a, b) >= 2 ==> mark_after(visited, old_cur, grid, cur, a, b) >= 2,
        (a, b) == (old_cur.0 as int, old_cur.1 as int) ==> mark_after(visited, old_cur, grid, cur, a, b) >= 2,
        (a, b) == (cur.0 as int, cur.1 as int) ==> mark_after(visited, old_cur, grid, cur, a, b) == 3,
        mark(visited, a, b) <= 3 ==> 0 <= mark_after(visited, old_cur, grid, cur, a, b) <= 3,
{
}


/// Entering a room marks it current (3) and the room left visited (2), and reveals (raises to
/// at least 1) every room next to the room entered: the one below and the one to the right,
/// and the one above or to the left when the room entered lies past the first row or column.
/// Every other cell keeps its mark.
pub proof fn law_minimap_reveals_around_room_entered(
    visited: [[usize; DUNGEON_GRID_COLS]; DUNGEON_GRID_ROWS],
    old_cur: (usize, usize),
    grid: DungeonGrid,
    cur: (usize, usize),
    a: int,
    b: int,
)
    requires
        cur.0 < DUNGEON_GRID_ROWS,
        cur.1 < DUNGEON_GRID_COLS,
    ensures
        ({
            let r = cur.0 as int;
            let c = cur.1 as int;
            let near = is_room(grid, a, b) && {
                ||| (a == r + 1 && b == c)
                ||| (a == r && b == c + 1)
                ||| (a == r - 1 && b == c && r > 1)
                ||| (a == r && b == c - 1 && c > 1)
            };
            let left = (a, b) == (old_cur.0 as int, old_cur.1 as int);
            let after = mark_after(visited, old_cur, grid, cur, a, b);
            &&& (a, b) == (r, c) ==> after == 3
            &&& left && (a, b) != (r, c) ==> after == 2
            &&& near && !left ==> after == if mark(visited, a, b) < 1 { 1 } else { mark(visited, a, b) }
            &&& near ==> after >= 1
            &&& (a, b) != (r, c) && !left && !near ==> after == mark(visited, a, b)
        }),
{
}


/// Reading a layout puts each enemy on the tile of its own character, a shooter on an `m` and a
/// chaser on a `b`; the enemies come in the order of their characters, and every `m` or `b`
/// of the layout gives one.
pub proof fn law_enemies_stand_on_their_characters(s: Seq<char>, dc: Seq<Option<((usize, usize), Direction)>>)
    requires
        s.len() <= usize::MAX,
    ensures
        ({
            let ens = parse_items(s, dc).1;
            &&& forall|k: int|
                0 <= k < ens.len() ==> {
                    &&& (#[trigger] ens[k]).cell < s.len()
                    &&& (ens[k].tag is Shooter && s[ens[k].cell as int] == 'm') || (ens[k].tag is Chaser
                        && s[ens[k].cell as int] == 'b')
                }
            &&& forall|x: int, y: int| 0 <= x < y < ens.len() ==> (#[trigger] ens[x]).cell < (#[trigger] ens[y]).cell
            &&& forall|i: int|
                0 <= i < s.len() && (s[i] == 'm' || s[i] == 'b') ==> exists|k: int|
                    0 <= k < ens.len() && (#[trigger] ens[k]).cell == i
        }),
    decreases s.len(),
{
    if s.len() > 0 {
        let t = s.drop_last();
        law_enemies_stand_on_their_characters(t, dc);
        let prev = parse_items(t, dc).1;
        let ens = parse_items(s, dc).1;
        let n = s.len() - 1;
        let c = s.last();
        assert(c == s[n]);
        if c == 'm' {
            assert(ens == prev.push(Enemy { cell: n as usize, tag: EnemyTag::Shooter }));
        } else if c == 'b' {
            assert(ens == prev.push(Enemy { cell: n as usize, tag: EnemyTag::Chaser }));
        } else {
            assert(ens == prev);
        }
        assert(forall|k: int| 0 <= k < prev.len() ==> #[trigger] ens[k] == prev[k]);
        assert forall|k: int| 0 <= k < ens.len() implies {
            &&& (#[trigger] ens[k]).cell < s.len()
            &&& (ens[k].tag is Shooter && s[ens[k].cell as int] == 'm') || (ens[k].tag is Chaser && s[ens[k].cell as int]
                == 'b')
        } by {
            if k < prev.len() {
                assert(ens[k] == prev[k]);
                assert(s[prev[k].cell as int] == t[prev[k].cell as int]);
            }
        }
        assert forall|x: int, y: int| 0 <= x < y < ens.len() implies (#[trigger] ens[x]).cell < (#[trigger] ens[y]).cell by {
            assert(ens[x] == prev[x]);
            if y < prev.len() {
                assert(ens[y] == prev[y]);
            }
        }
        assert forall|i: int| 0 <= i < s.len() && (s[i] == 'm' || s[i] == 'b') implies exists|k: int|
            0 <= k < ens.len() && (#[trigger] ens[k]).cell == i by {
            if i < n {
                assert(t[i] == s[i]);
                let k = choose|k: int| 0 <= k < prev.len() && (#[trigger] prev[k]).cell == i;
                assert(ens[k] == prev[k]);
            } else {
                assert(ens[ens.len() - 1].cell == i);
            }
        }
    }
}


/// The neighbour of `(i, j)` in direction `d`: south, north, east, west for `d` = 0, 1, 2, 3.
pub open spec fn neighbour_in(i: int, j: int, d: int) -> (int, int) {
    if d == 0 {
        (i + 1, j)
    } else if d == 1 {
        (i - 1, j)
    } else if d == 2 {
        (i, j + 1)
    } else {
        (i, j - 1)
    }
}

/// Growing from the room at `(i, j)` takes the neighbour in direction `d` whenever its coin
/// came up and it lies on the map, is free and touches at most one room, in whichever row or
/// column it lies, as long as the wanted number of rooms leaves space for all four offers;
/// and every room it adds is such a neighbour.
pub proof fn law_growth_takes_free_neighbours(
    grid: DungeonGrid,
    c: Seq<(usize, usize)>,
    i: int,
    j: int,
    coins: Seq<bool>,
    rc: int,
    d: int,
)
    requires
        coins.len() == 4,
        c.len() <= rc,
    ensures
        ({
            let x = neighbour_in(i, j, d);
            0 <= d < 4 && coins[d] && 0 <= x.0 < DUNGEON_GRID_ROWS && 0 <= x.1 < DUNGEON_GRID_COLS && cell(grid, x.0, x.1)
                == 0 && spec_cardinals(grid, x.0, x.1) <= 1 && c.len() + 4 <= rc ==> grown(
                c,
                offered(grid, i, j, coins),
                rc,
            ).contains((x.0 as usize, x.1 as usize))
        }),
        forall|k: int|
            #![trigger grown(c, offered(grid, i, j, coins), rc)[k]]
            c.len() <= k < grown(c, offered(grid, i, j, coins), rc).len() ==> exists|e: int|
                #![trigger neighbour_in(i, j, e)]
                0 <= e < 4 && coins[e] && {
                    let y = neighbour_in(i, j, e);
                    &&& 0 <= y.0 < DUNGEON_GRID_ROWS
                    &&& 0 <= y.1 < DUNGEON_GRID_COLS
                    &&& cell(grid, y.0, y.1) == 0
                    &&& spec_cardinals(grid, y.0, y.1) <= 1
                    &&& grown(c, offered(grid, i, j, coins), rc)[k] == (y.0 as usize, y.1 as usize)
                },
{
    let p0 = pick(grid, (i + 1, j), coins[0]);
    let p1 = pick(grid, (i - 1, j), coins[1]);
    let p2 = pick(grid, (i, j + 1), coins[2]);
    let p3 = pick(grid, (i, j - 1), coins[3]);
    let o = offered(grid, i, j, coins);
    assert(o == p0 + p1 + p2 + p3);
    let g = grown(c, o, rc);
    assert(o.len() <= 4);
    if c.len() + 4 <= rc {
        assert(g =~= c + o);
    }
    let x = neighbour_in(i, j, d);
    if 0 <= d < 4 && coins[d] && 0 <= x.0 < DUNGEON_GRID_ROWS && 0 <= x.1 < DUNGEON_GRID_COLS && cell(grid, x.0, x.1) == 0
        && spec_cardinals(grid, x.0, x.1) <= 1 && c.len() + 4 <= rc {
        let n = (x.0 as usize, x.1 as usize);
        if d == 0 {
            assert(g[c.len() as int] == n);
        } else if d == 1 {
            assert(g[(c.len() + p0.len()) as int] == n);
        } else if d == 2 {
            assert(g[(c.len() + p0.len() + p1.len()) as int] == n);
        } else {
            assert(g[(c.len() + p0.len() + p1.len() + p2.len()) as int] == n);
        }
    }
    assert forall|k: int| #![trigger g[k]] c.len() <= k < g.len() implies exists|e: int|
        #![trigger neighbour_in(i, j, e)]
        0 <= e < 4 && coins[e] && {
            let y = neighbour_in(i, j, e);
            &&& 0 <= y.0 < DUNGEON_GRID_ROWS
            &&& 0 <= y.1 < DUNGEON_GRID_COLS
            &&& cell(grid, y.0, y.1) == 0
            &&& spec_cardinals(grid, y.0, y.1) <= 1
            &&& g[k] == (y.0 as usize, y.1 as usize)
        } by {
        let m = k - c.len();
        assert(g[k] == o[m]);
        if m < p0.len() {
            assert(neighbour_in(i, j, 0) == (i + 1, j));
        } else if m < p0.len() + p1.len() {
            assert(neighbour_in(i, j, 1) == (i - 1, j));
        } else if m < p0.len() + p1.len() + p2.len() {
            assert(neighbour_in(i, j, 2) == (i, j + 1));
        } else {
            assert(neighbour_in(i, j, 3) == (i, j - 1));
        }
    }
}


/// The obstacle a layout character gives: a wall for `#`, a stone for `.`, spikes for `v`,
/// and a door, or a wall where the slot leads nowhere, for `d`.
pub open spec fn obstacle_char(tag: BlockTag, ch: char) -> bool {
    match tag {
        BlockTag::Wall => ch == '#' || ch == 'd',
        BlockTag::Stone => ch == '.',
        BlockTag::Spikes => ch == 'v',
        BlockTag::Door { .. } => ch == 'd',
    }
}

/// Reading a layout puts each obstacle on the tile of its own character, in the order of the
/// characters, and every `#`, `.`, `v` or `d` gives one; each door listed is an obstacle that
/// is a door, standing on a `d`, listed in increasing order.
pub proof fn law_obstacles_stand_on_their_characters(s: Seq<char>, dc: Seq<Option<((usize, usize), Direction)>>)
    requires
        s.len() <= usize::MAX,
    ensures
        ({
            let obs = parse_items(s, dc).0;
            let drs = parse_items(s, dc).2;
            &&& obs.len() <= s.len()
            &&& forall|k: int|
                0 <= k < obs.len() ==> (#[trigger] obs[k]).cell < s.len() && obstacle_char(obs[k].tag, s[obs[k].cell as int])
            &&& forall|x: int, y: int| 0 <= x < y < obs.len() ==> (#[trigger] obs[x]).cell < (#[trigger] obs[y]).cell
            &&& forall|i: int|
                0 <= i < s.len() && (s[i] == '#' || s[i] == '.' || s[i] == 'v' || s[i] == 'd') ==> exists|k: int|
                    0 <= k < obs.len() && (#[trigger] obs[k]).cell == i
            &&& forall|k: int| 0 <= k < drs.len() ==> (#[trigger] drs[k]) < obs.len() && obs[drs[k] as int].tag is Door
            &&& forall|x: int, y: int| 0 <= x < y < drs.len() ==> (#[trigger] drs[x]) < (#[trigger] drs[y])
        }),
    decreases s.len(),
{
    if s.len() > 0 {
        let t = s.drop_last();
        law_obstacles_stand_on_their_characters(t, dc);
        let prev = parse_items(t, dc);
        let cur = parse_items(s, dc);
        let po = prev.0;
        let obs = cur.0;
        let pd = prev.2;
        let drs = cur.2;
        let n = s.len() - 1;
        let ch = s.last();
        assert(ch == s[n]);
        let i = n as usize;
        if ch == '#' {
            assert(obs == po.push(Block { cell: i, tag: BlockTag::Wall }) && drs == pd);
        } else if ch == '.' {
            assert(obs == po.push(Block { cell: i, tag: BlockTag::Stone }) && drs == pd);
        } else if ch == 'v' {
            assert(obs == po.push(Block { cell: i, tag: BlockTag::Spikes }) && drs == pd);
        } else if ch == 'd' {
            match dc[prev.3] {
                Some(conn) => {
                    assert(obs == po.push(
                        Block { cell: i, tag: BlockTag::Door { dir: conn.1, is_open: true, connects_to: conn.0 } },
                    ));
                    assert(drs == pd.push(po.len() as usize));
                },
                None => {
                    assert(obs == po.push(Block { cell: i, tag: BlockTag::Wall }) && drs == pd);
                },
            }
        } else {
            assert(obs == po && drs == pd);
        }
        assert(forall|k: int| 0 <= k < po.len() ==> #[trigger] obs[k] == po[k]);
        assert(forall|k: int| 0 <= k < pd.len() ==> #[trigger] drs[k] == pd[k]);
        assert forall|k: int| 0 <= k < obs.len() implies (#[trigger] obs[k]).cell < s.len() && obstacle_char(
            obs[k].tag,
            s[obs[k].cell as int],
        ) by {
            if k < po.len() {
                assert(obs[k] == po[k]);
                assert(s[po[k].cell as int] == t[po[k].cell as int]);
            }
        }
        assert forall|x: int, y: int| 0 <= x < y < obs.len() implies (#[trigger] obs[x]).cell < (#[trigger] obs[y]).cell by {
            assert(obs[x] == po[x]);
            if y < po.len() {
                assert(obs[y] == po[y]);
            }
        }
        assert forall|j: int| 0 <= j < s.len() && (s[j] == '#' || s[j] == '.' || s[j] == 'v' || s[j] == 'd') implies exists|k: int|
            0 <= k < obs.len() && (#[trigger] obs[k]).cell == j by {
            if j < n {
                assert(t[j] == s[j]);
                let k = choose|k: int| 0 <= k < po.len() && (#[trigger] po[k]).cell == j;
                assert(obs[k] == po[k]);
            } else {
                assert(obs[obs.len() - 1].cell == j);
            }
        }
        assert forall|k: int| 0 <= k < drs.len() implies (#[trigger] drs[k]) < obs.len() && obs[drs[k] as int].tag is Door by {
            if k < pd.len() {
                assert(drs[k] == pd[k]);
                assert(obs[pd[k] as int] == po[pd[k] as int]);
            }
        }
        assert forall|x: int, y: int| 0 <= x < y < drs.len() implies (#[trigger] drs[x]) < (#[trigger] drs[y]) by {
            assert(drs[x] == pd[x]);
            if y < pd.len() {
                assert(drs[y] == pd[y]);
            }
        }
    }
}

/// Growing keeps the rooms listed before and appends the rooms offered, in the order offered,
/// as many as fit below the wanted number of rooms.
pub proof fn law_growth_appends_offers_in_order(c: Seq<(usize, usize)>, o: Seq<(usize, usize)>, rc: int)
    requires
        c.len() <= rc,
    ensures
        grown(c, o, rc).len() == if c.len() + o.len() <= rc { c.len() + o.len() } else { rc as nat },
        forall|k: int| 0 <= k < c.len() ==> #[trigger] grown(c, o, rc)[k] == c[k],
        forall|k: int| c.len() <= k < grown(c, o, rc).len() ==> #[trigger] grown(c, o, rc)[k] == o[k - c.len()],
{
}

} // verus!
