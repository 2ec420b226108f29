use vstd::prelude::*;
use crate::consts::{DUNGEON_GRID_COLS, DUNGEON_GRID_ROWS};
use crate::dungeon::{Direction, Dungeon, Room, RoomTag};
use crate::grid::{
    adjacent, spec_cardinals, all_rooms_reachable, cell, consistency_check_defined, index_reachable, indices_distinct, is_room,
    lemma_reachable_grows, lemma_reachable_is_room, lemma_reachable_start, lemma_reachable_step, lemma_walk_from_start_some, reachable,
    DungeonGrid,
};
use crate::layout::{layout_choices, layout_text, normalize, room_built_from, DoorConnects};
use crate::random::gen_range_below;
use std::collections::VecDeque;

verus! {

/// `coords[k]` is the cell of the room with index `k + 1`, and the map holds exactly these
/// rooms.
#[verifier::opaque]
pub open spec fn coords_match(grid: DungeonGrid, coords: Seq<(usize, usize)>) -> bool {
    &&& forall|k: int|
        0 <= k < coords.len() ==> {
            &&& (#[trigger] coords[k]).0 < DUNGEON_GRID_ROWS
            &&& coords[k].1 < DUNGEON_GRID_COLS
            &&& cell(grid, coords[k].0 as int, coords[k].1 as int) == k + 1
        }
    &&& forall|i: int, j: int|
        0 <= i < DUNGEON_GRID_ROWS && 0 <= j < DUNGEON_GRID_COLS && #[trigger] cell(grid, i, j) != 0 ==> {
            &&& cell(grid, i, j) <= coords.len()
            &&& coords[cell(grid, i, j) - 1] == (i as usize, j as usize)
        }
}

/// Every listed room can be reached from the start cell.
#[verifier::opaque]
pub open spec fn coords_reachable(grid: DungeonGrid, coords: Seq<(usize, usize)>) -> bool {
    forall|k: int| 0 <= k < coords.len() ==> reachable(grid, ((#[trigger] coords[k]).0 as int, coords[k].1 as int))
}

/// Where the door slots of the room at `(i, j)` lead, in the order north, west, east, south:
/// to the neighbouring room on that side, if there is one.
pub open spec fn spec_door_connects(grid: DungeonGrid, i: int, j: int) -> Seq<Option<((usize, usize), Direction)>> {
    seq![
        if is_room(grid, i - 1, j) { Some((((i - 1) as usize, j as usize), Direction::North)) } else { None },
        if is_room(grid, i, j - 1) { Some(((i as usize, (j - 1) as usize), Direction::West)) } else { None },
        if is_room(grid, i, j + 1) { Some(((i as usize, (j + 1) as usize), Direction::East)) } else { None },
        if is_room(grid, i + 1, j) { Some((((i + 1) as usize, j as usize), Direction::South)) } else { None },
    ]
}

/// The cell of the room listed at `k` in `c`, as integers.
pub open spec fn cpos(c: Seq<(usize, usize)>, k: int) -> (int, int) {
    (c[k].0 as int, c[k].1 as int)
}

/// The rooms listed at `a` and `b` in `c` lie side by side.
pub open spec fn touches(c: Seq<(usize, usize)>, a: int, b: int) -> bool {
    adjacent(cpos(c, a), cpos(c, b))
}

/// The room listed at `b` touches exactly one of the rooms listed before it.
pub open spec fn touches_one_earlier(c: Seq<(usize, usize)>, b: int) -> bool {
    &&& exists|a: int| 0 <= a < b && #[trigger] touches(c, a, b)
    &&& forall|a1: int, a2: int|
        0 <= a1 < b && 0 <= a2 < b && #[trigger] touches(c, a1, b) && #[trigger] touches(c, a2, b) ==> a1 == a2
}

/// The rooms, in the order listed, form a tree grown from the first one: each later room
/// touches exactly one room listed before it.
pub open spec fn tree_shaped(c: Seq<(usize, usize)>) -> bool {
    forall|b: int| 1 <= b < c.len() ==> #[trigger] touches_one_earlier(c, b)
}

/// The room listed at `b` lies next to the room listed at `parent`, an earlier one, and
/// touches no other room listed before it.
#[verifier::opaque]
pub open spec fn child_of(c: Seq<(usize, usize)>, b: int, parent: int) -> bool {
    &&& 0 <= parent < b
    &&& touches(c, parent, b)
    &&& forall|a: int| 0 <= a < b && #[trigger] touches(c, a, b) ==> a == parent
}

/// The room listed at `k` is a dead end of the map: exactly one of its neighbours is a room.
pub open spec fn dead_end(grid: DungeonGrid, c: Seq<(usize, usize)>, k: int) -> bool {
    spec_cardinals(grid, c[k].0 as int, c[k].1 as int) == 1
}

/// `end_rooms` lists the dead ends of the map grown as `c`, in the order the rooms were
/// added: exactly the rooms after the first one that touch a single room, by increasing
/// index, the last of them being the last room added.
pub open spec fn dead_ends_listed(grid: DungeonGrid, c: Seq<(usize, usize)>, end_rooms: Seq<(usize, usize)>) -> bool {
    &&& end_rooms.len() >= 1
    &&& end_rooms.last() == c.last()
    &&& forall|t: int|
        0 <= t < end_rooms.len() ==> is_room(grid, (#[trigger] end_rooms[t]).0 as int, end_rooms[t].1 as int)
    &&& forall|a: int, b: int|
        0 <= a < b < end_rooms.len() ==> cell(grid, (#[trigger] end_rooms[a]).0 as int, end_rooms[a].1 as int)
            < cell(grid, (#[trigger] end_rooms[b]).0 as int, end_rooms[b].1 as int)
    &&& c.len() >= 2 ==> forall|t: int|
        0 <= t < end_rooms.len() ==> {
            &&& cell(grid, (#[trigger] end_rooms[t]).0 as int, end_rooms[t].1 as int) >= 2
            &&& spec_cardinals(grid, end_rooms[t].0 as int, end_rooms[t].1 as int) == 1
        }
    &&& c.len() >= 2 ==> forall|k: int| 1 <= k < c.len() && #[trigger] dead_end(grid, c, k) ==> end_rooms.contains(c[k])
}

/// Two different rooms next to the cell `x` make its neighbour count at least two.
proof fn lemma_two_neighbours(grid: DungeonGrid, c: Seq<(usize, usize)>, a: int, b: int, x: (int, int))
    requires
        coords_match(grid, c),
        0 <= a < c.len(),
        0 <= b < c.len(),
        a != b,
        adjacent(cpos(c, a), x),
        adjacent(cpos(c, b), x),
    ensures
        spec_cardinals(grid, x.0, x.1) >= 2,
{
    reveal(coords_match);
    assert(cell(grid, c[a].0 as int, c[a].1 as int) == a + 1);
    assert(cell(grid, c[b].0 as int, c[b].1 as int) == b + 1);
}

proof fn lemma_neighbour_is(grid: DungeonGrid, c: Seq<(usize, usize)>, a: int, x: (int, int), y: (int, int))
    requires
        coords_match(grid, c),
        0 <= a < c.len(),
        forall|b: int| 0 <= b < c.len() && #[trigger] adjacent(cpos(c, b), x) ==> b == a,
        adjacent(y, x),
        is_room(grid, y.0, y.1),
    ensures
        y == cpos(c, a),
{
    reveal(coords_match);
    let b = cell(grid, y.0, y.1) - 1;
    assert(c[b] == (y.0 as usize, y.1 as usize));
    assert(cpos(c, b) == y);
    assert(adjacent(cpos(c, b), x));
}

/// A cell next to exactly one listed room has exactly one room among its neighbours.
proof fn lemma_one_neighbour(grid: DungeonGrid, c: Seq<(usize, usize)>, a: int, x: (int, int))
    requires
        coords_match(grid, c),
        0 <= a < c.len(),
        adjacent(cpos(c, a), x),
        forall|b: int| 0 <= b < c.len() && #[trigger] adjacent(cpos(c, b), x) ==> b == a,
    ensures
        spec_cardinals(grid, x.0, x.1) == 1,
{
    reveal(coords_match);
    assert(cell(grid, c[a].0 as int, c[a].1 as int) == a + 1);
    if is_room(grid, x.0 + 1, x.1) {
        lemma_neighbour_is(grid, c, a, x, (x.0 + 1, x.1));
    }
    if is_room(grid, x.0 - 1, x.1) {
        lemma_neighbour_is(grid, c, a, x, (x.0 - 1, x.1));
    }
    if is_room(grid, x.0, x.1 + 1) {
        lemma_neighbour_is(grid, c, a, x, (x.0, x.1 + 1));
    }
    if is_room(grid, x.0, x.1 - 1) {
        lemma_neighbour_is(grid, c, a, x, (x.0, x.1 - 1));
    }
}

/// Whether two listed rooms touch does not change when more rooms are listed after them.
proof fn lemma_touches_prefix(c: Seq<(usize, usize)>, c2: Seq<(usize, usize)>)
    requires
        c.len() <= c2.len(),
        c2.subrange(0, c.len() as int) == c,
    ensures
        forall|a: int, b: int|
            0 <= a < c.len() && 0 <= b < c.len() ==> #[trigger] touches(c2, a, b) == touches(c, a, b),
        forall|k: int| 0 <= k < c.len() ==> #[trigger] c2[k] == c[k],
        forall|b: int, parent: int| 0 <= b < c.len() && #[trigger] child_of(c, b, parent) ==> child_of(c2, b, parent),
        forall|b: int| 0 <= b < c.len() && #[trigger] touches_one_earlier(c, b) ==> touches_one_earlier(c2, b),
{
    reveal(child_of);
    assert forall|k: int| 0 <= k < c.len() implies #[trigger] c2[k] == c[k] by {
        assert(c2.subrange(0, c.len() as int)[k] == c2[k]);
    }
    assert forall|b: int, parent: int| 0 <= b < c.len() && #[trigger] child_of(c, b, parent) implies child_of(
        c2,
        b,
        parent,
    ) by {
        assert forall|a: int| 0 <= a < b && #[trigger] touches(c2, a, b) implies a == parent by {
            assert(touches(c, a, b));
        }
    }
    assert forall|b: int| 0 <= b < c.len() && #[trigger] touches_one_earlier(c, b) implies touches_one_earlier(c2, b) by {
        let a = choose|a: int| 0 <= a < b && #[trigger] touches(c, a, b);
        assert(touches(c2, a, b));
        assert forall|a1: int, a2: int|
            0 <= a1 < b && 0 <= a2 < b && #[trigger] touches(c2, a1, b) && #[trigger] touches(c2, a2, b) implies a1
            == a2 by {
            assert(touches(c, a1, b));
            assert(touches(c, a2, b));
        }
    }
}

/// Adds a room at the free cell `n` when at most one of its neighbours is a room.
fn add_room(
    grid: &mut DungeonGrid,
    coords: &mut Vec<(usize, usize)>,
    q: &mut VecDeque<(usize, usize)>,
    n: (usize, usize),
    Ghost(parent): Ghost<int>,
)
    requires
        n.0 < DUNGEON_GRID_ROWS,
        n.1 < DUNGEON_GRID_COLS,
        coords_match(*old(grid), old(coords)@),
        coords_reachable(*old(grid), old(coords)@),
        0 <= parent < old(coords)@.len(),
        adjacent(cpos(old(coords)@, parent), (n.0 as int, n.1 as int)),
    ensures
        coords_match(*final(grid), final(coords)@),
        coords_reachable(*final(grid), final(coords)@),
        final(q)@ == old(q)@ + final(coords)@.skip(old(coords)@.len() as int),
        final(coords)@.len() > old(coords)@.len() ==> child_of(final(coords)@, old(coords)@.len() as int, parent),
        final(coords)@ == if cell(*old(grid), n.0 as int, n.1 as int) == 0 && spec_cardinals(
            *old(grid),
            n.0 as int,
            n.1 as int,
        ) <= 1 {
            old(coords)@.push(n)
        } else {
            old(coords)@
        },
{
    proof {
        reveal(coords_match);
    }
    reveal(coords_reachable);
    if grid[n.0][n.1] == 0 && Dungeon::check_room_cardinals(grid, n) <= 1 {
        let ghost g0 = *grid;
        let ghost c0 = coords@;
        coords.push(n);
        grid[n.0][n.1] = coords.len();
        q.push_back(n);
        proof {
            assert forall|i: int, j: int|
                0 <= i < DUNGEON_GRID_ROWS && 0 <= j < DUNGEON_GRID_COLS && (i, j) != (n.0 as int, n.1 as int)
                implies #[trigger] cell(*grid, i, j) == cell(g0, i, j) by {
                if i != n.0 {
                    assert(grid@[i] == g0@[i]);
                }
            }
            assert forall|k: int| 0 <= k < coords@.len() implies {
                &&& (#[trigger] coords@[k]).0 < DUNGEON_GRID_ROWS
                &&& coords@[k].1 < DUNGEON_GRID_COLS
                &&& cell(*grid, coords@[k].0 as int, coords@[k].1 as int) == k + 1
            } by {
                if k < c0.len() {
                    assert(coords@[k] == c0[k]);
                    assert(cell(g0, c0[k].0 as int, c0[k].1 as int) == k + 1);
                }
            }
            assert forall|i: int, j: int|
                0 <= i < DUNGEON_GRID_ROWS && 0 <= j < DUNGEON_GRID_COLS && #[trigger] cell(*grid, i, j) != 0 implies {
                &&& cell(*grid, i, j) <= coords@.len()
                &&& coords@[cell(*grid, i, j) - 1] == (i as usize, j as usize)
            } by {
                if (i, j) != (n.0 as int, n.1 as int) {
                    assert(cell(*grid, i, j) == cell(g0, i, j));
                }
            }
            assert(coords@.skip(c0.len() as int) =~= seq![n]);
            assert(q@ =~= old(q)@ + coords@.skip(c0.len() as int));
            assert(coords@.subrange(0, c0.len() as int) =~= c0);
            assert forall|i: int, j: int| #[trigger] is_room(g0, i, j) implies is_room(*grid, i, j) by {
                if (i, j) != (n.0 as int, n.1 as int) {
                    assert(cell(*grid, i, j) == cell(g0, i, j));
                }
            }
            let par = (c0[parent].0 as int, c0[parent].1 as int);
            assert(reachable(g0, par));
            lemma_reachable_grows(g0, *grid, par);
            lemma_reachable_step(*grid, par, (n.0 as int, n.1 as int));
            assert forall|k: int| 0 <= k < coords@.len() implies reachable(*grid, ((#[trigger] coords@[k]).0 as int, coords@[k].1 as int)) by {
                if k < c0.len() {
                    assert(coords@[k] == c0[k]);
                    lemma_reachable_grows(g0, *grid, (c0[k].0 as int, c0[k].1 as int));
                }
            }
            let b = c0.len() as int;
            reveal(child_of);
            assert(coords@[parent] == c0[parent]);
            assert forall|a: int| 0 <= a < b && #[trigger] touches(coords@, a, b) implies a == parent by {
                assert(coords@[a] == c0[a]);
                if a != parent {
                    lemma_two_neighbours(g0, c0, a, parent, (n.0 as int, n.1 as int));
                }
            }
        }
    } else {
        assert(coords@.skip(coords@.len() as int) =~= Seq::<(usize, usize)>::empty());
        assert(q@ =~= q@ + coords@.skip(coords@.len() as int));
    }
}

/// The cell `c` offered for a new room: taken when its coin came up, it lies on the map, it is
/// free, and at most one of its neighbours is a room.
pub open spec fn pick(grid: DungeonGrid, c: (int, int), coin: bool) -> Seq<(usize, usize)> {
    if coin && 0 <= c.0 < DUNGEON_GRID_ROWS && 0 <= c.1 < DUNGEON_GRID_COLS && cell(grid, c.0, c.1) == 0
        && spec_cardinals(grid, c.0, c.1) <= 1 {
        seq![(c.0 as usize, c.1 as usize)]
    } else {
        Seq::empty()
    }
}

/// The neighbours of `(i, j)` that qualify for a new room, in the order south, north, east,
/// west, given the coins drawn for them in that order.
pub open spec fn offered(grid: DungeonGrid, i: int, j: int, coins: Seq<bool>) -> Seq<(usize, usize)> {
    pick(grid, (i + 1, j), coins[0]) + pick(grid, (i - 1, j), coins[1]) + pick(grid, (i, j + 1), coins[2])
        + pick(grid, (i, j - 1), coins[3])
}

/// `coords` with as many of `extra` appended, in order, as fit below `room_count` rooms.
pub open spec fn grown(coords: Seq<(usize, usize)>, extra: Seq<(usize, usize)>, room_count: int) -> Seq<(usize, usize)> {
    let room = room_count - coords.len();
    coords + extra.take(if extra.len() <= room { extra.len() as int } else { room })
}

proof fn lemma_grown_step(
    c0: Seq<(usize, usize)>,
    a: Seq<(usize, usize)>,
    pk: Seq<(usize, usize)>,
    rc: int,
    cur: Seq<(usize, usize)>,
    next: Seq<(usize, usize)>,
)
    requires
        c0.len() <= rc,
        cur == grown(c0, a, rc),
        pk.len() <= 1,
        next == if pk.len() == 1 && cur.len() < rc { cur.push(pk[0]) } else { cur },
    ensures
        next == grown(c0, a + pk, rc),
        next.len() <= rc,
        c0.len() <= next.len(),
        next.subrange(0, c0.len() as int) == c0,
        forall|k: int| c0.len() <= k < next.len() ==> #[trigger] next[k] == (a + pk)[k - c0.len()],
{
    let b = a + pk;
    assert(next =~= grown(c0, b, rc));
    assert(next.subrange(0, c0.len() as int) =~= c0);
}

/// Rooms stand at the same cells on two maps, except at the cells listed after `c1` in `c2`.
proof fn lemma_same_rooms(g1: DungeonGrid, c1: Seq<(usize, usize)>, g2: DungeonGrid, c2: Seq<(usize, usize)>, x: (int, int))
    requires
        coords_match(g1, c1),
        coords_match(g2, c2),
        c1.len() <= c2.len(),
        c2.subrange(0, c1.len() as int) == c1,
        forall|k: int| c1.len() <= k < c2.len() ==> (#[trigger] c2[k]).0 as int != x.0 || c2[k].1 as int != x.1,
    ensures
        is_room(g2, x.0, x.1) == is_room(g1, x.0, x.1),
{
    reveal(coords_match);
    if is_room(g2, x.0, x.1) {
        let k = cell(g2, x.0, x.1) - 1;
        assert(c2[k] == (x.0 as usize, x.1 as usize));
        assert(k < c1.len());
        assert(c1[k] == c2.subrange(0, c1.len() as int)[k]);
        assert(cell(g1, c1[k].0 as int, c1[k].1 as int) == k + 1);
    }
    if is_room(g1, x.0, x.1) {
        let k = cell(g1, x.0, x.1) - 1;
        assert(c1[k] == (x.0 as usize, x.1 as usize));
        assert(c2[k] == c2.subrange(0, c1.len() as int)[k]);
        assert(cell(g2, c2[k].0 as int, c2[k].1 as int) == k + 1);
    }
}

/// The offer of `n` looks the same on the current map as on the map before any neighbour of
/// `(i, j)` was added, as long as only cells away from `n` and its neighbours were added.
proof fn lemma_offer_unchanged(
    g0: DungeonGrid,
    c0: Seq<(usize, usize)>,
    g: DungeonGrid,
    c: Seq<(usize, usize)>,
    n: (int, int),
)
    requires
        coords_match(g0, c0),
        coords_match(g, c),
        c0.len() <= c.len(),
        c.subrange(0, c0.len() as int) == c0,
        0 <= n.0 < DUNGEON_GRID_ROWS,
        0 <= n.1 < DUNGEON_GRID_COLS,
        forall|k: int|
            c0.len() <= k < c.len() ==> {
                let d = (#[trigger] c[k]);
                &&& (d.0 as int, d.1 as int) != n
                &&& !adjacent((d.0 as int, d.1 as int), n)
            },
    ensures
        (cell(g, n.0, n.1) == 0) == (cell(g0, n.0, n.1) == 0),
        spec_cardinals(g, n.0, n.1) == spec_cardinals(g0, n.0, n.1),
{
    lemma_same_rooms(g0, c0, g, c, n);
    lemma_same_rooms(g0, c0, g, c, (n.0 + 1, n.1));
    lemma_same_rooms(g0, c0, g, c, (n.0 - 1, n.1));
    lemma_same_rooms(g0, c0, g, c, (n.0, n.1 + 1));
    lemma_same_rooms(g0, c0, g, c, (n.0, n.1 - 1));
}

/// One step of `expand_cell`: the queue holds what it held at the start followed by the rooms
/// added since, and each room added since hangs from the room at `par`.
proof fn lemma_expand_step(
    c0: Seq<(usize, usize)>,
    q0: Seq<(usize, usize)>,
    cur: Seq<(usize, usize)>,
    qc: Seq<(usize, usize)>,
    next: Seq<(usize, usize)>,
    qn: Seq<(usize, usize)>,
    par: int,
)
    requires
        c0.len() <= cur.len() <= next.len() <= cur.len() + 1,
        cur.subrange(0, c0.len() as int) == c0,
        next.subrange(0, cur.len() as int) == cur,
        qc == q0 + cur.skip(c0.len() as int),
        qn == qc + next.skip(cur.len() as int),
        forall|b: int| c0.len() <= b < cur.len() ==> #[trigger] child_of(cur, b, par),
        next.len() > cur.len() ==> child_of(next, cur.len() as int, par),
    ensures
        qn == q0 + next.skip(c0.len() as int),
        forall|b: int| c0.len() <= b < next.len() ==> #[trigger] child_of(next, b, par),
{
    assert(qn =~= q0 + next.skip(c0.len() as int));
    lemma_touches_prefix(cur, next);
    assert forall|b: int| c0.len() <= b < next.len() implies #[trigger] child_of(next, b, par) by {
        if b < cur.len() {
            assert(child_of(cur, b, par));
        }
    }
}

/// Offers each of the four neighbours of the room at `(i, j)`, in the order south, north, east,
/// west, when its coin (in `coins`, in the same order) came up and fewer than `room_count`
/// rooms exist; an offered cell becomes a room when it is free and touches at most one room.
/// Each room added is listed in `coords`, numbered on the map, and queued at the back of `q`;
/// it touches the room at `(i, j)` and no other room listed before it.
#[verifier::spinoff_prover]
#[verifier::rlimit(60)]
pub fn expand_cell(
    grid: &mut DungeonGrid,
    coords: &mut Vec<(usize, usize)>,
    q: &mut VecDeque<(usize, usize)>,
    i: usize,
    j: usize,
    room_count: usize,
    coins: [bool; 4],
)
    requires
        i < DUNGEON_GRID_ROWS,
        j < DUNGEON_GRID_COLS,
        old(coords)@.len() <= room_count,
        coords_match(*old(grid), old(coords)@),
        coords_reachable(*old(grid), old(coords)@),
        old(coords)@.contains((i, j)),
    ensures
        final(coords)@ == grown(old(coords)@, offered(*old(grid), i as int, j as int, coins@), room_count as int),
        coords_match(*final(grid), final(coords)@),
        coords_reachable(*final(grid), final(coords)@),
        final(q)@ == old(q)@ + final(coords)@.skip(old(coords)@.len() as int),
        final(coords)@.len() <= room_count,
        forall|b: int|
            old(coords)@.len() <= b < final(coords)@.len() ==> #[trigger] child_of(
                final(coords)@,
                b,
                cell(*old(grid), i as int, j as int) - 1,
            ),
{
    let ghost g0 = *grid;
    let ghost c0 = coords@;
    let ghost q0 = q@;
    let ghost rc = room_count as int;
    let ghost ii = i as int;
    let ghost jj = j as int;
    let ghost par = cell(g0, ii, jj) - 1;
    let ghost p1 = pick(g0, (ii + 1, jj), coins@[0]);
    let ghost p2 = pick(g0, (ii - 1, jj), coins@[1]);
    let ghost p3 = pick(g0, (ii, jj + 1), coins@[2]);
    let ghost p4 = pick(g0, (ii, jj - 1), coins@[3]);
    let ghost a1 = p1;
    let ghost a2 = a1 + p2;
    let ghost a3 = a2 + p3;
    let ghost a4 = a3 + p4;
    proof {
        assert(0 <= par < c0.len() && c0[par] == (i, j)) by {
            reveal(coords_match);
            let k = choose|k: int| 0 <= k < c0.len() && c0[k] == (i, j);
            assert(cell(g0, c0[k].0 as int, c0[k].1 as int) == k + 1);
        }
        assert(grown(c0, Seq::empty(), rc) =~= c0);
        assert(Seq::<(usize, usize)>::empty() + p1 =~= a1);
        assert(q0 + c0.skip(c0.len() as int) =~= q0);
    }
    // south
    let ghost cur = coords@;
    let ghost qc = q@;
    if coins[0] && coords.len() < room_count && i < DUNGEON_GRID_ROWS - 1 {
        proof {
            assert(cur =~= c0);
            assert(c0.subrange(0, c0.len() as int) =~= c0);
            lemma_offer_unchanged(g0, c0, *grid, coords@, (ii + 1, jj));
        }
        add_room(grid, coords, q, (i + 1, j), Ghost(par));
    }
    proof {
        lemma_grown_step(c0, Seq::empty(), p1, rc, cur, coords@);
        assert(coords@.subrange(0, cur.len() as int) =~= cur);
        lemma_expand_step(c0, q0, cur, qc, coords@, q@, par);
    }
    // north
    let ghost cur = coords@;
    let ghost qc = q@;
    if coins[1] && coords.len() < room_count && i > 0 {
        proof {
            assert(coords@[par] == c0[par]);
            lemma_offer_unchanged(g0, c0, *grid, coords@, (ii - 1, jj));
        }
        add_room(grid, coords, q, (i - 1, j), Ghost(par));
    }
    proof {
        lemma_grown_step(c0, a1, p2, rc, cur, coords@);
        assert(coords@.subrange(0, cur.len() as int) =~= cur);
        lemma_expand_step(c0, q0, cur, qc, coords@, q@, par);
    }
    // east
    let ghost cur = coords@;
    let ghost qc = q@;
    if coins[2] && coords.len() < room_count && j < DUNGEON_GRID_COLS - 1 {
        proof {
            assert(coords@[par] == c0[par]);
            lemma_offer_unchanged(g0, c0, *grid, coords@, (ii, jj + 1));
        }
        add_room(grid, coords, q, (i, j + 1), Ghost(par));
    }
    proof {
        lemma_grown_step(c0, a2, p3, rc, cur, coords@);
        assert(coords@.subrange(0, cur.len() as int) =~= cur);
        lemma_expand_step(c0, q0, cur, qc, coords@, q@, par);
    }
    // west
    let ghost cur = coords@;
    let ghost qc = q@;
    if coins[3] && coords.len() < room_count && j > 0 {
        proof {
            assert(coords@[par] == c0[par]);
            lemma_offer_unchanged(g0, c0, *grid, coords@, (ii, jj - 1));
        }
        add_room(grid, coords, q, (i, j - 1), Ghost(par));
    }
    proof {
        lemma_grown_step(c0, a3, p4, rc, cur, coords@);
        assert(coords@.subrange(0, cur.len() as int) =~= cur);
        lemma_expand_step(c0, q0, cur, qc, coords@, q@, par);
        assert(a4 =~= offered(g0, ii, jj, coins@));
    }
}

/// The tag the generator gives the room with index `k + 1`: the start room is the first one,
/// the boss room is the last dead end met and the item room the one before it.
pub open spec fn tag_for(k: int, boss: int, item: int) -> RoomTag {
    if k == 0 {
        RoomTag::Start
    } else if k == boss {
        RoomTag::Boss
    } else if k == item {
        RoomTag::Item
    } else {
        RoomTag::Mob
    }
}

/// The cells of `rooms`, in order.
pub open spec fn room_cells(rooms: Seq<Room>) -> Seq<(usize, usize)> {
    rooms.map_values(|r: Room| r.dungeon_coords)
}

/// What every dungeon coming out of the generator satisfies. Its rooms form a tree grown from
/// the start room (each later room touches exactly one room before it); the boss room is the
/// last room, a dead end, and the item room is the last dead end before it.
pub open spec fn generated(d: Dungeon) -> bool {
    let grid = d.grid_view();
    let rooms = d.rooms_view();
    let cells = room_cells(rooms);
    let n = rooms.len() as int;
    &&& d.wf()
    &&& 7 <= n <= 8
    &&& cell(grid, 3, 5) == 1
    &&& all_rooms_reachable(grid, n)
    &&& tree_shaped(cells)
    &&& dead_end(grid, cells, n - 1)
    &&& exists|item: int|
        #![trigger dead_end(grid, cells, item)]
        1 <= item < n - 1 && dead_end(grid, cells, item) && (forall|k: int|
            item < k < n - 1 ==> !#[trigger] dead_end(grid, cells, k)) && forall|k: int|
            0 <= k < n ==> (#[trigger] rooms[k]).tag == tag_for(k, n - 1, item)
    &&& forall|k: int|
        0 <= k < n ==> exists|t: int|
            0 <= t < layout_choices(rooms[k].tag) && room_built_from(
                #[trigger] rooms[k],
                normalize(layout_text(rooms[k].tag, t)),
                spec_door_connects(
                    grid,
                    rooms[k].dungeon_coords.0 as int,
                    rooms[k].dungeon_coords.1 as int,
                ),
                rooms[k].dungeon_coords,
                rooms[k].tag,
            )
}

/// The room listed at `k` has been dealt with by the growth: it is one of the dead ends met,
/// or a room listed after it touches it.
spec fn settled(c: Seq<(usize, usize)>, end_idx: Seq<int>, k: int) -> bool {
    ||| exists|t: int| 0 <= t < end_idx.len() && #[trigger] end_idx[t] == k
    ||| exists|b: int| k < b < c.len() && #[trigger] touches(c, k, b)
}

/// What the growth keeps while it takes rooms off the queue, `p` of them so far: a room
/// touches an earlier one only when that one was taken off already, no room listed after a
/// dead end touches it, and each room taken off is settled.
#[verifier::opaque]
spec fn growth_inv(c: Seq<(usize, usize)>, end_idx: Seq<int>, p: int) -> bool {
    &&& forall|a: int, b: int| 0 <= a < b < c.len() && #[trigger] touches(c, a, b) ==> a < p
    &&& forall|t: int, b: int|
        0 <= t < end_idx.len() && end_idx[t] < b < c.len() ==> !#[trigger] touches(c, end_idx[t], b)
    &&& forall|k: int| 0 <= k < p ==> #[trigger] settled(c, end_idx, k)
}

/// Taking the room at `p0` off the queue and offering its neighbours keeps `growth_inv` and
/// the tree shape.
proof fn lemma_growth_step(
    c1: Seq<(usize, usize)>,
    c2: Seq<(usize, usize)>,
    e1: Seq<int>,
    e2: Seq<int>,
    p0: int,
)
    requires
        c1.len() <= c2.len(),
        c2.subrange(0, c1.len() as int) == c1,
        0 <= p0 < c1.len(),
        tree_shaped(c1),
        growth_inv(c1, e1, p0),
        forall|t: int| 0 <= t < e1.len() ==> 0 <= #[trigger] e1[t] < p0,
        forall|b: int| c1.len() <= b < c2.len() ==> #[trigger] child_of(c2, b, p0),
        e2 == if c2.len() == c1.len() { e1.push(p0) } else { e1 },
    ensures
        tree_shaped(c2),
        growth_inv(c2, e2, p0 + 1),
{
    reveal(growth_inv);
    reveal(child_of);
    lemma_touches_prefix(c1, c2);
    assert forall|b: int| 1 <= b < c2.len() implies #[trigger] touches_one_earlier(c2, b) by {
        if b >= c1.len() {
            assert(child_of(c2, b, p0));
            assert(touches(c2, p0, b));
        } else {
            assert(touches_one_earlier(c1, b));
        }
    }
    assert forall|a: int, b: int| 0 <= a < b < c2.len() && #[trigger] touches(c2, a, b) implies a < p0 + 1 by {
        if b >= c1.len() {
            assert(child_of(c2, b, p0));
        } else {
            assert(touches(c1, a, b));
        }
    }
    assert forall|t: int, b: int| 0 <= t < e2.len() && e2[t] < b < c2.len() implies !#[trigger] touches(c2, e2[t], b) by {
        if t < e1.len() {
            assert(e2[t] == e1[t]);
            assert(e1[t] < p0);
            if b >= c1.len() {
                assert(child_of(c2, b, p0));
            } else {
                assert(!touches(c1, e1[t], b));
                assert(touches(c2, e1[t], b) == touches(c1, e1[t], b));
            }
        } else {
            assert(c2.len() == c1.len());
            assert(e2 == e1.push(p0));
            assert(e2[t] == p0);
            assert(touches(c2, p0, b) == touches(c1, p0, b));
            if touches(c1, p0, b) {
                assert(p0 < p0);
            }
        }
    }
    assert forall|k: int| 0 <= k < p0 + 1 implies #[trigger] settled(c2, e2, k) by {
        if k < p0 {
            assert(settled(c1, e1, k));
            if exists|t: int| 0 <= t < e1.len() && #[trigger] e1[t] == k {
                let t = choose|t: int| 0 <= t < e1.len() && #[trigger] e1[t] == k;
                assert(e2[t] == k);
            } else {
                let b = choose|b: int| k < b < c1.len() && #[trigger] touches(c1, k, b);
                assert(touches(c2, k, b));
            }
        } else if c2.len() == c1.len() {
            assert(e2[e2.len() - 1] == k);
        } else {
            let b = c1.len() as int;
            assert(child_of(c2, b, p0));
            assert(touches(c2, k, b));
        }
    }
}

/// The growth stage of a generation round: rooms grow from the start cell breadth first, each
/// free neighbour of a room (south, north, east, west) being taken on a coin flip while fewer
/// than `room_count` rooms exist and it would touch no other room. Returns the map, the cells
/// of the rooms in the order they were added, and the rooms that added no neighbour (dead
/// ends) in the order they were met. The map grown always passes the consistency check: its
/// indices are distinct and every room can be reached from the start room; its rooms form a
/// tree, and the dead ends met are exactly its rooms, other than the start room, that touch
/// a single room.
fn grow_rooms(room_count: usize) -> (result: (DungeonGrid, Vec<(usize, usize)>, Vec<(usize, usize)>))
    requires
        7 <= room_count <= 8,
    ensures
        ({
            let (grid, coords, end_rooms) = result;
            &&& 1 <= coords@.len() <= room_count
            &&& coords@[0] == (3usize, 5usize)
            &&& coords_match(grid, coords@)
            &&& coords_reachable(grid, coords@)
            &&& tree_shaped(coords@)
            &&& dead_ends_listed(grid, coords@, end_rooms@)
            &&& consistency_check_defined(grid, coords@.len() as int)
            &&& indices_distinct(grid)
            &&& all_rooms_reachable(grid, coords@.len() as int)
        }),
{
    proof {
        reveal(coords_match);
    }
    let mut grid: DungeonGrid = [[0usize; DUNGEON_GRID_COLS]; DUNGEON_GRID_ROWS];
    let mut room_dungeon_coords: Vec<(usize, usize)> = Vec::new();
    let mut end_rooms: Vec<(usize, usize)> = Vec::new();
    let start_room = Dungeon::get_start_room_coords();
    let mut q: VecDeque<(usize, usize)> = VecDeque::new();
    q.push_back(start_room);
    room_dungeon_coords.push(start_room);
    let ghost g0 = grid;
    grid[start_room.0][start_room.1] = room_dungeon_coords.len();
    let ghost mut p: int = 0;
    let ghost mut end_idx: Seq<int> = Seq::empty();
    proof {
        assert forall|i: int, j: int|
            0 <= i < DUNGEON_GRID_ROWS && 0 <= j < DUNGEON_GRID_COLS && (i, j) != (3int, 5int)
            implies #[trigger] cell(grid, i, j) == 0 by {
            if i != 3 {
                assert(grid@[i] == g0@[i]);
            }
        }
        assert(room_dungeon_coords@[0] == (3usize, 5usize));
        assert(q@ =~= room_dungeon_coords@.subrange(0, 1));
        lemma_reachable_start(grid);
        reveal(growth_inv);
        reveal(coords_reachable);
    }
    while q.len() > 0
        invariant
            7 <= room_count <= 8,
            1 <= room_dungeon_coords@.len() <= room_count,
            room_dungeon_coords@[0] == (3usize, 5usize),
            coords_match(grid, room_dungeon_coords@),
            coords_reachable(grid, room_dungeon_coords@),
            tree_shaped(room_dungeon_coords@),
            0 <= p <= room_dungeon_coords@.len(),
            p == 0 ==> room_dungeon_coords@.len() == 1,
            q@ == room_dungeon_coords@.subrange(p, room_dungeon_coords@.len() as int),
            end_rooms@.len() == end_idx.len(),
            forall|k: int|
                0 <= k < end_idx.len() ==> 0 <= #[trigger] end_idx[k] < p && end_rooms@[k]
                    == room_dungeon_coords@[end_idx[k]],
            forall|a: int, b: int| 0 <= a < b < end_idx.len() ==> #[trigger] end_idx[a] < #[trigger] end_idx[b],
            end_idx.len() > 0 && end_idx[0] == 0 ==> room_dungeon_coords@.len() == 1 && q@.len() == 0,
            growth_inv(room_dungeon_coords@, end_idx, p),
        decreases room_count - room_dungeon_coords@.len(), q@.len(),
    {
        proof {
            reveal(coords_match);
        }
        let ghost c_before = room_dungeon_coords@;
        let ghost e_before = end_idx;
        let ghost p0 = p;
        let (i, j) = q.pop_front().unwrap();
        proof {
            assert(c_before[p] == (i, j));
            p = p + 1;
            assert(q@ =~= room_dungeon_coords@.subrange(p, room_dungeon_coords@.len() as int));
            assert(cell(grid, c_before[p0].0 as int, c_before[p0].1 as int) == p0 + 1);
        }
        let cur_size = room_dungeon_coords.len();
        let coin_south = gen_range_below(2) == 1;
        let coin_north = gen_range_below(2) == 1;
        let coin_east = gen_range_below(2) == 1;
        let coin_west = gen_range_below(2) == 1;
        expand_cell(
            &mut grid,
            &mut room_dungeon_coords,
            &mut q,
            i,
            j,
            room_count,
            [coin_south, coin_north, coin_east, coin_west],
        );
        let ghost c_after = room_dungeon_coords@;
        proof {
            assert(room_dungeon_coords@.subrange(0, c_before.len() as int) == c_before);
            lemma_touches_prefix(c_before, c_after);
            assert(q@ =~= c_after.subrange(p, c_after.len() as int));
        }
        if room_dungeon_coords.len() - cur_size == 0 {
            end_rooms.push((i, j));
            proof {
                end_idx = end_idx.push(p - 1);
            }
        }
        proof {
            lemma_growth_step(c_before, c_after, e_before, end_idx, p0);
            assert forall|k: int| 0 <= k < end_idx.len() implies 0 <= #[trigger] end_idx[k] < p && end_rooms@[k]
                == c_after[end_idx[k]] by {
                if k < e_before.len() {
                    assert(end_idx[k] == e_before[k]);
                }
            }
        }
    }
    proof {
        let c = room_dungeon_coords@;
        let n = c.len() as int;
        assert(p == n);
        reveal(coords_reachable);
        assert forall|c: (int, int)| #[trigger] reachable(grid, c) implies cell(grid, c.0, c.1) <= n by {
            lemma_reachable_is_room(grid, c);
        }
        assert forall|a: int, b: int, c: int, e: int|
            is_room(grid, a, b) && is_room(grid, c, e) && (a != c || b != e) implies #[trigger] cell(grid, a, b)
                != #[trigger] cell(grid, c, e) by {
            if cell(grid, a, b) == cell(grid, c, e) {
                assert(room_dungeon_coords@[cell(grid, a, b) - 1] == (a as usize, b as usize));
            }
        }
        assert forall|k: int| 1 <= k <= n implies #[trigger] index_reachable(grid, k) by {
            let x = c[k - 1];
            assert(reachable(grid, (x.0 as int, x.1 as int)));
        }
        lemma_dead_ends_listed(grid, c, end_rooms@, end_idx);
    }
    (grid, room_dungeon_coords, end_rooms)
}

/// At the end of the growth, the dead ends met are listed as `dead_ends_listed` says.
proof fn lemma_dead_ends_listed(grid: DungeonGrid, c: Seq<(usize, usize)>, end_rooms: Seq<(usize, usize)>, end_idx: Seq<int>)
    requires
        1 <= c.len(),
        coords_match(grid, c),
        tree_shaped(c),
        end_rooms.len() == end_idx.len(),
        forall|k: int|
            0 <= k < end_idx.len() ==> 0 <= #[trigger] end_idx[k] < c.len() && end_rooms[k] == c[end_idx[k]],
        forall|a: int, b: int| 0 <= a < b < end_idx.len() ==> #[trigger] end_idx[a] < #[trigger] end_idx[b],
        end_idx.len() > 0 && end_idx[0] == 0 ==> c.len() == 1,
        growth_inv(c, end_idx, c.len() as int),
    ensures
        dead_ends_listed(grid, c, end_rooms),
{
    reveal(coords_match);
    reveal(growth_inv);
    let n = c.len() as int;
    // the last room added is the last dead end met
    assert(settled(c, end_idx, n - 1));
    let t0 = choose|t: int| 0 <= t < end_idx.len() && #[trigger] end_idx[t] == n - 1;
    if t0 < end_idx.len() - 1 {
        assert(end_idx[t0] < end_idx[end_idx.len() - 1]);
    }
    assert(end_rooms.last() == c.last());
    assert forall|t: int| 0 <= t < end_rooms.len() implies is_room(grid, (#[trigger] end_rooms[t]).0 as int, end_rooms[t].1 as int) by {
        assert(cell(grid, c[end_idx[t]].0 as int, c[end_idx[t]].1 as int) == end_idx[t] + 1);
    }
    assert forall|a: int, b: int| 0 <= a < b < end_rooms.len() implies cell(grid, (#[trigger] end_rooms[a]).0 as int, end_rooms[a].1 as int)
        < cell(grid, (#[trigger] end_rooms[b]).0 as int, end_rooms[b].1 as int) by {
        assert(cell(grid, c[end_idx[a]].0 as int, c[end_idx[a]].1 as int) == end_idx[a] + 1);
        assert(cell(grid, c[end_idx[b]].0 as int, c[end_idx[b]].1 as int) == end_idx[b] + 1);
        assert(end_idx[a] < end_idx[b]);
    }
    if n >= 2 {
        assert forall|t: int| 0 <= t < end_rooms.len() implies {
            &&& cell(grid, (#[trigger] end_rooms[t]).0 as int, end_rooms[t].1 as int) >= 2
            &&& spec_cardinals(grid, end_rooms[t].0 as int, end_rooms[t].1 as int) == 1
        } by {
            let e = end_idx[t];
            assert(cell(grid, c[e].0 as int, c[e].1 as int) == e + 1);
            if t > 0 {
                assert(end_idx[0] < end_idx[t]);
            }
            assert(e >= 1);
            assert(touches_one_earlier(c, e));
            let a = choose|a: int| 0 <= a < e && #[trigger] touches(c, a, e);
            assert forall|b: int| 0 <= b < c.len() && #[trigger] adjacent(cpos(c, b), cpos(c, e)) implies b == a by {
                if b < e {
                    assert(touches(c, b, e));
                } else if b > e {
                    assert(touches(c, e, b));
                }
            }
            lemma_one_neighbour(grid, c, a, cpos(c, e));
        }
        assert forall|k: int| 1 <= k < c.len() && #[trigger] dead_end(grid, c, k) implies end_rooms.contains(c[k]) by {
            assert(settled(c, end_idx, k));
            if exists|t: int| 0 <= t < end_idx.len() && #[trigger] end_idx[t] == k {
                let t = choose|t: int| 0 <= t < end_idx.len() && #[trigger] end_idx[t] == k;
                assert(end_rooms[t] == c[k]);
            } else {
                let b = choose|b: int| k < b < c.len() && #[trigger] touches(c, k, b);
                assert(touches_one_earlier(c, k));
                let a = choose|a: int| 0 <= a < k && #[trigger] touches(c, a, k);
                lemma_two_neighbours(grid, c, a, b, cpos(c, k));
            }
        }
    }
}

/// On a grown map with at least two dead ends listed, the next-to-last one is the item room:
/// a dead end after the first room, before the last room, with no dead end between it and the
/// last room.
proof fn lemma_item_room(grid: DungeonGrid, c: Seq<(usize, usize)>, ends: Seq<(usize, usize)>)
    requires
        2 <= c.len(),
        coords_match(grid, c),
        dead_ends_listed(grid, c, ends),
        ends.len() >= 2,
    ensures
        ({
            let n = c.len() as int;
            let m = ends.len() as int;
            let item = cell(grid, ends[m - 2].0 as int, ends[m - 2].1 as int) - 1;
            &&& 1 <= item < n - 1
            &&& c[item] == ends[m - 2]
            &&& ends[m - 1] == c[n - 1]
            &&& dead_end(grid, c, item)
            &&& dead_end(grid, c, n - 1)
            &&& forall|k: int| item < k < n - 1 ==> !#[trigger] dead_end(grid, c, k)
        }),
{
    reveal(coords_match);
    let n = c.len() as int;
    let m = ends.len() as int;
    let item = cell(grid, ends[m - 2].0 as int, ends[m - 2].1 as int) - 1;
    assert(is_room(grid, ends[m - 2].0 as int, ends[m - 2].1 as int));
    assert(c[item] == ends[m - 2]);
    assert(ends[m - 1] == c[n - 1]);
    assert(cell(grid, c[n - 1].0 as int, c[n - 1].1 as int) == n);
    assert(cell(grid, ends[m - 2].0 as int, ends[m - 2].1 as int) < cell(grid, ends[m - 1].0 as int, ends[m - 1].1 as int));
    assert(dead_end(grid, c, item));
    assert(dead_end(grid, c, n - 1));
    assert forall|k: int| item < k < n - 1 implies !#[trigger] dead_end(grid, c, k) by {
        if dead_end(grid, c, k) {
            assert(ends.contains(c[k]));
            let t = choose|t: int| 0 <= t < m && ends[t] == c[k];
            assert(cell(grid, c[k].0 as int, c[k].1 as int) == k + 1);
            if t < m - 2 {
                assert(cell(grid, ends[t].0 as int, ends[t].1 as int) < cell(grid, ends[m - 2].0 as int, ends[m - 2].1 as int));
            } else if t == m - 1 {
                assert(ends[t] == c[n - 1]);
            }
        }
    }
}

/// A dungeon whose rooms were built, in order, for the rooms of a grown map, tagged and laid
/// out as `build_rooms` does, is one the generator may give.
proof fn lemma_built_is_generated(d: Dungeon, grid: DungeonGrid, c: Seq<(usize, usize)>, item: int)
    requires
        d.grid_view() == grid,
        d.rooms_view().len() == c.len(),
        7 <= c.len() <= 8,
        c[0] == (3usize, 5usize),
        coords_match(grid, c),
        tree_shaped(c),
        all_rooms_reachable(grid, c.len() as int),
        1 <= item < c.len() - 1,
        dead_end(grid, c, item),
        dead_end(grid, c, c.len() - 1),
        forall|k: int| item < k < c.len() - 1 ==> !#[trigger] dead_end(grid, c, k),
        forall|t: int|
            0 <= t < c.len() ==> {
                &&& (#[trigger] d.rooms_view()[t]).tag == tag_for(t, c.len() - 1, item)
                &&& d.rooms_view()[t].dungeon_coords == c[t]
                &&& exists|v: int|
                    0 <= v < layout_choices(d.rooms_view()[t].tag) && room_built_from(
                        d.rooms_view()[t],
                        normalize(layout_text(d.rooms_view()[t].tag, v)),
                        spec_door_connects(
                            grid,
                            d.rooms_view()[t].dungeon_coords.0 as int,
                            d.rooms_view()[t].dungeon_coords.1 as int,
                        ),
                        d.rooms_view()[t].dungeon_coords,
                        d.rooms_view()[t].tag,
                    )
            },
    ensures
        generated(d),
{
    reveal(coords_match);
    let rs = d.rooms_view();
    let n = c.len() as int;
    assert(d.wf()) by {
        assert forall|i: int, j: int|
            0 <= i < DUNGEON_GRID_ROWS && 0 <= j < DUNGEON_GRID_COLS && #[trigger] cell(d.grid_view(), i, j) != 0
            implies {
            &&& cell(d.grid_view(), i, j) <= rs.len()
            &&& rs[cell(d.grid_view(), i, j) - 1].dungeon_coords == (i as usize, j as usize)
        } by {
            let t = cell(grid, i, j) - 1;
            assert(rs[t].dungeon_coords == c[t]);
        }
        assert forall|t: int| 0 <= t < rs.len() implies {
            &&& (#[trigger] rs[t]).dungeon_coords.0 < DUNGEON_GRID_ROWS
            &&& rs[t].dungeon_coords.1 < DUNGEON_GRID_COLS
            &&& cell(d.grid_view(), rs[t].dungeon_coords.0 as int, rs[t].dungeon_coords.1 as int) == t + 1
            &&& rs[t].wf()
        } by {
            assert(rs[t].dungeon_coords == c[t]);
            assert(c[t].0 < DUNGEON_GRID_ROWS);
        }
    }
    assert(rs[0].tag == tag_for(0, n - 1, item));
    let cells = room_cells(rs);
    assert(cells =~= c) by {
        assert forall|t: int| 0 <= t < n implies cells[t] == c[t] by {
            assert(rs[t].dungeon_coords == c[t]);
        }
    }
    assert(dead_end(d.grid_view(), cells, item));
    assert(dead_end(d.grid_view(), cells, n - 1));
}

/// The building stage of a generation round, on a map grown as `grow_rooms` grows one (the
/// rooms listed in the order added, forming a tree, with the dead ends met listed in order):
/// checks it for consistency, and gives each room its doors (towards its neighbouring rooms),
/// its tag (start room, boss room at the last dead end met, which is the last room added,
/// item room at the dead end met before it, fight rooms elsewhere) and a layout. `None`
/// exactly when the map has fewer than `room_count` rooms or fewer than two dead ends.
#[verifier::spinoff_prover]
#[verifier::rlimit(40)]
pub fn build_rooms(
    grid: DungeonGrid,
    room_dungeon_coords: Vec<(usize, usize)>,
    end_rooms: Vec<(usize, usize)>,
    room_count: usize,
) -> (result: Option<Dungeon>)
    requires
        7 <= room_count <= 8,
        1 <= room_dungeon_coords@.len() <= room_count,
        room_dungeon_coords@[0] == (3usize, 5usize),
        coords_match(grid, room_dungeon_coords@),
        tree_shaped(room_dungeon_coords@),
        dead_ends_listed(grid, room_dungeon_coords@, end_rooms@),
        consistency_check_defined(grid, room_dungeon_coords@.len() as int),
        indices_distinct(grid),
        all_rooms_reachable(grid, room_dungeon_coords@.len() as int),
    ensures
        result matches Some(d) ==> generated(d),
        room_dungeon_coords@.len() < room_count || end_rooms@.len() < 2 ==> result is None,
        room_dungeon_coords@.len() == room_count && end_rooms@.len() >= 2 ==> result is Some,
{
    proof {
        reveal(coords_match);
    }
    let start_room = Dungeon::get_start_room_coords();
    if room_dungeon_coords.len() < room_count {
        return None;
    }
    proof {
        lemma_walk_from_start_some(grid, room_count as int);
    }
    if !Dungeon::check_dungeon_consistency(&grid, room_count) {
        return None;
    }
    if end_rooms.len() < 2 {
        return None;
    }
    let ghost c = room_dungeon_coords@;
    let ghost n = c.len() as int;
    let ghost ends = end_rooms@;
    let ghost m = ends.len() as int;
    let ghost boss = n - 1;
    let ghost item = cell(grid, ends[m - 2].0 as int, ends[m - 2].1 as int) - 1;
    proof {
        lemma_item_room(grid, c, ends);
    }
    let mut rooms: Vec<Room> = Vec::new();
    let mut k: usize = 0;
    while k < room_dungeon_coords.len()
        invariant
            n == room_dungeon_coords@.len(),
            7 <= n <= 8,
            coords_match(grid, room_dungeon_coords@),
            room_dungeon_coords@[0] == (3usize, 5usize),
            start_room == (3usize, 5usize),
            end_rooms@.len() >= 2,
            end_rooms@[end_rooms@.len() - 1] == room_dungeon_coords@[boss],
            end_rooms@[end_rooms@.len() - 2] == room_dungeon_coords@[item],
            1 <= item < boss < n,
            all_rooms_reachable(grid, n),
            0 <= k <= n,
            rooms@.len() == k,
            forall|t: int|
                0 <= t < k ==> {
                    &&& (#[trigger] rooms@[t]).tag == tag_for(t, boss, item)
                    &&& rooms@[t].dungeon_coords == room_dungeon_coords@[t]
                    &&& exists|v: int|
                        0 <= v < layout_choices(rooms@[t].tag) && room_built_from(
                            rooms@[t],
                            normalize(layout_text(rooms@[t].tag, v)),
                            spec_door_connects(
                                grid,
                                rooms@[t].dungeon_coords.0 as int,
                                rooms@[t].dungeon_coords.1 as int,
                            ),
                            rooms@[t].dungeon_coords,
                            rooms@[t].tag,
                        )
                },
        decreases n - k,
    {
        proof {
            reveal(coords_match);
        }
        let (i, j) = room_dungeon_coords[k];
        let mut doors: DoorConnects = [None; 4];
        if i > 0 && grid[i - 1][j] != 0 {
            doors[0] = Some(((i - 1, j), Direction::North));
        }
        if j > 0 && grid[i][j - 1] != 0 {
            doors[1] = Some(((i, j - 1), Direction::West));
        }
        if j < DUNGEON_GRID_COLS - 1 && grid[i][j + 1] != 0 {
            doors[2] = Some(((i, j + 1), Direction::East));
        }
        if i < DUNGEON_GRID_ROWS - 1 && grid[i + 1][j] != 0 {
            doors[3] = Some(((i + 1, j), Direction::South));
        }
        proof {
            assert(doors@ =~= spec_door_connects(grid, i as int, j as int));
        }
        let last_end = end_rooms[end_rooms.len() - 1];
        let second_end = end_rooms[end_rooms.len() - 2];
        let tag;
        if i == start_room.0 && j == start_room.1 {
            tag = RoomTag::Start;
        } else if i == last_end.0 && j == last_end.1 {
            tag = RoomTag::Boss;
        } else if i == second_end.0 && j == second_end.1 {
            tag = RoomTag::Item;
        } else {
            tag = RoomTag::Mob;
        }
        proof {
            let c = room_dungeon_coords@;
            assert forall|a: int, b: int| 0 <= a < n && 0 <= b < n && c[a] == c[b] implies a == b by {
                assert(cell(grid, c[a].0 as int, c[a].1 as int) == a + 1);
                assert(cell(grid, c[b].0 as int, c[b].1 as int) == b + 1);
            }
            assert(tag == tag_for(k as int, boss, item));
        }
        let room = Room::generate_room((i, j), doors, tag);
        rooms.push(room);
        proof {
            assert forall|t: int| 0 <= t < k + 1 implies {
                &&& (#[trigger] rooms@[t]).tag == tag_for(t, boss, item)
                &&& rooms@[t].dungeon_coords == room_dungeon_coords@[t]
                &&& exists|v: int|
                    0 <= v < layout_choices(rooms@[t].tag) && room_built_from(
                        rooms@[t],
                        normalize(layout_text(rooms@[t].tag, v)),
                        spec_door_connects(
                            grid,
                            rooms@[t].dungeon_coords.0 as int,
                            rooms@[t].dungeon_coords.1 as int,
                        ),
                        rooms@[t].dungeon_coords,
                        rooms@[t].tag,
                    )
            } by {
                if t == k {
                    let v = choose|v: int|
                        0 <= v < layout_choices(tag) && room_built_from(
                            rooms@[t],
                            normalize(#[trigger] layout_text(tag, v)),
                            doors@,
                            (i, j),
                            tag,
                        );
                    assert(layout_text(tag, v) == layout_text(rooms@[t].tag, v));
                }
            }
        }
        k += 1;
    }
    let dungeon = Dungeon::from_parts(grid, rooms);
    proof {
        lemma_built_is_generated(dungeon, grid, c, item);
    }
    Some(dungeon)
}

impl Dungeon {
    /// One round of dungeon generation: 7 or 8 rooms are wanted (drawn at random), the map is
    /// grown by `grow_rooms` and its rooms built by `build_rooms`. `None` when the round fell
    /// short of the wanted number of rooms or met fewer than two dead ends; the caller then runs
    /// another round. Which of these happens depends on
    /// the random draws alone; `build_rooms` states, for each grown map, when it succeeds.
    pub fn try_generate_dungeon() -> (result: Option<Dungeon>)
        ensures
            result matches Some(d) ==> generated(d),
    {
        let level: usize = 1;
        let room_count: usize = gen_range_below(2) + 5 + level * 2;
        let (grid, room_dungeon_coords, end_rooms) = grow_rooms(room_count);
        build_rooms(grid, room_dungeon_coords, end_rooms, room_count)
    }
}

} // verus!
