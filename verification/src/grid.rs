use vstd::prelude::*;
use crate::consts::{DUNGEON_GRID_COLS, DUNGEON_GRID_ROWS};
use crate::dungeon::Dungeon;
use std::collections::VecDeque;

verus! {

/// The dungeon map: 0 is no room, `k > 0` is the room with index `k`.
pub type DungeonGrid = [[usize; DUNGEON_GRID_COLS]; DUNGEON_GRID_ROWS];

/// The value of a cell, as an integer.
pub open spec fn cell(grid: DungeonGrid, i: int, j: int) -> int {
    grid@[i]@[j] as int
}

/// Whether `(i, j)` lies on the map and holds a room.
pub open spec fn is_room(grid: DungeonGrid, i: int, j: int) -> bool {
    0 <= i < DUNGEON_GRID_ROWS && 0 <= j < DUNGEON_GRID_COLS && cell(grid, i, j) != 0
}

/// Number of rooms among the four orthogonal neighbours of `(i, j)`.
pub open spec fn spec_cardinals(grid: DungeonGrid, i: int, j: int) -> int {
    (if is_room(grid, i + 1, j) { 1int } else { 0int })
    + (if is_room(grid, i - 1, j) { 1int } else { 0int })
    + (if is_room(grid, i, j + 1) { 1int } else { 0int })
    + (if is_room(grid, i, j - 1) { 1int } else { 0int })
}

/// The cell where every dungeon starts.
pub open spec fn start_cell() -> (int, int) {
    (3, 5)
}

/// Whether `b` is one of the four orthogonal neighbours of `a`.
pub open spec fn adjacent(a: (int, int), b: (int, int)) -> bool {
    ||| (a.0 == b.0 && (a.1 == b.1 + 1 || a.1 + 1 == b.1))
    ||| (a.1 == b.1 && (a.0 == b.0 + 1 || a.0 + 1 == b.0))
}

/// `p` walks from the start cell to its last cell through rooms, one step at a time.
pub open spec fn is_room_path(grid: DungeonGrid, p: Seq<(int, int)>) -> bool {
    &&& p.len() > 0
    &&& p[0] == start_cell()
    &&& forall|k: int| 0 <= k < p.len() ==> is_room(grid, #[trigger] p[k].0, p[k].1)
    &&& forall|k: int| 0 <= k < p.len() - 1 ==> adjacent(#[trigger] p[k], p[k + 1])
}

/// The cell `c` can be reached from the start cell by walking through rooms.
pub open spec fn reachable(grid: DungeonGrid, c: (int, int)) -> bool {
    exists|p: Seq<(int, int)>| #[trigger] is_room_path(grid, p) && p.last() == c
}

/// Room index `k` lies in a cell that can be reached from the start cell.
pub open spec fn index_reachable(grid: DungeonGrid, k: int) -> bool {
    exists|c: (int, int)| #[trigger] reachable(grid, c) && cell(grid, c.0, c.1) == k
}

/// Each room index `1..=rooms_len` lies in a cell that can be reached from the start cell.
pub open spec fn all_rooms_reachable(grid: DungeonGrid, rooms_len: int) -> bool {
    forall|k: int| 1 <= k <= rooms_len ==> #[trigger] index_reachable(grid, k)
}

/// No two cells of the map hold the same room index.
pub open spec fn indices_distinct(grid: DungeonGrid) -> bool {
    forall|a: int, b: int, c: int, d: int|
        is_room(grid, a, b) && is_room(grid, c, d) && (a != c || b != d)
            ==> #[trigger] cell(grid, a, b) != #[trigger] cell(grid, c, d)
}

/// What the consistency check needs in order to run: the start cell holds a room and every
/// reachable room has an index in `1..=rooms_len`.
pub open spec fn consistency_check_defined(grid: DungeonGrid, rooms_len: int) -> bool {
    &&& is_room(grid, start_cell().0, start_cell().1)
    &&& forall|c: (int, int)| #[trigger] reachable(grid, c) ==> cell(grid, c.0, c.1) <= rooms_len
}

/// Number of `false` entries in `s`.
pub open spec fn count_false(s: Seq<bool>) -> nat
    decreases s.len(),
{
    if s.len() == 0 {
        0
    } else {
        count_false(s.drop_last()) + if s.last() { 0nat } else { 1nat }
    }
}

/// Marking an unmarked entry lowers the number of unmarked entries by one.
pub proof fn lemma_count_false_set(s: Seq<bool>, k: int)
    requires
        0 <= k < s.len(),
        !s[k],
    ensures
        count_false(s.update(k, true)) + 1 == count_false(s),
    decreases s.len(),
{
    if k == s.len() - 1 {
        assert(s.update(k, true).drop_last() =~= s.drop_last());
    } else {
        assert(s.update(k, true).drop_last() =~= s.drop_last().update(k, true));
        lemma_count_false_set(s.drop_last(), k);
    }
}

/// The room at `(i, j)` has been taken off the queue and its index marked.
pub open spec fn explored(grid: DungeonGrid, checked: Seq<bool>, i: int, j: int) -> bool {
    &&& is_room(grid, i, j)
    &&& cell(grid, i, j) <= checked.len()
    &&& checked[cell(grid, i, j) - 1]
}

/// A room neighbour `(i, j)` is accounted for: explored already, or waiting in the queue.
pub open spec fn covered(grid: DungeonGrid, checked: Seq<bool>, q: Seq<(usize, usize)>, i: int, j: int) -> bool {
    is_room(grid, i, j) ==> (explored(grid, checked, i, j) || q.contains((i as usize, j as usize)))
}

/// Every explored room has all of its room neighbours accounted for.
pub open spec fn closed(grid: DungeonGrid, checked: Seq<bool>, q: Seq<(usize, usize)>) -> bool {
    forall|i: int, j: int|
        #[trigger] explored(grid, checked, i, j) ==> {
            &&& covered(grid, checked, q, i + 1, j)
            &&& covered(grid, checked, q, i - 1, j)
            &&& covered(grid, checked, q, i, j + 1)
            &&& covered(grid, checked, q, i, j - 1)
        }
}

proof fn lemma_path_prefix(grid: DungeonGrid, p: Seq<(int, int)>)
    requires
        is_room_path(grid, p),
        p.len() > 1,
    ensures
        is_room_path(grid, p.drop_last()),
        adjacent(p.drop_last().last(), p.last()),
{
    let q = p.drop_last();
    assert forall|k: int| 0 <= k < q.len() implies is_room(grid, #[trigger] q[k].0, q[k].1) by {
        assert(q[k] == p[k]);
    }
    assert forall|k: int| 0 <= k < q.len() - 1 implies adjacent(#[trigger] q[k], q[k + 1]) by {
        assert(q[k] == p[k]);
        assert(q[k + 1] == p[k + 1]);
    }
    assert(adjacent(p[p.len() - 2], p[p.len() - 1]));
}

proof fn lemma_closed_covers_path(grid: DungeonGrid, checked: Seq<bool>, p: Seq<(int, int)>)
    requires
        closed(grid, checked, Seq::empty()),
        explored(grid, checked, start_cell().0, start_cell().1),
        is_room_path(grid, p),
    ensures
        explored(grid, checked, p.last().0, p.last().1),
    decreases p.len(),
{
    if p.len() > 1 {
        lemma_path_prefix(grid, p);
        let q = p.drop_last();
        lemma_closed_covers_path(grid, checked, q);
        let a = q.last();
        let b = p.last();
        assert(is_room(grid, p[p.len() - 1].0, p[p.len() - 1].1));
        assert(explored(grid, checked, a.0, a.1));
        assert(!Seq::<(usize, usize)>::empty().contains((b.0 as usize, b.1 as usize)));
    }
}

proof fn lemma_path_extend(grid: DungeonGrid, p: Seq<(int, int)>, c: (int, int))
    requires
        is_room_path(grid, p),
        adjacent(p.last(), c),
        is_room(grid, c.0, c.1),
    ensures
        is_room_path(grid, p.push(c)),
        p.push(c).last() == c,
{
    let r = p.push(c);
    assert forall|k: int| 0 <= k < r.len() implies is_room(grid, #[trigger] r[k].0, r[k].1) by {
        if k < p.len() {
            assert(r[k] == p[k]);
        }
    }
    assert forall|k: int| 0 <= k < r.len() - 1 implies adjacent(#[trigger] r[k], r[k + 1]) by {
        if k < p.len() - 1 {
            assert(r[k] == p[k]);
            assert(r[k + 1] == p[k + 1]);
        } else {
            assert(r[k] == p.last());
        }
    }
}

/// A room next to a reachable cell is reachable.
pub proof fn lemma_reachable_step(grid: DungeonGrid, a: (int, int), c: (int, int))
    requires
        reachable(grid, a),
        adjacent(a, c),
        is_room(grid, c.0, c.1),
    ensures
        reachable(grid, c),
{
    let p = choose|p: Seq<(int, int)>| #[trigger] is_room_path(grid, p) && p.last() == a;
    lemma_path_extend(grid, p, c);
    assert(is_room_path(grid, p.push(c)));
}

/// Reachability survives adding rooms to the map.
pub proof fn lemma_reachable_grows(g1: DungeonGrid, g2: DungeonGrid, c: (int, int))
    requires
        reachable(g1, c),
        forall|i: int, j: int| #[trigger] is_room(g1, i, j) ==> is_room(g2, i, j),
    ensures
        reachable(g2, c),
{
    let p = choose|p: Seq<(int, int)>| #[trigger] is_room_path(g1, p) && p.last() == c;
    assert forall|k: int| 0 <= k < p.len() implies is_room(g2, #[trigger] p[k].0, p[k].1) by {
        assert(is_room(g1, p[k].0, p[k].1));
    }
    assert(is_room_path(g2, p));
}

/// The start cell is reachable when it holds a room.
pub proof fn lemma_reachable_start(grid: DungeonGrid)
    requires
        is_room(grid, start_cell().0, start_cell().1),
    ensures
        reachable(grid, start_cell()),
{
    let p = seq![start_cell()];
    assert(p[0] == start_cell());
    assert(is_room_path(grid, p));
}

/// A reachable cell holds a room.
pub proof fn lemma_reachable_is_room(grid: DungeonGrid, c: (int, int))
    requires
        reachable(grid, c),
    ensures
        is_room(grid, c.0, c.1),
{
    let p = choose|p: Seq<(int, int)>| #[trigger] is_room_path(grid, p) && p.last() == c;
    assert(p[p.len() - 1] == c);
}

/// Every queued cell lies on the map and can be reached from the start cell.
pub open spec fn queue_ok(grid: DungeonGrid, q: Seq<(usize, usize)>) -> bool {
    forall|k: int| 0 <= k < q.len() ==> {
        &&& (#[trigger] q[k]).0 < DUNGEON_GRID_ROWS
        &&& q[k].1 < DUNGEON_GRID_COLS
        &&& reachable(grid, (q[k].0 as int, q[k].1 as int))
    }
}

/// Every room next to `(i, j)` is in the queue.
pub open spec fn neighbours_queued(grid: DungeonGrid, i: int, j: int, q: Seq<(usize, usize)>) -> bool {
    &&& is_room(grid, i + 1, j) ==> q.contains(((i + 1) as usize, j as usize))
    &&& is_room(grid, i - 1, j) ==> q.contains(((i - 1) as usize, j as usize))
    &&& is_room(grid, i, j + 1) ==> q.contains((i as usize, (j + 1) as usize))
    &&& is_room(grid, i, j - 1) ==> q.contains((i as usize, (j - 1) as usize))
}

proof fn lemma_contains_tail<A>(old_q: Seq<A>, q: Seq<A>, a: A)
    requires
        old_q.len() > 0,
        old_q.contains(a),
        a != old_q[0],
        forall|k: int| 0 <= k < old_q.len() - 1 ==> q.contains(#[trigger] old_q[k + 1]),
    ensures
        q.contains(a),
{
    let k = choose|k: int| 0 <= k < old_q.len() && old_q[k] == a;
    assert(old_q[(k - 1) + 1] == a);
}

proof fn lemma_closed_after_skip(
    grid: DungeonGrid,
    checked: Seq<bool>,
    old_q: Seq<(usize, usize)>,
    q: Seq<(usize, usize)>,
)
    requires
        closed(grid, checked, old_q),
        old_q.len() > 0,
        explored(grid, checked, old_q[0].0 as int, old_q[0].1 as int),
        forall|k: int| 0 <= k < old_q.len() - 1 ==> q.contains(#[trigger] old_q[k + 1]),
    ensures
        closed(grid, checked, q),
{
    assert forall|a: int, b: int| #[trigger] explored(grid, checked, a, b) implies {
        &&& covered(grid, checked, q, a + 1, b)
        &&& covered(grid, checked, q, a - 1, b)
        &&& covered(grid, checked, q, a, b + 1)
        &&& covered(grid, checked, q, a, b - 1)
    } by {
        assert forall|x: int, y: int|
            covered(grid, checked, old_q, x, y) implies covered(grid, checked, q, x, y) by {
            if is_room(grid, x, y) && !explored(grid, checked, x, y) {
                let c = (x as usize, y as usize);
                if c == old_q[0] {
                    assert(explored(grid, checked, x, y));
                } else {
                    lemma_contains_tail(old_q, q, c);
                }
            }
        }
        assert(covered(grid, checked, old_q, a + 1, b));
        assert(covered(grid, checked, old_q, a - 1, b));
        assert(covered(grid, checked, old_q, a, b + 1));
        assert(covered(grid, checked, old_q, a, b - 1));
    }
}

proof fn lemma_closed_after_mark(
    grid: DungeonGrid,
    checked: Seq<bool>,
    old_q: Seq<(usize, usize)>,
    q: Seq<(usize, usize)>,
)
    requires
        indices_distinct(grid),
        closed(grid, checked, old_q),
        old_q.len() > 0,
        is_room(grid, old_q[0].0 as int, old_q[0].1 as int),
        1 <= cell(grid, old_q[0].0 as int, old_q[0].1 as int) <= checked.len(),
        forall|k: int| 0 <= k < old_q.len() - 1 ==> q.contains(#[trigger] old_q[k + 1]),
        neighbours_queued(grid, old_q[0].0 as int, old_q[0].1 as int, q),
    ensures
        closed(grid, checked.update(cell(grid, old_q[0].0 as int, old_q[0].1 as int) - 1, true), q),
{
    let i = old_q[0].0 as int;
    let j = old_q[0].1 as int;
    let v = cell(grid, i, j);
    let c2 = checked.update(v - 1, true);
    assert forall|x: int, y: int| explored(grid, checked, x, y) implies explored(grid, c2, x, y) by {}
    assert forall|a: int, b: int| #[trigger] explored(grid, c2, a, b) implies {
        &&& covered(grid, c2, q, a + 1, b)
        &&& covered(grid, c2, q, a - 1, b)
        &&& covered(grid, c2, q, a, b + 1)
        &&& covered(grid, c2, q, a, b - 1)
    } by {
        if a == i && b == j {
        } else {
            assert(cell(grid, a, b) != cell(grid, i, j));
            assert(explored(grid, checked, a, b));
            assert forall|x: int, y: int|
                covered(grid, checked, old_q, x, y) implies covered(grid, c2, q, x, y) by {
                if is_room(grid, x, y) && !explored(grid, checked, x, y) {
                    let c = (x as usize, y as usize);
                    if c == old_q[0] {
                        assert(explored(grid, c2, x, y));
                    } else {
                        lemma_contains_tail(old_q, q, c);
                    }
                }
            }
            assert(covered(grid, checked, old_q, a + 1, b));
            assert(covered(grid, checked, old_q, a - 1, b));
            assert(covered(grid, checked, old_q, a, b + 1));
            assert(covered(grid, checked, old_q, a, b - 1));
        }
    }
}

/// The cells next to `(i, j)` that hold rooms, in the order south, north, east, west.
pub open spec fn room_neighbours(grid: DungeonGrid, i: int, j: int) -> Seq<(usize, usize)> {
    (if is_room(grid, i + 1, j) { seq![((i + 1) as usize, j as usize)] } else { Seq::empty() }) + (if is_room(
        grid,
        i - 1,
        j,
    ) {
        seq![((i - 1) as usize, j as usize)]
    } else {
        Seq::empty()
    }) + (if is_room(grid, i, j + 1) { seq![(i as usize, (j + 1) as usize)] } else { Seq::empty() }) + (
    if is_room(grid, i, j - 1) {
        seq![(i as usize, (j - 1) as usize)]
    } else {
        Seq::empty()
    })
}

/// The walk of the consistency check, from the queue `q` with the room indices met so far
/// marked in `checked`: it takes the first cell off the queue; when the cell's index was met
/// already it goes on, else it marks the index and queues the rooms next to the cell (south,
/// north, east, west). The marks once the queue runs empty, or `None` when the walk takes off
/// a cell whose index is not in `1..=checked.len()`.
pub open spec fn consistency_walk(grid: DungeonGrid, q: Seq<(usize, usize)>, checked: Seq<bool>) -> Option<Seq<bool>>
    decreases count_false(checked), q.len(),
{
    if q.len() == 0 {
        Some(checked)
    } else {
        let v = cell(grid, q[0].0 as int, q[0].1 as int);
        if v < 1 || v > checked.len() {
            None
        } else if checked[v - 1] {
            consistency_walk(grid, q.drop_first(), checked)
        } else {
            proof {
                lemma_count_false_set(checked, v - 1);
            }
            consistency_walk(
                grid,
                q.drop_first() + room_neighbours(grid, q[0].0 as int, q[0].1 as int),
                checked.update(v - 1, true),
            )
        }
    }
}

/// The walk of the consistency check on `grid` with `rooms_len` indices: from the start cell,
/// with no index met.
pub open spec fn walk_from_start(grid: DungeonGrid, rooms_len: int) -> Option<Seq<bool>> {
    consistency_walk(grid, seq![(3usize, 5usize)], Seq::new(rooms_len as nat, |k: int| false))
}

/// The consistency check answers `true`: its walk ends, having met every index
/// `1..=rooms_len`.
pub open spec fn check_passes(grid: DungeonGrid, rooms_len: int) -> bool {
    &&& walk_from_start(grid, rooms_len) is Some
    &&& forall|k: int| 0 <= k < rooms_len ==> #[trigger] walk_from_start(grid, rooms_len)->0[k]
}

/// Where every queued cell can be reached and every reachable room has an index in
/// `1..=checked.len()`, the walk ends without leaving that range.
proof fn lemma_walk_some(grid: DungeonGrid, q: Seq<(usize, usize)>, checked: Seq<bool>)
    requires
        consistency_check_defined(grid, checked.len() as int),
        queue_ok(grid, q),
    ensures
        consistency_walk(grid, q, checked) is Some,
    decreases count_false(checked), q.len(),
{
    if q.len() > 0 {
        let i = q[0].0 as int;
        let j = q[0].1 as int;
        assert(reachable(grid, (i, j)));
        lemma_reachable_is_room(grid, (i, j));
        let v = cell(grid, i, j);
        let rest = q.drop_first();
        assert(queue_ok(grid, rest)) by {
            assert forall|k: int| 0 <= k < rest.len() implies #[trigger] rest[k] == q[k + 1] by {}
        }
        if checked[v - 1] {
            lemma_walk_some(grid, rest, checked);
        } else {
            lemma_count_false_set(checked, v - 1);
            let nb = room_neighbours(grid, i, j);
            let q2 = rest + nb;
            assert forall|k: int| 0 <= k < nb.len() implies {
                &&& (#[trigger] nb[k]).0 < DUNGEON_GRID_ROWS
                &&& nb[k].1 < DUNGEON_GRID_COLS
                &&& reachable(grid, (nb[k].0 as int, nb[k].1 as int))
            } by {
                if is_room(grid, i + 1, j) {
                    lemma_reachable_step(grid, (i, j), (i + 1, j));
                }
                if is_room(grid, i - 1, j) {
                    lemma_reachable_step(grid, (i, j), (i - 1, j));
                }
                if is_room(grid, i, j + 1) {
                    lemma_reachable_step(grid, (i, j), (i, j + 1));
                }
                if is_room(grid, i, j - 1) {
                    lemma_reachable_step(grid, (i, j), (i, j - 1));
                }
            }
            assert(queue_ok(grid, q2)) by {
                assert forall|k: int| 0 <= k < q2.len() implies {
                    &&& (#[trigger] q2[k]).0 < DUNGEON_GRID_ROWS
                    &&& q2[k].1 < DUNGEON_GRID_COLS
                    &&& reachable(grid, (q2[k].0 as int, q2[k].1 as int))
                } by {
                    if k < rest.len() {
                        assert(q2[k] == rest[k]);
                    } else {
                        assert(q2[k] == nb[k - rest.len()]);
                    }
                }
            }
            lemma_walk_some(grid, q2, checked.update(v - 1, true));
        }
    }
}

/// Where the start cell holds a room and every reachable room has an index in
/// `1..=rooms_len`, the consistency check's walk ends without leaving that range.
pub proof fn lemma_walk_from_start_some(grid: DungeonGrid, rooms_len: int)
    requires
        0 <= rooms_len,
        consistency_check_defined(grid, rooms_len),
    ensures
        walk_from_start(grid, rooms_len) is Some,
{
    lemma_reachable_start(grid);
    let q = seq![(3usize, 5usize)];
    assert(q[0] == (3usize, 5usize));
    assert(queue_ok(grid, q));
    lemma_walk_some(grid, q, Seq::new(rooms_len as nat, |k: int| false));
}

impl Dungeon {
    /// Counts the rooms that border the cell `room` on the four sides.
    pub fn check_room_cardinals(grid: &DungeonGrid, room: (usize, usize)) -> (result: usize)
        requires
            room.0 < DUNGEON_GRID_ROWS,
            room.1 < DUNGEON_GRID_COLS,
        ensures
            result == spec_cardinals(*grid, room.0 as int, room.1 as int),
    {
        let mut result: usize = 0;
        let (i, j) = room;
        if i < DUNGEON_GRID_ROWS - 1 && grid[i + 1][j] != 0 {
            result += 1;
        }
        if i > 0 && grid[i - 1][j] != 0 {
            result += 1;
        }
        if j < DUNGEON_GRID_COLS - 1 && grid[i][j + 1] != 0 {
            result += 1;
        }
        if j > 0 && grid[i][j - 1] != 0 {
            result += 1;
        }
        result
    }

    /// Walks the map breadth first from the start cell, going on from each room index once, and
    /// tells whether every index `1..=rooms_len` was met: the answer of `consistency_walk`. A
    /// `true` answer means every index lies in a reachable room; when no index is repeated on
    /// the map the converse holds too. (With a repeated index the walk does not go on from the
    /// second cell holding it.) The walk must not take off a cell whose index lies outside
    /// `1..=rooms_len`.
    #[verifier::rlimit(50)]
    pub fn check_dungeon_consistency(grid: &DungeonGrid, rooms_len: usize) -> (result: bool)
        requires
            walk_from_start(*grid, rooms_len as int) is Some,
        ensures
            result == check_passes(*grid, rooms_len as int),
            result ==> all_rooms_reachable(*grid, rooms_len as int),
            indices_distinct(*grid) ==> (all_rooms_reachable(*grid, rooms_len as int) ==> result),
    {
        let ghost g = *grid;
        let ghost n = rooms_len as int;
        let mut checked: Vec<bool> = vec![false; rooms_len];
        let mut q: VecDeque<(usize, usize)> = VecDeque::new();
        q.push_back(Dungeon::get_start_room_coords());
        let ghost w = walk_from_start(g, n);
        proof {
            assert(q@ =~= seq![(3usize, 5usize)]);
            assert(checked@ =~= Seq::new(n as nat, |k: int| false));
            assert(is_room(g, 3, 5));
            lemma_reachable_start(g);
            assert(q@[0] == (3usize, 5usize));
        }
        while q.len() > 0
            invariant
                g == *grid,
                n == rooms_len,
                w == walk_from_start(g, n),
                w is Some,
                consistency_walk(g, q@, checked@) == w,
                checked@.len() == rooms_len,
                forall|k: int| 0 <= k < rooms_len && #[trigger] checked@[k] ==> index_reachable(g, k + 1),
                queue_ok(g, q@),
                explored(g, checked@, 3, 5) || q@.contains((3usize, 5usize)),
                indices_distinct(g) ==> closed(g, checked@, q@),
            decreases count_false(checked@), q@.len(),
        {
            let ghost old_q = q@;
            let (i, j) = q.pop_front().unwrap();
            let ghost ci = i as int;
            let ghost cj = j as int;
            proof {
                assert(old_q[0] == (i, j));
                assert(reachable(g, (ci, cj)));
                lemma_reachable_is_room(g, (ci, cj));
                assert forall|k: int| 0 <= k < q@.len() implies #[trigger] q@[k] == old_q[k + 1] by {}
            }
            let v = grid[i][j];
            assert(v as int == cell(g, ci, cj));
            proof {
                assert(q@ =~= old_q.drop_first());
            }
            if checked[v - 1] {
                proof {
                    assert forall|k: int| 0 <= k < old_q.len() - 1 implies q@.contains(#[trigger] old_q[k + 1]) by {
                        assert(q@[k] == old_q[k + 1]);
                    }
                    if indices_distinct(g) {
                        lemma_closed_after_skip(g, checked@, old_q, q@);
                    }
                    if !explored(g, checked@, 3, 5) {
                        lemma_contains_tail(old_q, q@, (3usize, 5usize));
                    }
                }
                continue;
            }
            proof {
                lemma_count_false_set(checked@, v - 1);
            }
            let ghost old_checked = checked@;
            checked.set(v - 1, true);
            let ghost q_mid = q@;
            if i < DUNGEON_GRID_ROWS - 1 && grid[i + 1][j] != 0 {
                proof { lemma_reachable_step(g, (ci, cj), (ci + 1, cj)); }
                q.push_back((i + 1, j));
            }
            let ghost q1 = q@;
            if i > 0 && grid[i - 1][j] != 0 {
                proof { lemma_reachable_step(g, (ci, cj), (ci - 1, cj)); }
                q.push_back((i - 1, j));
            }
            let ghost q2 = q@;
            if j < DUNGEON_GRID_COLS - 1 && grid[i][j + 1] != 0 {
                proof { lemma_reachable_step(g, (ci, cj), (ci, cj + 1)); }
                q.push_back((i, j + 1));
            }
            let ghost q3 = q@;
            if j > 0 && grid[i][j - 1] != 0 {
                proof { lemma_reachable_step(g, (ci, cj), (ci, cj - 1)); }
                q.push_back((i, j - 1));
            }
            proof {
                assert(q@.subrange(0, q_mid.len() as int) =~= q_mid);
                assert forall|k: int| 0 <= k < old_q.len() - 1 implies q@.contains(#[trigger] old_q[k + 1]) by {
                    assert(q@[k] == q_mid[k]);
                }
                if is_room(g, ci + 1, cj) {
                    assert(q@[q1.len() - 1] == ((i + 1) as usize, j));
                }
                if is_room(g, ci - 1, cj) {
                    assert(q@[q2.len() - 1] == ((i - 1) as usize, j));
                }
                if is_room(g, ci, cj + 1) {
                    assert(q@[q3.len() - 1] == (i, (j + 1) as usize));
                }
                if is_room(g, ci, cj - 1) {
                    assert(q@[q@.len() - 1] == (i, (j - 1) as usize));
                }
                assert(neighbours_queued(g, ci, cj, q@));
                assert(index_reachable(g, v as int));
                if indices_distinct(g) {
                    lemma_closed_after_mark(g, old_checked, old_q, q@);
                }
                if !explored(g, old_checked, 3, 5) && (i, j) != (3usize, 5usize) {
                    lemma_contains_tail(old_q, q@, (3usize, 5usize));
                }
                assert(queue_ok(g, q@));
                assert(q@ =~= old_q.drop_first() + room_neighbours(g, ci, cj));
                assert(checked@ =~= old_checked.update(v - 1, true));
            }
        }
        let mut all = true;
        let mut k: usize = 0;
        while k < rooms_len
            invariant
                k <= rooms_len,
                checked@.len() == rooms_len,
                all == forall|t: int| 0 <= t < k ==> checked@[t],
            decreases rooms_len - k,
        {
            if !checked[k] {
                all = false;
            }
            k += 1;
        }
        proof {
            assert(consistency_walk(g, q@, checked@) == Some(checked@));
            assert(w == Some(checked@));
            assert(k == rooms_len);
            assert(all == (forall|t: int| 0 <= t < n ==> checked@[t]));
            assert(check_passes(g, n) == all) by {
                assert(walk_from_start(g, n) == Some(checked@));
                let met = walk_from_start(g, n)->0;
                assert(met == checked@);
                if all {
                    assert forall|t: int| 0 <= t < n implies #[trigger] walk_from_start(g, n)->0[t] by {
                        assert(checked@[t]);
                    }
                    assert(check_passes(g, n));
                } else {
                    let t = choose|t: int| 0 <= t < n && !checked@[t];
                    assert(!walk_from_start(g, n)->0[t]);
                    assert(!check_passes(g, n));
                }
            }
            if all {
                assert forall|t: int| 1 <= t <= n implies #[trigger] index_reachable(g, t) by {
                    assert(checked@[t - 1]);
                }
            }
            if indices_distinct(g) && all_rooms_reachable(g, n) {
                assert(q@.len() == 0);
                assert(q@ =~= Seq::<(usize, usize)>::empty());
                assert forall|t: int| 0 <= t < k implies checked@[t] by {
                    assert(index_reachable(g, t + 1));
                    let c = choose|c: (int, int)| #[trigger] reachable(g, c) && cell(g, c.0, c.1) == t + 1;
                    let p = choose|p: Seq<(int, int)>| #[trigger] is_room_path(g, p) && p.last() == c;
                    lemma_closed_covers_path(g, checked@, p);
                }
            }
        }
        all
    }
}

} // verus!
