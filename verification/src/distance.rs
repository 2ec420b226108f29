use vstd::prelude::*;
use crate::consts::{ROOM_HEIGHT, ROOM_WIDTH};
use crate::grid::adjacent;
use crate::dungeon::Room;
use std::collections::VecDeque;

verus! {

/// A room's tile grid: 0 is a free floor tile, anything else blocks movement.
pub type RoomGrid = [[i32; ROOM_WIDTH]; ROOM_HEIGHT];

/// The value of a tile, as an integer.
pub open spec fn tile(g: RoomGrid, i: int, j: int) -> int {
    g@[i]@[j] as int
}

/// Whether `(i, j)` lies inside the room.
pub open spec fn in_room(i: int, j: int) -> bool {
    0 <= i < ROOM_HEIGHT && 0 <= j < ROOM_WIDTH
}

/// `p` walks from `t` one orthogonal step at a time, every tile after the first being free.
pub open spec fn is_walk(g: RoomGrid, t: (int, int), p: Seq<(int, int)>) -> bool {
    &&& p.len() > 0
    &&& p[0] == t
    &&& forall|k: int| 1 <= k < p.len() ==> in_room(#[trigger] p[k].0, p[k].1) && tile(g, p[k].0, p[k].1) == 0
    &&& forall|k: int| 0 <= k < p.len() - 1 ==> adjacent(#[trigger] p[k], p[k + 1])
}

/// There is a walk of `d` steps from `t` to `c`.
pub open spec fn walk_of_len(g: RoomGrid, t: (int, int), c: (int, int), d: int) -> bool {
    exists|p: Seq<(int, int)>| #[trigger] is_walk(g, t, p) && p.len() == d + 1 && p.last() == c
}

/// The shortest walk from `t` to `c` takes `d` steps.
pub open spec fn shortest_walk(g: RoomGrid, t: (int, int), c: (int, int), d: int) -> bool {
    &&& walk_of_len(g, t, c, d)
    &&& forall|e: int| 0 <= e < d ==> !#[trigger] walk_of_len(g, t, c, e)
}

/// `c` can be reached from `t` walking over free tiles.
pub open spec fn walkable(g: RoomGrid, t: (int, int), c: (int, int)) -> bool {
    exists|d: int| 0 <= d && #[trigger] walk_of_len(g, t, c, d)
}

/// The distance field that a search from `t` computes over `g`: the target holds `i32::MAX`,
/// a free tile `d` steps away (shortest walk) holds `i32::MAX - d`, an unreachable free tile
/// keeps 0 and a blocking tile keeps its value.
pub open spec fn is_distance_grid(g: RoomGrid, t: (int, int), r: RoomGrid) -> bool {
    &&& tile(r, t.0, t.1) == i32::MAX
    &&& forall|i: int, j: int|
        #![trigger tile(r, i, j)]
        in_room(i, j) && (i, j) != t ==> {
            &&& tile(g, i, j) != 0 ==> tile(r, i, j) == tile(g, i, j)
            &&& tile(g, i, j) == 0 ==> {
                ||| (tile(r, i, j) == 0 && !walkable(g, t, (i, j)))
                ||| (tile(r, i, j) != 0 && shortest_walk(g, t, (i, j), i32::MAX - tile(r, i, j)))
            }
        }
}

/// Number of zero entries of a row.
pub open spec fn zeros_row(s: Seq<i32>) -> nat
    decreases s.len(),
{
    if s.len() == 0 {
        0
    } else {
        zeros_row(s.drop_last()) + if s.last() == 0 { 1nat } else { 0nat }
    }
}

/// Number of zero entries of a sequence of rows.
pub open spec fn zeros_rows(rows: Seq<[i32; ROOM_WIDTH]>) -> nat
    decreases rows.len(),
{
    if rows.len() == 0 {
        0
    } else {
        zeros_rows(rows.drop_last()) + zeros_row(rows.last()@)
    }
}

/// Number of free tiles of a grid.
pub open spec fn zeros(r: RoomGrid) -> nat {
    zeros_rows(r@)
}

proof fn lemma_zeros_row_bound(s: Seq<i32>)
    ensures
        zeros_row(s) <= s.len(),
        (exists|k: int| 0 <= k < s.len() && s[k] != 0) ==> zeros_row(s) < s.len(),
    decreases s.len(),
{
    if s.len() > 0 {
        lemma_zeros_row_bound(s.drop_last());
        if exists|k: int| 0 <= k < s.len() && s[k] != 0 {
            let k = choose|k: int| 0 <= k < s.len() && s[k] != 0;
            if k < s.len() - 1 {
                assert(s.drop_last()[k] != 0);
            }
        }
    }
}

proof fn lemma_zeros_row_set(s: Seq<i32>, k: int, x: i32)
    requires
        0 <= k < s.len(),
        s[k] == 0,
        x != 0,
    ensures
        zeros_row(s.update(k, x)) + 1 == zeros_row(s),
    decreases s.len(),
{
    if k == s.len() - 1 {
        assert(s.update(k, x).drop_last() =~= s.drop_last());
    } else {
        assert(s.update(k, x).drop_last() =~= s.drop_last().update(k, x));
        lemma_zeros_row_set(s.drop_last(), k, x);
    }
}

proof fn lemma_zeros_rows_bound(rows: Seq<[i32; ROOM_WIDTH]>, i: int, j: int)
    requires
        0 <= i < rows.len(),
        0 <= j < ROOM_WIDTH,
        rows[i]@[j] != 0,
    ensures
        zeros_rows(rows) < rows.len() * ROOM_WIDTH,
    decreases rows.len(),
{
    let n = rows.len() - 1;
    if i == n {
        if n > 0 {
            lemma_zeros_rows_le(rows.drop_last());
        }
        lemma_zeros_row_bound(rows.last()@);
    } else {
        lemma_zeros_rows_bound(rows.drop_last(), i, j);
        lemma_zeros_row_bound(rows.last()@);
    }
}

proof fn lemma_zeros_rows_le(rows: Seq<[i32; ROOM_WIDTH]>)
    ensures
        zeros_rows(rows) <= rows.len() * ROOM_WIDTH,
    decreases rows.len(),
{
    if rows.len() > 0 {
        lemma_zeros_rows_le(rows.drop_last());
        lemma_zeros_row_bound(rows.last()@);
    }
}

proof fn lemma_zeros_rows_set(rows: Seq<[i32; ROOM_WIDTH]>, i: int, row: [i32; ROOM_WIDTH])
    requires
        0 <= i < rows.len(),
        zeros_row(row@) + 1 == zeros_row(rows[i]@),
    ensures
        zeros_rows(rows.update(i, row)) + 1 == zeros_rows(rows),
    decreases rows.len(),
{
    if i == rows.len() - 1 {
        assert(rows.update(i, row).drop_last() =~= rows.drop_last());
    } else {
        assert(rows.update(i, row).drop_last() =~= rows.drop_last().update(i, row));
        lemma_zeros_rows_set(rows.drop_last(), i, row);
    }
}

/// Total number of tiles of a room.
pub open spec fn room_tiles() -> int {
    ROOM_WIDTH * ROOM_HEIGHT
}

/// The search has given `(i, j)` its distance: it is the target, or a free tile now set.
pub open spec fn assigned(g: RoomGrid, t: (int, int), r: RoomGrid, i: int, j: int) -> bool {
    &&& in_room(i, j)
    &&& ((i, j) == t || (tile(g, i, j) == 0 && tile(r, i, j) != 0))
}

/// Distance recorded at `(i, j)`.
pub open spec fn level(r: RoomGrid, i: int, j: int) -> int {
    i32::MAX - tile(r, i, j)
}

/// Tiles other than the target keep their blocking value, and the target holds `i32::MAX`.
pub open spec fn frame(g: RoomGrid, t: (int, int), r: RoomGrid) -> bool {
    &&& tile(r, t.0, t.1) == i32::MAX
    &&& forall|i: int, j: int|
        #![trigger tile(r, i, j)]
        in_room(i, j) && (i, j) != t && tile(g, i, j) != 0 ==> tile(r, i, j) == tile(g, i, j)
}

/// Every assigned tile holds its exact shortest-walk distance, bounded by the work done.
pub open spec fn levels_exact(g: RoomGrid, t: (int, int), r: RoomGrid) -> bool {
    forall|i: int, j: int|
        #[trigger] assigned(g, t, r, i, j) ==> {
            &&& 0 <= level(r, i, j) <= room_tiles() - zeros(r)
            &&& shortest_walk(g, t, (i, j), level(r, i, j))
        }
}

/// A free tile other than the target has been assigned.
pub open spec fn settled(g: RoomGrid, t: (int, int), r: RoomGrid, i: int, j: int) -> bool {
    in_room(i, j) && (i, j) != t && tile(g, i, j) == 0 ==> assigned(g, t, r, i, j)
}

/// All free neighbours of `(i, j)` have been assigned.
pub open spec fn expanded(g: RoomGrid, t: (int, int), r: RoomGrid, i: int, j: int) -> bool {
    &&& settled(g, t, r, i + 1, j)
    &&& settled(g, t, r, i - 1, j)
    &&& settled(g, t, r, i, j + 1)
    &&& settled(g, t, r, i, j - 1)
}

/// Every assigned tile with a distance below `m` has been expanded.
pub open spec fn expanded_below(g: RoomGrid, t: (int, int), r: RoomGrid, m: int) -> bool {
    forall|i: int, j: int| #[trigger] assigned(g, t, r, i, j) && level(r, i, j) < m ==> expanded(g, t, r, i, j)
}

pub proof fn lemma_walk_prefix(g: RoomGrid, t: (int, int), p: Seq<(int, int)>)
    requires
        is_walk(g, t, p),
        p.len() > 1,
    ensures
        is_walk(g, t, p.drop_last()),
        adjacent(p.drop_last().last(), p.last()),
        walk_of_len(g, t, p.drop_last().last(), p.len() - 2),
{
    let q = p.drop_last();
    assert forall|k: int| 1 <= k < q.len() implies in_room(#[trigger] q[k].0, q[k].1) && tile(g, q[k].0, q[k].1) == 0 by {
        assert(q[k] == p[k]);
    }
    assert forall|k: int| 0 <= k < q.len() - 1 implies adjacent(#[trigger] q[k], q[k + 1]) by {
        assert(q[k] == p[k]);
        assert(q[k + 1] == p[k + 1]);
    }
    assert(adjacent(p[p.len() - 2], p[p.len() - 1]));
    assert(is_walk(g, t, q));
}

pub proof fn lemma_walk_extend(g: RoomGrid, t: (int, int), c: (int, int), d: int, n: (int, int))
    requires
        walk_of_len(g, t, c, d),
        adjacent(c, n),
        in_room(n.0, n.1),
        tile(g, n.0, n.1) == 0,
    ensures
        walk_of_len(g, t, n, d + 1),
{
    let p = choose|p: Seq<(int, int)>| #[trigger] is_walk(g, t, p) && p.len() == d + 1 && p.last() == c;
    let r = p.push(n);
    assert forall|k: int| 1 <= k < r.len() implies in_room(#[trigger] r[k].0, r[k].1) && tile(g, r[k].0, r[k].1) == 0 by {
        if k < p.len() {
            assert(r[k] == p[k]);
        }
    }
    assert forall|k: int| 0 <= k < r.len() - 1 implies adjacent(#[trigger] r[k], r[k + 1]) by {
        if k < p.len() - 1 {
            assert(r[k] == p[k]);
            assert(r[k + 1] == p[k + 1]);
        } else {
            assert(r[k] == p.last());
        }
    }
    assert(r[0] == t);
    assert(is_walk(g, t, r));
}

/// With every tile below distance `m` expanded, every tile within `m` steps has been assigned.
proof fn lemma_walk_assigned(g: RoomGrid, t: (int, int), r: RoomGrid, m: int, c: (int, int), d: int)
    requires
        in_room(t.0, t.1),
        levels_exact(g, t, r),
        expanded_below(g, t, r, m),
        0 <= d <= m,
        walk_of_len(g, t, c, d),
    ensures
        assigned(g, t, r, c.0, c.1),
    decreases d,
{
    let p = choose|p: Seq<(int, int)>| #[trigger] is_walk(g, t, p) && p.len() == d + 1 && p.last() == c;
    if d == 0 {
        assert(p[0] == c);
    } else {
        lemma_walk_prefix(g, t, p);
        let w = p.drop_last().last();
        lemma_walk_assigned(g, t, r, m, w, d - 1);
        assert(level(r, w.0, w.1) <= d - 1) by {
            if level(r, w.0, w.1) > d - 1 {
                assert(!walk_of_len(g, t, w, d - 1));
            }
        }
        assert(expanded(g, t, r, w.0, w.1));
        assert(p[p.len() - 1] == c);
        assert(in_room(c.0, c.1) && tile(g, c.0, c.1) == 0);
    }
}

/// Queued tiles are assigned, ordered by distance, with distances within `[l, l + 1]`.
pub open spec fn queue_levels(g: RoomGrid, t: (int, int), r: RoomGrid, q: Seq<(usize, usize)>, l: int) -> bool {
    &&& forall|k: int| 0 <= k < q.len() ==> {
        &&& assigned(g, t, r, (#[trigger] q[k]).0 as int, q[k].1 as int)
        &&& l <= level(r, q[k].0 as int, q[k].1 as int) <= l + 1
    }
    &&& forall|a: int, b: int|
        0 <= a <= b < q.len() ==> level(r, (#[trigger] q[a]).0 as int, q[a].1 as int) <= level(
            r,
            (#[trigger] q[b]).0 as int,
            q[b].1 as int,
        )
}

/// Every assigned tile that is not waiting in the queue, other than `u`, has been expanded.
pub open spec fn expanded_off_queue(
    g: RoomGrid,
    t: (int, int),
    r: RoomGrid,
    q: Seq<(usize, usize)>,
    u: (int, int),
) -> bool {
    forall|i: int, j: int|
        #[trigger] assigned(g, t, r, i, j) && !q.contains((i as usize, j as usize)) && (i, j) != u
            ==> expanded(g, t, r, i, j)
}

/// Invariant of the search while the tile `u`, at distance `l`, is being expanded.
pub open spec fn expanding(
    g: RoomGrid,
    t: (int, int),
    r: RoomGrid,
    q: Seq<(usize, usize)>,
    u: (int, int),
    l: int,
) -> bool {
    &&& in_room(t.0, t.1)
    &&& frame(g, t, r)
    &&& levels_exact(g, t, r)
    &&& assigned(g, t, r, u.0, u.1)
    &&& level(r, u.0, u.1) == l
    &&& expanded_below(g, t, r, l)
    &&& queue_levels(g, t, r, q, l)
    &&& expanded_off_queue(g, t, r, q, u)
}

/// Assignments are never undone, and recorded distances never change.
pub open spec fn grows(g: RoomGrid, t: (int, int), r1: RoomGrid, r2: RoomGrid) -> bool {
    forall|i: int, j: int|
        #[trigger] assigned(g, t, r1, i, j) ==> assigned(g, t, r2, i, j) && tile(r2, i, j) == tile(r1, i, j)
}

proof fn lemma_grows_expanded(g: RoomGrid, t: (int, int), r1: RoomGrid, r2: RoomGrid, i: int, j: int)
    requires
        grows(g, t, r1, r2),
        expanded(g, t, r1, i, j),
    ensures
        expanded(g, t, r2, i, j),
{
    assert(settled(g, t, r1, i + 1, j));
    assert(settled(g, t, r1, i - 1, j));
    assert(settled(g, t, r1, i, j + 1));
    assert(settled(g, t, r1, i, j - 1));
    if in_room(i + 1, j) && (i + 1, j) != t && tile(g, i + 1, j) == 0 {
        assert(assigned(g, t, r1, i + 1, j));
    }
    if in_room(i - 1, j) && (i - 1, j) != t && tile(g, i - 1, j) == 0 {
        assert(assigned(g, t, r1, i - 1, j));
    }
    if in_room(i, j + 1) && (i, j + 1) != t && tile(g, i, j + 1) == 0 {
        assert(assigned(g, t, r1, i, j + 1));
    }
    if in_room(i, j - 1) && (i, j - 1) != t && tile(g, i, j - 1) == 0 {
        assert(assigned(g, t, r1, i, j - 1));
    }
}

proof fn lemma_grows_settled(g: RoomGrid, t: (int, int), r1: RoomGrid, r2: RoomGrid, i: int, j: int)
    requires
        grows(g, t, r1, r2),
        settled(g, t, r1, i, j),
    ensures
        settled(g, t, r2, i, j),
{
    if in_room(i, j) && (i, j) != t && tile(g, i, j) == 0 {
        assert(assigned(g, t, r1, i, j));
    }
}

/// Gives the free neighbour `n` of `u` its distance, one more than that of `u`, and queues it.
fn visit(
    r: &mut RoomGrid,
    q: &mut VecDeque<(usize, usize)>,
    u: (usize, usize),
    n: (usize, usize),
    Ghost(g): Ghost<RoomGrid>,
    Ghost(t): Ghost<(int, int)>,
    Ghost(l): Ghost<int>,
)
    requires
        u.0 < ROOM_HEIGHT,
        u.1 < ROOM_WIDTH,
        n.0 < ROOM_HEIGHT,
        n.1 < ROOM_WIDTH,
        adjacent((u.0 as int, u.1 as int), (n.0 as int, n.1 as int)),
        expanding(g, t, *old(r), old(q)@, (u.0 as int, u.1 as int), l),
    ensures
        expanding(g, t, *final(r), final(q)@, (u.0 as int, u.1 as int), l),
        settled(g, t, *final(r), n.0 as int, n.1 as int),
        grows(g, t, *old(r), *final(r)),
        ({
            ||| (final(q)@ == old(q)@ && zeros(*final(r)) == zeros(*old(r)))
            ||| (final(q)@ == old(q)@.push(n) && zeros(*final(r)) + 1 == zeros(*old(r)))
        }),
{
    let ghost r0 = *r;
    let ghost q0 = q@;
    let ghost uu = (u.0 as int, u.1 as int);
    let ghost nn = (n.0 as int, n.1 as int);
    if r[n.0][n.1] == 0 {
        proof {
            assert(tile(r0, nn.0, nn.1) == 0);
            assert(nn != t);
            assert(tile(g, nn.0, nn.1) == 0);
            assert(!assigned(g, t, r0, nn.0, nn.1));
            assert(levels_exact(g, t, r0));
            assert(assigned(g, t, r0, uu.0, uu.1));
        }
        let v = r[u.0][u.1] - 1;
        r[n.0][n.1] = v;
        q.push_back(n);
        proof {
            assert(r@[n.0 as int]@ == r0@[n.0 as int]@.update(n.1 as int, v));
            assert(r@ == r0@.update(n.0 as int, r@[n.0 as int]));
            lemma_zeros_row_set(r0@[n.0 as int]@, n.1 as int, v);
            lemma_zeros_rows_set(r0@, n.0 as int, r@[n.0 as int]);
            assert forall|i: int, j: int| in_room(i, j) && (i, j) != nn implies #[trigger] tile(*r, i, j) == tile(r0, i, j) by {
                if i != nn.0 {
                    assert(r@[i] == r0@[i]);
                }
            }
            assert(tile(*r, nn.0, nn.1) == v);
            assert(grows(g, t, r0, *r));
            // the new tile's distance is exact
            lemma_walk_extend(g, t, uu, l, nn);
            assert forall|e: int| 0 <= e < l + 1 implies !#[trigger] walk_of_len(g, t, nn, e) by {
                if walk_of_len(g, t, nn, e) {
                    lemma_walk_assigned(g, t, r0, l, nn, e);
                }
            }
            assert(assigned(g, t, *r, nn.0, nn.1));
            assert(level(*r, nn.0, nn.1) == l + 1);
            assert forall|i: int, j: int| #[trigger] assigned(g, t, *r, i, j) implies {
                &&& 0 <= level(*r, i, j) <= room_tiles() - zeros(*r)
                &&& shortest_walk(g, t, (i, j), level(*r, i, j))
            } by {
                if (i, j) != nn {
                    assert(assigned(g, t, r0, i, j));
                }
            }
            assert(frame(g, t, *r));
            assert forall|i: int, j: int| #[trigger] assigned(g, t, *r, i, j) && level(*r, i, j) < l implies expanded(g, t, *r, i, j) by {
                assert(assigned(g, t, r0, i, j));
                lemma_grows_expanded(g, t, r0, *r, i, j);
            }
            assert forall|k: int| 0 <= k < q@.len() implies {
                &&& assigned(g, t, *r, (#[trigger] q@[k]).0 as int, q@[k].1 as int)
                &&& l <= level(*r, q@[k].0 as int, q@[k].1 as int) <= l + 1
            } by {
                if k < q0.len() {
                    assert(q@[k] == q0[k]);
                }
            }
            assert forall|a: int, b: int| 0 <= a <= b < q@.len() implies level(*r, (#[trigger] q@[a]).0 as int, q@[a].1 as int) <= level(
                *r,
                (#[trigger] q@[b]).0 as int,
                q@[b].1 as int,
            ) by {
                if b < q0.len() {
                    assert(q@[a] == q0[a]);
                    assert(q@[b] == q0[b]);
                } else if a < q0.len() {
                    assert(q@[a] == q0[a]);
                }
            }
            assert forall|i: int, j: int|
                #[trigger] assigned(g, t, *r, i, j) && !q@.contains((i as usize, j as usize)) && (i, j) != uu
                implies expanded(g, t, *r, i, j) by {
                if (i, j) == nn {
                    assert(q@[q@.len() - 1] == n);
                } else {
                    assert(assigned(g, t, r0, i, j));
                    if q0.contains((i as usize, j as usize)) {
                        let k = choose|k: int| 0 <= k < q0.len() && q0[k] == (i as usize, j as usize);
                        assert(q@[k] == q0[k]);
                    }
                    lemma_grows_expanded(g, t, r0, *r, i, j);
                }
            }
        }
    } else {
        proof {
            assert(grows(g, t, r0, *r));
            if in_room(nn.0, nn.1) && nn != t && tile(g, nn.0, nn.1) == 0 {
                assert(assigned(g, t, *r, nn.0, nn.1));
            }
        }
    }
}

impl Room {
    /// Spreads distances from the tile `target` over the free tiles of the room, breadth first:
    /// the result holds `i32::MAX - d` on a free tile `d` steps away from the target.
    pub fn get_target_distance_grid(&self, target: (usize, usize)) -> (result: RoomGrid)
        requires
            target.0 < ROOM_HEIGHT,
            target.1 < ROOM_WIDTH,
        ensures
            is_distance_grid(self.grid, (target.0 as int, target.1 as int), result),
    {
        let ghost g = self.grid;
        let ghost t = (target.0 as int, target.1 as int);
        let (ti, tj) = target;
        let mut r: RoomGrid = self.grid;
        r[ti][tj] = i32::MAX;
        let mut q: VecDeque<(usize, usize)> = VecDeque::new();
        q.push_back((ti, tj));
        proof {
            assert forall|i: int, j: int| in_room(i, j) && (i, j) != t implies #[trigger] tile(r, i, j) == tile(g, i, j) by {
                if i != t.0 {
                    assert(r@[i] == g@[i]);
                }
            }
            lemma_zeros_rows_bound(r@, t.0, t.1);
            assert(q@[0] == (ti, tj));
            assert forall|i: int, j: int| #[trigger] assigned(g, t, r, i, j) implies (i, j) == t by {}
            assert(walk_of_len(g, t, t, 0)) by {
                let p = seq![t];
                assert(p[0] == t);
                assert(is_walk(g, t, p));
            }
        }
        while q.len() > 0
            invariant
                g == self.grid,
                t == (ti as int, tj as int),
                in_room(t.0, t.1),
                frame(g, t, r),
                levels_exact(g, t, r),
                q@.len() > 0 ==> queue_levels(g, t, r, q@, level(r, q@[0].0 as int, q@[0].1 as int)),
                forall|k: int| 0 <= k < q@.len() ==> (#[trigger] q@[k]).0 < ROOM_HEIGHT && q@[k].1 < ROOM_WIDTH,
                expanded_off_queue(g, t, r, q@, (-1, -1)),
            decreases zeros(r), q@.len(),
        {
            let ghost r0 = r;
            let ghost q0 = q@;
            let (i, j) = q.pop_front().unwrap();
            let ghost uu = (i as int, j as int);
            let ghost l = level(r, uu.0, uu.1);
            proof {
                assert(q0[0] == (i, j));
                assert forall|k: int| 0 <= k < q@.len() implies #[trigger] q@[k] == q0[k + 1] by {}
                assert forall|k: int| 0 <= k < q@.len() implies (#[trigger] q@[k]).0 < ROOM_HEIGHT && q@[k].1 < ROOM_WIDTH by {
                    assert(q@[k] == q0[k + 1]);
                }
                assert(queue_levels(g, t, r, q@, l)) by {
                    assert forall|k: int| 0 <= k < q@.len() implies {
                        &&& assigned(g, t, r, (#[trigger] q@[k]).0 as int, q@[k].1 as int)
                        &&& l <= level(r, q@[k].0 as int, q@[k].1 as int) <= l + 1
                    } by {
                        assert(q@[k] == q0[k + 1]);
                    }
                    assert forall|a: int, b: int| 0 <= a <= b < q@.len() implies level(r, (#[trigger] q@[a]).0 as int, q@[a].1 as int) <= level(
                        r,
                        (#[trigger] q@[b]).0 as int,
                        q@[b].1 as int,
                    ) by {
                        assert(q@[a] == q0[a + 1]);
                        assert(q@[b] == q0[b + 1]);
                    }
                }
                assert forall|a: int, b: int| #[trigger] assigned(g, t, r, a, b) && level(r, a, b) < l implies expanded(g, t, r, a, b) by {
                    if q0.contains((a as usize, b as usize)) {
                        let k = choose|k: int| 0 <= k < q0.len() && q0[k] == (a as usize, b as usize);
                        assert(level(r, q0[0].0 as int, q0[0].1 as int) <= level(r, q0[k].0 as int, q0[k].1 as int));
                    }
                }
                assert forall|a: int, b: int|
                    #[trigger] assigned(g, t, r, a, b) && !q@.contains((a as usize, b as usize)) && (a, b) != uu
                    implies expanded(g, t, r, a, b) by {
                    if q0.contains((a as usize, b as usize)) {
                        let k = choose|k: int| 0 <= k < q0.len() && q0[k] == (a as usize, b as usize);
                        assert(k != 0);
                        assert(q@[k - 1] == q0[k]);
                    }
                }
                assert(expanding(g, t, r, q@, uu, l));
            }
            let ghost r1 = r;
            let ghost q1 = q@;
            if i > 0 {
                visit(&mut r, &mut q, (i, j), (i - 1, j), Ghost(g), Ghost(t), Ghost(l));
            }
            let ghost r2 = r;
            let ghost q2 = q@;
            if j > 0 {
                visit(&mut r, &mut q, (i, j), (i, j - 1), Ghost(g), Ghost(t), Ghost(l));
            }
            let ghost r3 = r;
            let ghost q3 = q@;
            if j < ROOM_WIDTH - 1 {
                visit(&mut r, &mut q, (i, j), (i, j + 1), Ghost(g), Ghost(t), Ghost(l));
            }
            let ghost r4 = r;
            let ghost q4 = q@;
            if i < ROOM_HEIGHT - 1 {
                visit(&mut r, &mut q, (i, j), (i + 1, j), Ghost(g), Ghost(t), Ghost(l));
            }
            proof {
                assert(zeros(r) + q@.len() == zeros(r1) + q1.len());
                assert(expanded(g, t, r, uu.0, uu.1)) by {
                    assert(settled(g, t, r2, uu.0 - 1, uu.1));
                    if j > 0 {
                        lemma_grows_settled(g, t, r2, r3, uu.0 - 1, uu.1);
                    }
                    assert(settled(g, t, r3, uu.0 - 1, uu.1));
                    assert(settled(g, t, r3, uu.0, uu.1 - 1));
                    if j < ROOM_WIDTH - 1 {
                        lemma_grows_settled(g, t, r3, r4, uu.0 - 1, uu.1);
                        lemma_grows_settled(g, t, r3, r4, uu.0, uu.1 - 1);
                    }
                    assert(settled(g, t, r4, uu.0, uu.1 + 1));
                    if i < ROOM_HEIGHT - 1 {
                        lemma_grows_settled(g, t, r4, r, uu.0 - 1, uu.1);
                        lemma_grows_settled(g, t, r4, r, uu.0, uu.1 - 1);
                        lemma_grows_settled(g, t, r4, r, uu.0, uu.1 + 1);
                    }
                    assert(settled(g, t, r, uu.0 + 1, uu.1));
                }
                assert(expanding(g, t, r, q@, uu, l));
                if q@.len() > 0 {
                    let l2 = level(r, q@[0].0 as int, q@[0].1 as int);
                    assert forall|k: int| 0 <= k < q@.len() implies {
                        &&& assigned(g, t, r, (#[trigger] q@[k]).0 as int, q@[k].1 as int)
                        &&& l2 <= level(r, q@[k].0 as int, q@[k].1 as int) <= l2 + 1
                    } by {
                        assert(level(r, q@[0].0 as int, q@[0].1 as int) <= level(r, q@[k].0 as int, q@[k].1 as int));
                    }
                }
                assert forall|k: int| 0 <= k < q@.len() implies (#[trigger] q@[k]).0 < ROOM_HEIGHT && q@[k].1 < ROOM_WIDTH by {
                    assert(assigned(g, t, r, q@[k].0 as int, q@[k].1 as int));
                }
                assert forall|a: int, b: int|
                    #[trigger] assigned(g, t, r, a, b) && !q@.contains((a as usize, b as usize)) && (a, b) != (-1int, -1int)
                    implies expanded(g, t, r, a, b) by {
                    if (a, b) != uu {
                    }
                }
            }
        }
        proof {
            assert forall|i: int, j: int|
                #![trigger tile(r, i, j)]
                in_room(i, j) && (i, j) != t && tile(g, i, j) == 0 implies {
                    ||| (tile(r, i, j) == 0 && !walkable(g, t, (i, j)))
                    ||| (tile(r, i, j) != 0 && shortest_walk(g, t, (i, j), i32::MAX - tile(r, i, j)))
                } by {
                if tile(r, i, j) == 0 {
                    if walkable(g, t, (i, j)) {
                        let d = choose|d: int| 0 <= d && #[trigger] walk_of_len(g, t, (i, j), d);
                        assert forall|a: int, b: int| #[trigger] assigned(g, t, r, a, b) && level(r, a, b) < d implies expanded(g, t, r, a, b) by {
                            assert(!q@.contains((a as usize, b as usize)));
                        }
                        lemma_walk_assigned(g, t, r, d, (i, j), d);
                    }
                } else {
                    assert(assigned(g, t, r, i, j));
                }
            }
        }
        r
    }
}

} // verus!
