use vstd::prelude::*;
use crate::dungeon::{Block, BlockTag, Room, RoomTag};

verus! {

/// `dead` lists positions below `len`, in increasing order.
pub open spec fn sorted_positions(dead: Seq<usize>, len: int) -> bool {
    &&& forall|a: int, b: int| 0 <= a < b < dead.len() ==> #[trigger] dead[a] < #[trigger] dead[b]
    &&& forall|k: int| 0 <= k < dead.len() ==> #[trigger] dead[k] < len
}

/// `r` is `v` read at the increasing positions `idx`, which are exactly the positions of `v`
/// not listed in `dead`.
pub open spec fn kept_at<T>(v: Seq<T>, dead: Seq<usize>, r: Seq<T>, idx: Seq<int>) -> bool {
    &&& idx.len() == r.len()
    &&& forall|x: int| 0 <= x < idx.len() ==> 0 <= #[trigger] idx[x] < v.len() && r[x] == v[idx[x]]
    &&& forall|a: int, b: int| 0 <= a < b < idx.len() ==> #[trigger] idx[a] < #[trigger] idx[b]
    &&& forall|k: int| 0 <= k < v.len() ==> (idx.contains(k) <==> !dead.contains(k as usize))
}

/// `r` is `v` without the entries at the positions listed in `dead`, the others kept in order.
pub open spec fn removed_positions<T>(v: Seq<T>, dead: Seq<usize>, r: Seq<T>) -> bool {
    exists|idx: Seq<int>| #[trigger] kept_at(v, dead, r, idx)
}

proof fn lemma_take_push_contains<A>(s: Seq<A>, i: int, x: A)
    requires
        0 <= i < s.len(),
    ensures
        s.take(i + 1).contains(x) <==> (s.take(i).contains(x) || x == s[i]),
{
    if s.take(i + 1).contains(x) {
        let y = choose|y: int| 0 <= y < i + 1 && #[trigger] s.take(i + 1)[y] == x;
        if y < i {
            assert(s.take(i)[y] == x);
        }
    }
    if s.take(i).contains(x) {
        let y = choose|y: int| 0 <= y < i && #[trigger] s.take(i)[y] == x;
        assert(s.take(i + 1)[y] == x);
    }
    if x == s[i] {
        assert(s.take(i + 1)[i] == x);
    }
}

proof fn lemma_remove_contains(s: Seq<int>, r: int, k: int)
    requires
        0 <= r < s.len(),
        forall|a: int, b: int| 0 <= a < b < s.len() ==> #[trigger] s[a] < #[trigger] s[b],
    ensures
        s.remove(r).contains(k) <==> (s.contains(k) && k != s[r]),
{
    let t = s.remove(r);
    if t.contains(k) {
        let x = choose|x: int| 0 <= x < t.len() && #[trigger] t[x] == k;
        if x < r {
            assert(s[x] == k);
            assert(s[x] < s[r]);
        } else {
            assert(s[x + 1] == k);
            assert(s[r] < s[x + 1]);
        }
    }
    if s.contains(k) && k != s[r] {
        let x = choose|x: int| 0 <= x < s.len() && #[trigger] s[x] == k;
        if x < r {
            assert(t[x] == k);
        } else {
            assert(x != r);
            assert(t[x - 1] == k);
        }
    }
}

proof fn lemma_remove_step<T>(v0: Seq<T>, dead: Seq<usize>, i: int, v1: Seq<T>, idx0: Seq<int>, r: int)
    requires
        v0.len() <= usize::MAX,
        0 <= i < dead.len(),
        kept_at(v0, dead.take(i), v1, idx0),
        0 <= r < idx0.len(),
        idx0[r] == dead[i],
    ensures
        kept_at(v0, dead.take(i + 1), v1.remove(r), idx0.remove(r)),
{
    let idx = idx0.remove(r);
    let v = v1.remove(r);
    let d = dead[i];
    assert forall|k: int| 0 <= k < v0.len() implies (idx.contains(k) <==> !dead.take(i + 1).contains(k as usize)) by {
        lemma_remove_contains(idx0, r, k);
        lemma_take_push_contains(dead, i, k as usize);
        assert(idx0.contains(k) <==> !dead.take(i).contains(k as usize));
    }
    assert forall|x: int| 0 <= x < idx.len() implies 0 <= #[trigger] idx[x] < v0.len() && v[x] == v0[idx[x]] by {
        if x < r {
            assert(idx[x] == idx0[x]);
            assert(v[x] == v1[x]);
        } else {
            assert(idx[x] == idx0[x + 1]);
            assert(v[x] == v1[x + 1]);
        }
    }
    assert forall|a: int, b: int| 0 <= a < b < idx.len() implies #[trigger] idx[a] < #[trigger] idx[b] by {
        let a0 = if a < r { a } else { a + 1 };
        let b0 = if b < r { b } else { b + 1 };
        assert(idx[a] == idx0[a0]);
        assert(idx[b] == idx0[b0]);
    }
}

/// Removes from `v` the entries at the positions listed in `dead`, which must be increasing.
pub fn remove_positions<T>(v: &mut Vec<T>, dead: &Vec<usize>)
    requires
        sorted_positions(dead@, old(v)@.len() as int),
    ensures
        final(v)@.len() == old(v)@.len() - dead@.len(),
        removed_positions(old(v)@, dead@, final(v)@),
{
    let ghost v0 = v@;
    assert(v0.len() == v.len());
    let ghost mut idx: Seq<int> = Seq::new(v0.len(), |x: int| x);
    let mut i: usize = 0;
    proof {
        assert(dead@.take(0) =~= Seq::<usize>::empty());
        assert forall|k: int| 0 <= k < v0.len() implies (idx.contains(k) <==> !dead@.take(0).contains(k as usize)) by {
            assert(idx[k] == k);
        }
    }
    while i < dead.len()
        invariant
            v0 == old(v)@,
            v0.len() <= usize::MAX,
            sorted_positions(dead@, v0.len() as int),
            i <= dead@.len(),
            v@.len() == v0.len() - i,
            kept_at(v0, dead@.take(i as int), v@, idx),
            i > 0 ==> dead@[i - 1] >= i - 1,
            forall|x: int|
                0 <= x < idx.len() && x + i >= (if i == 0 { 0 } else { dead@[i - 1] + 1 }) ==> #[trigger] idx[x]
                    == x + i,
        decreases dead@.len() - i,
    {
        let d = dead[i];
        proof {
            if i > 0 {
                assert(dead@[i - 1] < dead@[i as int]);
            }
        }
        let r = d - i;
        let ghost idx0 = idx;
        let ghost v1 = v@;
        v.remove(r);
        proof {
            assert(idx0[r as int] == d);
            idx = idx0.remove(r as int);
            lemma_remove_step(v0, dead@, i as int, v1, idx0, r as int);
            assert forall|x: int| 0 <= x < idx.len() && x + (i + 1) >= dead@[i as int] + 1 implies #[trigger] idx[x] == x + i + 1 by {
                assert(idx[x] == idx0[x + 1]);
            }
        }
        i += 1;
    }
    proof {
        assert(dead@.take(dead@.len() as int) =~= dead@);
        assert(kept_at(v0, dead@, v@, idx));
    }
}

/// What an update of a room asks to be played: the doors opening, and how many doors shut.
#[derive(Clone, Copy, Debug, PartialEq, Eq, Structural)]
pub struct DoorEvents {
    pub opened: bool,
    pub closed: usize,
}

/// `tag` with its open flag set to `open` when it is a door.
pub open spec fn with_open(tag: BlockTag, open: bool) -> BlockTag {
    match tag {
        BlockTag::Door { dir, connects_to, .. } => BlockTag::Door { dir, is_open: open, connects_to },
        _ => tag,
    }
}

/// Whether an obstacle is an open door.
pub open spec fn is_open_door(b: Block) -> bool {
    b.tag matches BlockTag::Door { is_open, .. } && is_open
}

/// Number of the doors listed in `doors` that are open, a door listed twice counted once.
pub open spec fn open_doors(obstacles: Seq<Block>, doors: Seq<usize>) -> nat
    decreases doors.len(),
{
    if doors.len() == 0 {
        0
    } else {
        open_doors(obstacles, doors.drop_last()) + if is_open_door(obstacles[doors.last() as int])
            && !doors.drop_last().contains(doors.last()) {
            1nat
        } else {
            0nat
        }
    }
}

/// `after` is `before` with every door listed in `doors` set open (or shut).
pub open spec fn doors_set(before: Seq<Block>, doors: Seq<usize>, open: bool, after: Seq<Block>) -> bool {
    &&& after.len() == before.len()
    &&& forall|m: int|
        0 <= m < before.len() ==> #[trigger] after[m] == if doors.contains(m as usize) {
            Block { cell: before[m].cell, tag: with_open(before[m].tag, open) }
        } else {
            before[m]
        }
}

impl Room {
    /// Sets every door of the room open or shut; when shutting, returns how many doors were open
    /// before.
    fn set_doors(&mut self, open: bool) -> (result: usize)
        requires
            old(self).wf(),
        ensures
            final(self).wf(),
            doors_set(old(self).obstacles@, old(self).doors@, open, final(self).obstacles@),
            !open ==> result == open_doors(old(self).obstacles@, old(self).doors@),
            final(self).tag == old(self).tag,
            final(self).grid == old(self).grid,
            final(self).dungeon_coords == old(self).dungeon_coords,
            final(self).doors@ == old(self).doors@,
            final(self).enemies@ == old(self).enemies@,
            final(self).just_entered == old(self).just_entered,
    {
        let ghost obs0 = self.obstacles@;
        let ghost drs = self.doors@;
        assert(obs0.len() == self.obstacles.len());
        let mut count: usize = 0;
        let mut k: usize = 0;
        proof {
            assert(drs.take(0) =~= Seq::<usize>::empty());
        }
        while k < self.doors.len()
            invariant
                self.doors@ == drs,
                obs0 == old(self).obstacles@,
                obs0.len() <= usize::MAX,
                old(self).wf(),
                drs == old(self).doors@,
                self.tag == old(self).tag,
                self.grid == old(self).grid,
                self.dungeon_coords == old(self).dungeon_coords,
                self.enemies@ == old(self).enemies@,
                self.just_entered == old(self).just_entered,
                k <= drs.len(),
                count <= k,
                !open ==> count == open_doors(obs0, drs.take(k as int)),
                doors_set(obs0, drs.take(k as int), open, self.obstacles@),
            decreases drs.len() - k,
        {
            let d = self.doors[k];
            let b = self.obstacles[d];
            proof {
                assert(drs.take(k + 1).drop_last() =~= drs.take(k as int));
                assert(drs.take(k + 1).last() == d);
                assert(obs0[d as int].tag is Door);
                if drs.take(k as int).contains(d) {
                    assert(b == Block { cell: obs0[d as int].cell, tag: with_open(obs0[d as int].tag, open) });
                } else {
                    assert(b == obs0[d as int]);
                }
            }
            match b.tag {
                BlockTag::Door { dir, is_open, connects_to } => {
                    if is_open {
                        count += 1;
                    }
                    self.obstacles.set(d, Block { cell: b.cell, tag: BlockTag::Door { dir, is_open: open, connects_to } });
                },
                _ => {},
            }
            proof {
                assert forall|m: int| 0 <= m < obs0.len() implies #[trigger] self.obstacles@[m] == if drs.take(k + 1).contains(m as usize) {
                    Block { cell: obs0[m].cell, tag: with_open(obs0[m].tag, open) }
                } else {
                    obs0[m]
                } by {
                    lemma_take_push_contains(drs, k as int, m as usize);
                }
            }
            k += 1;
        }
        proof {
            assert(drs.take(drs.len() as int) =~= drs);
            assert forall|j: int| 0 <= j < drs.len() implies (#[trigger] drs[j]) < self.obstacles@.len() && self.obstacles@[drs[j] as int].tag is Door by {
                assert(drs.contains(drs[j]));
            }
        }
        count
    }

    /// Takes out the enemies at the positions `dead_enemies` (increasing), then settles the
    /// doors of a fight room: with no enemy left the room becomes quiet and all its doors
    /// open; with enemies left all its doors shut. Other rooms keep their doors.
    pub fn update(&mut self, dead_enemies: &Vec<usize>) -> (result: DoorEvents)
        requires
            old(self).wf(),
            sorted_positions(dead_enemies@, old(self).enemies@.len() as int),
        ensures
            final(self).wf(),
            removed_positions(old(self).enemies@, dead_enemies@, final(self).enemies@),
            final(self).enemies@.len() == old(self).enemies@.len() - dead_enemies@.len(),
            final(self).grid == old(self).grid,
            final(self).dungeon_coords == old(self).dungeon_coords,
            final(self).doors@ == old(self).doors@,
            final(self).just_entered == old(self).just_entered,
            old(self).tag == RoomTag::Mob && final(self).enemies@.len() == 0 ==> {
                &&& final(self).tag == RoomTag::Empty
                &&& doors_set(old(self).obstacles@, old(self).doors@, true, final(self).obstacles@)
                &&& result == DoorEvents { opened: true, closed: 0 }
            },
            old(self).tag == RoomTag::Mob && final(self).enemies@.len() > 0 ==> {
                &&& final(self).tag == RoomTag::Mob
                &&& doors_set(old(self).obstacles@, old(self).doors@, false, final(self).obstacles@)
                &&& result == DoorEvents {
                    opened: false,
                    closed: open_doors(old(self).obstacles@, old(self).doors@) as usize,
                }
            },
            old(self).tag != RoomTag::Mob ==> {
                &&& final(self).tag == old(self).tag
                &&& final(self).obstacles@ == old(self).obstacles@
                &&& result == DoorEvents { opened: false, closed: 0 }
            },
    {
        remove_positions(&mut self.enemies, dead_enemies);
        match self.tag {
            RoomTag::Mob => {
                if self.enemies.len() == 0 {
                    self.tag = RoomTag::Empty;
                    self.set_doors(true);
                    DoorEvents { opened: true, closed: 0 }
                } else {
                    let closed = self.set_doors(false);
                    DoorEvents { opened: false, closed }
                }
            },
            _ => DoorEvents { opened: false, closed: 0 },
        }
    }
}

} // verus!
