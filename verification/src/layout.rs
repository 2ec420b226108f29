use vstd::prelude::*;
use crate::consts::{ROOM_HEIGHT, ROOM_WIDTH};
use crate::distance::{tile, RoomGrid};
use crate::dungeon::{Block, BlockTag, Direction, Enemy, EnemyTag, Room, RoomTag};
use crate::random::gen_range_below;

verus! {

/// The characters of `s`.
pub fn chars_of(s: &str) -> (result: Vec<char>)
    ensures
        result@ == s@,
{
    let mut out: Vec<char> = Vec::new();
    for c in it: s.chars()
        invariant
            out@ == it.seq().take(it.index()),
            it.seq() == s@,
    {
        out.push(c);
    }
    out
}

/// Unicode `White_Space`, the characters that `str::trim` removes.
pub open spec fn is_ws(c: char) -> bool {
    let x = c as u32;
    ||| 9 <= x <= 13
    ||| x == 32
    ||| x == 0x85
    ||| x == 0xA0
    ||| x == 0x1680
    ||| 0x2000 <= x <= 0x200A
    ||| x == 0x2028
    ||| x == 0x2029
    ||| x == 0x202F
    ||| x == 0x205F
    ||| x == 0x3000
}

/// Whether `c` is a Unicode `White_Space` character.
pub fn is_whitespace(c: char) -> (result: bool)
    ensures
        result == is_ws(c),
{
    let x = c as u32;
    (9 <= x && x <= 13) || x == 32 || x == 0x85 || x == 0xA0 || x == 0x1680 || (0x2000 <= x && x <= 0x200A)
        || x == 0x2028 || x == 0x2029 || x == 0x202F || x == 0x205F || x == 0x3000
}

/// `s` without its leading white space.
pub open spec fn trim_start(s: Seq<char>) -> Seq<char>
    decreases s.len(),
{
    if s.len() > 0 && is_ws(s[0]) {
        trim_start(s.drop_first())
    } else {
        s
    }
}

/// `s` without its trailing white space.
pub open spec fn trim_end(s: Seq<char>) -> Seq<char>
    decreases s.len(),
{
    if s.len() > 0 && is_ws(s.last()) {
        trim_end(s.drop_last())
    } else {
        s
    }
}

/// `s` without leading and trailing white space.
pub open spec fn trim(s: Seq<char>) -> Seq<char> {
    trim_end(trim_start(s))
}

/// Index of the first line break of `s`, or `s.len()` when there is none.
pub open spec fn first_newline(s: Seq<char>) -> int
    decreases s.len(),
{
    if s.len() == 0 {
        0
    } else if s[0] == '\n' {
        0
    } else {
        1 + first_newline(s.drop_first())
    }
}

/// The lines of `s` (split at each line break), each trimmed, joined with nothing between
/// them.
pub open spec fn trimmed_lines(s: Seq<char>) -> Seq<char>
    decreases s.len(),
{
    let k = first_newline(s);
    if 0 <= k < s.len() {
        trim(s.take(k)) + trimmed_lines(s.skip(k + 1))
    } else {
        trim(s)
    }
}

/// A layout text made flat: trimmed, split into lines, each line trimmed, the lines joined.
pub open spec fn normalize(s: Seq<char>) -> Seq<char> {
    trimmed_lines(trim(s))
}

proof fn lemma_trim_start(s: Seq<char>, n: int)
    requires
        0 <= n <= s.len(),
        forall|k: int| 0 <= k < n ==> is_ws(#[trigger] s[k]),
        n == s.len() || !is_ws(s[n]),
    ensures
        trim_start(s) == s.skip(n),
    decreases n,
{
    if n == 0 {
        assert(s.skip(0) =~= s);
    } else {
        assert(is_ws(s[0]));
        let t = s.drop_first();
        assert forall|k: int| 0 <= k < n - 1 implies is_ws(#[trigger] t[k]) by {
            assert(t[k] == s[k + 1]);
        }
        if n < s.len() {
            assert(t[n - 1] == s[n]);
        }
        lemma_trim_start(t, n - 1);
        assert(t.skip(n - 1) =~= s.skip(n));
    }
}

proof fn lemma_trim_end(s: Seq<char>, m: int)
    requires
        0 <= m <= s.len(),
        forall|k: int| m <= k < s.len() ==> is_ws(#[trigger] s[k]),
        m == 0 || !is_ws(s[m - 1]),
    ensures
        trim_end(s) == s.take(m),
    decreases s.len() - m,
{
    if m == s.len() {
        assert(s.take(m) =~= s);
    } else {
        assert(is_ws(s.last()));
        let t = s.drop_last();
        assert forall|k: int| m <= k < t.len() implies is_ws(#[trigger] t[k]) by {
            assert(t[k] == s[k]);
        }
        if m > 0 {
            assert(t[m - 1] == s[m - 1]);
        }
        lemma_trim_end(t, m);
        assert(t.take(m) =~= s.take(m));
    }
}

proof fn lemma_first_newline(s: Seq<char>, m: int)
    requires
        0 <= m <= s.len(),
        forall|k: int| 0 <= k < m ==> #[trigger] s[k] != '\n',
        m == s.len() || s[m] == '\n',
    ensures
        first_newline(s) == m,
    decreases m,
{
    if m > 0 {
        let t = s.drop_first();
        assert(s[0] != '\n');
        assert forall|k: int| 0 <= k < m - 1 implies #[trigger] t[k] != '\n' by {
            assert(t[k] == s[k + 1]);
        }
        if m < s.len() {
            assert(t[m - 1] == s[m]);
        }
        lemma_first_newline(t, m - 1);
    }
}

/// Appends `trim(v[a..b])` to `out`.
fn push_trimmed(out: &mut Vec<char>, v: &Vec<char>, a: usize, b: usize)
    requires
        a <= b <= v@.len(),
    ensures
        final(out)@ == old(out)@ + trim(v@.subrange(a as int, b as int)),
{
    let ghost s = v@.subrange(a as int, b as int);
    let mut lo = a;
    while lo < b && is_whitespace(v[lo])
        invariant
            a <= lo <= b <= v@.len(),
            forall|k: int| a <= k < lo ==> is_ws(#[trigger] v@[k]),
        decreases b - lo,
    {
        lo += 1;
    }
    let mut hi = b;
    while hi > lo && is_whitespace(v[hi - 1])
        invariant
            a <= lo <= hi <= b <= v@.len(),
            forall|k: int| hi <= k < b ==> is_ws(#[trigger] v@[k]),
        decreases hi - lo,
    {
        hi -= 1;
    }
    proof {
        assert forall|k: int| 0 <= k < lo - a implies is_ws(#[trigger] s[k]) by {
            assert(s[k] == v@[a + k]);
        }
        if lo < b {
            assert(s[lo - a] == v@[lo as int]);
        }
        lemma_trim_start(s, lo - a);
        let t = s.skip(lo - a);
        assert forall|k: int| hi - lo <= k < t.len() implies is_ws(#[trigger] t[k]) by {
            assert(t[k] == v@[lo + k]);
        }
        if hi > lo {
            assert(t[hi - lo - 1] == v@[hi - 1]);
        }
        lemma_trim_end(t, hi - lo);
        assert(t.take(hi - lo) =~= v@.subrange(lo as int, hi as int));
    }
    let ghost out0 = out@;
    let mut k = lo;
    while k < hi
        invariant
            lo <= k <= hi <= v@.len(),
            out@ == out0 + v@.subrange(lo as int, k as int),
        decreases hi - k,
    {
        out.push(v[k]);
        proof {
            assert(v@.subrange(lo as int, k + 1) =~= v@.subrange(lo as int, k as int).push(v@[k as int]));
        }
        k += 1;
    }
}

/// Makes a layout text flat: trims it, splits it into lines, trims each line and joins
/// the lines.
pub fn normalize_layout(raw: &str) -> (result: Vec<char>)
    ensures
        result@ == normalize(raw@),
{
    let chars = chars_of(raw);
    let mut v: Vec<char> = Vec::new();
    push_trimmed(&mut v, &chars, 0, chars.len());
    proof {
        assert(chars@.subrange(0, chars@.len() as int) =~= chars@);
        assert(v@ =~= trim(raw@));
    }
    let ghost s = v@;
    let mut out: Vec<char> = Vec::new();
    let mut line_start: usize = 0;
    let mut i: usize = 0;
    proof {
        assert(s.skip(0) =~= s);
        assert(out@ + trimmed_lines(s) =~= trimmed_lines(s));
    }
    while i < v.len()
        invariant
            s == v@,
            s == trim(raw@),
            line_start <= i <= s.len(),
            out@ + trimmed_lines(s.skip(line_start as int)) == trimmed_lines(s),
            forall|k: int| line_start <= k < i ==> #[trigger] s[k] != '\n',
        decreases s.len() - i,
    {
        if v[i] == '\n' {
            proof {
                let t = s.skip(line_start as int);
                assert forall|k: int| 0 <= k < i - line_start implies #[trigger] t[k] != '\n' by {
                    assert(t[k] == s[line_start + k]);
                }
                assert(t[i - line_start] == s[i as int]);
                lemma_first_newline(t, i - line_start);
                assert(t.take(i - line_start) =~= s.subrange(line_start as int, i as int));
                assert(t.skip(i - line_start + 1) =~= s.skip(i + 1));
            }
            let ghost out0 = out@;
            push_trimmed(&mut out, &v, line_start, i);
            proof {
                assert(out@ + trimmed_lines(s.skip(i + 1)) == out0 + (trim(s.subrange(line_start as int, i as int))
                    + trimmed_lines(s.skip(i + 1))));
            }
            line_start = i + 1;
        }
        i += 1;
    }
    proof {
        let t = s.skip(line_start as int);
        assert forall|k: int| 0 <= k < t.len() implies #[trigger] t[k] != '\n' by {
            assert(t[k] == s[line_start + k]);
        }
        lemma_first_newline(t, t.len() as int);
        assert(t =~= s.subrange(line_start as int, s.len() as int));
    }
    push_trimmed(&mut out, &v, line_start, v.len());
    out
}

/// For each door slot of a layout, in reading order: the room it leads to and the side it is on.
pub type DoorConnects = [Option<((usize, usize), Direction)>; 4];

/// A layout character that blocks movement on the room's grid.
pub open spec fn is_solid(c: char) -> bool {
    c == '#' || c == '.' || c == 'd'
}

/// What reading a layout yields: the obstacles, the enemies, the indices of the obstacles that
/// are doors, and the number of door slots met.
pub open spec fn parse_items(s: Seq<char>, dc: Seq<Option<((usize, usize), Direction)>>) -> (
    Seq<Block>,
    Seq<Enemy>,
    Seq<usize>,
    int,
)
    decreases s.len(),
{
    if s.len() == 0 {
        (Seq::empty(), Seq::empty(), Seq::empty(), 0)
    } else {
        let prev = parse_items(s.drop_last(), dc);
        let obs = prev.0;
        let ens = prev.1;
        let drs = prev.2;
        let nd = prev.3;
        let i = (s.len() - 1) as usize;
        let c = s.last();
        if c == '#' {
            (obs.push(Block { cell: i, tag: BlockTag::Wall }), ens, drs, nd)
        } else if c == '.' {
            (obs.push(Block { cell: i, tag: BlockTag::Stone }), ens, drs, nd)
        } else if c == 'v' {
            (obs.push(Block { cell: i, tag: BlockTag::Spikes }), ens, drs, nd)
        } else if c == 'd' {
            match dc[nd] {
                Some(conn) => (
                    obs.push(
                        Block {
                            cell: i,
                            tag: BlockTag::Door { dir: conn.1, is_open: true, connects_to: conn.0 },
                        },
                    ),
                    ens,
                    drs.push(obs.len() as usize),
                    nd + 1,
                ),
                None => (obs.push(Block { cell: i, tag: BlockTag::Wall }), ens, drs, nd + 1),
            }
        } else if c == 'm' {
            (obs, ens.push(Enemy { cell: i, tag: EnemyTag::Shooter }), drs, nd)
        } else if c == 'b' {
            (obs, ens.push(Enemy { cell: i, tag: EnemyTag::Chaser }), drs, nd)
        } else {
            (obs, ens, drs, nd)
        }
    }
}

/// The grid tile `(r, c)` of a layout: `i32::MIN` under a wall, stone or door slot, else 0.
pub open spec fn layout_tile(s: Seq<char>, r: int, c: int) -> int {
    let k = r * ROOM_WIDTH + c;
    if k < s.len() && is_solid(s[k]) {
        i32::MIN as int
    } else {
        0
    }
}

/// A layout that reading can handle: its solid characters lie on the room's grid, and it has
/// at most four door slots.
pub open spec fn layout_fits(s: Seq<char>) -> bool {
    &&& forall|k: int| 0 <= k < s.len() && is_solid(#[trigger] s[k]) ==> k < ROOM_WIDTH * ROOM_HEIGHT
    &&& parse_items(s, seq![None, None, None, None]).3 <= 4
}

proof fn lemma_door_count_independent(
    s: Seq<char>,
    dc: Seq<Option<((usize, usize), Direction)>>,
    dc2: Seq<Option<((usize, usize), Direction)>>,
)
    ensures
        parse_items(s, dc).3 == parse_items(s, dc2).3,
        parse_items(s, dc).3 >= 0,
    decreases s.len(),
{
    if s.len() > 0 {
        lemma_door_count_independent(s.drop_last(), dc, dc2);
    }
}

proof fn lemma_door_count_prefix(s: Seq<char>, dc: Seq<Option<((usize, usize), Direction)>>, i: int)
    requires
        0 <= i <= s.len(),
    ensures
        parse_items(s.take(i), dc).3 <= parse_items(s, dc).3,
    decreases s.len() - i,
{
    if i < s.len() {
        lemma_door_count_prefix(s, dc, i + 1);
        assert(s.take(i + 1).drop_last() =~= s.take(i));
        lemma_door_count_independent(s.take(i), dc, dc);
    } else {
        assert(s.take(i) =~= s);
    }
}

/// The door entries of a parse name obstacles that are doors.
proof fn lemma_parse_doors(s: Seq<char>, dc: Seq<Option<((usize, usize), Direction)>>)
    requires
        s.len() <= usize::MAX,
    ensures
        forall|k: int|
            0 <= k < parse_items(s, dc).2.len() ==> {
                &&& (#[trigger] parse_items(s, dc).2[k]) < parse_items(s, dc).0.len()
                &&& parse_items(s, dc).0[parse_items(s, dc).2[k] as int].tag is Door
            },
        forall|a: int, b: int|
            0 <= a < b < parse_items(s, dc).2.len() ==> #[trigger] parse_items(s, dc).2[a] < #[trigger] parse_items(
                s,
                dc,
            ).2[b],
        parse_items(s, dc).0.len() <= s.len(),
        forall|k: int| 0 <= k < parse_items(s, dc).0.len() ==> (#[trigger] parse_items(s, dc).0[k]).cell < s.len(),
        forall|k: int| 0 <= k < parse_items(s, dc).1.len() ==> (#[trigger] parse_items(s, dc).1[k]).cell < s.len(),
    decreases s.len(),
{
    if s.len() > 0 {
        lemma_parse_doors(s.drop_last(), dc);
        let prev = parse_items(s.drop_last(), dc);
        let cur = parse_items(s, dc);
        assert forall|k: int| 0 <= k < cur.2.len() implies {
            &&& (#[trigger] cur.2[k]) < cur.0.len()
            &&& cur.0[cur.2[k] as int].tag is Door
        } by {
            if k < prev.2.len() {
                assert(cur.2[k] == prev.2[k]);
                assert(cur.0[prev.2[k] as int] == prev.0[prev.2[k] as int]);
            } else {
                assert(cur.2[k] == prev.0.len());
            }
        }
        assert forall|a: int, b: int| 0 <= a < b < cur.2.len() implies #[trigger] cur.2[a] < #[trigger] cur.2[b] by {
            if b < prev.2.len() {
                assert(cur.2[a] == prev.2[a]);
                assert(cur.2[b] == prev.2[b]);
            } else {
                assert(cur.2[a] == prev.2[a]);
                assert(cur.2[b] == prev.0.len());
            }
        }
        assert forall|k: int| 0 <= k < cur.0.len() implies (#[trigger] cur.0[k]).cell < s.len() by {
            if k < prev.0.len() {
                assert(cur.0[k] == prev.0[k]);
            }
        }
        assert forall|k: int| 0 <= k < cur.1.len() implies (#[trigger] cur.1[k]).cell < s.len() by {
            if k < prev.1.len() {
                assert(cur.1[k] == prev.1[k]);
            }
        }
    }
}

/// The layout of the start room, and of the boss and item rooms.
pub const ROOM_LAYOUT_START: &'static str = "
    #######d#######
    #_____________#
    #_____________#
    #_____________#
    d_____________d
    #_____________#
    #_____________#
    #_____________#
    #######d#######
";

/// A fight room guarded by shooting enemies.
pub const ROOM_LAYOUT_MOB_SHOOTERS: &'static str = "
    #######d#######
    #_____________#
    #__m_______m__#
    #_____..._____#
    d_____.b._____d
    #_____..._____#
    #__m_______m__#
    #_____________#
    #######d#######
";

/// A fight room guarded by chasing enemies.
pub const ROOM_LAYOUT_MOB_CHASERS: &'static str = "
    #######d#######
    #_b_________b_#
    #___.......___#
    #_____________#
    d___v__m__v___d
    #_____________#
    #___.......___#
    #_b_________b_#
    #######d#######
";

/// A quiet room with spikes.
pub const ROOM_LAYOUT_EMPTY_SPIKES: &'static str = "
    #######d#######
    #_____________#
    #__.___v___.__#
    #_____________#
    d____v___v____d
    #_____________#
    #__.___v___.__#
    #_____________#
    #######d#######
";

/// A quiet room with stones.
pub const ROOM_LAYOUT_EMPTY_STONES: &'static str = "
    #######d#######
    #.___________.#
    #_____________#
    #____.....____#
    d_____________d
    #____.....____#
    #_____________#
    #.___________.#
    #######d#######
";

/// The layouts a fight room is drawn from.
pub const ROOM_LAYOUTS_MOB: [&'static str; 2] = [ROOM_LAYOUT_MOB_SHOOTERS, ROOM_LAYOUT_MOB_CHASERS];

/// The layouts a quiet room is drawn from.
pub const ROOM_LAYOUTS_EMPTY: [&'static str; 2] = [ROOM_LAYOUT_EMPTY_SPIKES, ROOM_LAYOUT_EMPTY_STONES];

/// Number of layouts a room with tag `tag` is drawn from.
pub open spec fn layout_choices(tag: RoomTag) -> int {
    match tag {
        RoomTag::Mob => 2,
        RoomTag::Empty => 2,
        _ => 1,
    }
}

/// The `k`-th layout text a room with tag `tag` may take.
pub open spec fn layout_text(tag: RoomTag, k: int) -> Seq<char> {
    match tag {
        RoomTag::Mob => ROOM_LAYOUTS_MOB@[k]@,
        RoomTag::Empty => ROOM_LAYOUTS_EMPTY@[k]@,
        _ => ROOM_LAYOUT_START@,
    }
}

/// `room` is what reading layout `s` with door slots `dc` gives for a room at `coords`
/// tagged `tag`.
pub open spec fn room_built_from(
    room: Room,
    s: Seq<char>,
    dc: Seq<Option<((usize, usize), Direction)>>,
    coords: (usize, usize),
    tag: RoomTag,
) -> bool {
    &&& room.tag == tag
    &&& room.dungeon_coords == coords
    &&& room.just_entered
    &&& room.obstacles@ == parse_items(s, dc).0
    &&& room.enemies@ == parse_items(s, dc).1
    &&& room.doors@ == parse_items(s, dc).2
    &&& forall|r: int, c: int|
        0 <= r < ROOM_HEIGHT && 0 <= c < ROOM_WIDTH ==> #[trigger] tile(room.grid, r, c) == layout_tile(s, r, c)
    &&& room.wf()
}

/// Whether a layout can be read: see `layout_fits`.
pub fn check_layout_fits(layout: &Vec<char>) -> (result: bool)
    ensures
        result == layout_fits(layout@),
{
    let ghost s = layout@;
    let ghost nones: Seq<Option<((usize, usize), Direction)>> = seq![None, None, None, None];
    let mut doors: usize = 0;
    let mut i: usize = 0;
    proof {
        assert(s.take(0) =~= Seq::<char>::empty());
    }
    while i < layout.len()
        invariant
            s == layout@,
            i <= s.len(),
            doors <= i,
            doors == parse_items(s.take(i as int), nones).3,
            forall|k: int| 0 <= k < i && is_solid(#[trigger] s[k]) ==> k < ROOM_WIDTH * ROOM_HEIGHT,
        decreases s.len() - i,
    {
        proof {
            assert(s.take(i + 1).drop_last() =~= s.take(i as int));
        }
        let ch = layout[i];
        if (ch == '#' || ch == '.' || ch == 'd') && i >= ROOM_WIDTH * ROOM_HEIGHT {
            return false;
        }
        if ch == 'd' {
            doors += 1;
        }
        i += 1;
    }
    proof {
        assert(s.take(s.len() as int) =~= s);
    }
    doors <= 4
}

impl Room {
    /// Reads a layout, one tile per character in row-major order: `#` wall, `.` stone,
    /// `v` spikes, `d` door slot (a door where `door_connects` has an entry for it, else a
    /// wall), `m` a shooting enemy, `b` a chasing enemy; anything else is floor.
    pub fn parse_layout(layout: &Vec<char>, door_connects: &DoorConnects) -> (result: (
        Vec<Block>,
        Vec<Enemy>,
        Vec<usize>,
        RoomGrid,
    ))
        requires
            layout_fits(layout@),
        ensures
            result.0@ == parse_items(layout@, door_connects@).0,
            result.1@ == parse_items(layout@, door_connects@).1,
            result.2@ == parse_items(layout@, door_connects@).2,
            forall|r: int, c: int|
                0 <= r < ROOM_HEIGHT && 0 <= c < ROOM_WIDTH ==> #[trigger] tile(result.3, r, c) == layout_tile(
                    layout@,
                    r,
                    c,
                ),
    {
        let ghost s = layout@;
        let ghost dc = door_connects@;
        let mut doors: Vec<usize> = Vec::new();
        let mut obstacles: Vec<Block> = Vec::new();
        let mut enemies: Vec<Enemy> = Vec::new();
        let mut grid: RoomGrid = [[0i32; ROOM_WIDTH]; ROOM_HEIGHT];
        let mut door_index: usize = 0;
        proof {
            lemma_door_count_independent(s, dc, seq![None, None, None, None]);
            assert(s.take(0) =~= Seq::<char>::empty());
        }
        let mut i: usize = 0;
        while i < layout.len()
            invariant
                s == layout@,
                dc == door_connects@,
                layout_fits(s),
                parse_items(s, dc).3 <= 4,
                0 <= i <= s.len(),
                obstacles@ == parse_items(s.take(i as int), dc).0,
                enemies@ == parse_items(s.take(i as int), dc).1,
                doors@ == parse_items(s.take(i as int), dc).2,
                door_index == parse_items(s.take(i as int), dc).3,
                forall|r: int, c: int|
                    0 <= r < ROOM_HEIGHT && 0 <= c < ROOM_WIDTH ==> #[trigger] tile(grid, r, c)
                        == layout_tile(s.take(i as int), r, c),
            decreases s.len() - i,
        {
            let ch = layout[i];
            let ghost g0 = grid;
            proof {
                assert(s.take(i + 1).drop_last() =~= s.take(i as int));
                assert(s.take(i + 1).last() == ch);
                lemma_door_count_prefix(s, dc, i + 1);
            }
            if ch == '#' || ch == '.' || ch == 'v' || ch == 'd' {
                if ch != 'v' {
                    let row = i / ROOM_WIDTH;
                    let col = i % ROOM_WIDTH;
                    grid[row][col] = i32::MIN;
                    proof {
                        assert forall|r: int, c: int|
                            0 <= r < ROOM_HEIGHT && 0 <= c < ROOM_WIDTH implies #[trigger] tile(grid, r, c)
                                == layout_tile(s.take(i + 1), r, c) by {
                            assert(row * 15 + col == i);
                            if r != row {
                                assert(grid@[r] == g0@[r]);
                            }
                            let k = r * 15 + c;
                            if r == row && c == col {
                                assert(s.take(i + 1)[k] == ch);
                            } else {
                                assert(tile(grid, r, c) == tile(g0, r, c));
                                assert(k != i);
                                if k < i {
                                    assert(s.take(i + 1)[k] == s.take(i as int)[k]);
                                }
                            }
                        }
                    }
                }
                let tag = if ch == 'd' {
                    door_index += 1;
                    if let Some((connects_to, dir)) = door_connects[door_index - 1] {
                        doors.push(obstacles.len());
                        BlockTag::Door { dir, is_open: true, connects_to }
                    } else {
                        BlockTag::Wall
                    }
                } else if ch == '#' {
                    BlockTag::Wall
                } else if ch == '.' {
                    BlockTag::Stone
                } else {
                    BlockTag::Spikes
                };
                obstacles.push(Block { cell: i, tag });
            } else if ch == 'm' {
                enemies.push(Enemy { cell: i, tag: EnemyTag::Shooter });
            } else if ch == 'b' {
                enemies.push(Enemy { cell: i, tag: EnemyTag::Chaser });
            }
            proof {
                if !is_solid(ch) {
                    assert forall|r: int, c: int|
                        0 <= r < ROOM_HEIGHT && 0 <= c < ROOM_WIDTH implies #[trigger] tile(grid, r, c)
                            == layout_tile(s.take(i + 1), r, c) by {
                        assert(tile(grid, r, c) == layout_tile(s.take(i as int), r, c));
                        let k = r * 15 + c;
                        if k < i {
                            assert(s.take(i + 1)[k] == s.take(i as int)[k]);
                        } else if k == i {
                            assert(s.take(i + 1)[k] == ch);
                        }
                    }
                }
            }
            i += 1;
        }
        proof {
            assert(s.take(s.len() as int) =~= s);
        }
        (obstacles, enemies, doors, grid)
    }
}

impl Room {
    /// Builds the room at `dungeon_coords`: its layout is the start layout for the start, boss
    /// and item rooms, and one drawn at random among the fight or quiet layouts otherwise;
    /// `door_connects` says where each door slot leads. Every built-in layout can be read
    /// (`lemma_all_layouts_fit`).
    pub fn generate_room(dungeon_coords: (usize, usize), door_connects: DoorConnects, tag: RoomTag) -> (result: Room)
        ensures
            exists|k: int|
                0 <= k < layout_choices(tag) && room_built_from(
                    result,
                    normalize(#[trigger] layout_text(tag, k)),
                    door_connects@,
                    dungeon_coords,
                    tag,
                ),
            tag is Start || tag is Boss || tag is Item ==> room_built_from(
                result,
                normalize(ROOM_LAYOUT_START@),
                door_connects@,
                dungeon_coords,
                tag,
            ),
            tag is Mob ==> result.enemies@.len() > 0,
            !(tag is Mob) ==> result.enemies@.len() == 0,
    {
        proof {
            lemma_all_layouts_fit();
        }
        let ghost mut k: int = 0;
        let text: &str = match tag {
            RoomTag::Start => ROOM_LAYOUT_START,
            RoomTag::Mob => {
                let layout_index = gen_range_below(ROOM_LAYOUTS_MOB.len());
                proof {
                    k = layout_index as int;
                }
                ROOM_LAYOUTS_MOB[layout_index]
            },
            RoomTag::Empty => {
                let layout_index = gen_range_below(ROOM_LAYOUTS_EMPTY.len());
                proof {
                    k = layout_index as int;
                }
                ROOM_LAYOUTS_EMPTY[layout_index]
            },
            _ => ROOM_LAYOUT_START,
        };
        assert(0 <= k < layout_choices(tag) && layout_text(tag, k) == text@);
        let layout = normalize_layout(text);
        let (obstacles, enemies, doors, grid) = Room::parse_layout(&layout, &door_connects);
        proof {
            assert(layout@.len() == layout.len());
            lemma_parse_doors(layout@, door_connects@);
        }
        let room = Room {
            tag,
            grid,
            dungeon_coords,
            doors,
            obstacles,
            enemies,
            just_entered: true,
        };
        proof {
            assert(parse_items(normalize(layout_text(tag, k)), door_connects@).1.len() == room.enemies@.len());
        }
        room
    }
}


/// A line break followed by the four spaces that indent each row of a built-in layout.
pub open spec fn row_break() -> Seq<char> {
    seq!['\n', ' ', ' ', ' ', ' ']
}

/// The rows of a layout, each after the first on a line of its own behind four spaces.
pub open spec fn join_rows(rows: Seq<Seq<char>>) -> Seq<char>
    decreases rows.len(),
{
    if rows.len() == 0 {
        Seq::empty()
    } else if rows.len() == 1 {
        rows[0]
    } else {
        rows[0] + row_break() + join_rows(rows.drop_first())
    }
}

/// The rows of a layout, one after the other.
pub open spec fn concat_rows(rows: Seq<Seq<char>>) -> Seq<char>
    decreases rows.len(),
{
    if rows.len() == 0 {
        Seq::empty()
    } else {
        rows[0] + concat_rows(rows.drop_first())
    }
}

/// A row of `ROOM_WIDTH` characters that holds no line break and neither starts nor ends
/// with white space.
pub open spec fn row_ok(r: Seq<char>) -> bool {
    &&& r.len() == ROOM_WIDTH
    &&& !is_ws(r[0])
    &&& !is_ws(r.last())
    &&& forall|k: int| 0 <= k < r.len() ==> #[trigger] r[k] != '\n'
}

/// Number of door slots (`d`) in `s`.
pub open spec fn count_doors(s: Seq<char>) -> int
    decreases s.len(),
{
    if s.len() == 0 {
        0
    } else {
        count_doors(s.drop_last()) + if s.last() == 'd' { 1int } else { 0int }
    }
}

/// Number of door slots in the rows.
pub open spec fn rows_doors(rows: Seq<Seq<char>>) -> int
    decreases rows.len(),
{
    if rows.len() == 0 {
        0
    } else {
        count_doors(rows[0]) + rows_doors(rows.drop_first())
    }
}

proof fn lemma_join_ends(rows: Seq<Seq<char>>)
    requires
        rows.len() >= 1,
        forall|k: int| 0 <= k < rows.len() ==> row_ok(#[trigger] rows[k]),
    ensures
        join_rows(rows).len() > 0,
        join_rows(rows)[0] == rows[0][0],
        join_rows(rows).last() == rows.last().last(),
    decreases rows.len(),
{
    assert(row_ok(rows[0]));
    if rows.len() > 1 {
        let rest = rows.drop_first();
        assert forall|k: int| 0 <= k < rest.len() implies row_ok(#[trigger] rest[k]) by {
            assert(rest[k] == rows[k + 1]);
        }
        lemma_join_ends(rest);
        assert(rest.last() == rows.last());
    }
}

/// Trimming each line of `pad` followed by the joined rows gives the rows, one after the
/// other.
proof fn lemma_trimmed_rows(rows: Seq<Seq<char>>, pad: Seq<char>)
    requires
        rows.len() >= 1,
        forall|k: int| 0 <= k < rows.len() ==> row_ok(#[trigger] rows[k]),
        forall|k: int| 0 <= k < pad.len() ==> #[trigger] pad[k] == ' ',
    ensures
        trimmed_lines(pad + join_rows(rows)) == concat_rows(rows),
    decreases rows.len(),
{
    let r = rows[0];
    assert(row_ok(r));
    let x = pad + join_rows(rows);
    let m = (pad.len() + r.len()) as int;
    assert forall|k: int| 0 <= k < m implies #[trigger] x[k] != '\n' by {
        if k < pad.len() {
            assert(x[k] == pad[k]);
        } else {
            assert(x[k] == r[k - pad.len()]);
        }
    }
    assert forall|k: int| 0 <= k < pad.len() implies is_ws(#[trigger] (pad + r)[k]) by {
        assert((pad + r)[k] == ' ');
    }
    assert((pad + r)[pad.len() as int] == r[0]);
    lemma_trim_start(pad + r, pad.len() as int);
    assert((pad + r).skip(pad.len() as int) =~= r);
    lemma_trim_end(r, r.len() as int);
    assert(r.take(r.len() as int) =~= r);
    if rows.len() == 1 {
        assert(x =~= pad + r);
        lemma_first_newline(x, m);
        assert(concat_rows(rows.drop_first()) =~= Seq::<char>::empty());
        assert(concat_rows(rows) =~= r);
    } else {
        let rest = rows.drop_first();
        assert forall|k: int| 0 <= k < rest.len() implies row_ok(#[trigger] rest[k]) by {
            assert(rest[k] == rows[k + 1]);
        }
        let sp = seq![' ', ' ', ' ', ' '];
        assert(x =~= (pad + r) + (seq!['\n'] + (sp + join_rows(rest))));
        assert(x[m] == '\n');
        lemma_first_newline(x, m);
        assert(x.take(m) =~= pad + r);
        assert(x.skip(m + 1) =~= sp + join_rows(rest));
        lemma_trimmed_rows(rest, sp);
    }
}

/// A built-in layout text (a line break, then each row behind four spaces and followed by a
/// line break) made flat is its rows, one after the other.
proof fn lemma_normalize_rows(rows: Seq<Seq<char>>)
    requires
        rows.len() >= 1,
        forall|k: int| 0 <= k < rows.len() ==> row_ok(#[trigger] rows[k]),
    ensures
        normalize(row_break() + join_rows(rows) + seq!['\n']) == concat_rows(rows),
{
    let j = join_rows(rows);
    let s = row_break() + j + seq!['\n'];
    lemma_join_ends(rows);
    assert(row_ok(rows[0]));
    assert(row_ok(rows.last()));
    assert forall|k: int| 0 <= k < 5 implies is_ws(#[trigger] s[k]) by {
        assert(s[k] == row_break()[k]);
    }
    assert(s[5] == j[0]);
    lemma_trim_start(s, 5);
    let t = s.skip(5);
    assert(t =~= j + seq!['\n']);
    assert forall|k: int| j.len() <= k < t.len() implies is_ws(#[trigger] t[k]) by {
        assert(t[k] == '\n');
    }
    assert(t[j.len() - 1] == j.last());
    lemma_trim_end(t, j.len() as int);
    assert(t.take(j.len() as int) =~= j);
    assert(Seq::<char>::empty() + j =~= j);
    lemma_trimmed_rows(rows, Seq::empty());
}

proof fn lemma_count_doors_concat(a: Seq<char>, b: Seq<char>)
    ensures
        count_doors(a + b) == count_doors(a) + count_doors(b),
    decreases b.len(),
{
    if b.len() == 0 {
        assert(a + b =~= a);
    } else {
        assert((a + b).drop_last() =~= a + b.drop_last());
        lemma_count_doors_concat(a, b.drop_last());
    }
}

proof fn lemma_concat_rows(rows: Seq<Seq<char>>)
    requires
        forall|k: int| 0 <= k < rows.len() ==> (#[trigger] rows[k]).len() == ROOM_WIDTH,
    ensures
        concat_rows(rows).len() == ROOM_WIDTH * rows.len(),
        count_doors(concat_rows(rows)) == rows_doors(rows),
    decreases rows.len(),
{
    if rows.len() > 0 {
        let rest = rows.drop_first();
        assert forall|k: int| 0 <= k < rest.len() implies (#[trigger] rest[k]).len() == ROOM_WIDTH by {
            assert(rest[k] == rows[k + 1]);
        }
        lemma_concat_rows(rest);
        assert(rows[0].len() == ROOM_WIDTH);
        lemma_count_doors_concat(rows[0], concat_rows(rest));
    }
}

proof fn lemma_door_slots_counted(s: Seq<char>, dc: Seq<Option<((usize, usize), Direction)>>)
    ensures
        parse_items(s, dc).3 == count_doors(s),
    decreases s.len(),
{
    if s.len() > 0 {
        lemma_door_slots_counted(s.drop_last(), dc);
    }
}

/// Number of enemy characters (`m` or `b`) in `s`.
pub open spec fn count_foes(s: Seq<char>) -> int
    decreases s.len(),
{
    if s.len() == 0 {
        0
    } else {
        count_foes(s.drop_last()) + if s.last() == 'm' || s.last() == 'b' { 1int } else { 0int }
    }
}

/// Number of enemy characters in the rows.
pub open spec fn rows_foes(rows: Seq<Seq<char>>) -> int
    decreases rows.len(),
{
    if rows.len() == 0 {
        0
    } else {
        count_foes(rows[0]) + rows_foes(rows.drop_first())
    }
}

proof fn lemma_count_foes_concat(a: Seq<char>, b: Seq<char>)
    ensures
        count_foes(a + b) == count_foes(a) + count_foes(b),
    decreases b.len(),
{
    if b.len() == 0 {
        assert(a + b =~= a);
    } else {
        assert((a + b).drop_last() =~= a + b.drop_last());
        lemma_count_foes_concat(a, b.drop_last());
    }
}

proof fn lemma_rows_foes(rows: Seq<Seq<char>>)
    ensures
        count_foes(concat_rows(rows)) == rows_foes(rows),
    decreases rows.len(),
{
    if rows.len() > 0 {
        lemma_rows_foes(rows.drop_first());
        lemma_count_foes_concat(rows[0], concat_rows(rows.drop_first()));
    }
}

proof fn lemma_foes_counted(s: Seq<char>, dc: Seq<Option<((usize, usize), Direction)>>)
    ensures
        parse_items(s, dc).1.len() == count_foes(s),
    decreases s.len(),
{
    if s.len() > 0 {
        lemma_foes_counted(s.drop_last(), dc);
    }
}

/// A layout text of `ROOM_HEIGHT` good rows holding at most four door slots fits, and reading
/// it gives one enemy for each enemy character of its rows.
proof fn lemma_rows_fit(rows: Seq<Seq<char>>)
    requires
        rows.len() == ROOM_HEIGHT,
        forall|k: int| 0 <= k < rows.len() ==> row_ok(#[trigger] rows[k]),
        rows_doors(rows) <= 4,
    ensures
        layout_fits(normalize(row_break() + join_rows(rows) + seq!['\n'])),
        forall|dc: Seq<Option<((usize, usize), Direction)>>|
            #[trigger] parse_items(normalize(row_break() + join_rows(rows) + seq!['\n']), dc).1.len() == rows_foes(rows),
{
    lemma_normalize_rows(rows);
    assert forall|k: int| 0 <= k < rows.len() implies (#[trigger] rows[k]).len() == ROOM_WIDTH by {
        assert(row_ok(rows[k]));
    }
    lemma_concat_rows(rows);
    lemma_door_slots_counted(concat_rows(rows), seq![None, None, None, None]);
    lemma_rows_foes(rows);
    assert forall|dc: Seq<Option<((usize, usize), Direction)>>|
        #[trigger] parse_items(normalize(row_break() + join_rows(rows) + seq!['\n']), dc).1.len() == rows_foes(rows) by {
        lemma_foes_counted(concat_rows(rows), dc);
    }
}

/// `ROOM_LAYOUT_START` fits, and reading it gives 0 enemies.
proof fn lemma_fits_start()
    ensures
        layout_fits(normalize(ROOM_LAYOUT_START@)),
        forall|dc: Seq<Option<((usize, usize), Direction)>>|
            #[trigger] parse_items(normalize(ROOM_LAYOUT_START@), dc).1.len() == 0,
{
    reveal_strlit("\n    #######d#######\n    #_____________#\n    #_____________#\n    #_____________#\n    d_____________d\n    #_____________#\n    #_____________#\n    #_____________#\n    #######d#######\n");
    reveal_strlit("#######d#######");
    reveal_strlit("#_____________#");
    reveal_strlit("d_____________d");
    let rows: Seq<Seq<char>> = seq!["#######d#######"@, "#_____________#"@, "#_____________#"@, "#_____________#"@, "d_____________d"@, "#_____________#"@, "#_____________#"@, "#_____________#"@, "#######d#######"@];
    assert(ROOM_LAYOUT_START@ =~= row_break() + join_rows(rows) + seq!['\n']) by {
        reveal_with_fuel(join_rows, 10);
    }
    assert forall|k: int| 0 <= k < rows.len() implies row_ok(#[trigger] rows[k]) by {}
    assert(rows_doors(rows) <= 4) by {
        assert(count_doors("#######d#######"@) == 1) by {
            reveal_with_fuel(count_doors, 16);
        }
        assert(count_doors("#_____________#"@) == 0) by {
            reveal_with_fuel(count_doors, 16);
        }
        assert(count_doors("d_____________d"@) == 2) by {
            reveal_with_fuel(count_doors, 16);
        }
        reveal_with_fuel(rows_doors, 10);
    }
    assert(rows_foes(rows) == 0) by {
        assert(count_foes("#######d#######"@) == 0) by {
            reveal_with_fuel(count_foes, 16);
        }
        assert(count_foes("#_____________#"@) == 0) by {
            reveal_with_fuel(count_foes, 16);
        }
        assert(count_foes("d_____________d"@) == 0) by {
            reveal_with_fuel(count_foes, 16);
        }
        reveal_with_fuel(rows_foes, 10);
    }
    lemma_rows_fit(rows);
}

/// `ROOM_LAYOUT_MOB_SHOOTERS` fits, and reading it gives 5 enemies.
proof fn lemma_fits_mob_shooters()
    ensures
        layout_fits(normalize(ROOM_LAYOUT_MOB_SHOOTERS@)),
        forall|dc: Seq<Option<((usize, usize), Direction)>>|
            #[trigger] parse_items(normalize(ROOM_LAYOUT_MOB_SHOOTERS@), dc).1.len() == 5,
{
    reveal_strlit("\n    #######d#######\n    #_____________#\n    #__m_______m__#\n    #_____..._____#\n    d_____.b._____d\n    #_____..._____#\n    #__m_______m__#\n    #_____________#\n    #######d#######\n");
    reveal_strlit("#######d#######");
    reveal_strlit("#_____..._____#");
    reveal_strlit("#_____________#");
    reveal_strlit("#__m_______m__#");
    reveal_strlit("d_____.b._____d");
    let rows: Seq<Seq<char>> = seq!["#######d#######"@, "#_____________#"@, "#__m_______m__#"@, "#_____..._____#"@, "d_____.b._____d"@, "#_____..._____#"@, "#__m_______m__#"@, "#_____________#"@, "#######d#######"@];
    assert(ROOM_LAYOUT_MOB_SHOOTERS@ =~= row_break() + join_rows(rows) + seq!['\n']) by {
        reveal_with_fuel(join_rows, 10);
    }
    assert forall|k: int| 0 <= k < rows.len() implies row_ok(#[trigger] rows[k]) by {}
    assert(rows_doors(rows) <= 4) by {
        assert(count_doors("#######d#######"@) == 1) by {
            reveal_with_fuel(count_doors, 16);
        }
        assert(count_doors("#_____..._____#"@) == 0) by {
            reveal_with_fuel(count_doors, 16);
        }
        assert(count_doors("#_____________#"@) == 0) by {
            reveal_with_fuel(count_doors, 16);
        }
        assert(count_doors("#__m_______m__#"@) == 0) by {
            reveal_with_fuel(count_doors, 16);
        }
        assert(count_doors("d_____.b._____d"@) == 2) by {
            reveal_with_fuel(count_doors, 16);
        }
        reveal_with_fuel(rows_doors, 10);
    }
    assert(rows_foes(rows) == 5) by {
        assert(count_foes("#######d#######"@) == 0) by {
            reveal_with_fuel(count_foes, 16);
        }
        assert(count_foes("#_____..._____#"@) == 0) by {
            reveal_with_fuel(count_foes, 16);
        }
        assert(count_foes("#_____________#"@) == 0) by {
            reveal_with_fuel(count_foes, 16);
        }
        assert(count_foes("#__m_______m__#"@) == 2) by {
            reveal_with_fuel(count_foes, 16);
        }
        assert(count_foes("d_____.b._____d"@) == 1) by {
            reveal_with_fuel(count_foes, 16);
        }
        reveal_with_fuel(rows_foes, 10);
    }
    lemma_rows_fit(rows);
}

/// `ROOM_LAYOUT_MOB_CHASERS` fits, and reading it gives 5 enemies.
proof fn lemma_fits_mob_chasers()
    ensures
        layout_fits(normalize(ROOM_LAYOUT_MOB_CHASERS@)),
        forall|dc: Seq<Option<((usize, usize), Direction)>>|
            #[trigger] parse_items(normalize(ROOM_LAYOUT_MOB_CHASERS@), dc).1.len() == 5,
{
    reveal_strlit("\n    #######d#######\n    #_b_________b_#\n    #___.......___#\n    #_____________#\n    d___v__m__v___d\n    #_____________#\n    #___.......___#\n    #_b_________b_#\n    #######d#######\n");
    reveal_strlit("#######d#######");
    reveal_strlit("#___.......___#");
    reveal_strlit("#_____________#");
    reveal_strlit("#_b_________b_#");
    reveal_strlit("d___v__m__v___d");
    let rows: Seq<Seq<char>> = seq!["#######d#######"@, "#_b_________b_#"@, "#___.......___#"@, "#_____________#"@, "d___v__m__v___d"@, "#_____________#"@, "#___.......___#"@, "#_b_________b_#"@, "#######d#######"@];
    assert(ROOM_LAYOUT_MOB_CHASERS@ =~= row_break() + join_rows(rows) + seq!['\n']) by {
        reveal_with_fuel(join_rows, 10);
    }
    assert forall|k: int| 0 <= k < rows.len() implies row_ok(#[trigger] rows[k]) by {}
    assert(rows_doors(rows) <= 4) by {
        assert(count_doors("#######d#######"@) == 1) by {
            reveal_with_fuel(count_doors, 16);
        }
        assert(count_doors("#___.......___#"@) == 0) by {
            reveal_with_fuel(count_doors, 16);
        }
        assert(count_doors("#_____________#"@) == 0) by {
            reveal_with_fuel(count_doors, 16);
        }
        assert(count_doors("#_b_________b_#"@) == 0) by {
            reveal_with_fuel(count_doors, 16);
        }
        assert(count_doors("d___v__m__v___d"@) == 2) by {
            reveal_with_fuel(count_doors, 16);
        }
        reveal_with_fuel(rows_doors, 10);
    }
    assert(rows_foes(rows) == 5) by {
        assert(count_foes("#######d#######"@) == 0) by {
            reveal_with_fuel(count_foes, 16);
        }
        assert(count_foes("#___.......___#"@) == 0) by {
            reveal_with_fuel(count_foes, 16);
        }
        assert(count_foes("#_____________#"@) == 0) by {
            reveal_with_fuel(count_foes, 16);
        }
        assert(count_foes("#_b_________b_#"@) == 2) by {
            reveal_with_fuel(count_foes, 16);
        }
        assert(count_foes("d___v__m__v___d"@) == 1) by {
            reveal_with_fuel(count_foes, 16);
        }
        reveal_with_fuel(rows_foes, 10);
    }
    lemma_rows_fit(rows);
}

/// `ROOM_LAYOUT_EMPTY_SPIKES` fits, and reading it gives 0 enemies.
proof fn lemma_fits_empty_spikes()
    ensures
        layout_fits(normalize(ROOM_LAYOUT_EMPTY_SPIKES@)),
        forall|dc: Seq<Option<((usize, usize), Direction)>>|
            #[trigger] parse_items(normalize(ROOM_LAYOUT_EMPTY_SPIKES@), dc).1.len() == 0,
{
    reveal_strlit("\n    #######d#######\n    #_____________#\n    #__.___v___.__#\n    #_____________#\n    d____v___v____d\n    #_____________#\n    #__.___v___.__#\n    #_____________#\n    #######d#######\n");
    reveal_strlit("#######d#######");
    reveal_strlit("#__.___v___.__#");
    reveal_strlit("#_____________#");
    reveal_strlit("d____v___v____d");
    let rows: Seq<Seq<char>> = seq!["#######d#######"@, "#_____________#"@, "#__.___v___.__#"@, "#_____________#"@, "d____v___v____d"@, "#_____________#"@, "#__.___v___.__#"@, "#_____________#"@, "#######d#######"@];
    assert(ROOM_LAYOUT_EMPTY_SPIKES@ =~= row_break() + join_rows(rows) + seq!['\n']) by {
        reveal_with_fuel(join_rows, 10);
    }
    assert forall|k: int| 0 <= k < rows.len() implies row_ok(#[trigger] rows[k]) by {}
    assert(rows_doors(rows) <= 4) by {
        assert(count_doors("#######d#######"@) == 1) by {
            reveal_with_fuel(count_doors, 16);
        }
        assert(count_doors("#__.___v___.__#"@) == 0) by {
            reveal_with_fuel(count_doors, 16);
        }
        assert(count_doors("#_____________#"@) == 0) by {
            reveal_with_fuel(count_doors, 16);
        }
        assert(count_doors("d____v___v____d"@) == 2) by {
            reveal_with_fuel(count_doors, 16);
        }
        reveal_with_fuel(rows_doors, 10);
    }
    assert(rows_foes(rows) == 0) by {
        assert(count_foes("#######d#######"@) == 0) by {
            reveal_with_fuel(count_foes, 16);
        }
        assert(count_foes("#__.___v___.__#"@) == 0) by {
            reveal_with_fuel(count_foes, 16);
        }
        assert(count_foes("#_____________#"@) == 0) by {
            reveal_with_fuel(count_foes, 16);
        }
        assert(count_foes("d____v___v____d"@) == 0) by {
            reveal_with_fuel(count_foes, 16);
        }
        reveal_with_fuel(rows_foes, 10);
    }
    lemma_rows_fit(rows);
}

/// `ROOM_LAYOUT_EMPTY_STONES` fits, and reading it gives 0 enemies.
proof fn lemma_fits_empty_stones()
    ensures
        layout_fits(normalize(ROOM_LAYOUT_EMPTY_STONES@)),
        forall|dc: Seq<Option<((usize, usize), Direction)>>|
            #[trigger] parse_items(normalize(ROOM_LAYOUT_EMPTY_STONES@), dc).1.len() == 0,
{
    reveal_strlit("\n    #######d#######\n    #.___________.#\n    #_____________#\n    #____.....____#\n    d_____________d\n    #____.....____#\n    #_____________#\n    #.___________.#\n    #######d#######\n");
    reveal_strlit("#######d#######");
    reveal_strlit("#.___________.#");
    reveal_strlit("#____.....____#");
    reveal_strlit("#_____________#");
    reveal_strlit("d_____________d");
    let rows: Seq<Seq<char>> = seq!["#######d#######"@, "#.___________.#"@, "#_____________#"@, "#____.....____#"@, "d_____________d"@, "#____.....____#"@, "#_____________#"@, "#.___________.#"@, "#######d#######"@];
    assert(ROOM_LAYOUT_EMPTY_STONES@ =~= row_break() + join_rows(rows) + seq!['\n']) by {
        reveal_with_fuel(join_rows, 10);
    }
    assert forall|k: int| 0 <= k < rows.len() implies row_ok(#[trigger] rows[k]) by {}
    assert(rows_doors(rows) <= 4) by {
        assert(count_doors("#######d#######"@) == 1) by {
            reveal_with_fuel(count_doors, 16);
        }
        assert(count_doors("#.___________.#"@) == 0) by {
            reveal_with_fuel(count_doors, 16);
        }
        assert(count_doors("#____.....____#"@) == 0) by {
            reveal_with_fuel(count_doors, 16);
        }
        assert(count_doors("#_____________#"@) == 0) by {
            reveal_with_fuel(count_doors, 16);
        }
        assert(count_doors("d_____________d"@) == 2) by {
            reveal_with_fuel(count_doors, 16);
        }
        reveal_with_fuel(rows_doors, 10);
    }
    assert(rows_foes(rows) == 0) by {
        assert(count_foes("#######d#######"@) == 0) by {
            reveal_with_fuel(count_foes, 16);
        }
        assert(count_foes("#.___________.#"@) == 0) by {
            reveal_with_fuel(count_foes, 16);
        }
        assert(count_foes("#____.....____#"@) == 0) by {
            reveal_with_fuel(count_foes, 16);
        }
        assert(count_foes("#_____________#"@) == 0) by {
            reveal_with_fuel(count_foes, 16);
        }
        assert(count_foes("d_____________d"@) == 0) by {
            reveal_with_fuel(count_foes, 16);
        }
        reveal_with_fuel(rows_foes, 10);
    }
    lemma_rows_fit(rows);
}

/// Every built-in layout fits; only the fight layouts hold enemies.
pub proof fn lemma_all_layouts_fit()
    ensures
        forall|tag: RoomTag, k: int|
            0 <= k < layout_choices(tag) ==> layout_fits(normalize(#[trigger] layout_text(tag, k))),
        forall|tag: RoomTag, k: int, dc: Seq<Option<((usize, usize), Direction)>>|
            0 <= k < layout_choices(tag) ==> {
                &&& tag is Mob ==> #[trigger] parse_items(normalize(layout_text(tag, k)), dc).1.len() > 0
                &&& !(tag is Mob) ==> parse_items(normalize(layout_text(tag, k)), dc).1.len() == 0
            },
{
    lemma_fits_start();
    lemma_fits_mob_shooters();
    lemma_fits_mob_chasers();
    lemma_fits_empty_spikes();
    lemma_fits_empty_stones();
}

} // verus!
