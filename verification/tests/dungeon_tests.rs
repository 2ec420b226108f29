use dungeon_crawler::consts::{DUNGEON_GRID_COLS, DUNGEON_GRID_ROWS, ROOM_HEIGHT, ROOM_WIDTH};
use dungeon_crawler::distance::RoomGrid;
use dungeon_crawler::dungeon::{Block, BlockTag, Direction, Dungeon, DungeonError, Enemy, EnemyTag, Room, RoomTag};
use dungeon_crawler::generate::{build_rooms, expand_cell};
use dungeon_crawler::grid::DungeonGrid;
use std::collections::VecDeque;
use dungeon_crawler::layout::{
    check_layout_fits, normalize_layout, is_whitespace, DoorConnects, ROOM_LAYOUTS_EMPTY, ROOM_LAYOUTS_MOB,
    ROOM_LAYOUT_START,
};
use dungeon_crawler::minimap::Minimap;
use dungeon_crawler::room::{remove_positions, DoorEvents};

fn generate() -> Dungeon {
    loop {
        if let Some(d) = Dungeon::try_generate_dungeon() {
            return d;
        }
    }
}

#[test]
fn test_dungeon_consistency_checker() {
    let grid_bad = [[0, 0, 0, 0, 0, 0, 0, 0, 0],
                    [0, 0, 0, 0, 0, 0, 0, 0, 0],
                    [0, 0, 0, 0, 0, 0, 0, 0, 0],
                    [0, 0, 0, 0, 3, 1, 2, 0, 0],
                    [0, 0, 0, 0, 4, 0, 0, 0, 0],
                    [0, 0, 0, 0, 0, 0, 0, 0, 0],
                    [0, 0, 0, 0, 0, 0, 0, 0, 0],
                    [0, 0, 0, 0, 0, 0, 0, 0, 0],];

    let grid_good = [[0, 0, 0, 0, 0, 0, 0, 0, 0],
                     [0, 0, 0, 0, 0, 0, 0, 0, 0],
                     [0, 0, 0, 0, 0, 5, 0, 0, 0],
                     [0, 0, 0, 0, 3, 1, 2, 0, 0],
                     [0, 0, 0, 0, 4, 0, 6, 7, 0],
                     [0, 0, 0, 0, 0, 0, 0, 0, 0],
                     [0, 0, 0, 0, 0, 0, 0, 0, 0],
                     [0, 0, 0, 0, 0, 0, 0, 0, 0],];

    assert!(!Dungeon::check_dungeon_consistency(&grid_bad, 7));
    assert!(Dungeon::check_dungeon_consistency(&grid_good, 7));
}

#[test]
fn consistency_fails_on_detached_room() {
    let mut grid = [[0usize; DUNGEON_GRID_COLS]; DUNGEON_GRID_ROWS];
    grid[3][5] = 1;
    grid[3][6] = 2;
    grid[0][0] = 3;
    assert!(!Dungeon::check_dungeon_consistency(&grid, 3));
    assert!(Dungeon::check_dungeon_consistency(&grid, 2));
}

#[test]
fn cardinals_count_neighbouring_rooms() {
    let mut grid = [[0usize; DUNGEON_GRID_COLS]; DUNGEON_GRID_ROWS];
    grid[3][5] = 1;
    grid[2][5] = 2;
    grid[3][4] = 3;
    grid[4][5] = 4;
    assert_eq!(Dungeon::check_room_cardinals(&grid, (3, 5)), 3);
    assert_eq!(Dungeon::check_room_cardinals(&grid, (2, 4)), 2);
    assert_eq!(Dungeon::check_room_cardinals(&grid, (0, 0)), 0);
    grid[1][0] = 5;
    grid[0][1] = 6;
    assert_eq!(Dungeon::check_room_cardinals(&grid, (0, 0)), 2);
    grid[7][8] = 7;
    assert_eq!(Dungeon::check_room_cardinals(&grid, (7, 7)), 1);
}

#[test]
fn start_room_coords() {
    assert_eq!(Dungeon::get_start_room_coords(), (3, 5));
}

fn empty_room(tag: RoomTag) -> Room {
    Room {
        tag,
        grid: [[0i32; ROOM_WIDTH]; ROOM_HEIGHT],
        dungeon_coords: (3, 5),
        doors: Vec::new(),
        obstacles: Vec::new(),
        enemies: Vec::new(),
        just_entered: true,
    }
}

#[test]
fn distance_grid_counts_steps() {
    let mut room = empty_room(RoomTag::Empty);
    room.grid[1][1] = i32::MIN;
    let d: RoomGrid = room.get_target_distance_grid((0, 0));
    assert_eq!(d[0][0], i32::MAX);
    assert_eq!(d[0][1], i32::MAX - 1);
    assert_eq!(d[1][0], i32::MAX - 1);
    assert_eq!(d[1][1], i32::MIN);
    assert_eq!(d[2][2], i32::MAX - 4);
    assert_eq!(d[ROOM_HEIGHT - 1][ROOM_WIDTH - 1], i32::MAX - ((ROOM_HEIGHT - 1) + (ROOM_WIDTH - 1)) as i32);
}

#[test]
fn distance_grid_goes_around_walls_and_skips_closed_pockets() {
    let mut room = empty_room(RoomTag::Empty);
    // a wall across row 2 with one gap at column 14
    for c in 0..ROOM_WIDTH - 1 {
        room.grid[2][c] = i32::MIN;
    }
    // a pocket at (6, 6) closed on all four sides
    room.grid[5][6] = i32::MIN;
    room.grid[7][6] = i32::MIN;
    room.grid[6][5] = i32::MIN;
    room.grid[6][7] = i32::MIN;
    room.grid[8][0] = 42;
    let d = room.get_target_distance_grid((0, 0));
    // (3, 0) lies right below the wall: around through the gap at column 14
    assert_eq!(d[3][0], i32::MAX - (14 + 3 + 14));
    assert_eq!(d[6][6], 0);
    assert_eq!(d[8][0], 42);
    assert_eq!(d[2][5], i32::MIN);
}

#[test]
fn distance_grid_target_on_wall() {
    let mut room = empty_room(RoomTag::Empty);
    room.grid[4][7] = i32::MIN;
    let d = room.get_target_distance_grid((4, 7));
    assert_eq!(d[4][7], i32::MAX);
    assert_eq!(d[4][8], i32::MAX - 1);
}

#[test]
fn layouts_are_read_row_by_row() {
    let layout = normalize_layout(ROOM_LAYOUT_START);
    assert_eq!(layout.len(), ROOM_WIDTH * ROOM_HEIGHT);
    assert!(layout.iter().all(|c| !c.is_whitespace()));
    let raw = "\n   ab c  \n\t de\n\n  f ";
    let n = normalize_layout(raw);
    assert_eq!(n.into_iter().collect::<String>(), "ab cdef");
    let n = normalize_layout("x\u{3000}\n\u{a0}y");
    assert_eq!(n.into_iter().collect::<String>(), "xy");
}

#[test]
fn whitespace_matches_std() {
    for code in 0u32..0x3100 {
        if let Some(c) = char::from_u32(code) {
            assert_eq!(is_whitespace(c), c.is_whitespace(), "{:x}", code);
        }
    }
}

#[test]
fn built_in_layouts_fit() {
    assert!(check_layout_fits(&normalize_layout(ROOM_LAYOUT_START)));
    for l in ROOM_LAYOUTS_MOB.iter().chain(ROOM_LAYOUTS_EMPTY.iter()) {
        let layout = normalize_layout(l);
        assert_eq!(layout.len(), ROOM_WIDTH * ROOM_HEIGHT);
        assert!(check_layout_fits(&layout));
    }
}

#[test]
fn layout_with_too_many_doors_does_not_fit() {
    let layout: Vec<char> = "ddddd".chars().collect();
    assert!(!check_layout_fits(&layout));
    let mut long: Vec<char> = vec!['_'; ROOM_WIDTH * ROOM_HEIGHT];
    assert!(check_layout_fits(&long));
    long.push('#');
    assert!(!check_layout_fits(&long));
    long.pop();
    long.push('v');
    assert!(check_layout_fits(&long));
}

#[test]
fn parse_layout_reads_tiles() {
    let layout: Vec<char> = "#.vdmbd_".chars().collect();
    let connects: DoorConnects = [Some(((2, 5), Direction::North)), None, None, None];
    let (obstacles, enemies, doors, grid) = Room::parse_layout(&layout, &connects);
    assert_eq!(obstacles.len(), 5);
    assert_eq!(obstacles[0], Block { cell: 0, tag: BlockTag::Wall });
    assert_eq!(obstacles[1], Block { cell: 1, tag: BlockTag::Stone });
    assert_eq!(obstacles[2], Block { cell: 2, tag: BlockTag::Spikes });
    assert_eq!(
        obstacles[3],
        Block { cell: 3, tag: BlockTag::Door { dir: Direction::North, is_open: true, connects_to: (2, 5) } }
    );
    assert_eq!(obstacles[4], Block { cell: 6, tag: BlockTag::Wall });
    assert_eq!(enemies, vec![Enemy { cell: 4, tag: EnemyTag::Shooter }, Enemy { cell: 5, tag: EnemyTag::Chaser }]);
    assert_eq!(doors, vec![3]);
    assert_eq!(grid[0][0], i32::MIN);
    assert_eq!(grid[0][1], i32::MIN);
    assert_eq!(grid[0][2], 0);
    assert_eq!(grid[0][3], i32::MIN);
    assert_eq!(grid[0][4], 0);
    assert_eq!(grid[0][6], i32::MIN);
    assert_eq!(grid[0][7], 0);
    assert_eq!(grid[1][0], 0);
}

#[test]
fn start_room_gets_doors_where_it_connects() {
    let connects: DoorConnects = [Some(((2, 5), Direction::North)), None, Some(((3, 6), Direction::East)), None];
    let room = Room::generate_room((3, 5), connects, RoomTag::Start);
    assert_eq!(room.tag, RoomTag::Start);
    assert_eq!(room.dungeon_coords, (3, 5));
    assert!(room.just_entered);
    assert_eq!(room.doors.len(), 2);
    assert_eq!(room.enemies.len(), 0);
    let north = room.obstacles[room.doors[0]];
    assert_eq!(north.cell, 7);
    assert_eq!(north.tag, BlockTag::Door { dir: Direction::North, is_open: true, connects_to: (2, 5) });
    let east = room.obstacles[room.doors[1]];
    assert_eq!(east.cell, 4 * ROOM_WIDTH + 14);
    assert_eq!(east.tag, BlockTag::Door { dir: Direction::East, is_open: true, connects_to: (3, 6) });
    // the west door slot became a wall
    let west = room.obstacles.iter().find(|b| b.cell == 4 * ROOM_WIDTH).unwrap();
    assert_eq!(west.tag, BlockTag::Wall);
    assert_eq!(room.grid[0][7], i32::MIN);
    assert_eq!(room.grid[4][7], 0);
}

#[test]
fn mob_rooms_hold_enemies() {
    for _ in 0..20 {
        let room = Room::generate_room((1, 1), [None; 4], RoomTag::Mob);
        assert!(!room.enemies.is_empty());
        assert!(room.doors.is_empty());
        let room = Room::generate_room((1, 1), [None; 4], RoomTag::Empty);
        assert!(room.enemies.is_empty());
    }
}

#[test]
fn generated_dungeons_are_sound() {
    for _ in 0..30 {
        let d = generate();
        let grid = *d.get_grid();
        let mut count = 0;
        let mut seen = vec![];
        for r in 0..DUNGEON_GRID_ROWS {
            for c in 0..DUNGEON_GRID_COLS {
                if grid[r][c] != 0 {
                    count += 1;
                    seen.push(grid[r][c]);
                    let room = d.get_room((r, c)).unwrap();
                    assert_eq!(room.dungeon_coords, (r, c));
                    // doors lead to neighbouring rooms, and back
                    for &door in room.doors.iter() {
                        match room.obstacles[door].tag {
                            BlockTag::Door { connects_to, is_open, .. } => {
                                assert!(is_open);
                                let other = d.get_room(connects_to).unwrap();
                                assert!(other.doors.iter().any(|&k| matches!(other.obstacles[k].tag,
                                    BlockTag::Door { connects_to: back, .. } if back == (r, c))));
                            }
                            _ => panic!("door index names a non-door"),
                        }
                    }
                }
            }
        }
        assert!(count == 7 || count == 8);
        seen.sort();
        assert_eq!(seen, (1..=count).collect::<Vec<_>>());
        assert_eq!(grid[3][5], 1);
        assert!(Dungeon::check_dungeon_consistency(&grid, count));
        let start = d.get_room((3, 5)).unwrap();
        assert_eq!(start.tag, RoomTag::Start);
        let mut bosses = 0;
        let mut items = 0;
        let mut starts = 0;
        for r in 0..DUNGEON_GRID_ROWS {
            for c in 0..DUNGEON_GRID_COLS {
                if let Ok(room) = d.get_room((r, c)) {
                    match room.tag {
                        RoomTag::Boss => bosses += 1,
                        RoomTag::Item => items += 1,
                        RoomTag::Start => starts += 1,
                        RoomTag::Mob => assert!(!room.enemies.is_empty()),
                        RoomTag::Empty => panic!("the generator makes no quiet rooms"),
                    }
                }
            }
        }
        assert_eq!((bosses, items, starts), (1, 1, 1));
    }
}

#[test]
fn lookup_errors() {
    let d = generate();
    assert_eq!(d.get_room((8, 0)).err(), Some(DungeonError::UnknownGridCoords((8, 0))));
    assert_eq!(d.get_room((0, 9)).err(), Some(DungeonError::UnknownGridCoords((0, 9))));
    let grid = *d.get_grid();
    for r in 0..DUNGEON_GRID_ROWS {
        for c in 0..DUNGEON_GRID_COLS {
            if grid[r][c] == 0 {
                assert_eq!(d.get_room((r, c)).err(), Some(DungeonError::UnknownRoomIndex(0)));
            }
        }
    }
}

#[test]
fn changed_room_reads_back() {
    let mut d = generate();
    {
        let room = d.get_room_mut((3, 5)).unwrap();
        room.just_entered = false;
        room.enemies.push(Enemy { cell: 20, tag: EnemyTag::Chaser });
    }
    let room = d.get_room((3, 5)).unwrap();
    assert!(!room.just_entered);
    assert_eq!(room.enemies, vec![Enemy { cell: 20, tag: EnemyTag::Chaser }]);
    assert!(d.get_room_mut((9, 9)).is_err());
}

#[test]
fn remove_positions_keeps_the_rest_in_order() {
    let mut v = vec![10, 11, 12, 13, 14, 15];
    remove_positions(&mut v, &vec![0, 2, 5]);
    assert_eq!(v, vec![11, 13, 14]);
    let mut w = vec!['a', 'b'];
    remove_positions(&mut w, &vec![]);
    assert_eq!(w, vec!['a', 'b']);
    remove_positions(&mut w, &vec![0, 1]);
    assert!(w.is_empty());
}

fn fight_room() -> Room {
    let connects: DoorConnects = [Some(((2, 5), Direction::North)), Some(((3, 4), Direction::West)), None, None];
    let mut room = Room::generate_room((3, 5), connects, RoomTag::Start);
    room.tag = RoomTag::Mob;
    room.enemies = vec![Enemy { cell: 20, tag: EnemyTag::Shooter }, Enemy { cell: 30, tag: EnemyTag::Chaser }];
    room
}

fn door_states(room: &Room) -> Vec<bool> {
    room.doors
        .iter()
        .map(|&k| match room.obstacles[k].tag {
            BlockTag::Door { is_open, .. } => is_open,
            _ => panic!("not a door"),
        })
        .collect()
}

#[test]
fn fight_room_closes_then_opens_its_doors() {
    let mut room = fight_room();
    let ev = room.update(&vec![]);
    assert_eq!(ev, DoorEvents { opened: false, closed: 2 });
    assert_eq!(door_states(&room), vec![false, false]);
    assert_eq!(room.tag, RoomTag::Mob);
    // shutting again shuts nothing
    let ev = room.update(&vec![1]);
    assert_eq!(ev, DoorEvents { opened: false, closed: 0 });
    assert_eq!(room.enemies, vec![Enemy { cell: 20, tag: EnemyTag::Shooter }]);
    let ev = room.update(&vec![0]);
    assert_eq!(ev, DoorEvents { opened: true, closed: 0 });
    assert_eq!(room.tag, RoomTag::Empty);
    assert_eq!(door_states(&room), vec![true, true]);
    assert!(room.enemies.is_empty());
    // a quiet room no longer touches its doors
    let ev = room.update(&vec![]);
    assert_eq!(ev, DoorEvents { opened: false, closed: 0 });
    assert_eq!(door_states(&room), vec![true, true]);
}

#[test]
fn fight_room_cleared_at_once_opens() {
    let mut room = fight_room();
    let ev = room.update(&vec![0, 1]);
    assert_eq!(ev, DoorEvents { opened: true, closed: 0 });
    assert_eq!(room.tag, RoomTag::Empty);
}

#[test]
fn minimap_marks_rooms() {
    let d = generate();
    let grid = *d.get_grid();
    let mut m = Minimap::new((3, 5));
    assert!(m.visited.iter().all(|row| row.iter().all(|&v| v == 0)));
    m.visit_room(&d, (3, 5));
    assert_eq!(m.visited[3][5], 3);
    for (r, c) in [(4usize, 5usize), (3, 4), (3, 6), (2, 5)] {
        let expected = if grid[r][c] != 0 { 1 } else { 0 };
        assert_eq!(m.visited[r][c], expected);
    }
    // move to a neighbour room
    let next = [(4usize, 5usize), (3, 4), (3, 6), (2, 5)].into_iter().find(|&(r, c)| grid[r][c] != 0).unwrap();
    m.visit_room(&d, next);
    assert_eq!(m.cur_room, next);
    assert_eq!(m.visited[next.0][next.1], 3);
    assert_eq!(m.visited[3][5], 2);
}

#[test]
fn minimap_leaves_the_top_row_hidden() {
    let d = generate();
    let mut m = Minimap::new((0, 0));
    m.visited[0][3] = 0;
    m.visit_room(&d, (1, 3));
    // a room above row 1 is never revealed from row 1
    assert_eq!(m.visited[0][3], 0);
    assert_eq!(m.visited[0][0], 2);
    assert_eq!(m.visited[1][3], 3);
}

#[test]
fn distance_field_always_has_a_step_uphill() {
    let mut room = empty_room(RoomTag::Mob);
    for (r, c) in [(1usize, 1usize), (1, 2), (2, 2), (3, 2), (4, 6), (5, 6), (6, 6), (7, 9), (0, 12)] {
        room.grid[r][c] = i32::MIN;
    }
    let d = room.get_target_distance_grid((8, 14));
    for r in 0..ROOM_HEIGHT {
        for c in 0..ROOM_WIDTH {
            if (r, c) == (8, 14) || room.grid[r][c] != 0 {
                continue;
            }
            assert_ne!(d[r][c], 0);
            let mut ups = 0;
            if r > 0 && d[r - 1][c] == d[r][c] + 1 { ups += 1; }
            if r + 1 < ROOM_HEIGHT && d[r + 1][c] == d[r][c] + 1 { ups += 1; }
            if c > 0 && d[r][c - 1] == d[r][c] + 1 { ups += 1; }
            if c + 1 < ROOM_WIDTH && d[r][c + 1] == d[r][c] + 1 { ups += 1; }
            assert!(ups >= 1, "no step uphill from ({}, {})", r, c);
        }
    }
}

#[test]
fn normalizing_blank_text_gives_nothing() {
    assert!(normalize_layout("").is_empty());
    assert!(normalize_layout(" \n\t\n ").is_empty());
    assert_eq!(normalize_layout("a\r\nb").into_iter().collect::<String>(), "ab");
}

/// Cells of the rooms next to `(r, c)`.
fn room_neighbours(grid: &DungeonGrid, r: usize, c: usize) -> Vec<(usize, usize)> {
    let mut out = vec![];
    if r + 1 < DUNGEON_GRID_ROWS && grid[r + 1][c] != 0 {
        out.push((r + 1, c));
    }
    if r > 0 && grid[r - 1][c] != 0 {
        out.push((r - 1, c));
    }
    if c + 1 < DUNGEON_GRID_COLS && grid[r][c + 1] != 0 {
        out.push((r, c + 1));
    }
    if c > 0 && grid[r][c - 1] != 0 {
        out.push((r, c - 1));
    }
    out
}

#[test]
fn generated_rooms_form_a_tree_with_boss_at_the_last_dead_end() {
    for _ in 0..30 {
        let d = generate();
        let grid = *d.get_grid();
        let mut cells = vec![(0, 0); 9];
        let mut n = 0;
        let mut pairs = 0;
        for r in 0..DUNGEON_GRID_ROWS {
            for c in 0..DUNGEON_GRID_COLS {
                if grid[r][c] != 0 {
                    n += 1;
                    cells[grid[r][c]] = (r, c);
                    pairs += room_neighbours(&grid, r, c).len();
                }
            }
        }
        // every adjacent pair is counted from both sides
        assert_eq!(pairs / 2, n - 1);
        for k in 2..=n {
            let (r, c) = cells[k];
            let earlier = room_neighbours(&grid, r, c).iter().filter(|&&(a, b)| grid[a][b] < k).count();
            assert_eq!(earlier, 1);
        }
        let dead_end = |k: usize| room_neighbours(&grid, cells[k].0, cells[k].1).len() == 1;
        let boss = d.get_room(cells[n]).unwrap();
        assert_eq!(boss.tag, RoomTag::Boss);
        assert!(dead_end(n));
        let item = (2..n).rev().find(|&k| dead_end(k)).unwrap();
        assert_eq!(d.get_room(cells[item]).unwrap().tag, RoomTag::Item);
    }
}

#[test]
fn expand_cell_adds_the_offered_free_cells() {
    let mut grid: DungeonGrid = [[0; DUNGEON_GRID_COLS]; DUNGEON_GRID_ROWS];
    grid[3][5] = 1;
    let mut coords = vec![(3, 5)];
    let mut q = VecDeque::new();
    expand_cell(&mut grid, &mut coords, &mut q, 3, 5, 7, [true, false, true, false]);
    assert_eq!(coords, vec![(3, 5), (4, 5), (3, 6)]);
    assert_eq!(grid[4][5], 2);
    assert_eq!(grid[3][6], 3);
    assert_eq!(grid[2][5], 0);
    assert_eq!(q, VecDeque::from(vec![(4, 5), (3, 6)]));
    // from (4, 5): east would touch (3, 6) as well, south is free
    expand_cell(&mut grid, &mut coords, &mut q, 4, 5, 7, [true, true, true, true]);
    assert_eq!(coords, vec![(3, 5), (4, 5), (3, 6), (5, 5), (4, 4)]);
    assert_eq!(grid[4][6], 0);
    assert_eq!(q, VecDeque::from(vec![(4, 5), (3, 6), (5, 5), (4, 4)]));
    // no room beyond the wanted count
    expand_cell(&mut grid, &mut coords, &mut q, 3, 6, 5, [true, true, true, true]);
    assert_eq!(coords.len(), 5);
}

/// A straight corridor of seven rooms down column 5, in the order the growth adds them.
fn corridor() -> (DungeonGrid, Vec<(usize, usize)>, Vec<(usize, usize)>) {
    let coords = vec![(3, 5), (4, 5), (2, 5), (5, 5), (1, 5), (6, 5), (0, 5)];
    let mut grid: DungeonGrid = [[0; DUNGEON_GRID_COLS]; DUNGEON_GRID_ROWS];
    for (k, &(r, c)) in coords.iter().enumerate() {
        grid[r][c] = k + 1;
    }
    (grid, coords, vec![(6, 5), (0, 5)])
}

#[test]
fn build_rooms_tags_the_last_two_dead_ends() {
    let (grid, coords, ends) = corridor();
    let d = build_rooms(grid, coords, ends, 7).unwrap();
    assert_eq!(d.get_room((3, 5)).unwrap().tag, RoomTag::Start);
    assert_eq!(d.get_room((0, 5)).unwrap().tag, RoomTag::Boss);
    assert_eq!(d.get_room((6, 5)).unwrap().tag, RoomTag::Item);
    for r in [1, 2, 4, 5] {
        assert_eq!(d.get_room((r, 5)).unwrap().tag, RoomTag::Mob);
    }
    let start = d.get_room((3, 5)).unwrap();
    assert_eq!(start.doors.len(), 2);
}

#[test]
fn build_rooms_refuses_short_maps() {
    let (grid, coords, ends) = corridor();
    assert!(build_rooms(grid, coords, ends, 8).is_none());
}

#[test]
fn door_listed_twice_shuts_once() {
    let mut room = fight_room();
    let first = room.doors[0];
    room.doors.push(first);
    let ev = room.update(&vec![]);
    assert_eq!(ev, DoorEvents { opened: false, closed: 2 });
    assert_eq!(door_states(&room), vec![false, false, false]);
}

#[test]
fn consistency_walk_skips_a_repeated_index() {
    let mut grid: DungeonGrid = [[0; DUNGEON_GRID_COLS]; DUNGEON_GRID_ROWS];
    grid[3][5] = 1;
    grid[3][6] = 2;
    grid[3][7] = 2;
    grid[3][8] = 3;
    // the walk stops at the second cell holding 2 and never meets 3
    assert!(!Dungeon::check_dungeon_consistency(&grid, 3));
    let mut grid: DungeonGrid = [[0; DUNGEON_GRID_COLS]; DUNGEON_GRID_ROWS];
    grid[3][5] = 1;
    grid[3][6] = 1;
    grid[3][7] = 9;
    // the room holding 9 lies beyond a repeated index, so the walk never reaches it
    assert!(Dungeon::check_dungeon_consistency(&grid, 1));
}
