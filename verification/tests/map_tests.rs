use rogue::map::{
    fit_bounds, resolve_map_size, Dungeon, Room, Tile, GRID_CELLS, GRID_COLS, MAP_HEIGHT, MAP_WIDTH, MIN_FIT_HEIGHT,
    MIN_FIT_WIDTH, MIN_ROOM_HEIGHT, MIN_ROOM_WIDTH,
};
use std::collections::VecDeque;

/// Enough seeds to shake out placement and routing edge cases.
const SEEDS: std::ops::Range<u64> = 0..300;

#[test]
fn rooms_stay_in_bounds_with_room_for_walls() {
    for seed in SEEDS {
        let d = Dungeon::generate(seed);
        for room in d.rooms() {
            assert!(room.x0 >= 1 && room.y0 >= 1, "seed {seed}: {room:?}");
            assert!(room.x1 + 1 < d.width && room.y1 + 1 < d.height, "seed {seed}: {room:?}");
            assert!(room.width() >= MIN_ROOM_WIDTH, "seed {seed}: {room:?}");
            assert!(room.height() >= MIN_ROOM_HEIGHT, "seed {seed}: {room:?}");
        }
    }
}

#[test]
fn rooms_never_overlap() {
    for seed in SEEDS {
        let d = Dungeon::generate(seed);
        let rooms = d.rooms();
        for (i, a) in rooms.iter().enumerate() {
            for b in &rooms[i + 1..] {
                assert!(!a.overlaps(b), "seed {seed}: {a:?} overlaps {b:?}");
            }
        }
    }
}

#[test]
fn at_most_one_room_per_grid_cell_and_inside_it() {
    for seed in SEEDS {
        let d = Dungeon::generate(seed);
        let mut placed = 0;
        for cell in 0..GRID_CELLS {
            let Some(room) = d.room_at(cell % GRID_COLS, cell / GRID_COLS) else {
                continue;
            };
            placed += 1;
            let (x_lo, y_lo, x_hi, y_hi) = d.cell_interior_bounds(cell);
            assert!(
                room.x0 >= x_lo && room.x1 <= x_hi && room.y0 >= y_lo && room.y1 <= y_hi,
                "seed {seed}: {room:?} escapes cell {cell} bounds ({x_lo},{y_lo})..=({x_hi},{y_hi})"
            );
        }
        assert_eq!(placed, d.rooms().len());
        assert!((6..=GRID_CELLS).contains(&placed), "seed {seed}: {placed} rooms");
    }
}

/// Flood-fill every walkable tile from one room and check each other room
/// was reached, i.e. all rooms are mutually connected by corridors.
#[test]
fn every_room_reaches_every_other_room() {
    for seed in SEEDS {
        let d = Dungeon::generate(seed);
        let rooms = d.rooms();
        let start = rooms[0].center();

        let mut seen = vec![false; d.width * d.height];
        let mut queue = VecDeque::from([start]);
        seen[start.1 * d.width + start.0] = true;
        while let Some((x, y)) = queue.pop_front() {
            for (nx, ny) in [(x.wrapping_sub(1), y), (x + 1, y), (x, y.wrapping_sub(1)), (x, y + 1)] {
                if nx >= d.width || ny >= d.height {
                    continue;
                }
                let idx = ny * d.width + nx;
                if !seen[idx] && d.tile(nx, ny).is_walkable() {
                    seen[idx] = true;
                    queue.push_back((nx, ny));
                }
            }
        }

        for room in &rooms {
            for y in room.y0..=room.y1 {
                for x in room.x0..=room.x1 {
                    assert!(seen[y * d.width + x], "seed {seed}: ({x},{y}) in {room:?} unreachable from {start:?}");
                }
            }
        }
    }
}

#[test]
fn doors_sit_in_room_walls() {
    for seed in SEEDS {
        let d = Dungeon::generate(seed);
        let rooms = d.rooms();
        for y in 0..d.height {
            for x in 0..d.width {
                if d.tile(x, y) != Tile::Door {
                    continue;
                }
                let in_a_wall = rooms.iter().any(|r| {
                    (x == r.x0 - 1 || x == r.x1 + 1) && (r.y0..=r.y1).contains(&y)
                        || (y == r.y0 - 1 || y == r.y1 + 1) && (r.x0..=r.x1).contains(&x)
                });
                assert!(in_a_wall, "seed {seed}: door at ({x},{y}) is not in a room wall");
            }
        }
    }
}

#[test]
fn map_border_is_solid() {
    let d = Dungeon::generate(11);
    for x in 0..d.width {
        assert_eq!(d.tile(x, 0), Tile::Wall);
        assert_eq!(d.tile(x, d.height - 1), Tile::Wall);
    }
    for y in 0..d.height {
        assert_eq!(d.tile(0, y), Tile::Wall);
        assert_eq!(d.tile(d.width - 1, y), Tile::Wall);
    }
}

#[test]
fn same_seed_gives_same_map() {
    assert_eq!(Dungeon::generate(42).render(), Dungeon::generate(42).render());
    assert_ne!(Dungeon::generate(42).render(), Dungeon::generate(43).render());
}

#[test]
fn render_shape_and_glyphs() {
    let d = Dungeon::generate(1);
    let rendered = d.render();
    let lines: Vec<&str> = rendered.lines().collect();
    assert_eq!(lines.len(), MAP_HEIGHT);
    assert!(lines.iter().all(|l| l.chars().count() == MAP_WIDTH));
    assert!(lines.iter().all(|l| l.chars().all(|c| "#.+".contains(c))));
    assert!(d.render().contains('+'), "expected at least one door");
}

#[test]
fn fit_bounds_fills_the_terminal_minus_the_two_ui_lines() {
    assert_eq!(fit_bounds(80, 24), (80, 22));
    assert_eq!(fit_bounds(40, 15), (40, 13));
    assert_eq!(fit_bounds(120, 40), (120, 38));
}

#[test]
fn fit_bounds_never_drops_below_the_minimums() {
    assert_eq!(fit_bounds(10, 10), (MIN_FIT_WIDTH, MIN_FIT_HEIGHT));
    assert_eq!(fit_bounds(0, 0), (MIN_FIT_WIDTH, MIN_FIT_HEIGHT));
    // A 3-row terminal leaves 1 row after the two reserved lines.
    assert_eq!(fit_bounds(10, 3), (MIN_FIT_WIDTH, MIN_FIT_HEIGHT));
}

#[test]
fn explicit_overrides_win_over_the_terminal() {
    assert_eq!(resolve_map_size(Some(100), Some(30), 40, 15), (100, 30));
    assert_eq!(resolve_map_size(Some(100), None, 40, 15), (100, 13));
    assert_eq!(resolve_map_size(None, Some(30), 40, 15), (40, 30));
    // ...and are still floored at the minimums.
    assert_eq!(resolve_map_size(Some(5), Some(5), 40, 15), (MIN_FIT_WIDTH, MIN_FIT_HEIGHT));
}

#[test]
fn tiny_maps_generate_a_playable_single_room_without_panicking() {
    // Below the native 3x3-grid minimum on width, height, or both.
    for (w, h) in [(40, 13), (20, 20), (30, 10), (24, 17), (23, 18), (5, 3)] {
        let d = Dungeon::generate_sized(7, w, h);
        let rendered = d.render();
        let lines: Vec<&str> = rendered.lines().collect();
        assert_eq!(lines.len(), d.height, "{w}x{h}");
        assert!(lines.iter().all(|l| l.chars().count() == d.width), "{w}x{h}");

        let rooms = d.rooms();
        assert_eq!(rooms.len(), 1, "{w}x{h}: expected a single room");
        assert!(rooms[0].x0 >= 1 && rooms[0].y0 >= 1, "{w}x{h}");
        assert!(rooms[0].x1 + 1 < d.width && rooms[0].y1 + 1 < d.height, "{w}x{h}");
        assert!(rooms[0].width() >= MIN_ROOM_WIDTH, "{w}x{h}");
        assert!(rooms[0].height() >= MIN_ROOM_HEIGHT, "{w}x{h}");
        // The interior is all floor; the border is solid wall.
        assert_eq!(d.tile(1, 1), Tile::Floor, "{w}x{h}");
        assert_eq!(d.tile(0, 0), Tile::Wall, "{w}x{h}");
        assert_eq!(d.tile(d.width - 1, d.height - 1), Tile::Wall, "{w}x{h}");
    }
}

#[test]
fn room_geometry_formulas() {
    let r = Room { x0: 2, y0: 3, x1: 7, y1: 5 };
    assert_eq!(r.width(), 6);
    assert_eq!(r.height(), 3);
    assert_eq!(r.center(), (4, 4));
    let touching = Room { x0: 8, y0: 3, x1: 12, y1: 5 };
    let apart = Room { x0: 9, y0: 3, x1: 12, y1: 5 };
    assert!(r.overlaps(&touching), "an interior on the other's wall is an overlap");
    assert!(!r.overlaps(&apart));
}

#[test]
fn glyphs_and_walkability() {
    assert_eq!(Tile::Wall.glyph(), '#');
    assert_eq!(Tile::Floor.glyph(), '.');
    assert_eq!(Tile::Door.glyph(), '+');
    assert_eq!(Tile::Corridor.glyph(), '.');
    assert!(!Tile::Wall.is_walkable());
    assert!(Tile::Floor.is_walkable() && Tile::Door.is_walkable() && Tile::Corridor.is_walkable());
}

#[test]
fn fixture_maps_render_row_by_row() {
    let tiles = [Tile::Wall, Tile::Floor, Tile::Door, Tile::Corridor, Tile::Floor, Tile::Wall];
    let d = Dungeon::from_tiles(3, 2, &tiles);
    assert_eq!(d.render(), "#.+\n..#\n");
    assert_eq!(d.tile(2, 0), Tile::Door);
    assert!(d.rooms().is_empty());
    assert_eq!(d.room_at(0, 0), None);
}

#[test]
fn generated_extent_follows_the_request() {
    let d = Dungeon::generate_sized(3, 60, 20);
    assert_eq!((d.width, d.height), (60, 20));
    let tiny = Dungeon::generate_sized(3, 2, 1);
    assert_eq!((tiny.width, tiny.height), (MIN_ROOM_WIDTH + 2, MIN_ROOM_HEIGHT + 2));
}
