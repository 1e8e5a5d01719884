use rogue::map::{Dungeon, Tile};
use rogue::visibility::compute;

fn map_from(rows: &[&str]) -> Dungeon {
    let width = rows[0].len();
    let mut tiles = Vec::new();
    for row in rows {
        assert_eq!(row.len(), width, "test rows must be equal width");
        for c in row.chars() {
            tiles.push(match c {
                '#' => Tile::Wall,
                '.' => Tile::Floor,
                '+' => Tile::Door,
                '~' => Tile::Corridor,
                other => panic!("unknown test tile {other:?}"),
            });
        }
    }
    Dungeon::from_tiles(width, rows.len(), &tiles)
}

/// Two rooms joined by a corridor through doors: room A interior (1..6,
/// 1..5), room B interior (16..21, 1..5), doors at (7, 5) and (15, 5),
/// corridor row 5 from (8, 5) to (14, 5).
const TWO_ROOMS: [&str; 7] = [
    "#######################",
    "#......#########......#",
    "#......#########......#",
    "#......#########......#",
    "#......#########......#",
    "#......+~~~~~~~+......#",
    "#######################",
];

fn seen(visible: &[bool], map: &Dungeon, x: usize, y: usize) -> bool {
    visible[y * map.width + x]
}

#[test]
fn standing_in_a_room_reveals_the_whole_room() {
    let map = map_from(&TWO_ROOMS);
    let visible = compute(&map, 3, 3);
    for y in 1..=5 {
        for x in 1..=6 {
            assert!(seen(&visible, &map, x, y), "({x},{y}) is room A floor");
        }
    }
    assert!(seen(&visible, &map, 7, 5), "the door is lit from inside");
    assert!(seen(&visible, &map, 7, 1), "the wall ring is lit");
    assert!(seen(&visible, &map, 0, 3), "the far wall is lit");
    assert!(!seen(&visible, &map, 16, 3), "room B is dark");
    assert!(!seen(&visible, &map, 11, 5), "the corridor is dark from a room");
    assert!(!seen(&visible, &map, 20, 1), "rock beyond is dark");
}

#[test]
fn corridor_reveals_los_reach_and_walls_block() {
    let map = map_from(&TWO_ROOMS);
    let visible = compute(&map, 11, 5);
    assert!(seen(&visible, &map, 11, 5), "the player's tile");
    assert!(seen(&visible, &map, 8, 5));
    assert!(seen(&visible, &map, 14, 5));
    assert!(seen(&visible, &map, 7, 5), "room A's door is visible down the reach");
    assert!(seen(&visible, &map, 15, 5), "room B's door is visible");
    assert!(!seen(&visible, &map, 5, 5), "room A's floor is blocked by its door");
    assert!(!seen(&visible, &map, 16, 5), "room B's floor is blocked by its door");
    assert!(seen(&visible, &map, 11, 4), "the wall beside the player is lit");
    assert!(!seen(&visible, &map, 11, 3), "tiles behind the wall are not");
    assert!(!seen(&visible, &map, 18, 3), "a tile deep in room B is not visible");
}

#[test]
fn walls_block_line_of_sight() {
    let map = map_from(&TWO_ROOMS);
    let visible = compute(&map, 1, 1);
    for y in 1..=5 {
        for x in 16..=21 {
            assert!(!seen(&visible, &map, x, y), "({x},{y}) is behind the wall");
        }
    }
}

#[test]
fn stepping_through_a_door_lights_the_room_ahead() {
    let map = map_from(&TWO_ROOMS);
    let visible = compute(&map, 7, 5);
    assert!(seen(&visible, &map, 1, 1), "room A is lit from its door");
    assert!(!seen(&visible, &map, 15, 5), "room B's door is not lit from A's door");
    let visible = compute(&map, 15, 5);
    assert!(seen(&visible, &map, 18, 3), "room B is lit from its door");
    assert!(!seen(&visible, &map, 3, 3), "room A is dark from B's door");
}

#[test]
fn leaving_a_room_hides_it_again() {
    let map = map_from(&TWO_ROOMS);
    let visible = compute(&map, 11, 5);
    assert!(!seen(&visible, &map, 3, 3), "room A is dark from the corridor");
    assert!(!seen(&visible, &map, 18, 3), "room B is dark too");
}

#[test]
fn the_view_grid_covers_the_map() {
    let map = map_from(&TWO_ROOMS);
    assert_eq!(compute(&map, 3, 3).len(), map.width * map.height);
    let lit_in_room = compute(&map, 3, 3).iter().filter(|&&b| b).count();
    assert_eq!(lit_in_room, 8 * 7, "room A with its ring: columns 0..=7, rows 0..=6");
}

#[test]
fn corridor_sight_stops_at_the_reach() {
    let rows = ["###############", "~~~~~~~~~~~~~~~", "###############"];
    let map = map_from(&rows);
    let visible = compute(&map, 0, 1);
    assert!(seen(&visible, &map, 6, 1), "six tiles down the corridor");
    assert!(!seen(&visible, &map, 7, 1), "seven is beyond the reach");
}
