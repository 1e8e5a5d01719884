use rogue::entity::{populate_floor, Spawn};
use rogue::levels::{floor_seed, has_escaped, place_amulet, place_stairs, Stairs, AMULET_LEVEL, MAX_FLOOR};
use rogue::map::{Dungeon, Tile};
use rogue::rng::Rng;
use std::collections::VecDeque;

/// Enough seeds to shake out placement edge cases.
const SEEDS: std::ops::Range<u64> = 0..300;

/// Is `target` reachable from `start` over walkable tiles?
fn reachable(map: &Dungeon, start: (usize, usize), target: (usize, usize)) -> bool {
    let mut seen = vec![false; map.width * map.height];
    let mut queue = VecDeque::from([start]);
    seen[start.1 * map.width + start.0] = true;
    while let Some((x, y)) = queue.pop_front() {
        if (x, y) == target {
            return true;
        }
        for (nx, ny) in [(x.wrapping_sub(1), y), (x + 1, y), (x, y.wrapping_sub(1)), (x, y + 1)] {
            if nx >= map.width || ny >= map.height {
                continue;
            }
            let idx = ny * map.width + nx;
            if !seen[idx] && map.tile(nx, ny).is_walkable() {
                seen[idx] = true;
                queue.push_back((nx, ny));
            }
        }
    }
    false
}

/// A freshly assembled level for `floor`: map, spawn, and stairs exactly
/// as the game would build them.
fn sample_floor(seed: u64, floor: u32) -> (Dungeon, Spawn, Stairs) {
    let map = Dungeon::generate(floor_seed(seed, floor));
    let mut rng = Rng::new(floor_seed(seed, floor));
    let spawn = populate_floor(&map, floor, &mut rng);
    let stairs = place_stairs(&map, &mut rng, (spawn.player.x, spawn.player.y));
    (map, spawn, stairs)
}

#[test]
fn floor_seed_keeps_floor_one_and_diverges_deeper() {
    assert_eq!(floor_seed(7, 1), 7);
    assert_eq!(floor_seed(42, 1), 42);
    assert_ne!(floor_seed(7, 2), floor_seed(7, 3));
    assert_eq!(floor_seed(7, 2), floor_seed(7, 2), "must be deterministic");
    assert_ne!(floor_seed(7, 2), floor_seed(8, 2), "base seed must matter");
}

#[test]
fn escape_requires_floor_one_exit_and_amulet() {
    assert!(has_escaped(1, true, true));
    assert!(!has_escaped(1, true, false), "no amulet, no escape");
    assert!(!has_escaped(1, false, true), "not on the exit stair");
    assert!(!has_escaped(2, true, true), "only floor 1 is the exit");
}

#[test]
fn stairs_sit_on_room_floor_tiles_distinct_and_reachable() {
    for seed in SEEDS {
        let (map, spawn, stairs) = sample_floor(seed, 1);
        let rooms = map.rooms();
        let start = (spawn.player.x, spawn.player.y);

        assert_ne!(stairs.up, stairs.down, "seed {seed}: stairs overlap");
        assert_ne!(stairs.up, start, "seed {seed}: up stair on the player");
        assert_ne!(stairs.down, start, "seed {seed}: down stair on the player");

        for pos in [stairs.up, stairs.down] {
            assert!(pos.0 < map.width && pos.1 < map.height, "seed {seed}: stairs at {pos:?} out of bounds");
            assert_eq!(map.tile(pos.0, pos.1), Tile::Floor, "seed {seed}: stairs at {pos:?} not on a floor tile");
            assert!(
                rooms.iter().any(|r| (r.x0..=r.x1).contains(&pos.0) && (r.y0..=r.y1).contains(&pos.1)),
                "seed {seed}: stairs at {pos:?} not inside a room"
            );
            assert!(reachable(&map, start, pos), "seed {seed}: stairs at {pos:?} unreachable from {start:?}");
        }
    }
}

#[test]
fn amulet_lands_on_a_room_floor_tile_clear_of_stairs_and_player() {
    for seed in SEEDS {
        let (map, spawn, stairs) = sample_floor(seed, AMULET_LEVEL);
        let mut rng = Rng::new(floor_seed(seed, AMULET_LEVEL));
        let amulet = place_amulet(&map, &mut rng, stairs, (spawn.player.x, spawn.player.y));
        let rooms = map.rooms();

        assert_eq!(map.tile(amulet.x, amulet.y), Tile::Floor, "seed {seed}: amulet at ({},{}) not on a floor tile", amulet.x, amulet.y);
        assert!(
            rooms.iter().any(|r| (r.x0..=r.x1).contains(&amulet.x) && (r.y0..=r.y1).contains(&amulet.y)),
            "seed {seed}: amulet at ({},{}) not inside a room",
            amulet.x,
            amulet.y
        );
        assert_ne!((amulet.x, amulet.y), (spawn.player.x, spawn.player.y), "seed {seed}: amulet on the player");
        assert_ne!((amulet.x, amulet.y), stairs.up, "seed {seed}: amulet on the up stair");
        assert_ne!((amulet.x, amulet.y), stairs.down, "seed {seed}: amulet on the down stair");
    }
}

#[test]
fn stairs_are_deterministic_per_seed_and_floor() {
    for seed in [1, 7, 42, 1234] {
        for floor in [1, 13, AMULET_LEVEL] {
            let (map_a, spawn_a, stairs_a) = sample_floor(seed, floor);
            let (map_b, spawn_b, stairs_b) = sample_floor(seed, floor);
            assert_eq!(stairs_a, stairs_b, "seed {seed} floor {floor}");
            assert_eq!(map_a.render(), map_b.render());
            assert_eq!(spawn_a, spawn_b);
        }
    }
}

#[test]
fn every_floor_has_its_own_map_seed() {
    let seeds: std::collections::HashSet<u64> = (1..=MAX_FLOOR).map(|f| floor_seed(7, f)).collect();
    assert_eq!(seeds.len(), MAX_FLOOR as usize);
    assert_eq!(floor_seed(7, MAX_FLOOR), floor_seed(7, AMULET_LEVEL));
}

#[test]
fn roomless_maps_put_stairs_on_walkable_tiles_apart_from_the_start() {
    let map = Dungeon::from_tiles(3, 1, &[Tile::Floor, Tile::Corridor, Tile::Floor]);
    let mut rng = Rng::new(3);
    let stairs = place_stairs(&map, &mut rng, (1, 0));
    let mut ends = [stairs.up.0, stairs.down.0];
    ends.sort();
    assert_eq!(ends, [0, 2]);
    assert_eq!((stairs.up.1, stairs.down.1), (0, 0));
}

#[test]
fn stairs_take_different_rooms_when_there_are_several() {
    for seed in 0..50 {
        let (map, _, stairs) = sample_floor(seed, 1);
        let rooms = map.rooms();
        let room_of = |p: (usize, usize)| rooms.iter().position(|r| (r.x0..=r.x1).contains(&p.0) && (r.y0..=r.y1).contains(&p.1));
        assert_ne!(room_of(stairs.up), room_of(stairs.down), "seed {seed}");
    }
}
