use rogue::entity::{
    populate, populate_floor, populate_seeded, Damage, Monster, MonsterKind, MonsterStats, Player, Spawn,
    PLAYER_START_EXPERIENCE, PLAYER_START_GOLD, PLAYER_START_HP, PLAYER_START_LEVEL, PLAYER_START_STRENGTH,
};
use rogue::map::{Dungeon, Tile};
use rogue::rng::Rng;
use std::collections::HashSet;

/// Enough seeds to shake out placement edge cases.
const SEEDS: std::ops::Range<u64> = 0..300;

#[test]
fn player_starts_with_classic_stats() {
    let player = Player::new(3, 4);
    assert_eq!((player.x, player.y), (3, 4));
    assert_eq!(player.hp, PLAYER_START_HP);
    assert_eq!(player.max_hp, PLAYER_START_HP);
    assert_eq!(player.strength, PLAYER_START_STRENGTH);
    assert_eq!(player.gold, PLAYER_START_GOLD);
    assert_eq!(player.experience, PLAYER_START_EXPERIENCE);
    assert_eq!(player.level, PLAYER_START_LEVEL);
    assert_eq!(player.symbol(), '@');
}

#[test]
fn monster_table_is_complete_a_to_z() {
    assert_eq!(MonsterKind::ALL.len(), 26);
    let letters: String = MonsterKind::ALL.iter().map(|k| k.letter()).collect();
    assert_eq!(letters, "ABCDEFGHIJKLMNOPQRSTUVWXYZ");

    let names: HashSet<&str> = MonsterKind::ALL.iter().map(|k| k.name()).collect();
    assert_eq!(names.len(), 26, "monster names must be unique");

    for kind in MonsterKind::ALL {
        assert_eq!(MonsterKind::from_letter(kind.letter()), Some(kind));
    }
    assert!(MonsterKind::from_letter('a').is_none());
    assert!(MonsterKind::from_letter('1').is_none());
}

/// In-bounds, on room floor tiles, never the player's tile, never each
/// other's, for every seed.
#[test]
fn spawn_is_valid_across_seeds() {
    for seed in SEEDS {
        let dungeon = Dungeon::generate(seed);
        let spawn = populate_seeded(&dungeon, seed);

        let rooms = dungeon.rooms();
        let player_room = rooms[0];
        assert!(
            (player_room.x0..=player_room.x1).contains(&spawn.player.x)
                && (player_room.y0..=player_room.y1).contains(&spawn.player.y),
            "seed {seed}: player not inside the first room"
        );
        assert_eq!(dungeon.tile(spawn.player.x, spawn.player.y), Tile::Floor, "seed {seed}: player not on a floor tile");

        let mut seen: HashSet<(usize, usize)> = HashSet::from([(spawn.player.x, spawn.player.y)]);
        for monster in &spawn.monsters {
            assert!(monster.x < dungeon.width && monster.y < dungeon.height, "seed {seed}: {monster:?} out of bounds");
            assert_eq!(dungeon.tile(monster.x, monster.y), Tile::Floor, "seed {seed}: {monster:?} not on a floor tile");
            assert!(
                rooms.iter().any(|r| (r.x0..=r.x1).contains(&monster.x) && (r.y0..=r.y1).contains(&monster.y)),
                "seed {seed}: {monster:?} not inside a room"
            );
            assert!(seen.insert((monster.x, monster.y)), "seed {seed}: duplicate position {monster:?}");
        }
    }
}

#[test]
fn spawn_is_deterministic_per_seed() {
    for seed in [1, 7, 42, 1234] {
        let dungeon = Dungeon::generate(seed);
        let first = populate_seeded(&dungeon, seed);
        let second = populate_seeded(&dungeon, seed);
        assert_eq!(first, second, "seed {seed} must reproduce its spawn");
    }
}

#[test]
fn different_seeds_place_differently() {
    let summaries: HashSet<String> = (0..20).map(|seed| populate_seeded(&Dungeon::generate(seed), seed).summary()).collect();
    assert!(summaries.len() > 1, "expected different seeds to differ");
}

#[test]
fn monster_stats_are_sane() {
    for kind in MonsterKind::ALL {
        let s = kind.stats();
        assert!(s.hit_points >= 1, "{kind:?} has no hit points");
        assert!(s.exp >= 1, "{kind:?} gives no experience");
        assert!((0..=12).contains(&s.armor_class), "{kind:?} armor class {} out of range", s.armor_class);
        assert!(s.damage.dice <= 4 && s.damage.sides <= 10, "{kind:?} damage {s:?} out of range");
    }
    // The iconic values everyone quotes from the classic table.
    assert_eq!(
        MonsterKind::Zombie.stats(),
        MonsterStats { hit_points: 6, armor_class: 6, damage: Damage::new(1, 8), exp: 2 }
    );
    assert_eq!(MonsterKind::Bat.stats().hit_points, 1);
    assert_eq!(MonsterKind::Rat.stats().hit_points, 1);
    assert_eq!(MonsterKind::Dragon.stats().damage, Damage::new(3, 4));
    assert_eq!(MonsterKind::Fungus.stats().damage, Damage::none());
    // Dragon is the meanest; bat and rat are the feeblest.
    let toughest = MonsterKind::ALL.iter().max_by_key(|k| k.stats().hit_points).copied().unwrap();
    assert_eq!(toughest, MonsterKind::Dragon);
    let most_xp = MonsterKind::ALL.iter().max_by_key(|k| k.stats().exp).copied().unwrap();
    assert_eq!(most_xp, MonsterKind::Dragon);
    assert_eq!(MonsterKind::Bat.stats().exp, 1);
}

#[test]
fn monster_construction_uses_kind_stats() {
    let monster = Monster::new(MonsterKind::Kobold, 2, 3);
    assert_eq!((monster.x, monster.y), (2, 3));
    assert_eq!(monster.hp, 4);
    assert_eq!(monster.name(), "kobold");
    assert_eq!(monster.symbol(), 'K');
    assert_eq!(monster.armor_class(), 4);
    assert_eq!(monster.damage(), Damage::new(1, 4));
    assert_eq!(monster.exp_value(), 1);
}

#[test]
fn new_monsters_carry_the_rules_row_asleep() {
    let orc = Monster::new(MonsterKind::Orc, 4, 5);
    assert_eq!((orc.hp, orc.max_hp), (5, 5));
    assert_eq!((orc.level, orc.armor_class, orc.exp), (1, 6, 5));
    assert!(!orc.running);
}

#[test]
fn rules_rows_match_the_combat_table() {
    let zombie = MonsterKind::Zombie.rules();
    assert_eq!((zombie.level, zombie.armor_class, zombie.damage, zombie.exp), (2, 8, "1x8", 6));
    let dragon = MonsterKind::Dragon.rules();
    assert_eq!((dragon.level, dragon.armor_class, dragon.damage, dragon.exp), (10, -1, "1x8/1x8/3x10", 5000));
    assert_eq!(MonsterKind::Kobold.rules_name(), "kestrel");
    assert_eq!(MonsterKind::Kobold.name(), "kobold");
    assert_eq!(MonsterKind::UrVile.name(), "ur-vile");
    assert_eq!(Monster::new(MonsterKind::UrVile, 0, 0).rules_name(), "black unicorn");
    assert_eq!(MonsterKind::UrVile.letter(), 'U');
    assert!(MonsterKind::Kobold.is_mean());
    assert!(!MonsterKind::Orc.is_mean());
    assert_eq!(MonsterKind::from_index(0), MonsterKind::Aquator);
    assert_eq!(MonsterKind::Zombie.index(), 25);
}

#[test]
fn random_kinds_cover_the_table() {
    let mut rng = Rng::new(8);
    let kinds: HashSet<usize> = (0..2000).map(|_| MonsterKind::random(&mut rng).index()).collect();
    assert_eq!(kinds.len(), 26);
}

#[test]
fn summary_lists_the_player_then_each_monster() {
    let orc = Monster {
        kind: MonsterKind::Orc,
        x: 2,
        y: 3,
        hp: 5,
        max_hp: 6,
        level: 1,
        armor_class: 6,
        exp: 5,
        running: false,
    };
    let spawn = Spawn { player: Player::new(1, 1), monsters: vec![orc] };
    assert_eq!(
        spawn.summary(),
        "@ at (1,1), hp 12/12 str 16 gold 0 xp 0\nO orc at (2,3), hp 5/5 ac 5 dmg 1x8 xp 2"
    );
}

#[test]
fn populate_starts_the_player_in_the_first_room_center() {
    let dungeon = Dungeon::generate(7);
    let mut rng = Rng::new(7);
    let spawn = populate(&dungeon, &mut rng);
    assert_eq!((spawn.player.x, spawn.player.y), dungeon.rooms()[0].center());
    assert_eq!(spawn, populate_seeded(&dungeon, 7));
}

#[test]
fn populated_monsters_start_at_the_table_hit_points() {
    for seed in 0..40 {
        let dungeon = Dungeon::generate(seed);
        let spawn = populate_seeded(&dungeon, seed);
        for m in &spawn.monsters {
            assert_eq!(m.hp, m.kind.stats().hit_points, "seed {seed}: {m:?}");
            assert_eq!(*m, Monster::new(m.kind, m.x, m.y));
        }
    }
}

#[test]
fn floor_spawns_share_the_placement_and_roll_their_hit_points() {
    let dungeon = Dungeon::generate(11);
    let mut rng = Rng::new(11);
    let deep = populate_floor(&dungeon, 1, &mut rng);
    let table = populate_seeded(&dungeon, 11);
    assert_eq!(deep.player, table.player);
    assert!(deep.monsters.iter().all(|m| !m.running && m.hp == m.max_hp));
    let first = table.monsters.first().map(|m| (m.x, m.y));
    assert_eq!(deep.monsters.first().map(|m| (m.x, m.y)), first);
}

#[test]
fn roomless_maps_start_the_player_at_one_one() {
    let dungeon = Dungeon::from_tiles(3, 3, &[Tile::Floor; 9]);
    let spawn = populate_seeded(&dungeon, 4);
    assert_eq!((spawn.player.x, spawn.player.y), (1, 1));
    assert!(spawn.monsters.is_empty());
}
