use rogue::combat::{do_chase, level_for_exp, parse_damage, roll_em, AttackSpec, Damage};
use rogue::entity::{Monster, MonsterKind, Player};
use rogue::game::{play, Key};
use rogue::map::{Dungeon, Tile};
use rogue::rng::Rng;

#[test]
fn every_grid_level_keeps_at_least_six_rooms() {
    for seed in 0..64u64 {
        let dungeon = Dungeon::generate(seed);
        let rooms = dungeon.rooms();
        assert!(rooms.len() >= 6, "seed {seed}: {} rooms", rooms.len());
        assert!(rooms.len() <= 9, "seed {seed}: {} rooms", rooms.len());
    }
}

#[test]
fn a_chase_step_closes_in_without_landing_on_the_player() {
    let map = Dungeon::from_tiles(5, 3, &[Tile::Floor; 15]);
    let player = Player::new(0, 1);
    let base = MonsterKind::Orc.rules();
    let mut orc = Monster {
        kind: MonsterKind::Orc,
        x: 2,
        y: 1,
        hp: 10,
        max_hp: 10,
        level: base.level,
        armor_class: base.armor_class,
        exp: base.exp,
        running: true,
    };
    do_chase(&map, &mut orc, &player);
    assert_eq!((orc.x, orc.y), (1, 1), "one step closer, beside the player");
    assert_ne!((orc.x, orc.y), (player.x, player.y));
}

#[test]
fn the_tiny_fallback_level_is_one_closed_room() {
    let dungeon = Dungeon::generate_sized(5, 8, 4);
    assert_eq!((dungeon.width, dungeon.height), (8, 4));
    let rooms = dungeon.rooms();
    assert_eq!(rooms.len(), 1);
    for y in 0..4 {
        for x in 0..8 {
            let inside = (1..=6).contains(&x) && (1..=2).contains(&y);
            let want = if inside { Tile::Floor } else { Tile::Wall };
            assert_eq!(dungeon.tile(x, y), want, "({x},{y})");
        }
    }
}

#[test]
fn written_segments_parse_back_in_order() {
    let segs = vec![Damage::new(12, 3), Damage::new(0, 7), Damage::new(4294967295, 1)];
    let text: Vec<String> = segs.iter().map(|d| d.notation()).collect();
    let text = text.join("/");
    assert_eq!(text, "12x3/0x7/4294967295x1");
    assert_eq!(parse_damage(&text), segs);
    assert_eq!(parse_damage(&Damage::new(3, 4).notation()), vec![Damage::new(3, 4)]);
}

#[test]
fn a_sleeping_defender_is_a_running_one_with_four_more_to_hit() {
    for seed in 0..200u64 {
        let spec = AttackSpec { level: 3, strength: 16, damage: "1x8/2x4", hplus: 1, dplus: 2 };
        let bumped = AttackSpec { hplus: 5, ..spec };
        let mut a = Rng::new(seed);
        let mut b = Rng::new(seed);
        let asleep = roll_em(&mut a, &spec, 5, false);
        let awake = roll_em(&mut b, &bumped, 5, true);
        assert_eq!(asleep, awake, "seed {seed}");
        assert_eq!(a.below(1_000_000), b.below(1_000_000), "seed {seed}: same draws consumed");
    }
}

#[test]
fn a_leading_quit_key_ends_the_session_untouched() {
    let rest = [Key::Char('l'), Key::Char('j'), Key::Char('h')];
    for quit in [Key::Char('q'), Key::Escape] {
        let mut keys = vec![quit];
        keys.extend_from_slice(&rest);
        let quitted = play(21, 80, 24, &keys);
        let idle = play(21, 80, 24, &[]);
        assert_eq!(quitted.player, idle.player);
        assert_eq!(quitted.monsters, idle.monsters);
        assert_eq!(quitted.floor, idle.floor);
    }
}

#[test]
fn different_seeds_start_different_streams() {
    let mut one = Rng::new(1);
    let mut two = Rng::new(2);
    let a: Vec<usize> = (0..16).map(|_| one.below(1000)).collect();
    let b: Vec<usize> = (0..16).map(|_| two.below(1000)).collect();
    assert_ne!(a, b);
}

#[test]
fn the_level_never_falls_as_experience_grows() {
    let mut last = level_for_exp(i32::MIN);
    for exp in (-100..9_000_000).step_by(997).chain([i32::MAX - 1, i32::MAX]) {
        let level = level_for_exp(exp);
        assert!(level >= last, "exp {exp}: {level} < {last}");
        last = level;
    }
    assert_eq!(level_for_exp(i32::MAX), 21);
}
