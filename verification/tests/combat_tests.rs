use rogue::combat::{
    add_dam, adjacent, check_level, distance, do_chase, doctor, exp_add, hit_twentieths, hunger, killed, lev_add,
    level_for_exp, monster_attack, monster_phase, parse_damage, player_attack, rnd, roll, roll_em, starting_weapon,
    str_plus, swing, wake_monsters, AttackSpec, Damage, E_LEVELS, MAX_LEVEL, STARTING_ARMOR_AC,
};
use rogue::entity::{Monster, MonsterKind, Player};
use rogue::map::{Dungeon, Tile};
use rogue::rng::Rng;

/// A monster standing at full health, table stats, asleep.
fn monster(kind: MonsterKind, x: usize, y: usize) -> Monster {
    let base = kind.rules();
    Monster { kind, x, y, hp: 100, max_hp: 100, level: base.level, armor_class: base.armor_class, exp: base.exp, running: false }
}

#[test]
fn strength_bonus_tables_match_the_report() {
    assert_eq!(str_plus(10), 0);
    assert_eq!(str_plus(16), 0);
    assert_eq!(str_plus(3), -4);
    assert_eq!(str_plus(17), 1);
    assert_eq!(str_plus(21), 2);
    assert_eq!(str_plus(31), 3);
    assert_eq!(add_dam(10), 0);
    assert_eq!(add_dam(7), 0);
    assert_eq!(add_dam(16), 1);
    assert_eq!(add_dam(18), 2);
    assert_eq!(add_dam(21), 4);
    assert_eq!(add_dam(31), 6);
}

#[test]
fn swing_rolls_obey_the_probability() {
    let mut rng = Rng::new(1234);
    let n = 200_000;
    let hits = (0..n).filter(|_| swing(&mut rng, 1, 6, 1)).count();
    let rate = hits as f64 / n as f64;
    assert!((rate - 0.4).abs() < 0.01, "empirical hit rate {rate}");

    // Boundary behavior is exact for any dice: automatic hit and miss.
    let mut rng = Rng::new(7);
    assert!((0..1000).all(|_| swing(&mut rng, 20, 10, 0)));
    assert!((0..1000).all(|_| !swing(&mut rng, 1, -2, 0)));
}

#[test]
fn damage_strings_parse_into_attack_segments() {
    assert_eq!(parse_damage("2x4"), vec![Damage::new(2, 4)]);
    // A multi-attack monster: three independent attacks.
    assert_eq!(parse_damage("1x8/1x8/2x6"), vec![Damage::new(1, 8), Damage::new(1, 8), Damage::new(2, 6)]);
    assert_eq!(parse_damage("0x0"), vec![Damage::new(0, 0)]);
    assert_eq!(parse_damage("0x0/0x0"), vec![Damage::new(0, 0), Damage::new(0, 0)]);
    // The flytrap's placeholder parses as 0x0 (atoi reads no digits).
    assert_eq!(parse_damage("%%%x0"), vec![Damage::new(0, 0)]);
    assert_eq!(parse_damage(""), Vec::<Damage>::new());
}

#[test]
fn roll_follows_rnd_semantics() {
    let mut rng = Rng::new(3);
    assert_eq!(roll(&mut rng, 0, 6), 0);
    assert_eq!(roll(&mut rng, 2, 0), 0);
    for _ in 0..1000 {
        let v = roll(&mut rng, 1, 6);
        assert!((1..=6).contains(&v), "1d6 rolled {v}");
    }
    let mut rng = Rng::new(9);
    assert_eq!(roll(&mut rng, 5, 1), 5);
    assert_eq!(rnd(&mut rng, 0), 0);
}

#[test]
fn levels_follow_the_e_levels_walk() {
    assert_eq!(level_for_exp(0), 1);
    assert_eq!(level_for_exp(9), 1);
    assert_eq!(level_for_exp(10), 2);
    assert_eq!(level_for_exp(19), 2);
    assert_eq!(level_for_exp(20), 3);
    assert_eq!(level_for_exp(39), 3);
    assert_eq!(level_for_exp(40), 4);
    assert_eq!(level_for_exp(79), 4);
    assert_eq!(level_for_exp(80), 5);
    assert_eq!(level_for_exp(7_999_999), 20);
    assert_eq!(level_for_exp(8_000_000), MAX_LEVEL);
    assert_eq!(E_LEVELS.len(), 20);
}

#[test]
fn level_up_adds_hp_to_both_pools_and_not_strength() {
    let mut player = Player::new(1, 1);
    player.experience = 19;
    let mut rng = Rng::new(42);
    let before = (player.max_hp, player.hp, player.strength);
    let gained = check_level(&mut player, &mut rng);
    assert_eq!(gained, 1);
    assert_eq!(player.level, 2);
    let add = player.max_hp - before.0;
    assert!((1..=10).contains(&add), "roll(1,10) gave {add}");
    assert_eq!(player.hp - before.1, add, "current HP grows with max HP");
    assert_eq!(player.strength, before.2, "no strength gain in 5.4.4");
}

#[test]
fn a_big_kill_can_gain_many_levels() {
    let mut player = Player::new(1, 1);
    player.experience = 300;
    let mut rng = Rng::new(5);
    let gained = check_level(&mut player, &mut rng);
    assert_eq!(gained, 5);
    assert_eq!(player.level, 6);
    let add = player.max_hp - 12;
    assert!((5..=50).contains(&add), "roll(5,10) gave {add}");
    assert_eq!(player.hp - 12, add);
}

#[test]
fn monsters_scale_below_level_26() {
    assert_eq!(lev_add(1), 0);
    assert_eq!(lev_add(26), 0);
    assert_eq!(lev_add(27), 1);
    assert_eq!(lev_add(30), 4);
    assert_eq!(exp_add(1, 6), 0);
    assert_eq!(exp_add(1, 8), 1);
    assert_eq!(exp_add(7, 60), 40);
    assert_eq!(exp_add(10, 60), 200);
}

#[test]
fn spawn_rolls_hp_and_scales_stats() {
    let mut rng = Rng::new(11);
    let m = Monster::spawn(MonsterKind::Kobold, 2, 3, 1, &mut rng);
    assert_eq!((m.x, m.y), (2, 3));
    assert_eq!(m.level, 1);
    assert_eq!(m.armor_class, 7);
    assert!(m.max_hp == m.hp && (1..=8).contains(&m.hp), "hp = roll(1,8)");
    assert!((1..=2).contains(&m.exp), "1 + maxhp/8 = {}", m.exp);
    assert!(!m.running, "freshly spawned monsters are asleep");

    let mut rng = Rng::new(11);
    let deep = Monster::spawn(MonsterKind::Kobold, 2, 3, 27, &mut rng);
    assert_eq!(deep.level, 2);
    assert_eq!(deep.armor_class, 6);
    assert_eq!(deep.max_hp, deep.hp);
    assert!(deep.max_hp >= 2 && deep.max_hp <= 16, "roll(2,8)");
    assert!(deep.exp >= 11, "1 + 10 + exp_add = {}", deep.exp);
}

#[test]
fn golden_work_example_orc_fight() {
    let seed = 99u64;
    let mut rng = Rng::new(seed);
    let mut probe = Rng::new(seed);

    let mut player = Player::new(1, 1);
    let mut orc = Monster { kind: MonsterKind::Orc, x: 2, y: 1, hp: 6, max_hp: 6, level: 1, armor_class: 6, exp: 5, running: false };

    let res = probe.below(20) as i32;
    let hit = res + 1 >= 13;
    let predicted_damage = if hit { 1 + (probe.below(4) as i32 + 1) + (probe.below(4) as i32 + 1) + add_dam(16) } else { 0 };

    let result = player_attack(&mut rng, &mut player, &mut orc, &starting_weapon());
    assert_eq!(result.hits, u32::from(hit));
    assert_eq!(result.damage, predicted_damage);
    assert!(orc.running, "runto wakes the target before the swing");
    assert_eq!(orc.hp, (6 - predicted_damage).max(0));

    if hit && predicted_damage >= 6 {
        assert_eq!(orc.hp, 0, "killed() zeroes the monster");
        assert_eq!(player.experience, 5);
        assert_eq!(player.level, 1, "5 < e_levels[0] = 10, no level-up");
        assert_eq!(player.hp, 12);
    } else {
        assert_eq!(orc.hp, 6 - predicted_damage);
        assert_eq!(player.experience, 0);
        let res2 = probe.below(20) as i32;
        let hit2 = res2 >= 13;
        let predicted_damage2 = if hit2 { probe.below(8) as i32 + 1 } else { 0 };
        let result2 = monster_attack(&mut rng, &orc, &mut player, STARTING_ARMOR_AC);
        assert_eq!(result2.damage, predicted_damage2);
        assert_eq!(player.hp, 12 - predicted_damage2);
    }
}

#[test]
fn defender_not_running_bonus_is_monster_side() {
    let spec = AttackSpec { level: 1, strength: 16, damage: "1x4", hplus: 0, dplus: 0 };
    let mut rng = Rng::new(21);
    let n = 100_000;
    let running = (0..n).filter(|_| roll_em(&mut rng, &spec, 6, true).hits > 0).count() as f64 / n as f64;
    let frozen = (0..n).filter(|_| roll_em(&mut rng, &spec, 6, false).hits > 0).count() as f64 / n as f64;
    assert!((running - 7.0 / 20.0).abs() < 0.01);
    assert!((frozen - 11.0 / 20.0).abs() < 0.01);
    let mut rng = Rng::new(5);
    let mut player = Player::new(1, 1);
    let mut target = monster(MonsterKind::Orc, 2, 1);
    player_attack(&mut rng, &mut player, &mut target, &starting_weapon());
    assert!(target.running, "runto before roll_em");
}

#[test]
fn only_mean_monsters_wake_on_sight() {
    let player = Player::new(5, 5);
    let trials = 600;
    let mut woke_mean = 0;
    let mut woke_passive = 0;
    for seed in 0..trials {
        let mut rng = Rng::new(seed);
        let mut monsters = vec![monster(MonsterKind::Kobold, 5, 6), monster(MonsterKind::Orc, 4, 5)];
        wake_monsters(&mut rng, &player, &mut monsters);
        if monsters[0].running {
            woke_mean += 1;
        }
        if monsters[1].running {
            woke_passive += 1;
        }
    }
    let rate = woke_mean as f64 / trials as f64;
    assert!((rate - 2.0 / 3.0).abs() < 0.1, "ISMEAN wake rate {rate}");
    assert_eq!(woke_passive, 0, "non-ISMEAN monsters never wake");
}

/// An all-floor level so chase steps are never blocked.
fn open_map(width: usize, height: usize) -> Dungeon {
    Dungeon::from_tiles(width, height, &vec![Tile::Floor; width * height])
}

#[test]
fn running_monsters_attack_when_adjacent_and_chase_otherwise() {
    let map = open_map(6, 3);
    let mut rng = Rng::new(8);
    let mut player = Player::new(1, 1);
    let mut monsters = vec![monster(MonsterKind::Kobold, 2, 1), monster(MonsterKind::Hobgoblin, 4, 1)];
    for m in &mut monsters {
        m.running = true;
    }
    let report = monster_phase(&mut rng, &map, &mut player, &mut monsters, STARTING_ARMOR_AC);
    assert!(report.any_attack);
    assert_eq!(report.attacks.len(), 1, "only the adjacent kestrel attacks");
    assert_eq!(report.attacks[0].name, "kestrel");
    assert_eq!(monsters[0].x, 2, "an attacker never moves");
    assert_eq!(monsters[1].x, 3, "the hobgoblin stepped one tile closer");
    assert!(player.hp <= 12);
}

#[test]
fn chase_is_blocked_by_walls() {
    let map = Dungeon::from_tiles(
        4,
        3,
        &[
            Tile::Wall, Tile::Wall, Tile::Wall, Tile::Wall,
            Tile::Floor, Tile::Floor, Tile::Wall, Tile::Floor,
            Tile::Wall, Tile::Wall, Tile::Wall, Tile::Wall,
        ],
    );
    let mut rng = Rng::new(4);
    let mut player = Player::new(0, 1);
    let mut monsters = vec![monster(MonsterKind::Hobgoblin, 3, 1)];
    monsters[0].running = true;
    monster_phase(&mut rng, &map, &mut player, &mut monsters, STARTING_ARMOR_AC);
    assert_eq!(monsters[0].x, 3, "a walled-off monster cannot approach");
    assert_eq!(monsters[0].y, 1);
}

#[test]
fn doctor_heals_only_after_quiet_rounds() {
    let mut rng = Rng::new(2);
    let mut player = Player::new(1, 1);
    player.hp = 6;
    doctor(&mut rng, &mut player, 18);
    assert_eq!(player.hp, 6);
    doctor(&mut rng, &mut player, 19);
    assert_eq!(player.hp, 7);
    player.hp = player.max_hp;
    doctor(&mut rng, &mut player, 1000);
    assert_eq!(player.hp, player.max_hp);
    player.level = 10;
    player.hp = 10;
    doctor(&mut rng, &mut player, 2);
    assert_eq!(player.hp, 10);
    doctor(&mut rng, &mut player, 3);
    assert!(player.hp > 10 && player.hp <= 14);
}

#[test]
fn hit_twentieths_match_the_classic_odds() {
    assert_eq!(hit_twentieths(1, 6, 1), 8);
    assert_eq!(hit_twentieths(1, 6, 0), 7);
    assert_eq!(hit_twentieths(1, 6, 4), 11);
    assert_eq!(hit_twentieths(20, 10, 0), 20);
    assert_eq!(hit_twentieths(1, -2, 0), 0);
}

#[test]
fn adjacency_and_distance_are_manhattan() {
    let player = Player::new(5, 5);
    assert!(adjacent(&monster(MonsterKind::Bat, 5, 6), &player));
    assert!(!adjacent(&monster(MonsterKind::Bat, 6, 6), &player), "diagonals are not adjacent");
    assert!(!adjacent(&monster(MonsterKind::Bat, 5, 5), &player));
    assert_eq!(distance(&monster(MonsterKind::Bat, 8, 1), &player), 7);
}

#[test]
fn chase_steps_along_the_longer_axis() {
    let map = open_map(8, 8);
    let player = Player::new(1, 2);
    let mut m = monster(MonsterKind::Bat, 5, 4);
    do_chase(&map, &mut m, &player);
    assert_eq!((m.x, m.y), (4, 4));
    let mut n = monster(MonsterKind::Bat, 2, 6);
    do_chase(&map, &mut n, &player);
    assert_eq!((n.x, n.y), (2, 5));
}

#[test]
fn a_kill_grants_experience_and_zeroes_the_monster() {
    let mut rng = Rng::new(1);
    let mut player = Player::new(1, 1);
    let mut orc = monster(MonsterKind::Orc, 2, 1);
    orc.exp = 12;
    killed(&mut player, &mut orc, &mut rng);
    assert_eq!(orc.hp, 0);
    assert_eq!(player.experience, 12);
    assert_eq!(player.level, 2);
}

#[test]
fn hunger_changes_nothing_yet() {
    let mut player = Player::new(3, 3);
    let before = player.clone();
    hunger(&mut player);
    assert_eq!(player, before);
}

#[test]
fn weapon_and_damage_constructors() {
    let w = starting_weapon();
    assert_eq!((w.name, w.hplus, w.dplus, w.damage), ("mace", 1, 1, "2x4"));
    assert_eq!(Damage::none(), Damage::new(0, 0));
}
