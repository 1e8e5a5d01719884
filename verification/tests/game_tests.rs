use rogue::entity::{Monster, MonsterKind, Player};
use rogue::game::{
    can_move, is_quit, key_to_direction, next_position, play, render_level, script_keys, Direction, Game, Key,
    AMULET_GLYPH, STAIRS_DOWN_GLYPH, STAIRS_UP_GLYPH,
};
use rogue::levels::{floor_seed, Amulet, Stairs};
use rogue::map::{Dungeon, Tile, MAP_HEIGHT, MAP_WIDTH};

/// Build a dungeon from ASCII rows: `#` wall, `.` floor, `+` door,
/// `~` corridor.
fn map_from(rows: &[&str]) -> Dungeon {
    let width = rows[0].len();
    let mut tiles = Vec::new();
    for row in rows {
        assert_eq!(row.len(), width, "test rows must be equal width");
        for c in row.chars() {
            tiles.push(match c {
                '#' => Tile::Wall,
                '.' => Tile::Floor,
                '+' => Tile::Door,
                '~' => Tile::Corridor,
                other => panic!("unknown test tile {other:?}"),
            });
        }
    }
    Dungeon::from_tiles(width, rows.len(), &tiles)
}

/// A tiny hand-built level exercising every tile kind.
const TEST_MAP: [&str; 4] = ["#.#.+.~#", "....#..#", "#....+.#", "#.####.."];

/// A monster standing at full health, table stats, asleep.
fn monster(kind: MonsterKind, x: usize, y: usize) -> Monster {
    let base = kind.rules();
    Monster { kind, x, y, hp: 100, max_hp: 100, level: base.level, armor_class: base.armor_class, exp: base.exp, running: false }
}

#[test]
fn script_keys_parse_chars_and_arrows() {
    let keys = script_keys("h<left>j<right>k<up>l<down>q<esc>x").unwrap();
    assert_eq!(
        keys,
        vec![
            Key::Char('h'),
            Key::Left,
            Key::Char('j'),
            Key::Right,
            Key::Char('k'),
            Key::Up,
            Key::Char('l'),
            Key::Down,
            Key::Char('q'),
            Key::Escape,
            Key::Char('x'),
        ]
    );
    assert_eq!(script_keys("LL").unwrap(), vec![Key::Char('l'), Key::Char('l')], "lowercased");
    assert!(script_keys("<nope>").is_err(), "unknown token is an error");
    assert_eq!(script_keys("").unwrap(), Vec::new());
}

#[test]
fn play_applies_the_script_like_the_interactive_loop() {
    let game = play(1, 8, 4, &script_keys("hj").unwrap());
    assert_eq!((game.player.x, game.player.y), (2, 2));
    let game = play(1, 8, 4, &script_keys("zh").unwrap());
    assert_eq!((game.player.x, game.player.y), (2, 1));
}

#[test]
fn play_stops_at_quit_death_and_escape() {
    let quit = play(7, MAP_WIDTH, 22, &script_keys("qll").unwrap());
    assert_eq!((quit.player.x, quit.player.y), (quit.map.rooms()[0].center().0, quit.map.rooms()[0].center().1));
    assert_eq!(quit.player.hp, 12);
    let esc = play(7, MAP_WIDTH, 22, &script_keys("<esc>l").unwrap());
    assert_eq!(esc.snapshot(), quit.snapshot());
}

#[test]
fn snapshot_reports_the_final_state_explicitly() {
    let game = play(7, MAP_WIDTH, 22, &[]);
    let snap = game.snapshot();
    assert!(snap.starts_with("seed: 7  floor: 1  hp: 12/12  str: 16  gold: 0  exp: 0  level: 1 "), "{snap}");
    assert!(snap.contains("won: false"), "{snap}");
    assert!(snap.contains("dead: false"), "{snap}");
    assert!(snap.contains("monsters: "), "{snap}");
    assert!(snap.contains("amulet: false"), "{snap}");
}

#[test]
fn hjkl_map_to_directions() {
    assert_eq!(key_to_direction(Key::Char('h')), Some(Direction::West));
    assert_eq!(key_to_direction(Key::Char('j')), Some(Direction::South));
    assert_eq!(key_to_direction(Key::Char('k')), Some(Direction::North));
    assert_eq!(key_to_direction(Key::Char('l')), Some(Direction::East));
}

#[test]
fn arrow_keys_map_to_directions() {
    assert_eq!(key_to_direction(Key::Left), Some(Direction::West));
    assert_eq!(key_to_direction(Key::Down), Some(Direction::South));
    assert_eq!(key_to_direction(Key::Up), Some(Direction::North));
    assert_eq!(key_to_direction(Key::Right), Some(Direction::East));
}

#[test]
fn non_movement_keys_map_to_nothing() {
    assert_eq!(key_to_direction(Key::Char('q')), None);
    assert_eq!(key_to_direction(Key::Char('x')), None);
    assert_eq!(key_to_direction(Key::Escape), None);
    assert_eq!(key_to_direction(Key::Unknown), None);
}

#[test]
fn walls_block_movement() {
    let map = map_from(&TEST_MAP);
    assert!(!can_move(&map, 1, 0, Direction::West));
    assert!(!can_move(&map, 1, 0, Direction::East));
}

#[test]
fn floor_door_and_corridor_are_passable() {
    let map = map_from(&TEST_MAP);
    assert!(can_move(&map, 1, 0, Direction::South));
    assert!(can_move(&map, 3, 0, Direction::East));
    assert!(can_move(&map, 5, 0, Direction::West));
    assert!(can_move(&map, 5, 0, Direction::East));
}

#[test]
fn map_bounds_block_movement() {
    let map = map_from(&TEST_MAP);
    assert!(!can_move(&map, 0, 1, Direction::West));
    assert!(!can_move(&map, 7, 3, Direction::East));
    assert!(!can_move(&map, 7, 3, Direction::South));
}

#[test]
fn player_starts_in_first_room_center() {
    let map = Dungeon::generate(7);
    let (x, y) = map.rooms()[0].center();
    let game = Game::from_map(map, 7);
    assert_eq!((game.player.x, game.player.y), (x, y));
    assert!(game.map.tile(x, y).is_walkable());
    assert_eq!(game.floor, 1);
    assert!(!game.has_amulet);
    assert!(!game.won);
}

#[test]
fn move_player_walks_the_level_and_stops_at_walls() {
    let mut game = Game::from_map(map_from(&TEST_MAP), 0);
    assert_eq!((game.player.x, game.player.y), (1, 1));
    for dir in [Direction::East, Direction::East, Direction::North, Direction::East, Direction::East, Direction::East] {
        game.move_player(dir);
    }
    assert_eq!((game.player.x, game.player.y), (6, 0));
    assert_eq!(game.map.tile(6, 0), Tile::Corridor);
    game.move_player(Direction::East);
    assert_eq!((game.player.x, game.player.y), (6, 0));
}

#[test]
fn render_marks_the_player_once_and_shows_the_status_line() {
    let mut game = Game::from_map(map_from(&TEST_MAP), 0);
    game.move_player(Direction::East);
    let frame = game.render();
    assert_eq!(frame.matches('@').count(), 1);
    let lines: Vec<&str> = frame.lines().collect();
    assert_eq!(lines.len(), TEST_MAP.len() + 2);
    assert_eq!(lines[TEST_MAP.len()], "Level: 1");
    assert!(game.status_line().starts_with("Level: 1  Gold: 0 "));
}

#[test]
fn round_order_player_kills_before_monsters_act() {
    let mut game = Game::from_map(map_from(&TEST_MAP), 1);
    game.player = Player::new(1, 1);
    game.player.experience = 8_000_000;
    game.player.level = 21;
    let mut kestrel = monster(MonsterKind::Kobold, 2, 1);
    kestrel.hp = 1;
    kestrel.max_hp = 1;
    kestrel.running = true;
    game.monsters = vec![kestrel];

    game.step(Direction::East);

    assert_eq!(game.player.x, 1, "fighting happens in place");
    assert!(game.monsters.is_empty(), "the kestrel died during the player's action");
    assert_eq!(game.player.hp, 12, "no monster counterattack in the same round");
    assert!(game.player.experience > 8_000_000, "exp granted on the kill");
}

#[test]
fn round_order_monsters_strike_back_after_the_player() {
    let mut game = Game::from_map(map_from(&TEST_MAP), 2);
    game.player = Player::new(1, 1);
    let mut jabberwock = monster(MonsterKind::Jabberwock, 2, 1);
    jabberwock.level = 15;
    jabberwock.armor_class = -2;
    jabberwock.running = true;
    game.monsters = vec![jabberwock];

    game.step(Direction::East);

    assert_eq!(game.player.x, 1, "fighting in place, not moving");
    assert_eq!(game.monsters.len(), 1, "the jabberwock survived");
    assert_eq!(game.monsters[0].hp, 100, "the player never hit it");
    assert!(game.player.hp < 12, "the monster struck back in the AFTER phase");
    assert!(game.player.hp >= 0);
}

#[test]
fn status_line_matches_report_section_9() {
    let game = Game::from_map(map_from(&TEST_MAP), 0);
    assert_eq!(game.status_line(), "Level: 1  Gold: 0  Hp: 12(12)  Str: 16(16)  Arm: 4   Exp: 1/0");
}

#[test]
fn game_starts_on_floor_one_with_both_stairs() {
    let game = Game::new(7, MAP_WIDTH, MAP_HEIGHT);
    assert_eq!(game.floor, 1);
    assert_ne!(game.stairs.up, game.stairs.down);
    assert!(game.amulet.is_none(), "no Amulet on floor 1");
    assert!(game.map.tile(game.stairs.up.0, game.stairs.up.1).is_walkable());
    assert!(game.map.tile(game.stairs.down.0, game.stairs.down.1).is_walkable());
}

#[test]
fn descend_and_ascend_round_trip_is_deterministic() {
    let mut game = Game::new(7, MAP_WIDTH, MAP_HEIGHT);
    let floor1_map = game.map.render();
    let floor1_monsters = game.monsters.clone();
    let floor1_stairs = game.stairs;

    game.step_onto(game.stairs.down);
    assert_eq!(game.floor, 2);
    assert_eq!((game.player.x, game.player.y), game.stairs.up);

    let floor2_map = game.map.render();
    let floor2_stairs = game.stairs;
    assert_ne!(floor2_map, floor1_map, "floor 2 must differ from floor 1");

    game.step_onto(game.stairs.up);
    assert_eq!(game.floor, 1);
    assert_eq!((game.player.x, game.player.y), game.stairs.down);
    assert_eq!(game.map.render(), floor1_map, "floor 1 must regenerate identically");
    assert_eq!(game.monsters, floor1_monsters);
    assert_eq!(game.stairs, floor1_stairs);
    assert_ne!(game.stairs, floor2_stairs);
}

#[test]
fn floor_counter_stays_within_bounds() {
    let mut game = Game::new(7, MAP_WIDTH, MAP_HEIGHT);
    game.step_onto(game.stairs.up);
    assert_eq!(game.floor, 1, "exit stair is magically blocked without the Amulet");
    assert!(!game.won);
    assert!(game.status_line().contains("magically blocked"));

    for _ in 0..25 {
        game.step_onto(game.stairs.down);
    }
    assert_eq!(game.floor, 26);
    game.step_onto(game.stairs.down);
    assert_eq!(game.floor, 26, "the dungeon ends at floor 26");
}

#[test]
fn amulet_lies_only_on_floor_26_and_is_picked_up_by_stepping_on_it() {
    let mut game = Game::new(7, MAP_WIDTH, MAP_HEIGHT);
    for _ in 0..24 {
        game.step_onto(game.stairs.down);
    }
    assert_eq!(game.floor, 25);
    assert!(game.amulet.is_none(), "no Amulet on floor 25");

    game.step_onto(game.stairs.down);
    assert_eq!(game.floor, 26);
    let amulet = game.amulet.expect("the Amulet lies on floor 26");
    assert_eq!(game.map.tile(amulet.x, amulet.y), Tile::Floor, "Amulet not on a floor tile");

    game.step_onto((amulet.x, amulet.y));
    assert!(game.has_amulet);
    assert!(game.amulet.is_none(), "the Amulet leaves the floor once carried");
    assert!(!game.won, "carrying the Amulet alone does not win");
    assert!(game.status_line().contains("Amulet: carried"));
}

#[test]
fn escape_requires_floor_one_and_the_amulet() {
    let mut game = Game::new(7, MAP_WIDTH, MAP_HEIGHT);
    game.step_onto(game.stairs.up);
    assert_eq!(game.floor, 1);
    assert!(!game.won);

    game.has_amulet = true;
    game.after_move();
    assert!(game.won);
}

#[test]
fn game_full_victory_journey() {
    let mut game = Game::new(7, MAP_WIDTH, MAP_HEIGHT);
    for _ in 0..25 {
        game.step_onto(game.stairs.down);
    }
    assert_eq!(game.floor, 26);

    let amulet = game.amulet.expect("Amulet on floor 26");
    game.step_onto((amulet.x, amulet.y));
    assert!(game.has_amulet);

    for _ in 0..24 {
        game.step_onto(game.stairs.up);
    }
    assert_eq!(game.floor, 2);
    game.step_onto(game.stairs.up);
    assert_eq!(game.floor, 1);
    assert!(!game.won, "arriving on floor 1 does not win by itself");

    game.step_onto(game.stairs.up);
    assert!(game.won);
    assert_eq!(game.floor, 1);
}

#[test]
fn status_line_leads_with_the_level_field() {
    let game = Game::new(7, MAP_WIDTH, MAP_HEIGHT);
    assert!(game.status_line().starts_with("Level: 1 "), "{}", game.status_line());
    let mut deep = Game::new(7, MAP_WIDTH, MAP_HEIGHT);
    for _ in 0..25 {
        deep.step_onto(deep.stairs.down);
    }
    assert!(deep.status_line().starts_with("Level: 26 "), "{}", deep.status_line());
}

#[test]
fn render_level_draws_stairs_and_amulet_glyphs() {
    let map = Dungeon::generate(3);
    let stairs = Stairs { up: (1, 1), down: (2, 2) };
    let amulet = Amulet { x: 4, y: 4 };
    let frame = render_level(&map, Player::new(1, 2), stairs, Some(amulet), &[]);
    assert!(frame.contains(STAIRS_DOWN_GLYPH), "missing down stair glyph");
    assert!(frame.contains(STAIRS_UP_GLYPH), "missing up stair glyph");
    assert!(frame.contains(AMULET_GLYPH), "missing Amulet glyph");
    assert_eq!(frame.matches('@').count(), 1);
}

#[test]
fn fitted_game_renders_within_the_terminal_bounds() {
    let (w, h) = rogue::map::fit_bounds(40, 15);
    assert_eq!((w, h), (40, 13));
    let game = Game::new(7, w, h);
    let frame = game.render();
    let lines: Vec<&str> = frame.lines().collect();
    assert_eq!(lines.len(), 15, "map + status + hint");
    assert!(lines.iter().all(|l| l.chars().count() <= 40), "no wrapped lines");
    assert_eq!(lines.len(), game.map.height + 2);
    assert!(lines[13].starts_with("Level: 1 "), "{} ", lines[13]);
    assert!(lines[14].contains("seed"), "{}", lines[14]);
}

#[test]
fn resize_regenerates_at_the_new_size_keeping_stats_and_position() {
    let mut game = Game::new(7, MAP_WIDTH, MAP_HEIGHT);
    game.player.hp = 5;
    game.player.experience = 100;
    let (px, py) = (game.player.x, game.player.y);

    game.resize(40, 13);

    assert_eq!((game.map.width, game.map.height), (40, 13));
    assert_eq!(game.player.hp, 5, "resize must not reset the player");
    assert_eq!(game.player.experience, 100);
    assert!(game.player.x < 40 && game.player.y < 13);
    assert!(game.map.tile(game.player.x, game.player.y).is_walkable(), "player lands on walkable floor");
    if (game.player.x, game.player.y) == (px, py) {
        assert!(px < 40 && py < 13, "kept position must be in-bounds");
    }
    let frame = game.render();
    let lines: Vec<&str> = frame.lines().collect();
    assert_eq!(lines.len(), 15);
    assert!(lines.iter().all(|l| l.chars().count() <= 40));
    assert!(lines[13].starts_with("Level: 1 "));
}

#[test]
fn resize_keeps_the_current_floor() {
    let mut game = Game::new(7, MAP_WIDTH, MAP_HEIGHT);
    game.step_onto(game.stairs.down);
    assert_eq!(game.floor, 2);
    let map_seed = floor_seed(game.seed, game.floor);
    game.resize(60, 20);
    assert_eq!(game.floor, 2);
    assert_eq!((game.map.width, game.map.height), (60, 20));
    assert_eq!(
        game.map.render(),
        Dungeon::generate_sized(map_seed, 60, 20).render(),
        "the resized floor regenerates deterministically"
    );
}

/// Two rooms joined by a corridor through doors.
const TWO_ROOMS: [&str; 7] = [
    "#######################",
    "#......#########......#",
    "#......#########......#",
    "#......#########......#",
    "#......#########......#",
    "#......+~~~~~~~+......#",
    "#######################",
];

/// Move the player along a path of directions (no combat, no stairs).
fn walk(game: &mut Game, dirs: &[Direction]) {
    for &dir in dirs {
        assert!(game.move_player(dir), "the step {:?} must be walkable", dir);
    }
}

#[test]
fn fresh_game_sees_only_the_starting_room() {
    let game = Game::from_map(map_from(&TWO_ROOMS), 1);
    assert_eq!((game.player.x, game.player.y), (1, 1));
    assert_eq!(game.glyph_at(1, 1), '@');
    assert_eq!(game.glyph_at(3, 3), '.', "room A floor is lit");
    assert_eq!(game.glyph_at(7, 5), '+', "the door is lit from inside the room");
    assert_eq!(game.glyph_at(11, 5), '#', "the corridor is unexplored rock");
    assert_eq!(game.glyph_at(18, 3), '#', "room B is unexplored rock");
    assert_eq!(game.glyph_at(20, 5), '#', "room B's far edge is rock too");
}

#[test]
fn leaving_a_room_keeps_it_seen_but_unlit() {
    let mut game = Game::from_map(map_from(&TWO_ROOMS), 1);
    walk(
        &mut game,
        &[
            Direction::East,
            Direction::East,
            Direction::East,
            Direction::East,
            Direction::East,
            Direction::South,
            Direction::South,
            Direction::South,
            Direction::South,
            Direction::East,
            Direction::East,
        ],
    );
    assert_eq!((game.player.x, game.player.y), (8, 5), "in the corridor");
    let idx = 3 * game.map.width + 3;
    assert!(game.seen[idx], "room A was explored");
    assert!(!game.visible[idx], "room A is dark from the corridor");
    assert_eq!(game.glyph_at(3, 3), '.', "the remembered tile renders bare");
    assert_eq!(game.glyph_at(18, 3), '#', "never-seen room B is rock");
    assert_eq!(game.glyph_at(7, 5), '+', "the door down the corridor is lit");
}

#[test]
fn monsters_render_only_when_on_a_visible_tile() {
    let mut game = Game::from_map(map_from(&TWO_ROOMS), 1);
    let snake = monster(MonsterKind::Snake, 18, 3);
    let letter = snake.symbol();
    game.monsters = vec![snake];
    assert_eq!(game.glyph_at(18, 3), '#');
    let mut path = vec![Direction::East; 5];
    path.extend([Direction::South; 4]);
    path.extend([Direction::East; 10]);
    walk(&mut game, &path);
    assert_eq!((game.player.x, game.player.y), (16, 5), "inside room B");
    assert_eq!(game.glyph_at(18, 3), letter, "the monster renders in a lit room");
    walk(&mut game, &[Direction::West, Direction::West]);
    assert_eq!((game.player.x, game.player.y), (14, 5), "out in the corridor");
    assert_eq!(game.glyph_at(18, 3), '.', "the tile is remembered, the monster is not");
}

#[test]
fn explored_tiles_stay_seen_across_floor_changes() {
    let mut game = Game::new(7, MAP_WIDTH, MAP_HEIGHT);
    let floor1_seen = game.seen.clone();
    assert!(floor1_seen.iter().any(|&s| s), "the starting room is seen on floor 1");

    game.step_onto(game.stairs.down);
    assert_eq!(game.floor, 2);
    let floor2_seen = game.seen.clone();
    assert!(floor2_seen.iter().any(|&s| s), "the arrival room is seen on floor 2");

    game.step_onto(game.stairs.up);
    assert_eq!(game.floor, 1);
    assert!(game.seen.iter().zip(&floor1_seen).all(|(a, b)| !*b || *a), "every previously seen floor-1 tile is still seen");
}

#[test]
fn an_unknown_token_names_itself_in_the_error() {
    assert_eq!(script_keys("l<nope>l"), Err("unknown key token `<nope>`".to_string()));
    assert_eq!(script_keys("<left"), Ok(vec![Key::Char('<'), Key::Char('l'), Key::Char('e'), Key::Char('f'), Key::Char('t')]));
}

#[test]
fn quit_keys_are_q_and_escape() {
    assert!(is_quit(Key::Char('q')));
    assert!(is_quit(Key::Escape));
    assert!(!is_quit(Key::Char('Q')));
    assert!(!is_quit(Key::Left));
}

#[test]
fn next_position_stops_at_the_coordinate_edge() {
    assert_eq!(next_position(0, 0, Direction::West), None);
    assert_eq!(next_position(0, 0, Direction::North), None);
    assert_eq!(next_position(0, 0, Direction::East), Some((1, 0)));
    assert_eq!(next_position(0, 0, Direction::South), Some((0, 1)));
    assert_eq!(next_position(usize::MAX, 3, Direction::East), None);
}

#[test]
fn a_fight_reports_the_blow_and_the_counterattack() {
    let mut game = Game::from_map(map_from(&TEST_MAP), 2);
    game.player = Player::new(1, 1);
    game.player.hp = 500;
    game.player.max_hp = 500;
    let mut jabberwock = monster(MonsterKind::Jabberwock, 2, 1);
    jabberwock.armor_class = -2;
    game.monsters = vec![jabberwock];
    assert!(game.step(Direction::East));
    let message = game.last_message.clone().unwrap();
    assert!(
        message == "The jabberwock has injured you" || message == "The jabberwock doesn't hit you",
        "{message}"
    );
    assert_eq!(game.quiet, 0, "a fight resets the quiet counter");
}

#[test]
fn a_plain_step_counts_a_quiet_round() {
    let mut game = Game::from_map(map_from(&TEST_MAP), 2);
    assert!(game.step(Direction::East));
    assert_eq!((game.player.x, game.player.y), (2, 1));
    assert_eq!(game.quiet, 1);
    assert!(!game.step(Direction::North), "a wall bump is no round");
    assert_eq!(game.quiet, 1);
}

#[test]
fn the_frame_of_a_fixture_map_is_exact() {
    let game = Game::from_map(map_from(&TEST_MAP), 0);
    let frame = game.render();
    let lines: Vec<&str> = frame.lines().collect();
    let expected = ["#.#.+.##", ".@..#.##", "#....+##", "#.######"];
    for (line, want) in lines.iter().zip(expected) {
        assert_eq!(line.chars().count(), 8);
        for (got, tile) in line.chars().zip(want.chars()) {
            let stair = (got == '<' || got == '>') && (tile == '.' || tile == '+');
            assert!(got == tile || stair, "{line} vs {want}");
        }
    }
    assert_eq!(&lines[4..], &["Level: 1", "seed 0 -"]);
    assert!(frame.ends_with('\n'));
}

#[test]
fn rounds_fit_until_a_round_could_overflow() {
    let mut game = Game::new(5, 80, 24);
    assert!(game.round_fits(Direction::East));
    game.player.experience = 2_140_000_000;
    game.player.hp = -2_000_000_000;
    assert!(game.round_fits(Direction::East), "no kill on an empty tile, and no overflow");
    game.player.hp = i32::MIN + 64;
    assert!(game.round_fits(Direction::East));
    game.player.hp = i32::MIN + 63;
    assert!(!game.round_fits(Direction::East), "a monster's blow could take the hit points below i32::MIN");
    game.player.hp = 2_147_483_647 - 210 - 1 - 21 - 1;
    assert!(game.round_fits(Direction::East));
    game.player.hp = 2_147_483_647 - 210 - 1 - 21;
    assert!(!game.round_fits(Direction::East), "a kill's level-ups and healing could overflow the hit points");
    game.player.hp = 12;
    game.quiet = u32::MAX - 1 - 2 * 22;
    assert!(game.round_fits(Direction::East));
    game.quiet = u32::MAX - 2 * 22;
    assert!(!game.round_fits(Direction::East), "the quiet counter would overflow");
}

#[test]
fn a_blow_that_could_overflow_the_experience_does_not_fit() {
    let map = map_from(&["#####", "#...#", "#####"]);
    let mut game = Game::from_map(map, 3);
    game.player.x = 1;
    game.player.y = 1;
    let mut orc = monster(MonsterKind::Orc, 2, 1);
    orc.exp = 10;
    game.monsters = vec![orc];
    game.player.experience = i32::MAX - 10;
    assert!(game.round_fits(Direction::East), "the kill's experience just fits");
    assert!(game.round_fits(Direction::West), "no monster to the west");
    game.player.experience = i32::MAX - 9;
    assert!(!game.round_fits(Direction::East), "a kill would take the experience past i32::MAX");
    assert!(game.round_fits(Direction::West));
}
