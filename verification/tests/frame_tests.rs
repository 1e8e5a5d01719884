use rogue::game::{play, script_keys, Game};
use rogue::map::fit_bounds;
use rogue::ui::render_text;

/// The frame of `game` in a `cols` x `rows` window, one string per row.
fn frame_rows(game: &Game, cols: usize, rows: usize) -> Vec<String> {
    let text = render_text(game, cols, rows);
    assert!(text.ends_with('\n') || rows == 0);
    text.lines().map(str::to_string).collect()
}

/// The map rows of a game as the renderers overlay them.
fn expected_map_rows(game: &Game) -> Vec<String> {
    (0..game.map.height).map(|y| (0..game.map.width).map(|x| game.glyph_at(x, y)).collect()).collect()
}

#[test]
fn a_map_larger_than_the_window_renders_without_overflow() {
    let game = Game::new(7, 80, 22);
    let rows = frame_rows(&game, 40, 15);

    assert_eq!(rows.len(), 15);
    assert!(rows.iter().all(|r| r.chars().count() == 40));
    assert_eq!(rows[12].chars().count(), 40);
    assert_eq!(
        rows[13].trim_end(),
        game.status_line().chars().take(40).collect::<String>().trim_end(),
        "status line survives the clamp"
    );
    assert!(rows[13].starts_with("Level: 1 "));
    assert!(rows[14].contains("seed"));
}

#[test]
fn resize_regenerates_the_frame_at_the_new_size() {
    let mut game = Game::new(7, 80, 22);
    let old = frame_rows(&game, 80, 24);
    assert_eq!(old.len(), 24);
    assert_eq!(old[22].trim_end(), game.status_line(), "status line at the old bottom");

    game.resize(40, 13);
    let new = frame_rows(&game, 40, 15);

    assert_eq!(new.len(), 15, "the frame is the new window");
    assert!(new.iter().all(|r| r.chars().count() == 40));
    assert_eq!(game.map.height, 13, "the map regenerated at the new height");
    assert_eq!(new[14].chars().count(), 40, "no stale tail row");

    let expected = expected_map_rows(&game);
    for (y, want) in expected.iter().enumerate() {
        assert_eq!(new[y], *want, "resized map row {y}");
    }

    let status = &new[13];
    assert_eq!(status.chars().count(), 40, "status line fits the new window");
    let fitted: String = game.status_line().chars().take(40).collect();
    assert_eq!(status.trim_end(), fitted.trim_end(), "status at the new bottom");
    assert!(status.starts_with("Level: 1 "));

    assert!(game.player.hp > 0, "resize must not reset the player");
    let text = new.join("\n");
    assert_eq!(text.matches('@').count(), 1);
    assert!(text.contains('>') && text.contains('<'), "both staircases regenerate");
}

#[test]
fn resize_keeps_the_player_and_render_matches_the_play_field() {
    let mut game = Game::new(7, 80, 22);
    game.player.hp = 5;
    let (px, py) = (game.player.x, game.player.y);
    game.resize(40, 13);

    assert_eq!(game.player.hp, 5, "resize must not reset the player");
    assert!(game.player.x < 40 && game.player.y < 13);

    let rows = frame_rows(&game, 40, 15);
    assert_eq!(rows.join("\n").matches('@').count(), 1);
    assert_eq!(rows[game.player.y].chars().nth(game.player.x), Some('@'));

    if (game.player.x, game.player.y) == (px, py) {
        assert!(px < 40 && py < 13, "kept position must be in-bounds");
    }
}

#[test]
fn the_message_line_replaces_the_hint_after_a_round() {
    let (w, h) = fit_bounds(40, 15);
    let mut game = Game::new(7, w, h);
    let message = "The kestrel has injured you";
    game.last_message = Some(message.to_string());
    let rows = frame_rows(&game, 40, 15);

    assert_eq!(
        rows[h].trim_end(),
        game.status_line().chars().take(w).collect::<String>().trim_end(),
        "status line at the bottom, fitted to the window"
    );
    assert_eq!(rows[h + 1].trim_end(), message);
}

#[test]
fn buffer_text_is_one_line_per_row_at_the_buffer_width() {
    let (w, h) = fit_bounds(80, 24);
    let game = Game::new(7, w, h);
    let text = render_text(&game, 80, 24);

    let lines: Vec<&str> = text.lines().collect();
    assert_eq!(lines.len(), 24);
    assert!(lines.iter().all(|l| l.chars().count() == 80));
}

#[test]
fn same_seed_and_script_reproduce_the_exact_snapshot() {
    let keys = script_keys("llllllkkkkkkhhhh").unwrap();
    let a = play(42, 40, 10, &keys);
    let b = play(42, 40, 10, &keys);
    assert_eq!(a.snapshot(), b.snapshot());
    assert_eq!(a.player, b.player);
    assert_eq!(a.monsters, b.monsters);
    assert_eq!(a.floor, b.floor);
    let c = play(43, 40, 10, &keys);
    assert_ne!(a.snapshot(), c.snapshot(), "a different seed must diverge");
}

#[test]
fn quit_script_stops_immediately() {
    let empty = play(7, 40, 10, &[]);
    let quit = play(7, 40, 10, &script_keys("qlllll").unwrap());
    assert_eq!(quit.snapshot(), empty.snapshot());
    assert_eq!(quit.floor, 1);
    assert!(!quit.won);
    assert_eq!(quit.player.hp, 12);
    let esc = play(7, 40, 10, &script_keys("<esc>lll").unwrap());
    assert_eq!(esc.snapshot(), empty.snapshot());
}

#[test]
fn walk_east_fights_a_monster_with_exact_state() {
    let keys = script_keys("llllllll").unwrap();
    let game = play(26, 8, 4, &keys);
    assert!(game.player.experience > 0, "the eastward walk must have fought");
    assert!(game.player.hp > 0, "the player must survive the fight");
    assert_eq!(
        game.snapshot(),
        "seed: 26  floor: 1  hp: 12/12  str: 16  gold: 0  exp: 5  level: 1  won: false  dead: false  monsters: 0  amulet: false"
    );
}

#[test]
fn frames_are_exactly_the_window_at_fitting_sizes() {
    for (cols, rows) in [(80, 24), (40, 15), (100, 28), (50, 30), (120, 40)] {
        let (w, h) = fit_bounds(cols, rows);
        assert_eq!(h + 2, rows, "{cols}x{rows}");
        let game = Game::new(7, w, h);
        let frame = frame_rows(&game, cols, rows);
        assert_eq!(frame.len(), rows, "{cols}x{rows}");
        assert!(frame.iter().all(|l| l.chars().count() == cols), "{cols}x{rows}");
        for (y, want) in expected_map_rows(&game).iter().enumerate() {
            assert_eq!(frame[y], *want, "{cols}x{rows} map row {y}");
        }
        assert!(frame[h].starts_with("Level: 1 "), "{cols}x{rows}");
        assert!(frame[h + 1].contains("seed"), "{cols}x{rows}");
        assert_eq!(frame.join("\n").matches('@').count(), 1, "{cols}x{rows}");
    }
}
