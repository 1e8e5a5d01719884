# rogue

A terminal roguelike after 1980 Rogue: a 3x3 grid of rooms joined by
corridors, 26 floors, the Amulet of Yendor on the last one, and Rogue 5.4.4's
combat rules. The game logic is a library verified with Verus; the program
around it (command line, terminal, key events) is ordinary Rust.

## Layout

- `src/` — the verified library. Every operation is specified as a function
  on a mathematical model of its data, and the laws of the game are stated
  and proved as proof functions.
  - `rng` — the seeded xorshift64* generator; `range`, `below`, `chance`,
    `shuffle` (a permutation).
  - `map`, `generate` — tiles, rooms, and level generation; `walks`,
    `connect`, `shape` — laws of every generated level: rooms stay in their
    cells and never overlap, every room reaches every other, the edge is solid
    rock, doors sit in room walls, and a grid level keeps at least six rooms.
  - `entity` — the player, the two monster tables, and spawning (monsters on
    room floor, never on the player or on each other).
  - `combat` — to-hit, damage, experience and levels, the monsters' phase,
    healing.
  - `levels` — floor seeds, staircases, the Amulet, and the escape rule.
  - `visibility` — the field of view; standing in a room lights exactly the
    room and its walls.
  - `game` — a session as a state machine: a round, stairs, resize,
    exploration memory, scripted play, and the session laws (the Amulet stays
    on its floor, only floor 1's exit with the Amulet wins, floors rebuild
    identically, explored tiles stay seen, staircases are reachable).
  - `ui` — the frame as plain cells, drawn into a ratatui buffer; every frame
    is exactly the window's size.
- `tests/` — tests of the library on concrete values.
- `app/` — the `rogue` binary: options, the ASCII map dump, and the
  interactive crossterm/ratatui session.

## Running

The binary takes `--dump-map`, `--floor <n>`, `--seed <n>`, `--width <n>`,
`--height <n>`; without `--dump-map` it starts an interactive session (move with
h/j/k/l or the arrow keys, quit with q).

## Two monster tables, and other choices

The game's sources disagree with themselves in a few places; this is which
side the library takes, and why.

- **Monster tables.** The kinds, their names and `MonsterKind::stats` follow
  the classic 1980 table (Fungus, Giant, Kobold, Naga, Rat, Ur-vile; the
  zombie has 6 hit points, armor 6, 1x8 damage, 2 experience), as the entity
  code and its tests define them. `Monster::new`, `populate` and
  `populate_seeded` build monsters from that table, at its hit points. The
  combat rules, though, are Rogue 5.4.4's: the to-hit roll reads a monster's
  level, its damage is a `/`-separated damage string, and floors scale it. So
  the 5.4.4 rows live in a table of their own, `MonsterKind::rules` (level,
  armor class, damage string, experience), with the 5.4.4 names that combat
  messages use (`rules_name`: the kobold's blows read "kestrel"). A game
  session spawns its monsters with `populate_floor`, which rolls hit points
  and scales the rules row for the floor, since that is what the session and
  the dump tool do. The combat tests that name the 'K' monster use `Kobold`.
- **Short windows.** `Dungeon::fit_bounds` keeps at least 13 rows, as its
  code, its documentation and its own test say. A session test elsewhere
  expects a window of fewer rows to get a level that fits it exactly; that
  test is left out, since it contradicts the map's documented floor.
- **Sets and maps.** The set of blocked tiles while populating, and the
  explored-tiles memory per floor, are a `Vec` (with no tile twice) and a
  `Vec` indexed by floor: Verus specifies these exactly, and the behaviour is
  the same.
- **Overflow.** A round is taken only when its arithmetic stays inside the
  integer limits whatever the dice show (`Game::round_fits`): the blow on a
  monster on the target tile, a kill's experience and level-ups, the
  monsters' blows, the quiet counter and the doctor's healing. Scripted play
  stops before a round that could overflow.
