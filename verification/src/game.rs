//! The game rules: input mapping, the combat round, level progression, and
//! the field of view folded into exploration memory.
//!
//! Each round follows Rogue's phase order: the player acts first (move, or
//! fight the monster in the way), then the AFTER daemons run in order:
//! `runners` (monsters wake, chase, attack), `doctor` (healing), `stomach`
//! (hunger). All combat math lives in `combat`; this module owns input
//! mapping, the status line, and round state (the `quiet` healing counter).
//!
//! The whole state of a session has a mathematical model, [`GameView`], and
//! every operation on a [`Game`] is specified as a function on that model.

use vstd::prelude::*;
use crate::combat::{
    self, MonsterAttack, STARTING_ARMOR_AC, starting_weapon_spec, player_attack_value, phase_value,
    doctor_value,
};
use crate::entity::{Monster, Player, fresh_player, populated, rules_name_of, lemma_rooms_fit};
use crate::levels::{
    self, Amulet, Stairs, AMULET_LEVEL, MAX_FLOOR, floor_seed_value, stairs_value, amulet_value, escaped,
    two_open_spots, on_room_floor,
};
use crate::walks::reaches;
use crate::connect::lemma_rooms_connected;
use crate::entity::lemma_present_rooms;
use crate::map::{Board, Dungeon, Room, Tile, present_rooms, walkable, glyph_of, in_room, room_fits};
use crate::generate::{level, level_size, lemma_level_has_room, lemma_level_at_its_size};
use crate::rng::{Rng, seeded};
use crate::visibility::{self, VIEW_LIMIT, cell, lit};
use crate::text::{push_char, push_str, push_digits, push_decimal, decimal, digits};

verus! {

/// Glyph for a down staircase. Classic Rogue draws both stairs as `%`;
/// since these floors carry two staircases the down one gets `>` so the two
/// ends read clearly.
pub const STAIRS_DOWN_GLYPH: char = '>';

/// Glyph for an up staircase; on floor 1 this is the surface exit.
pub const STAIRS_UP_GLYPH: char = '<';

/// Glyph for the Amulet of Yendor while it lies on the floor.
pub const AMULET_GLYPH: char = ',';

#[derive(Clone, Copy, Debug, PartialEq, Eq, Structural)]
pub enum Direction {
    North,
    South,
    East,
    West,
}

#[derive(Clone, Copy, Debug, PartialEq, Eq, Structural)]
pub enum Key {
    Char(char),
    Up,
    Down,
    Left,
    Right,
    Escape,
    Unknown,
}

/// The direction a key moves the player: `h`/`j`/`k`/`l` and the arrows.
pub open spec fn direction_of(key: Key) -> Option<Direction> {
    match key {
        Key::Char(c) => if c == 'h' {
            Some(Direction::West)
        } else if c == 'j' {
            Some(Direction::South)
        } else if c == 'k' {
            Some(Direction::North)
        } else if c == 'l' {
            Some(Direction::East)
        } else {
            None
        },
        Key::Left => Some(Direction::West),
        Key::Down => Some(Direction::South),
        Key::Up => Some(Direction::North),
        Key::Right => Some(Direction::East),
        _ => None,
    }
}

pub fn key_to_direction(key: Key) -> (d: Option<Direction>)
    ensures
        d == direction_of(key),
{
    match key {
        Key::Char('h') | Key::Left => Some(Direction::West),
        Key::Char('j') | Key::Down => Some(Direction::South),
        Key::Char('k') | Key::Up => Some(Direction::North),
        Key::Char('l') | Key::Right => Some(Direction::East),
        _ => None,
    }
}

/// The position one step in `dir` from `(x, y)`, if it is representable.
pub open spec fn next_pos(x: int, y: int, dir: Direction) -> Option<(int, int)> {
    match dir {
        Direction::North => if y > 0 {
            Some((x, y - 1))
        } else {
            None
        },
        Direction::South => if y < usize::MAX {
            Some((x, y + 1))
        } else {
            None
        },
        Direction::East => if x < usize::MAX {
            Some((x + 1, y))
        } else {
            None
        },
        Direction::West => if x > 0 {
            Some((x - 1, y))
        } else {
            None
        },
    }
}

/// The tile one step in `dir` from `(x, y)`, or `None` at the edge of the
/// coordinate range.
pub fn next_position(x: usize, y: usize, dir: Direction) -> (r: Option<(usize, usize)>)
    ensures
        match r {
            Some(p) => next_pos(x as int, y as int, dir) == Some((p.0 as int, p.1 as int)),
            None => next_pos(x as int, y as int, dir) is None,
        },
{
    match dir {
        Direction::North => if y > 0 {
            Some((x, y - 1))
        } else {
            None
        },
        Direction::South => if y < usize::MAX {
            Some((x, y + 1))
        } else {
            None
        },
        Direction::East => if x < usize::MAX {
            Some((x + 1, y))
        } else {
            None
        },
        Direction::West => if x > 0 {
            Some((x - 1, y))
        } else {
            None
        },
    }
}

/// A step from `(x, y)` in `dir` lands on a walkable tile of the map.
pub open spec fn move_ok(b: Board, x: int, y: int, dir: Direction) -> bool {
    match next_pos(x, y, dir) {
        Some(p) => b.in_bounds(p.0, p.1) && walkable(b.tile_at(p.0, p.1)),
        None => false,
    }
}

/// May a step from `(x, y)` in `dir` be taken? It must stay on the map and
/// land on a walkable tile: floor, door, or corridor. Staircases and the
/// Amulet sit on walkable tiles, so they never block.
pub fn can_move(map: &Dungeon, x: usize, y: usize, dir: Direction) -> (b: bool)
    requires
        map.cells().len() == map.width * map.height,
    ensures
        b == move_ok(map@, x as int, y as int, dir),
{
    let (nx, ny) = match next_position(x, y, dir) {
        Some(p) => p,
        None => return false,
    };
    if nx >= map.width || ny >= map.height {
        return false;
    }
    proof {
        crate::generate::lemma_index_in(map.width as int, map.height as int, nx as int, ny as int);
        assert(map.tiles@.len() == map.tiles.len());
    }
    map.tile(nx, ny).is_walkable()
}

// ---------------------------------------------------------------------
// The model of a session
// ---------------------------------------------------------------------

/// A session as plain values: every field of [`Game`], collections by their
/// contents and the RNG by its state.
#[verifier::ext_equal]
pub struct GameView {
    pub map: Board,
    pub player: Player,
    pub monsters: Seq<Monster>,
    pub floor: u32,
    pub seed: u64,
    pub rng: u64,
    pub quiet: u32,
    pub last_message: Option<Seq<char>>,
    pub stairs: Stairs,
    pub amulet: Option<Amulet>,
    pub has_amulet: bool,
    pub won: bool,
    pub seen: Seq<bool>,
    pub visible: Seq<bool>,
    pub seen_maps: Seq<Seq<bool>>,
}

/// One play session: the current floor, its features, the player, the
/// victory state, and the round state.
pub struct Game {
    pub map: Dungeon,
    pub player: Player,
    pub monsters: Vec<Monster>,
    /// Current dungeon floor (1..=MAX_FLOOR). Combat reads it for monster
    /// scaling; level progression owns stairs and floors.
    pub floor: u32,
    /// The base seed of the game; each floor's map seed is derived from it
    /// with [`levels::floor_seed`], so re-entering a floor is deterministic.
    pub seed: u64,
    /// RNG for spawning and all combat rolls.
    pub rng: Rng,
    /// Quiet rounds since the last combat: resets to 0 on any fight and
    /// gates healing.
    pub quiet: u32,
    /// The most recent event, shown under the status line.
    pub last_message: Option<String>,
    pub stairs: Stairs,
    /// Where the Amulet lies on the floor, if it still does. `None` on every
    /// floor but [`AMULET_LEVEL`], and once the player carries it.
    pub amulet: Option<Amulet>,
    /// Whether the player carries the Amulet of Yendor.
    pub has_amulet: bool,
    /// True once the player escapes: floor 1's exit stair with the Amulet.
    pub won: bool,
    /// Tiles the player has ever seen on the current floor, row-major over
    /// the map. Never-seen tiles render as solid rock.
    pub seen: Vec<bool>,
    /// Tiles lit right now: the room the player stands in, or the short
    /// line-of-sight reach down a corridor.
    pub visible: Vec<bool>,
    /// The `seen` grids of the floors the player left, one slot per floor
    /// number (an empty grid where none is kept), so a floor the player
    /// leaves and re-enters restores its exploration memory.
    pub seen_maps: Vec<Vec<bool>>,
}

/// The text of an optional message.
pub open spec fn message_view(m: Option<String>) -> Option<Seq<char>> {
    match m {
        Some(s) => Some(s@),
        None => None,
    }
}

impl View for Game {
    type V = GameView;

    open spec fn view(&self) -> GameView {
        GameView {
            map: self.map@,
            player: self.player,
            monsters: self.monsters@,
            floor: self.floor,
            seed: self.seed,
            rng: self.rng@,
            quiet: self.quiet,
            last_message: message_view(self.last_message),
            stairs: self.stairs,
            amulet: self.amulet,
            has_amulet: self.has_amulet,
            won: self.won,
            seen: self.seen@,
            visible: self.visible@,
            seen_maps: self.seen_maps@.map_values(|v: Vec<bool>| v@),
        }
    }
}

/// A grid of `n` unseen tiles.
pub open spec fn blank(n: int) -> Seq<bool> {
    Seq::new(n as nat, |i: int| false)
}

/// No floor's exploration memory kept yet.
pub open spec fn no_seen_maps() -> Seq<Seq<bool>> {
    Seq::new((MAX_FLOOR + 1) as nat, |i: int| Seq::<bool>::empty())
}

/// What a player at `(px, py)` sees, row-major over the map.
pub open spec fn view_grid(b: Board, px: int, py: int) -> Seq<bool> {
    Seq::new((b.width * b.height) as nat, |i: int| lit(b, px, py, i % (b.width as int), i / (b.width as int)))
}

/// The view recomputed from the player's position and folded into the
/// exploration memory: every lit tile becomes seen.
pub open spec fn refreshed(g: GameView) -> GameView {
    let v = view_grid(g.map, g.player.x as int, g.player.y as int);
    GameView { visible: v, seen: Seq::new(g.seen.len(), |i: int| g.seen[i] || v[i]), ..g }
}

/// The map `Dungeon::generate_sized` builds for `floor` of the game seeded
/// with `seed`, at the requested size.
pub open spec fn level_board(seed: u64, floor: u32, w: int, h: int) -> Board {
    let (tiles, rooms) = level(floor_seed_value(seed, floor), w, h);
    Board { width: level_size(w, h).0 as usize, height: level_size(w, h).1 as usize, tiles, rooms }
}

/// The session laid onto map `b` for `floor`: the player and monsters,
/// both staircases, the Amulet on its floor, all rolled from one RNG seeded
/// with the floor's map seed; then the first view.
#[verifier::opaque]
pub open spec fn assembled(b: Board, floor: u32, seed: u64) -> GameView {
    let (p, ms, s1) = populated(b.cells(), b.width as int, b.slots(), Some(floor), seeded(floor_seed_value(seed, floor)));
    let avoid = (p.x, p.y);
    let (st, s2) = stairs_value(b.cells(), b.width as int, b.height as int, b.slots(), s1, avoid);
    let am = if floor == AMULET_LEVEL {
        Some(amulet_value(b.cells(), b.width as int, b.slots(), s2, st, avoid).0)
    } else {
        None
    };
    let s3 = if floor == AMULET_LEVEL {
        amulet_value(b.cells(), b.width as int, b.slots(), s2, st, avoid).1
    } else {
        s2
    };
    refreshed(
        GameView {
            map: b,
            player: fresh_player(p.x, p.y),
            monsters: ms,
            floor,
            seed,
            rng: s3,
            quiet: 0,
            last_message: None,
            stairs: st,
            amulet: am,
            has_amulet: false,
            won: false,
            seen: blank(b.width * b.height),
            visible: Seq::empty(),
            seen_maps: no_seen_maps(),
        },
    )
}

/// What [`Game::assemble`] needs of a map: well-formed and small enough for
/// the view arithmetic, with a room (or, on a roomless map, space for both
/// stairs and a start tile on the map), and a room for the Amulet on its
/// floor.
pub open spec fn assemble_fits(b: Board, floor: u32) -> bool {
    &&& b.wf()
    &&& b.width <= VIEW_LIMIT
    &&& b.height <= VIEW_LIMIT
    &&& 1 <= floor <= MAX_FLOOR
    &&& present_rooms(b.slots()).len() == 0 ==> two_open_spots(b, (1, 1)) && b.width >= 2 && b.height >= 2
    &&& floor == AMULET_LEVEL ==> present_rooms(b.slots()).len() > 0
}

/// A session's state is consistent: a well-formed map small enough for the
/// view arithmetic (and for regenerating floors at its size), the player on
/// it, view grids of the map's size, the floor in range, and one memory
/// slot per floor.
pub open spec fn game_wf(g: GameView) -> bool {
    &&& g.map.wf()
    &&& g.map.width <= VIEW_LIMIT
    &&& g.map.height <= VIEW_LIMIT
    &&& level_size(g.map.width as int, g.map.height as int).0 * level_size(g.map.width as int, g.map.height as int).1
        <= usize::MAX
    &&& g.map.in_bounds(g.player.x as int, g.player.y as int)
    &&& g.seen.len() == g.map.width * g.map.height
    &&& g.visible.len() == g.map.width * g.map.height
    &&& 1 <= g.floor <= MAX_FLOOR
    &&& g.seen_maps.len() == MAX_FLOOR + 1
}

/// Both staircases lie on walkable tiles of the map, apart from each other
/// and from the player.
pub open spec fn stairs_ok(g: GameView) -> bool {
    let (up, down) = (g.stairs.up, g.stairs.down);
    &&& g.map.in_bounds(up.0 as int, up.1 as int)
    &&& g.map.in_bounds(down.0 as int, down.1 as int)
    &&& walkable(g.map.tile_at(up.0 as int, up.1 as int))
    &&& walkable(g.map.tile_at(down.0 as int, down.1 as int))
    &&& up != down
    &&& up != (g.player.x, g.player.y)
    &&& down != (g.player.x, g.player.y)
}

/// The staircases, and the Amulet where it lies, can be walked to from the
/// player's tile.
pub open spec fn features_reachable(g: GameView) -> bool {
    let t = g.map.cells();
    let (w, h) = (g.map.width as int, g.map.height as int);
    let p = (g.player.x as int, g.player.y as int);
    &&& reaches(t, w, h, p, (g.stairs.up.0 as int, g.stairs.up.1 as int))
    &&& reaches(t, w, h, p, (g.stairs.down.0 as int, g.stairs.down.1 as int))
    &&& g.amulet matches Some(a) ==> reaches(t, w, h, p, (a.x as int, a.y as int))
}

/// The player stands in the first room, and the staircases and the Amulet
/// on room floor tiles.
pub open spec fn features_in_rooms(g: GameView) -> bool {
    &&& in_room(present_rooms(g.map.slots())[0], g.player.x as int, g.player.y as int)
    &&& on_room_floor(g.map, g.stairs.up.0 as int, g.stairs.up.1 as int)
    &&& on_room_floor(g.map, g.stairs.down.0 as int, g.stairs.down.1 as int)
    &&& g.amulet matches Some(a) ==> on_room_floor(g.map, a.x as int, a.y as int)
}

/// The player sees exactly the first room of the level and its wall ring.
pub open spec fn sees_start_room(g: GameView) -> bool {
    forall|x: int, y: int|
        #[trigger] g.map.in_bounds(x, y) ==> (cell(g.visible, g.map.width as int, x, y) <==> crate::map::in_room_box(
            present_rooms(g.map.slots())[0],
            x,
            y,
        ))
}

/// A view grid holds, at `(x, y)`, whether that tile is lit.
proof fn lemma_view_grid_at(b: Board, px: int, py: int, x: int, y: int)
    requires
        b.in_bounds(x, y),
    ensures
        cell(view_grid(b, px, py), b.width as int, x, y) == lit(b, px, py, x, y),
{
    let w = b.width as int;
    let h = b.height as int;
    crate::generate::lemma_index_in(w, h, x, y);
    vstd::arithmetic::div_mod::lemma_fundamental_div_mod_converse(y * w + x, w, y, x);
}

/// On a generated level, a tile in a room reaches every tile in a room.
proof fn lemma_room_tiles_reach(seed: u64, w: int, h: int, p: (int, int), q: (int, int))
    requires
        level_size(w, h).0 * level_size(w, h).1 <= usize::MAX,
        level(seed, w, h).1.len() == crate::map::GRID_CELLS,
        exists|i: int| 0 <= i < present_rooms(level(seed, w, h).1).len() && in_room(#[trigger] present_rooms(level(seed, w, h).1)[i], p.0, p.1),
        exists|i: int| 0 <= i < present_rooms(level(seed, w, h).1).len() && in_room(#[trigger] present_rooms(level(seed, w, h).1)[i], q.0, q.1),
    ensures
        reaches(level(seed, w, h).0, level_size(w, h).0, level_size(w, h).1, p, q),
{
    let slots = level(seed, w, h).1;
    let rooms = present_rooms(slots);
    lemma_present_rooms(slots);
    let i = choose|i: int| 0 <= i < rooms.len() && in_room(#[trigger] rooms[i], p.0, p.1);
    let j = choose|j: int| 0 <= j < rooms.len() && in_room(#[trigger] rooms[j], q.0, q.1);
    let c1 = choose|c: int| 0 <= c < slots.len() && #[trigger] slots[c] == Some(rooms[i]);
    let c2 = choose|c: int| 0 <= c < slots.len() && #[trigger] slots[c] == Some(rooms[j]);
    lemma_rooms_connected(seed, w, h, c1, c2, p, q);
}

/// A grid that satisfies `compute`'s contract is the view grid.
proof fn lemma_grid(v: Seq<bool>, b: Board, px: int, py: int)
    requires
        v.len() == b.width * b.height,
        forall|x: int, y: int| b.in_bounds(x, y) ==> #[trigger] cell(v, b.width as int, x, y) == lit(b, px, py, x, y),
    ensures
        v == view_grid(b, px, py),
{
    let w = b.width as int;
    let h = b.height as int;
    assert forall|i: int| 0 <= i < v.len() implies v[i] == view_grid(b, px, py)[i] by {
        assert(w > 0) by {
            if w == 0 {
                assert(w * h == 0) by (nonlinear_arith)
                    requires
                        w == 0,
                ;
            }
        }
        vstd::arithmetic::div_mod::lemma_fundamental_div_mod(i, w);
        let x = i % w;
        let y = i / w;
        assert(0 <= x < w);
        assert(0 <= y) by {
            vstd::arithmetic::div_mod::lemma_div_pos_is_pos(i, w);
        }
        assert(y < h) by {
            if y >= h {
                assert(w * y >= w * h) by (nonlinear_arith)
                    requires
                        y >= h,
                        w > 0,
                ;
            }
        }
        assert(y * w + x == i) by (nonlinear_arith)
            requires
                i == w * y + x,
        ;
        assert(cell(v, w, x, y) == lit(b, px, py, x, y));
    }
    assert(v =~= view_grid(b, px, py));
}

/// The center of a room lies inside it.
proof fn lemma_center_in_room(r: Room)
    requires
        r.x0 <= r.x1,
        r.y0 <= r.y1,
    ensures
        in_room(r, (r.x0 + r.x1) / 2, (r.y0 + r.y1) / 2),
{
}

/// Where `populate` puts the player is on the map.
proof fn lemma_start_on_map(b: Board)
    requires
        b.wf(),
        present_rooms(b.slots()).len() == 0 ==> b.width >= 2 && b.height >= 2,
    ensures
        b.in_bounds(
            crate::entity::start_spot(present_rooms(b.slots())).0 as int,
            crate::entity::start_spot(present_rooms(b.slots())).1 as int,
        ),
{
    let rooms = present_rooms(b.slots());
    if rooms.len() > 0 {
        lemma_rooms_fit(b);
        assert(room_fits(rooms[0], b.width as int, b.height as int));
        lemma_center_in_room(rooms[0]);
    }
}

/// A grid of `n` unseen tiles.
fn blank_grid(n: usize) -> (v: Vec<bool>)
    ensures
        v@ == blank(n as int),
{
    let mut v: Vec<bool> = Vec::new();
    let mut i: usize = 0;
    while i < n
        invariant
            i <= n,
            v@ == blank(i as int),
        decreases n - i,
    {
        v.push(false);
        i = i + 1;
        assert(v@ =~= blank(i as int));
    }
    v
}

/// One empty memory slot per floor.
fn empty_seen_maps() -> (v: Vec<Vec<bool>>)
    ensures
        v@.map_values(|g: Vec<bool>| g@) == no_seen_maps(),
        v@.len() == MAX_FLOOR + 1,
{
    let mut v: Vec<Vec<bool>> = Vec::new();
    let mut i: usize = 0;
    while i < (MAX_FLOOR + 1) as usize
        invariant
            i <= MAX_FLOOR + 1,
            v@.len() == i,
            forall|k: int| 0 <= k < i ==> (#[trigger] v@[k])@ == Seq::<bool>::empty(),
        decreases MAX_FLOOR + 1 - i,
    {
        v.push(Vec::new());
        i = i + 1;
    }
    assert(v@.map_values(|g: Vec<bool>| g@) =~= no_seen_maps());
    v
}

impl Game {
    /// Recompute what the player can see from their position and fold it
    /// into the floor's exploration memory: every lit tile becomes seen.
    /// Called after every move, floor change, and resize, so `visible` is
    /// always current for rendering.
    pub fn refresh_visibility(&mut self)
        requires
            old(self)@.map.cells().len() == old(self)@.map.width * old(self)@.map.height,
            old(self)@.map.width <= VIEW_LIMIT,
            old(self)@.map.height <= VIEW_LIMIT,
            old(self)@.map.in_bounds(old(self)@.player.x as int, old(self)@.player.y as int),
            old(self)@.seen.len() == old(self)@.map.width * old(self)@.map.height,
        ensures
            final(self)@ == refreshed(old(self)@),
    {
        let ghost g0 = self@;
        self.visible = visibility::compute(&self.map, self.player.x, self.player.y);
        proof {
            lemma_grid(self.visible@, self.map@, self.player.x as int, self.player.y as int);
        }
        let ghost v = self.visible@;
        let n = self.seen.len();
        let mut i: usize = 0;
        while i < n
            invariant
                n == g0.seen.len(),
                v.len() == n,
                self.visible@ == v,
                i <= n,
                self.seen@ == Seq::new(n as nat, |k: int| if k < i { g0.seen[k] || v[k] } else { g0.seen[k] }),
                self.map == old(self).map,
                self.player == old(self).player,
                self.monsters == old(self).monsters,
                self.floor == old(self).floor,
                self.seed == old(self).seed,
                self.rng == old(self).rng,
                self.quiet == old(self).quiet,
                self.last_message == old(self).last_message,
                self.stairs == old(self).stairs,
                self.amulet == old(self).amulet,
                self.has_amulet == old(self).has_amulet,
                self.won == old(self).won,
                self.seen_maps == old(self).seen_maps,
            decreases n - i,
        {
            if self.visible[i] {
                self.seen.set(i, true);
            }
            i = i + 1;
            assert(self.seen@ =~= Seq::new(n as nat, |k: int| if k < i { g0.seen[k] || v[k] } else { g0.seen[k] }));
        }
        assert(self@ =~= refreshed(g0));
    }

    /// Lay the player, monsters, stairs, and (on the Amulet floor) the
    /// Amulet onto one map. All placement rolls come from one RNG seeded
    /// with the floor's map seed, so the same `(seed, floor)` always
    /// rebuilds the same level.
    fn assemble(map: Dungeon, floor: u32, seed: u64) -> (g: Game)
        requires
            assemble_fits(map@, floor),
        ensures
            g@ == assembled(map@, floor, seed),
            stairs_ok(g@),
            monsters_ok(g@),
            level_size(map@.width as int, map@.height as int).0 * level_size(map@.width as int, map@.height as int).1
                <= usize::MAX ==> game_wf(g@),
            present_rooms(map@.slots()).len() > 0 ==> features_in_rooms(g@),
    {
        reveal(assembled);
        let map_seed = levels::floor_seed(seed, floor);
        let mut rng = Rng::new(map_seed);
        proof {
            lemma_populated_ok(map@, floor, rng@);
        }
        let spawn = crate::entity::populate_floor(&map, floor, &mut rng);
        let avoid = (spawn.player.x, spawn.player.y);
        proof {
            lemma_start_on_map(map@);
        }
        let stairs = levels::place_stairs(&map, &mut rng, avoid);
        let amulet = if floor == AMULET_LEVEL {
            Some(levels::place_amulet(&map, &mut rng, stairs, avoid))
        } else {
            None
        };
        let map_w = map.width;
        let map_h = map.height;
        proof {
            assert(map.tiles@.len() == map.tiles.len());
        }
        proof {
            let rooms = present_rooms(map@.slots());
            if rooms.len() > 0 {
                lemma_rooms_fit(map@);
                assert(room_fits(rooms[0], map@.width as int, map@.height as int));
            }
        }
        let mut game = Game {
            map,
            player: Player::new(spawn.player.x, spawn.player.y),
            seed,
            floor,
            stairs,
            amulet,
            has_amulet: false,
            won: false,
            monsters: spawn.monsters,
            rng,
            quiet: 0,
            last_message: None,
            seen: blank_grid(map_w * map_h),
            visible: Vec::new(),
            seen_maps: empty_seen_maps(),
        };
        game.refresh_visibility();
        game
    }

    /// Wrap an already-generated map as a floor-1 game (tests, tools). For
    /// maps the generator would produce from `seed` this matches `new`
    /// exactly; hand-built fixture maps just get their features laid on top.
    pub fn from_map(map: Dungeon, seed: u64) -> (g: Game)
        requires
            assemble_fits(map@, 1),
        ensures
            g@ == assembled(map@, 1, seed),
    {
        Game::assemble(map, 1, seed)
    }

    /// Generate (or deterministically regenerate) floor `floor` and
    /// assemble a full game state around it.
    pub fn at_floor(seed: u64, floor: u32, width: usize, height: usize) -> (g: Game)
        requires
            1 <= floor <= MAX_FLOOR,
            level_size(width as int, height as int).0 * level_size(width as int, height as int).1 <= usize::MAX,
            level_size(width as int, height as int).0 <= VIEW_LIMIT,
            level_size(width as int, height as int).1 <= VIEW_LIMIT,
        ensures
            g@ == assembled(level_board(seed, floor, width as int, height as int), floor, seed),
            stairs_ok(g@),
            game_wf(g@),
            monsters_ok(g@),
            features_reachable(g@),
            sees_start_room(g@),
    {
        let map = Dungeon::generate_sized(levels::floor_seed(seed, floor), width, height);
        let ghost fs = floor_seed_value(seed, floor);
        proof {
            lemma_level_has_room(fs, width as int, height as int);
            assert(map@ == level_board(seed, floor, width as int, height as int));
        }
        let ghost b = map@;
        let g = Game::assemble(map, floor, seed);
        proof {
            lemma_fresh_floor_amulet(b, floor, seed);
            let v = g@;
            assert(v.map == b);
            let (w, h) = (width as int, height as int);
            let p = (v.player.x as int, v.player.y as int);
            assert(in_room(present_rooms(level(fs, w, h).1)[0], p.0, p.1));
            lemma_room_tiles_reach(fs, w, h, p, (v.stairs.up.0 as int, v.stairs.up.1 as int));
            lemma_room_tiles_reach(fs, w, h, p, (v.stairs.down.0 as int, v.stairs.down.1 as int));
            if let Some(a) = v.amulet {
                lemma_room_tiles_reach(fs, w, h, p, (a.x as int, a.y as int));
            }
            let slots = level(fs, w, h).1;
            let r0 = present_rooms(slots)[0];
            lemma_present_rooms(slots);
            let c0 = choose|c: int| 0 <= c < slots.len() && #[trigger] slots[c] == Some(r0);
            crate::shape::lemma_level_rooms_closed(fs, w, h, c0);
            assert(crate::shape::level_map(fs, w, h) == b);
            crate::visibility::lemma_room_lit(b, r0, p.0, p.1);
            reveal(assembled);
            assert forall|x: int, y: int| #[trigger] v.map.in_bounds(x, y) implies (cell(v.visible, v.map.width as int, x, y)
                <==> crate::map::in_room_box(present_rooms(v.map.slots())[0], x, y)) by {
                lemma_view_grid_at(b, p.0, p.1, x, y);
                assert(lit(b, p.0, p.1, x, y) == crate::map::in_room_box(r0, x, y));
            }
        }
        g
    }

    /// A fresh game on floor 1 of a newly generated dungeon.
    pub fn new(seed: u64, width: usize, height: usize) -> (g: Game)
        requires
            level_size(width as int, height as int).0 * level_size(width as int, height as int).1 <= usize::MAX,
            level_size(width as int, height as int).0 <= VIEW_LIMIT,
            level_size(width as int, height as int).1 <= VIEW_LIMIT,
        ensures
            g@ == assembled(level_board(seed, 1, width as int, height as int), 1, seed),
            stairs_ok(g@),
            game_wf(g@),
            monsters_ok(g@),
            features_reachable(g@),
            sees_start_room(g@),
    {
        Game::at_floor(seed, 1, width, height)
    }
}

/// The player after a plain move in `dir`, and whether it happened.
pub open spec fn moved(g: GameView, dir: Direction) -> (GameView, bool) {
    if move_ok(g.map, g.player.x as int, g.player.y as int, dir) {
        let p = next_pos(g.player.x as int, g.player.y as int, dir)->0;
        (refreshed(GameView { player: Player { x: p.0 as usize, y: p.1 as usize, ..g.player }, ..g }), true)
    } else {
        (g, false)
    }
}

/// Stepping onto the Amulet's tile carries it off the floor.
pub open spec fn picked_up(g: GameView) -> GameView {
    match g.amulet {
        Some(a) => if g.player.x == a.x && g.player.y == a.y {
            GameView { has_amulet: true, amulet: None, ..g }
        } else {
            g
        },
        None => g,
    }
}

/// The session after moving to `floor`: that floor regenerated at the
/// current map size, the player fresh on its up staircase (going down) or
/// down staircase (going up), the Amulet still carried, and the exploration
/// memory of the floor left behind saved while the arrival floor's is
/// restored (when it fits the map).
pub open spec fn changed_floor(g: GameView, floor: u32, going_down: bool) -> GameView {
    let next = assembled(level_board(g.seed, floor, g.map.width as int, g.map.height as int), floor, g.seed);
    let arrival = if going_down { next.stairs.up } else { next.stairs.down };
    let maps1 = g.seen_maps.update(g.floor as int, g.seen);
    let kept = maps1[floor as int];
    let maps2 = maps1.update(floor as int, Seq::empty());
    let size = next.map.width * next.map.height;
    refreshed(
        GameView {
            seen_maps: maps2,
            seen: if kept.len() == size { kept } else { blank(size) },
            has_amulet: g.has_amulet,
            player: fresh_player(arrival.0, arrival.1),
            ..next
        },
    )
}

/// Stepping onto a staircase: the down stair leads one floor deeper (none
/// below the last floor); the up stair leads one floor up, and on floor 1
/// it is the exit, which wins with the Amulet and is blocked without.
pub open spec fn stairs_taken(g: GameView) -> GameView {
    let pos = (g.player.x, g.player.y);
    if pos == g.stairs.down {
        if g.floor < MAX_FLOOR {
            changed_floor(g, (g.floor + 1) as u32, true)
        } else {
            g
        }
    } else if pos == g.stairs.up {
        if escaped(g.floor, true, g.has_amulet) {
            GameView { won: true, ..g }
        } else if g.floor > 1 {
            changed_floor(g, (g.floor - 1) as u32, false)
        } else {
            g
        }
    } else {
        g
    }
}

/// The level features reacting to the player's position: the Amulet, then
/// the staircases.
pub open spec fn after_moved(g: GameView) -> GameView {
    stairs_taken(picked_up(g))
}

impl Game {
    /// Move the player one tile in `dir`; returns whether the position
    /// changed (a blocked move changes nothing). Pure movement: no fight, no
    /// stairs, no monster phase. Refreshes the view from the new position.
    pub fn move_player(&mut self, dir: Direction) -> (changed: bool)
        requires
            game_wf(old(self)@),
        ensures
            (final(self)@, changed) == moved(old(self)@, dir),
            game_wf(final(self)@),
    {
        if can_move(&self.map, self.player.x, self.player.y, dir) {
            let (nx, ny) = match next_position(self.player.x, self.player.y, dir) {
                Some(p) => p,
                None => return false,
            };
            self.player.x = nx;
            self.player.y = ny;
            self.refresh_visibility();
            true
        } else {
            false
        }
    }

    /// React to the player's position after a successful move: pick up the
    /// Amulet, take a staircase, and detect the escape. The game loop stops
    /// when [`Game::won`] is set.
    pub fn after_move(&mut self)
        requires
            game_wf(old(self)@),
        ensures
            final(self)@ == after_moved(old(self)@),
            game_wf(final(self)@),
            monsters_ok(old(self)@) ==> monsters_ok(final(self)@),
            final(self)@.player == old(self)@.player || final(self)@.player == fresh_player(
                final(self)@.player.x,
                final(self)@.player.y,
            ),
            final(self)@.quiet == old(self)@.quiet || final(self)@.quiet == 0,
    {
        self.try_pick_up_amulet();
        self.take_stairs();
    }

    /// Stepping onto the Amulet tile carries it (the "found the Amulet"
    /// event). It then leaves the floor.
    fn try_pick_up_amulet(&mut self)
        requires
            game_wf(old(self)@),
        ensures
            final(self)@ == picked_up(old(self)@),
            game_wf(final(self)@),
    {
        match self.amulet {
            Some(a) => {
                if self.player.x == a.x && self.player.y == a.y {
                    self.has_amulet = true;
                    self.amulet = None;
                }
            },
            None => {},
        }
    }

    /// Stepping onto a staircase moves between floors; stepping onto floor
    /// 1's exit stair with the Amulet wins. On the last floor the down stair
    /// leads nowhere and on floor 1 the exit is magically blocked without
    /// the Amulet: both are a no-op.
    fn take_stairs(&mut self)
        requires
            game_wf(old(self)@),
        ensures
            final(self)@ == stairs_taken(old(self)@),
            game_wf(final(self)@),
            monsters_ok(old(self)@) ==> monsters_ok(final(self)@),
            final(self)@.player == old(self)@.player || final(self)@.player == fresh_player(
                final(self)@.player.x,
                final(self)@.player.y,
            ),
            final(self)@.quiet == old(self)@.quiet || final(self)@.quiet == 0,
    {
        let px = self.player.x;
        let py = self.player.y;
        if px == self.stairs.down.0 && py == self.stairs.down.1 {
            if self.floor < MAX_FLOOR {
                self.descend();
            }
        } else if px == self.stairs.up.0 && py == self.stairs.up.1 {
            if levels::has_escaped(self.floor, true, self.has_amulet) {
                self.won = true;
            } else if self.floor > 1 {
                self.ascend();
            }
        }
    }

    /// Descend one floor: regenerate the next floor deterministically and
    /// arrive on its up staircase.
    fn descend(&mut self)
        requires
            game_wf(old(self)@),
            old(self)@.floor < MAX_FLOOR,
        ensures
            final(self)@ == changed_floor(old(self)@, (old(self)@.floor + 1) as u32, true),
            game_wf(final(self)@),
            monsters_ok(final(self)@),
            final(self)@.player == fresh_player(final(self)@.player.x, final(self)@.player.y),
            final(self)@.quiet == 0,
    {
        self.change_floor(self.floor + 1, true);
    }

    /// Ascend one floor: regenerate the previous floor deterministically and
    /// arrive on its down staircase. The Amulet travels with the player.
    fn ascend(&mut self)
        requires
            game_wf(old(self)@),
            old(self)@.floor > 1,
        ensures
            final(self)@ == changed_floor(old(self)@, (old(self)@.floor - 1) as u32, false),
            game_wf(final(self)@),
            monsters_ok(final(self)@),
            final(self)@.player == fresh_player(final(self)@.player.x, final(self)@.player.y),
            final(self)@.quiet == 0,
    {
        self.change_floor(self.floor - 1, false);
    }

    /// Move to `floor`, arriving on its up stair when going down and on its
    /// down stair when going up. Exploration memory is per floor: the
    /// current floor's seen grid is saved and the arrival floor's restored
    /// if it was visited before.
    fn change_floor(&mut self, floor: u32, going_down: bool)
        requires
            game_wf(old(self)@),
            1 <= floor <= MAX_FLOOR,
        ensures
            final(self)@ == changed_floor(old(self)@, floor, going_down),
            game_wf(final(self)@),
            monsters_ok(final(self)@),
            final(self)@.player == fresh_player(final(self)@.player.x, final(self)@.player.y),
            final(self)@.quiet == 0,
    {
        reveal(assembled);
        let ghost g0 = self@;
        let carried = self.has_amulet;
        let next = Game::at_floor(self.seed, floor, self.map.width, self.map.height);
        let (x, y) = if going_down { next.stairs.up } else { next.stairs.down };
        let mut seen_maps: Vec<Vec<bool>> = Vec::new();
        std::mem::swap(&mut seen_maps, &mut self.seen_maps);
        let mut current: Vec<bool> = Vec::new();
        std::mem::swap(&mut current, &mut self.seen);
        seen_maps.set(self.floor as usize, current);
        let mut kept: Vec<bool> = Vec::new();
        seen_maps.set_and_swap(floor as usize, &mut kept);
        *self = next;
        self.seen_maps = seen_maps;
        proof {
            assert(self.map.tiles@.len() == self.map.tiles.len());
        }
        let size = self.map.width * self.map.height;
        self.seen = if kept.len() == size { kept } else { blank_grid(size) };
        self.has_amulet = carried;
        self.player = Player::new(x, y);
        proof {
            let maps1 = g0.seen_maps.update(g0.floor as int, g0.seen);
            assert(self.seen_maps@.map_values(|v: Vec<bool>| v@) =~= maps1.update(floor as int, Seq::empty()));
        }
        self.refresh_visibility();
    }

    /// Put the player on `pos` and run one [`Game::after_move`], as a
    /// successful move in the play loop would.
    pub fn step_onto(&mut self, pos: (usize, usize))
        requires
            game_wf(old(self)@),
            old(self)@.map.in_bounds(pos.0 as int, pos.1 as int),
        ensures
            final(self)@ == after_moved(GameView { player: fresh_player(pos.0, pos.1), ..old(self)@ }),
            game_wf(final(self)@),
    {
        self.player = Player::new(pos.0, pos.1);
        self.after_move();
    }
}

// ---------------------------------------------------------------------
// What a round needs
// ---------------------------------------------------------------------

/// A monster on the map, with stats well inside the ranges the combat
/// arithmetic handles.
pub open spec fn monster_ok(b: Board, m: Monster) -> bool {
    &&& b.in_bounds(m.x as int, m.y as int)
    &&& m.level <= 1000
    &&& -1000 <= m.armor_class <= 1000
    &&& -1_000_000 <= m.hp <= 1_000_000
    &&& -1_000_000 <= m.exp <= 1_000_000
}

/// Every monster of the session is on the map with moderate stats.
pub open spec fn monsters_ok(g: GameView) -> bool {
    forall|i: int| 0 <= i < g.monsters.len() ==> monster_ok(g.map, #[trigger] g.monsters[i])
}

/// `max(n, 0)`.
pub open spec fn nonneg(n: int) -> int {
    if n > 0 { n } else { 0 }
}

/// The player's blow on `m` with the starting weapon stays inside `i32`
/// whatever the dice show: the to-hit target, the monster's hit points after
/// the most a blow deals (15), and a kill's experience and level-ups.
pub open spec fn blow_ok(p: Player, m: Monster) -> bool {
    &&& p.level <= i32::MAX
    &&& i32::MIN <= 20 - p.level - m.armor_class <= i32::MAX
    &&& i32::MIN + 15 <= m.hp
    &&& combat::kill_fits(p, m)
}

/// The rest of a round stays inside the integer limits whatever the dice
/// show, once the player's action has left the player `p` and the quiet
/// counter `quiet`: a monster's blows (at most `MAX_MONSTER_DAMAGE` before
/// the hit points stop at zero), the quiet counter's increment, and the
/// doctor's `quiet + 2 * level` and healing of at most `level - 7`.
pub open spec fn after_ok(p: Player, quiet: u32) -> bool {
    &&& i32::MIN + combat::MAX_MONSTER_DAMAGE <= p.hp
    &&& nonneg(p.hp as int) + p.level < i32::MAX
    &&& quiet + 1 + 2 * p.level <= u32::MAX
}

/// A round toward `dir` stays inside the integer limits whatever the dice
/// show: the blow on a monster standing on the target tile fits, and the
/// rest of the round fits after the most that blow can change the player (a
/// kill's level-ups add at most 10 hit points for each of at most
/// `MAX_LEVEL` levels, and raise the level to at most `MAX_LEVEL`).
pub open spec fn numbers_in_range(g: GameView, dir: Direction) -> bool {
    let p = g.player;
    &&& match next_pos(p.x as int, p.y as int, dir) {
        Some(t) => match monster_at(g.monsters, t.0, t.1, 0) {
            Some(i) => blow_ok(p, g.monsters[i]),
            None => true,
        },
        None => true,
    }
    &&& i32::MIN + combat::MAX_MONSTER_DAMAGE <= p.hp
    &&& nonneg(p.hp as int) + 10 * combat::MAX_LEVEL + p.level + combat::MAX_LEVEL < i32::MAX
    &&& g.quiet + 1 + 2 * (p.level + combat::MAX_LEVEL) <= u32::MAX
}

/// A round toward `dir` from this state keeps every number of the combat
/// arithmetic in range: a consistent session, monsters on the map with
/// moderate stats, and the round's own arithmetic inside the integer limits.
pub open spec fn round_ok(g: GameView, dir: Direction) -> bool {
    &&& game_wf(g)
    &&& monsters_ok(g)
    &&& numbers_in_range(g, dir)
}

/// The rules table's numbers are small.
proof fn lemma_stats_small(k: crate::entity::MonsterKind)
    ensures
        crate::entity::rules_of(k).level <= 15,
        -2 <= crate::entity::rules_of(k).armor_class <= 9,
        0 <= crate::entity::rules_of(k).exp <= 5000,
{
}

/// A monster spawned on a floor up to the Amulet's is moderate.
proof fn lemma_spawned_ok(b: Board, kind: crate::entity::MonsterKind, x: usize, y: usize, floor: u32, s: u64)
    requires
        floor <= MAX_FLOOR,
        b.in_bounds(x as int, y as int),
    ensures
        monster_ok(b, crate::entity::spawned(kind, x, y, floor, s).0),
{
    lemma_stats_small(kind);
    let base = crate::entity::rules_of(kind);
    let level = base.level as int;
    crate::combat::lemma_roll_bounds(s, level as nat, 8);
    let hp = crate::combat::roll_value(s, level as nat, 8).0;
    assert(0 <= hp <= level * 8);
    assert(hp <= 120);
    assert(0 <= hp / 8 <= 15 && 0 <= hp / 6 <= 20);
}

proof fn lemma_place_monsters_ok(
    b: Board,
    rooms: Seq<Room>,
    floor: u32,
    blocked: Seq<(usize, usize)>,
    monsters: Seq<Monster>,
    s: u64,
    i: int,
)
    requires
        floor <= MAX_FLOOR,
        0 <= i,
        forall|k: int| 0 <= k < rooms.len() ==> room_fits(#[trigger] rooms[k], b.width as int, b.height as int),
        forall|k: int| 0 <= k < monsters.len() ==> monster_ok(b, #[trigger] monsters[k]),
    ensures
        ({
            let ms = crate::entity::place_monsters(b.cells(), b.width as int, rooms, Some(floor), blocked, monsters, s, i).0;
            forall|k: int| 0 <= k < ms.len() ==> monster_ok(b, #[trigger] ms[k])
        }),
    decreases rooms.len() - i,
{
    let cells = b.cells();
    let w = b.width as int;
    if i < rooms.len() {
        let s1 = crate::rng::next_state(s);
        if !crate::rng::chance_value(s, 3, 4) {
            lemma_place_monsters_ok(b, rooms, floor, blocked, monsters, s1, i + 1);
            assert(crate::entity::place_monsters(cells, w, rooms, Some(floor), blocked, monsters, s, i)
                == crate::entity::place_monsters(cells, w, rooms, Some(floor), blocked, monsters, s1, i + 1));
        } else {
            let free = crate::entity::free_in_room(cells, w, rooms[i], blocked);
            if free.len() == 0 {
                lemma_place_monsters_ok(b, rooms, floor, blocked, monsters, s1, i + 1);
                assert(crate::entity::place_monsters(cells, w, rooms, Some(floor), blocked, monsters, s, i)
                    == crate::entity::place_monsters(cells, w, rooms, Some(floor), blocked, monsters, s1, i + 1));
            } else {
                let spot = free[crate::rng::below_value(s1, free.len()) as int];
                let s2 = crate::rng::next_state(s1);
                let kind = crate::entity::kind_at(crate::rng::below_value(s2, 26) as int);
                levels::lemma_free_in_room_sound(cells, w, rooms[i], blocked);
                assert(room_fits(rooms[i], b.width as int, b.height as int));
                lemma_spawned_ok(b, kind, spot.0, spot.1, floor, crate::rng::next_state(s2));
                let (m, s4) = crate::entity::spawned(kind, spot.0, spot.1, floor, crate::rng::next_state(s2));
                let ms2 = monsters.push(m);
                assert forall|k: int| 0 <= k < ms2.len() implies monster_ok(b, #[trigger] ms2[k]) by {
                    if k < monsters.len() {
                        assert(ms2[k] == monsters[k]);
                    }
                }
                lemma_place_monsters_ok(b, rooms, floor, blocked.push(spot), ms2, s4, i + 1);
                assert(crate::entity::place_monsters(cells, w, rooms, Some(floor), blocked, monsters, s, i)
                    == crate::entity::place_monsters(cells, w, rooms, Some(floor), blocked.push(spot), ms2, s4, i + 1));
            }
        }
    }
}

/// The monsters a floor up to the Amulet's is populated with are moderate.
proof fn lemma_populated_ok(b: Board, floor: u32, s: u64)
    requires
        b.wf(),
        floor <= MAX_FLOOR,
    ensures
        ({
            let ms = populated(b.cells(), b.width as int, b.slots(), Some(floor), s).1;
            forall|k: int| 0 <= k < ms.len() ==> monster_ok(b, #[trigger] ms[k])
        }),
{
    lemma_rooms_fit(b);
    let rooms = present_rooms(b.slots());
    let (px, py) = crate::entity::start_spot(rooms);
    lemma_place_monsters_ok(b, rooms, floor, seq![(px, py)], Seq::empty(), s, 0);
}

// ---------------------------------------------------------------------
// The round
// ---------------------------------------------------------------------

/// The first monster of `ms[i..]` standing at `(x, y)`.
pub open spec fn monster_at(ms: Seq<Monster>, x: int, y: int, i: int) -> Option<int>
    decreases ms.len() - i,
{
    if i < 0 || i >= ms.len() {
        None
    } else if ms[i].x == x && ms[i].y == y {
        Some(i)
    } else {
        monster_at(ms, x, y, i + 1)
    }
}

/// What the player's blow is reported as.
pub open spec fn fight_message(m: Monster, r: combat::HitResult) -> Seq<char> {
    let name = rules_name_of(m.kind)@;
    if m.hp <= 0 {
        "You scored an excellent hit on the "@ + name + " - you have defeated the "@ + name
    } else if r.hits > 0 {
        "You scored an excellent hit on the "@ + name
    } else {
        "You swing and miss the "@ + name
    }
}

/// The first attack of `a[i..]` that landed.
pub open spec fn first_hit(a: Seq<MonsterAttack>, i: int) -> Option<int>
    decreases a.len() - i,
{
    if i < 0 || i >= a.len() {
        None
    } else if a[i].result.hits > 0 {
        Some(i)
    } else {
        first_hit(a, i + 1)
    }
}

/// The message after the monsters' attacks: the first that landed, else the
/// first that missed, else the message stays.
pub open spec fn phase_message(a: Seq<MonsterAttack>, prev: Option<Seq<char>>) -> Option<Seq<char>> {
    match first_hit(a, 0) {
        Some(j) => Some("The "@ + a[j].name@ + " has injured you"@),
        None => if a.len() > 0 {
            Some("The "@ + a[0].name@ + " doesn't hit you"@)
        } else {
            prev
        },
    }
}

/// The monsters still alive, in order.
pub open spec fn alive(ms: Seq<Monster>) -> Seq<Monster>
    decreases ms.len(),
{
    if ms.len() == 0 {
        Seq::empty()
    } else if ms.last().hp > 0 {
        alive(ms.drop_last()).push(ms.last())
    } else {
        alive(ms.drop_last())
    }
}

/// Every monster still alive was one of the monsters.
proof fn lemma_alive_from(ms: Seq<Monster>)
    ensures
        forall|i: int| 0 <= i < alive(ms).len() ==> ms.contains(#[trigger] alive(ms)[i]),
    decreases ms.len(),
{
    if ms.len() > 0 {
        lemma_alive_from(ms.drop_last());
        let r = alive(ms.drop_last());
        assert forall|i: int| 0 <= i < alive(ms).len() implies ms.contains(#[trigger] alive(ms)[i]) by {
            if i < r.len() {
                let k = choose|k: int| 0 <= k < ms.drop_last().len() && ms.drop_last()[k] == r[i];
                assert(ms[k] == r[i]);
            } else {
                assert(ms[ms.len() - 1] == alive(ms)[i]);
            }
        }
    }
}

/// The AFTER phase of a round from `g`: the runners daemon, its message,
/// the quiet counter (reset by any fight), the doctor, the stomach (no
/// effect yet), the dead cleared away, the death message, and the view.
pub open spec fn after_phase(g: GameView, fought: bool) -> GameView {
    let (ms, p, s, attacks) = phase_value(g.map, STARTING_ARMOR_AC, g.rng, g.player, g.monsters);
    let quiet: u32 = if fought || attacks.len() > 0 { 0 } else { (g.quiet + 1) as u32 };
    let (p2, s2) = doctor_value(s, p, quiet);
    refreshed(
        GameView {
            player: p2,
            monsters: alive(ms),
            rng: s2,
            quiet,
            last_message: if p2.hp <= 0 { Some("you have died"@) } else { phase_message(attacks, g.last_message) },
            ..g
        },
    )
}

/// The quiet counter after a round's AFTER phase: zero when the player
/// fought or any monster attacked the player (a miss too), else one more
/// than before.
pub proof fn lemma_quiet_law(g: GameView, fought: bool)
    requires
        g.quiet < u32::MAX,
    ensures
        ({
            let attacks = phase_value(g.map, STARTING_ARMOR_AC, g.rng, g.player, g.monsters).3;
            let q = after_phase(g, fought).quiet;
            &&& (fought || attacks.len() > 0) ==> q == 0
            &&& (!fought && attacks.len() == 0) ==> q == g.quiet + 1
        }),
{
}

/// The player's action toward `dir`: fight the first monster standing
/// there, else step there if the tile is walkable; `None` when the way is
/// blocked. Returns the state and whether a fight happened.
pub open spec fn acted(g: GameView, dir: Direction) -> Option<(GameView, bool)> {
    match next_pos(g.player.x as int, g.player.y as int, dir) {
        None => None,
        Some(t) => match monster_at(g.monsters, t.0, t.1, 0) {
            Some(i) => {
                let (r, p2, m2, s2) = player_attack_value(g.rng, g.player, g.monsters[i], starting_weapon_spec());
                Some(
                    (
                        GameView {
                            player: p2,
                            monsters: g.monsters.update(i, m2),
                            rng: s2,
                            last_message: Some(fight_message(m2, r)),
                            ..g
                        },
                        true,
                    ),
                )
            },
            None => if move_ok(g.map, g.player.x as int, g.player.y as int, dir) {
                Some((GameView { player: Player { x: t.0 as usize, y: t.1 as usize, ..g.player }, ..g }, false))
            } else {
                None
            },
        },
    }
}

/// One round toward `dir`: the player acts (and is awake), the level
/// features react, then, unless the player escaped, the AFTER phase runs.
/// A blocked step changes nothing and reports `false`.
#[verifier::opaque]
pub open spec fn stepped(g: GameView, dir: Direction) -> (GameView, bool) {
    match acted(g, dir) {
        None => (g, false),
        Some((g1, fought)) => {
            let g2 = after_moved(GameView { player: Player { running: true, ..g1.player }, ..g1 });
            if g2.won {
                (g2, true)
            } else {
                (after_phase(g2, fought), true)
            }
        },
    }
}

/// The player's blow with the starting weapon fits exactly when `blow_ok`
/// says so: the weapon's own numbers are small.
proof fn lemma_blow_fits(p: Player, m: Monster)
    ensures
        combat::player_attack_fits(p, m, starting_weapon_spec()) == blow_ok(p, m),
{
    combat::lemma_starting_weapon_damage();
    let segs = combat::segments(starting_weapon_spec().damage);
    assert(segs[0].dice * segs[0].sides == 8) by (nonlinear_arith)
        requires
            segs[0].dice == 2,
            segs[0].sides == 4,
    ;
    assert forall|k: int| 0 <= k < segs.len() implies (#[trigger] segs[k]).dice * segs[k].sides <= i32::MAX - 6 - 1 by {
        assert(k == 0);
    }
}

/// Does the player's blow on `m` with the starting weapon stay inside
/// `i32` whatever the dice show?
fn blow_fits(p: &Player, m: &Monster) -> (b: bool)
    ensures
        b == blow_ok(*p, *m),
{
    let target = 20i64 - p.level as i64 - m.armor_class as i64;
    if p.level > 2147483647u32 || target < -2147483648i64 || target > 2147483647i64 {
        return false;
    }
    if (m.hp as i64) - 15 < -2147483648i64 {
        return false;
    }
    let exp = p.experience as i64 + m.exp as i64;
    if exp < -2147483648i64 || exp > 2147483647i64 {
        return false;
    }
    let earned = combat::level_for_exp(exp as i32);
    let gain: u32 = if earned > p.level { earned - p.level } else { 0 };
    proof {
        let q = Player { experience: exp as i32, ..*p };
        assert(combat::level_gain(q) == gain);
    }
    p.max_hp as i64 + 10 * gain as i64 <= 2147483647i64 && p.hp as i64 + 10 * gain as i64 <= 2147483647i64
}

/// The index of the first monster standing at `(x, y)`.
fn monster_index_at(monsters: &Vec<Monster>, x: usize, y: usize) -> (r: Option<usize>)
    ensures
        match r {
            Some(i) => monster_at(monsters@, x as int, y as int, 0) == Some(i as int) && i < monsters@.len(),
            None => monster_at(monsters@, x as int, y as int, 0) is None,
        },
{
    let mut i: usize = 0;
    while i < monsters.len()
        invariant
            i <= monsters@.len(),
            monster_at(monsters@, x as int, y as int, i as int) == monster_at(monsters@, x as int, y as int, 0),
        decreases monsters@.len() - i,
    {
        if monsters[i].x == x && monsters[i].y == y {
            return Some(i);
        }
        i = i + 1;
    }
    None
}

/// The index of the first attack that landed.
fn first_hit_index(attacks: &Vec<MonsterAttack>) -> (r: Option<usize>)
    ensures
        match r {
            Some(j) => first_hit(attacks@, 0) == Some(j as int) && j < attacks@.len(),
            None => first_hit(attacks@, 0) is None,
        },
{
    let mut i: usize = 0;
    while i < attacks.len()
        invariant
            i <= attacks@.len(),
            first_hit(attacks@, i as int) == first_hit(attacks@, 0),
        decreases attacks@.len() - i,
    {
        if attacks[i].result.hits > 0 {
            return Some(i);
        }
        i = i + 1;
    }
    None
}

/// The monsters still alive.
fn alive_monsters(monsters: &Vec<Monster>) -> (r: Vec<Monster>)
    ensures
        r@ == alive(monsters@),
{
    let mut out: Vec<Monster> = Vec::new();
    let mut i: usize = 0;
    while i < monsters.len()
        invariant
            i <= monsters@.len(),
            out@ == alive(monsters@.take(i as int)),
        decreases monsters@.len() - i,
    {
        assert(monsters@.take(i as int + 1).drop_last() =~= monsters@.take(i as int));
        if monsters[i].hp > 0 {
            out.push(monsters[i]);
        }
        i = i + 1;
    }
    assert(monsters@.take(i as int) =~= monsters@);
    out
}

/// The text reporting the player's blow.
fn fight_text(m: &Monster, r: &combat::HitResult) -> (s: String)
    ensures
        s@ == fight_message(*m, *r),
{
    let name = m.rules_name();
    let mut s = String::new();
    if m.hp <= 0 {
        push_str(&mut s, "You scored an excellent hit on the ");
        push_str(&mut s, name);
        push_str(&mut s, " - you have defeated the ");
        push_str(&mut s, name);
    } else if r.hits > 0 {
        push_str(&mut s, "You scored an excellent hit on the ");
        push_str(&mut s, name);
    } else {
        push_str(&mut s, "You swing and miss the ");
        push_str(&mut s, name);
    }
    s
}

/// `"The " + name + tail`.
fn monster_text(name: &str, tail: &str) -> (s: String)
    ensures
        s@ == "The "@ + name@ + tail@,
{
    let mut s = String::new();
    push_str(&mut s, "The ");
    push_str(&mut s, name);
    push_str(&mut s, tail);
    s
}

impl Game {
    /// One round: the player acts, then the AFTER daemons run in order:
    /// runners, doctor, stomach. Bumping a wall spends no turn. Staircases
    /// and the Amulet are handled between the player action and the AFTER
    /// phase, so descending moves the player before the new floor's
    /// monsters act.
    ///
    /// Returns whether the game state changed (a move, a fight, or a
    /// floor/win transition). A blocked move changes nothing and returns
    /// `false`.
    pub fn step(&mut self, dir: Direction) -> (changed: bool)
        requires
            round_ok(old(self)@, dir),
        ensures
            (final(self)@, changed) == stepped(old(self)@, dir),
            game_wf(final(self)@),
            monsters_ok(final(self)@),
    {
        reveal(stepped);
        let ghost g0 = self@;
        let fought = match self.player_action(dir) {
            Some(f) => f,
            None => return false,
        };
        self.player.running = true;
        let ghost p1 = self.player;
        self.after_move();
        if self.won {
            return true;
        }
        proof {
            assert(after_ok(p1, g0.quiet));
            if self.player != p1 {
                assert(self.player == fresh_player(self.player.x, self.player.y));
            }
        }
        self.after_phase(fought);
        true
    }

    /// The player's action toward `dir`; see [`acted`]. Returns whether a
    /// fight happened, or `None` (changing nothing) when the way is blocked.
    fn player_action(&mut self, dir: Direction) -> (r: Option<bool>)
        requires
            round_ok(old(self)@, dir),
        ensures
            match r {
                Some(fought) => acted(old(self)@, dir) == Some((final(self)@, fought)),
                None => acted(old(self)@, dir) is None && final(self)@ == old(self)@,
            },
            game_wf(final(self)@),
            monsters_ok(final(self)@),
            after_ok(final(self)@.player, old(self)@.quiet),
            final(self)@.quiet == old(self)@.quiet,
    {
        let ghost g0 = self@;
        let (nx, ny) = match next_position(self.player.x, self.player.y, dir) {
            Some(p) => p,
            None => return None,
        };
        match monster_index_at(&self.monsters, nx, ny) {
            Some(i) => {
                let mut monster = self.monsters[i];
                let weapon = combat::starting_weapon();
                proof {
                    assert(monster_ok(g0.map, g0.monsters[i as int]));
                    assert(blow_ok(self.player, monster));
                    lemma_blow_fits(self.player, monster);
                    combat::lemma_player_attack_shape(self.rng@, self.player, monster, weapon);
                }
                let result = combat::player_attack(&mut self.rng, &mut self.player, &mut monster, &weapon);
                self.monsters.set(i, monster);
                self.last_message = Some(fight_text(&monster, &result));
                proof {
                    assert forall|k: int| 0 <= k < self.monsters@.len() implies monster_ok(self.map@, #[trigger] self.monsters@[k]) by {
                        if k != i {
                            assert(self.monsters@[k] == g0.monsters[k]);
                        }
                    }
                }
                Some(true)
            },
            None => {
                if can_move(&self.map, self.player.x, self.player.y, dir) {
                    self.player.x = nx;
                    self.player.y = ny;
                    Some(false)
                } else {
                    None
                }
            },
        }
    }

    /// The AFTER phase of a round; see [`after_phase`].
    fn after_phase(&mut self, fought: bool)
        requires
            game_wf(old(self)@),
            monsters_ok(old(self)@),
            after_ok(old(self)@.player, old(self)@.quiet),
        ensures
            final(self)@ == after_phase(old(self)@, fought),
            game_wf(final(self)@),
            monsters_ok(final(self)@),
    {
        let ghost g0 = self@;
        proof {
            assert forall|i: int| 0 <= i < self.monsters@.len() implies (#[trigger] self.monsters@[i]).level <= 1000
                && combat::chase_fits(self.map@, self.monsters@[i], self.player) by {
                assert(monster_ok(self.map@, self.monsters@[i]));
            }
            assert forall|i: int| 0 <= i < self.monsters@.len() && combat::may_wake(#[trigger] self.monsters@[i]) implies combat::distance_fits(
                self.monsters@[i],
                self.player,
            ) by {
                assert(monster_ok(self.map@, self.monsters@[i]));
            }
            combat::lemma_phase_player(self.map@, STARTING_ARMOR_AC, self.rng@, self.player, self.monsters@);
        }
        let report = combat::monster_phase(&mut self.rng, &self.map, &mut self.player, &mut self.monsters, STARTING_ARMOR_AC);
        match first_hit_index(&report.attacks) {
            Some(j) => {
                self.last_message = Some(monster_text(report.attacks[j].name, " has injured you"));
            },
            None => {
                if report.attacks.len() > 0 {
                    self.last_message = Some(monster_text(report.attacks[0].name, " doesn't hit you"));
                }
            },
        }
        if fought || report.any_attack {
            self.quiet = 0;
        } else {
            self.quiet = self.quiet + 1;
        }
        combat::doctor(&mut self.rng, &mut self.player, self.quiet);
        combat::hunger(&mut self.player);
        let ghost before = self.monsters@;
        proof {
            combat::lemma_phase_monsters(g0.map, STARTING_ARMOR_AC, g0.rng, g0.player, g0.monsters);
            assert forall|j: int| 0 <= j < before.len() implies monster_ok(self.map@, #[trigger] before[j]) by {
                assert(monster_ok(g0.map, g0.monsters[j]));
            }
            lemma_alive_from(before);
        }
        self.monsters = alive_monsters(&self.monsters);
        proof {
            let r = self.monsters@;
            assert forall|j: int| 0 <= j < r.len() implies monster_ok(self.map@, #[trigger] r[j]) by {
                let k = choose|k: int| 0 <= k < before.len() && before[k] == r[j];
                assert(monster_ok(self.map@, before[k]));
            }
        }
        if self.player.hp <= 0 {
            let mut text = String::new();
            push_str(&mut text, "you have died");
            self.last_message = Some(text);
        }
        self.refresh_visibility();
    }
}

// ---------------------------------------------------------------------
// Resizing
// ---------------------------------------------------------------------

/// The monsters not standing on `(x, y)`, in order.
pub open spec fn off_tile(ms: Seq<Monster>, x: usize, y: usize) -> Seq<Monster>
    decreases ms.len(),
{
    if ms.len() == 0 {
        Seq::empty()
    } else if !(ms.last().x == x && ms.last().y == y) {
        off_tile(ms.drop_last(), x, y).push(ms.last())
    } else {
        off_tile(ms.drop_last(), x, y)
    }
}

/// The session regenerated at `width` x `height` for the current floor:
/// the player keeps their stats, and their position when it is still a
/// walkable tile of the new map (else they take the new spawn point); no
/// monster stands on the player; a carried Amulet stays carried; all
/// exploration memory is void.
pub open spec fn resized(g: GameView, width: int, height: int) -> GameView {
    let next = assembled(level_board(g.seed, g.floor, width, height), g.floor, g.seed);
    let (x, y) = (g.player.x, g.player.y);
    let keep = x < width && y < height && walkable(next.map.tile_at(x as int, y as int));
    let p = if keep { g.player } else { Player { x: next.player.x, y: next.player.y, ..g.player } };
    refreshed(
        GameView {
            player: p,
            monsters: off_tile(next.monsters, p.x, p.y),
            amulet: if g.has_amulet { None } else { next.amulet },
            has_amulet: g.has_amulet,
            seen: blank(next.map.width * next.map.height),
            seen_maps: no_seen_maps(),
            ..next
        },
    )
}

/// Dropping the monsters on one tile keeps every remaining monster's
/// standing on the map.
proof fn lemma_off_tile_ok(b: Board, ms: Seq<Monster>, x: usize, y: usize)
    requires
        forall|i: int| 0 <= i < ms.len() ==> monster_ok(b, #[trigger] ms[i]),
    ensures
        forall|i: int| 0 <= i < off_tile(ms, x, y).len() ==> monster_ok(b, #[trigger] off_tile(ms, x, y)[i]),
    decreases ms.len(),
{
    if ms.len() > 0 {
        let rest = ms.drop_last();
        assert forall|i: int| 0 <= i < rest.len() implies monster_ok(b, #[trigger] rest[i]) by {
            assert(rest[i] == ms[i]);
        }
        lemma_off_tile_ok(b, rest, x, y);
        assert(monster_ok(b, ms[ms.len() - 1]));
        let kept = off_tile(rest, x, y);
        assert forall|i: int| 0 <= i < off_tile(ms, x, y).len() implies monster_ok(
            b,
            #[trigger] off_tile(ms, x, y)[i],
        ) by {
            if i < kept.len() {
                assert(off_tile(ms, x, y)[i] == kept[i]);
            } else {
                assert(off_tile(ms, x, y)[i] == ms.last());
            }
        }
    }
}

/// The monsters not standing on `(x, y)`.
fn monsters_off(monsters: &Vec<Monster>, x: usize, y: usize) -> (r: Vec<Monster>)
    ensures
        r@ == off_tile(monsters@, x, y),
{
    let mut out: Vec<Monster> = Vec::new();
    let mut i: usize = 0;
    while i < monsters.len()
        invariant
            i <= monsters@.len(),
            out@ == off_tile(monsters@.take(i as int), x, y),
        decreases monsters@.len() - i,
    {
        assert(monsters@.take(i as int + 1).drop_last() =~= monsters@.take(i as int));
        if !(monsters[i].x == x && monsters[i].y == y) {
            out.push(monsters[i]);
        }
        i = i + 1;
    }
    assert(monsters@.take(i as int) =~= monsters@);
    out
}

impl Game {
    /// Regenerate the current floor at a new map size (a terminal resize),
    /// keeping the player's stats, position (when it still lands on
    /// walkable floor), and carried Amulet. The level, monsters, and stairs
    /// re-roll deterministically for the new size from the same floor seed.
    pub fn resize(&mut self, width: usize, height: usize)
        requires
            game_wf(old(self)@),
            level_size(width as int, height as int).0 * level_size(width as int, height as int).1 <= usize::MAX,
            level_size(width as int, height as int).0 <= VIEW_LIMIT,
            level_size(width as int, height as int).1 <= VIEW_LIMIT,
        ensures
            final(self)@ == resized(old(self)@, width as int, height as int),
            game_wf(final(self)@),
            monsters_ok(final(self)@),
    {
        reveal(assembled);
        let carried = self.has_amulet;
        let x = self.player.x;
        let y = self.player.y;
        let mut player = self.player;
        let mut next = Game::at_floor(self.seed, self.floor, width, height);
        proof {
            assert(next.map.tiles@.len() == next.map.tiles.len());
            if x < width && y < height {
                crate::generate::lemma_index_in(next.map.width as int, next.map.height as int, x as int, y as int);
            }
        }
        if x < width && y < height && next.map.tile(x, y).is_walkable() {
            player.x = x;
            player.y = y;
        } else {
            player.x = next.player.x;
            player.y = next.player.y;
        }
        next.player = player;
        proof {
            lemma_off_tile_ok(next@.map, next@.monsters, player.x, player.y);
        }
        next.monsters = monsters_off(&next.monsters, next.player.x, next.player.y);
        if carried {
            next.amulet = None;
        }
        next.has_amulet = carried;
        *self = next;
        self.seen = blank_grid(self.map.width * self.map.height);
        self.seen_maps = empty_seen_maps();
        self.refresh_visibility();
    }
}

// ---------------------------------------------------------------------
// Glyphs and text
// ---------------------------------------------------------------------

/// The glyph one cell shows, with every feature overlaid in display order:
/// the player, then a monster, then the Amulet, then the staircases, then
/// the bare tile.
pub open spec fn overlay(p: Player, ms: Seq<Monster>, am: Option<Amulet>, st: Stairs, b: Board, x: int, y: int) -> char {
    if x == p.x && y == p.y {
        '@'
    } else {
        match monster_at(ms, x, y, 0) {
            Some(i) => crate::entity::letter_of(ms[i].kind),
            None => if am is Some && am->0.x == x && am->0.y == y {
                AMULET_GLYPH
            } else if x == st.down.0 && y == st.down.1 {
                STAIRS_DOWN_GLYPH
            } else if x == st.up.0 && y == st.up.1 {
                STAIRS_UP_GLYPH
            } else {
                glyph_of(b.tile_at(x, y))
            },
        }
    }
}

/// The glyph at `(x, y)` through the field of view: the player is always
/// drawn; a visible tile shows its full overlay; a tile explored but dark
/// shows the bare remembered tile; a tile never explored is solid rock.
pub open spec fn glyph_view(g: GameView, x: int, y: int) -> char {
    if x == g.player.x && y == g.player.y {
        '@'
    } else if !cell(g.seen, g.map.width as int, x, y) {
        glyph_of(Tile::Wall)
    } else if !cell(g.visible, g.map.width as int, x, y) {
        glyph_of(g.map.tile_at(x, y))
    } else {
        overlay(g.player, g.monsters, g.amulet, g.stairs, g.map, x, y)
    }
}

/// The glyph one cell shows with every feature overlaid; the single
/// overlay every renderer uses, so all of them agree on a cell's glyph.
fn overlay_glyph(
    player: &Player,
    monsters: &[Monster],
    amulet: Option<Amulet>,
    stairs: Stairs,
    map: &Dungeon,
    x: usize,
    y: usize,
) -> (c: char)
    requires
        map.cells().len() == map.width * map.height,
        map.in_bounds(x as int, y as int),
    ensures
        c == overlay(*player, monsters@, amulet, stairs, map@, x as int, y as int),
{
    if x == player.x && y == player.y {
        return '@';
    }
    let mut i: usize = 0;
    while i < monsters.len()
        invariant
            i <= monsters@.len(),
            !(x == player.x && y == player.y),
            monster_at(monsters@, x as int, y as int, i as int) == monster_at(monsters@, x as int, y as int, 0),
        decreases monsters@.len() - i,
    {
        if monsters[i].x == x && monsters[i].y == y {
            assert(monster_at(monsters@, x as int, y as int, i as int) == Some(i as int));
            let c = monsters[i].symbol();
            assert(!(x as int == player.x && y as int == player.y));
            assert(monster_at(monsters@, x as int, y as int, 0) == Some(i as int));
            return c;
        }
        i = i + 1;
    }
    let on_amulet = match amulet {
        Some(a) => a.x == x && a.y == y,
        None => false,
    };
    if on_amulet {
        AMULET_GLYPH
    } else if x == stairs.down.0 && y == stairs.down.1 {
        STAIRS_DOWN_GLYPH
    } else if x == stairs.up.0 && y == stairs.up.1 {
        STAIRS_UP_GLYPH
    } else {
        proof {
            crate::generate::lemma_index_in(map.width as int, map.height as int, x as int, y as int);
            assert(map.tiles@.len() == map.tiles.len());
        }
        map.tile(x, y).glyph()
    }
}

/// Row `y` of a level drawn with its features, columns `0..n`.
pub open spec fn level_row(b: Board, p: Player, st: Stairs, am: Option<Amulet>, ms: Seq<Monster>, y: int, n: int) -> Seq<char> {
    Seq::new(n as nat, |x: int| overlay(p, ms, am, st, b, x, y))
}

/// Rows `0..n` of a level drawn with its features, each ending in a newline.
pub open spec fn level_text(b: Board, p: Player, st: Stairs, am: Option<Amulet>, ms: Seq<Monster>, n: int) -> Seq<char>
    decreases n,
{
    if n <= 0 {
        Seq::empty()
    } else {
        level_text(b, p, st, am, ms, n - 1) + level_row(b, p, st, am, ms, n - 1, b.width as int) + seq!['\n']
    }
}

/// A level's map with its features overlaid: monsters, staircases, the
/// Amulet (`,`) and the player (`@`), one line per map row.
pub fn render_level(map: &Dungeon, player: Player, stairs: Stairs, amulet: Option<Amulet>, monsters: &[Monster]) -> (out: String)
    requires
        map.cells().len() == map.width * map.height,
    ensures
        out@ == level_text(map@, player, stairs, amulet, monsters@, map.height as int),
{
    let mut out = String::new();
    let mut y: usize = 0;
    while y < map.height
        invariant
            map.cells().len() == map.width * map.height,
            y <= map.height,
            out@ == level_text(map@, player, stairs, amulet, monsters@, y as int),
        decreases map.height - y,
    {
        let ghost before = out@;
        let mut x: usize = 0;
        while x < map.width
            invariant
                map.cells().len() == map.width * map.height,
                y < map.height,
                x <= map.width,
                out@ == before + level_row(map@, player, stairs, amulet, monsters@, y as int, x as int),
            decreases map.width - x,
        {
            let c = overlay_glyph(&player, monsters, amulet, stairs, map, x, y);
            push_char(&mut out, c);
            x = x + 1;
            assert(out@ =~= before + level_row(map@, player, stairs, amulet, monsters@, y as int, x as int));
        }
        push_char(&mut out, '\n');
        y = y + 1;
    }
    out
}

/// Is the player on floor 1's exit stair?
pub open spec fn on_exit(g: GameView) -> bool {
    g.floor == 1 && g.player.x == g.stairs.up.0 && g.player.y == g.stairs.up.1
}

/// The status line: `Level:` is the dungeon floor; `Arm:` is `10 - AC` of
/// the armor combat resolves against; `Exp:` is the experience level and
/// points; then the Amulet, or the blocked exit, where they apply.
pub open spec fn status_text(g: GameView) -> Seq<char> {
    let p = g.player;
    "Level: "@ + decimal(g.floor as int) + "  Gold: "@ + decimal(p.gold as int) + "  Hp: "@ + decimal(p.hp as int) + "("@
        + decimal(p.max_hp as int) + ")  Str: "@ + decimal(p.strength as int) + "("@ + decimal(p.strength as int)
        + ")  Arm: "@ + decimal(10 - STARTING_ARMOR_AC) + "   Exp: "@ + decimal(p.level as int) + "/"@ + decimal(
        p.experience as int,
    ) + if g.has_amulet {
        "  Amulet: carried"@
    } else {
        Seq::empty()
    } + if !g.has_amulet && on_exit(g) {
        "  (the way out is magically blocked)"@
    } else {
        Seq::empty()
    }
}

/// `true` or `false`.
pub open spec fn bool_text(b: bool) -> Seq<char> {
    if b {
        "true"@
    } else {
        "false"@
    }
}

/// One compact line summarizing the state: seed, floor, hit points, str,
/// gold, experience, level, won, dead, monsters remaining, Amulet carried.
pub open spec fn snapshot_text(g: GameView) -> Seq<char> {
    let p = g.player;
    "seed: "@ + digits(g.seed as nat) + "  floor: "@ + decimal(g.floor as int) + "  hp: "@ + decimal(p.hp as int) + "/"@
        + decimal(p.max_hp as int) + "  str: "@ + decimal(p.strength as int) + "  gold: "@ + decimal(p.gold as int)
        + "  exp: "@ + decimal(p.experience as int) + "  level: "@ + decimal(p.level as int) + "  won: "@ + bool_text(
        g.won,
    ) + "  dead: "@ + bool_text(p.hp <= 0) + "  monsters: "@ + digits(g.monsters.len()) + "  amulet: "@ + bool_text(
        g.has_amulet,
    )
}

fn push_bool(s: &mut String, b: bool)
    ensures
        final(s)@ == old(s)@ + bool_text(b),
{
    if b {
        push_str(s, "true");
    } else {
        push_str(s, "false");
    }
}

impl Game {
    /// The glyph at `(x, y)` as every renderer draws it, through the field
    /// of view; see [`glyph_view`].
    pub fn glyph_at(&self, x: usize, y: usize) -> (c: char)
        requires
            game_wf(self@),
            self@.map.in_bounds(x as int, y as int),
        ensures
            c == glyph_view(self@, x as int, y as int),
    {
        if x == self.player.x && y == self.player.y {
            return '@';
        }
        proof {
            crate::generate::lemma_index_in(self.map.width as int, self.map.height as int, x as int, y as int);
            assert(self.map.tiles@.len() == self.map.tiles.len());
        }
        let idx = y * self.map.width + x;
        if !self.seen[idx] {
            return Tile::Wall.glyph();
        }
        if !self.visible[idx] {
            return self.map.tile(x, y).glyph();
        }
        overlay_glyph(&self.player, self.monsters.as_slice(), self.amulet, self.stairs, &self.map, x, y)
    }

    /// Is the player standing on floor 1's exit stair?
    fn at_exit(&self) -> (b: bool)
        ensures
            b == on_exit(self@),
    {
        self.floor == 1 && self.player.x == self.stairs.up.0 && self.player.y == self.stairs.up.1
    }

    /// The status line (`Level: 1  Gold: 0  Hp: 12(12)  Str: 16(16)  Arm: 4
    /// Exp: 1/0`); see [`status_text`].
    pub fn status_line(&self) -> (line: String)
        ensures
            line@ == status_text(self@),
    {
        let p = &self.player;
        let mut line = String::new();
        push_str(&mut line, "Level: ");
        push_decimal(&mut line, self.floor as i64);
        push_str(&mut line, "  Gold: ");
        push_decimal(&mut line, p.gold as i64);
        push_str(&mut line, "  Hp: ");
        push_decimal(&mut line, p.hp as i64);
        push_str(&mut line, "(");
        push_decimal(&mut line, p.max_hp as i64);
        push_str(&mut line, ")  Str: ");
        push_decimal(&mut line, p.strength as i64);
        push_str(&mut line, "(");
        push_decimal(&mut line, p.strength as i64);
        push_str(&mut line, ")  Arm: ");
        push_decimal(&mut line, (10 - STARTING_ARMOR_AC) as i64);
        push_str(&mut line, "   Exp: ");
        push_decimal(&mut line, p.level as i64);
        push_str(&mut line, "/");
        push_decimal(&mut line, p.experience as i64);
        if self.has_amulet {
            push_str(&mut line, "  Amulet: carried");
        }
        if !self.has_amulet && self.at_exit() {
            push_str(&mut line, "  (the way out is magically blocked)");
        }
        line
    }

    /// One compact line summarizing the final state, for scripted runs:
    /// seed, floor, hp/max, str, gold, exp, level, won/dead, monsters
    /// remaining, and whether the Amulet is carried.
    pub fn snapshot(&self) -> (text: String)
        ensures
            text@ == snapshot_text(self@),
    {
        let p = &self.player;
        let mut text = String::new();
        push_str(&mut text, "seed: ");
        push_digits(&mut text, self.seed);
        push_str(&mut text, "  floor: ");
        push_decimal(&mut text, self.floor as i64);
        push_str(&mut text, "  hp: ");
        push_decimal(&mut text, p.hp as i64);
        push_str(&mut text, "/");
        push_decimal(&mut text, p.max_hp as i64);
        push_str(&mut text, "  str: ");
        push_decimal(&mut text, p.strength as i64);
        push_str(&mut text, "  gold: ");
        push_decimal(&mut text, p.gold as i64);
        push_str(&mut text, "  exp: ");
        push_decimal(&mut text, p.experience as i64);
        push_str(&mut text, "  level: ");
        push_decimal(&mut text, p.level as i64);
        push_str(&mut text, "  won: ");
        push_bool(&mut text, self.won);
        push_str(&mut text, "  dead: ");
        push_bool(&mut text, p.hp <= 0);
        push_str(&mut text, "  monsters: ");
        push_digits(&mut text, self.monsters.len() as u64);
        push_str(&mut text, "  amulet: ");
        push_bool(&mut text, self.has_amulet);
        text
    }
}

// ---------------------------------------------------------------------
// Scripts
// ---------------------------------------------------------------------

/// ASCII lower case.
pub open spec fn lower(c: char) -> char {
    if false { c }
    else if c == 'A' { 'a' }
    else if c == 'B' { 'b' }
    else if c == 'C' { 'c' }
    else if c == 'D' { 'd' }
    else if c == 'E' { 'e' }
    else if c == 'F' { 'f' }
    else if c == 'G' { 'g' }
    else if c == 'H' { 'h' }
    else if c == 'I' { 'i' }
    else if c == 'J' { 'j' }
    else if c == 'K' { 'k' }
    else if c == 'L' { 'l' }
    else if c == 'M' { 'm' }
    else if c == 'N' { 'n' }
    else if c == 'O' { 'o' }
    else if c == 'P' { 'p' }
    else if c == 'Q' { 'q' }
    else if c == 'R' { 'r' }
    else if c == 'S' { 's' }
    else if c == 'T' { 't' }
    else if c == 'U' { 'u' }
    else if c == 'V' { 'v' }
    else if c == 'W' { 'w' }
    else if c == 'X' { 'x' }
    else if c == 'Y' { 'y' }
    else if c == 'Z' { 'z' }
    else { c }
}

fn to_lower(c: char) -> (r: char)
    ensures
        r == lower(c),
{
    match c {
        'A' => 'a',
        'B' => 'b',
        'C' => 'c',
        'D' => 'd',
        'E' => 'e',
        'F' => 'f',
        'G' => 'g',
        'H' => 'h',
        'I' => 'i',
        'J' => 'j',
        'K' => 'k',
        'L' => 'l',
        'M' => 'm',
        'N' => 'n',
        'O' => 'o',
        'P' => 'p',
        'Q' => 'q',
        'R' => 'r',
        'S' => 's',
        'T' => 't',
        'U' => 'u',
        'V' => 'v',
        'W' => 'w',
        'X' => 'x',
        'Y' => 'y',
        'Z' => 'z',
        _ => c,
    }
}

/// The key a `<...>` token names.
pub open spec fn token_key(t: Seq<char>) -> Option<Key> {
    if t == "left"@ {
        Some(Key::Left)
    } else if t == "right"@ {
        Some(Key::Right)
    } else if t == "up"@ {
        Some(Key::Up)
    } else if t == "down"@ {
        Some(Key::Down)
    } else if t == "esc"@ {
        Some(Key::Escape)
    } else {
        None
    }
}

/// The first `>` at or after `j`.
pub open spec fn close_at(s: Seq<char>, j: int) -> Option<int>
    decreases s.len() - j,
{
    if j < 0 || j >= s.len() {
        None
    } else if s[j] == '>' {
        Some(j)
    } else {
        close_at(s, j + 1)
    }
}

/// The keys of `s[i..]`: a bare character is that key, lower-cased; the
/// arrow and escape keys are spelled `<left>`, `<right>`, `<up>`, `<down>`,
/// `<esc>`, and any other `<...>` token is an error. A `<` with no closing
/// `>` is a plain character.
pub open spec fn parse_keys(s: Seq<char>, i: int) -> Result<Seq<Key>, Seq<char>>
    decreases s.len() - i,
{
    if i < 0 || i >= s.len() {
        Ok(Seq::empty())
    } else if s[i] == '<' && close_at(s, i + 1) is Some {
        let j = close_at(s, i + 1)->0;
        proof {
            lemma_close_at(s, i + 1);
        }
        let token = s.subrange(i + 1, j);
        match token_key(token) {
            Some(k) => match parse_keys(s, j + 1) {
                Ok(rest) => Ok(seq![k] + rest),
                Err(e) => Err(e),
            },
            None => Err("unknown key token `<"@ + token + ">`"@),
        }
    } else {
        match parse_keys(s, i + 1) {
            Ok(rest) => Ok(seq![Key::Char(lower(s[i]))] + rest),
            Err(e) => Err(e),
        }
    }
}

/// The closing `>` found lies at or after the start.
pub proof fn lemma_close_at(s: Seq<char>, j: int)
    ensures
        close_at(s, j) matches Some(k) ==> j <= k < s.len() && s[k] == '>',
    decreases s.len() - j,
{
    if 0 <= j < s.len() && s[j] != '>' {
        lemma_close_at(s, j + 1);
    }
}

/// Do `s[from..to]` and `word` hold the same characters?
fn slice_is(s: &str, from: usize, to: usize, word: &str) -> (b: bool)
    requires
        from <= to <= s@.len(),
    ensures
        b == (s@.subrange(from as int, to as int) == word@),
{
    let n = word.unicode_len();
    if to - from != n {
        proof {
            assert(s@.subrange(from as int, to as int).len() != word@.len());
        }
        return false;
    }
    let mut k: usize = 0;
    while k < n
        invariant
            n == word@.len(),
            to - from == n,
            from <= to <= s@.len(),
            k <= n,
            forall|m: int| 0 <= m < k ==> s@[from + m] == word@[m],
        decreases n - k,
    {
        if s.get_char(from + k) != word.get_char(k) {
            proof {
                assert(s@.subrange(from as int, to as int)[k as int] != word@[k as int]);
            }
            return false;
        }
        k = k + 1;
    }
    assert(s@.subrange(from as int, to as int) =~= word@);
    true
}

/// Parse a script string into keys; see [`parse_keys`]. Unknown `<...>`
/// tokens are an error so a typo cannot silently do nothing.
pub fn script_keys(script: &str) -> (r: Result<Vec<Key>, String>)
    ensures
        match r {
            Ok(keys) => parse_keys(script@, 0) == Ok::<Seq<Key>, Seq<char>>(keys@),
            Err(e) => parse_keys(script@, 0) == Err::<Seq<Key>, Seq<char>>(e@),
        },
{
    let n = script.unicode_len();
    let mut keys: Vec<Key> = Vec::new();
    let mut i: usize = 0;
    while i < n
        invariant
            n == script@.len(),
            i <= n,
            match parse_keys(script@, i as int) {
                Ok(rest) => parse_keys(script@, 0) == Ok::<Seq<Key>, Seq<char>>(keys@ + rest),
                Err(e) => parse_keys(script@, 0) == Err::<Seq<Key>, Seq<char>>(e),
            },
        decreases n - i,
    {
        let c = script.get_char(i);
        if c == '<' {
            let mut j = i + 1;
            while j < n && script.get_char(j) != '>'
                invariant
                    n == script@.len(),
                    i < j <= n,
                    close_at(script@, i + 1) == close_at(script@, j as int),
                decreases n - j,
            {
                j = j + 1;
            }
            if j < n {
                proof {
                    lemma_close_at(script@, i + 1);
                }
                let key = if slice_is(script, i + 1, j, "left") {
                    Key::Left
                } else if slice_is(script, i + 1, j, "right") {
                    Key::Right
                } else if slice_is(script, i + 1, j, "up") {
                    Key::Up
                } else if slice_is(script, i + 1, j, "down") {
                    Key::Down
                } else if slice_is(script, i + 1, j, "esc") {
                    Key::Escape
                } else {
                    let mut e = String::new();
                    push_str(&mut e, "unknown key token `<");
                    push_str(&mut e, script.substring_char(i + 1, j));
                    push_str(&mut e, ">`");
                    return Err(e);
                };
                proof {
                    let ghost old_keys = keys@;
                    assert(old_keys.push(key) + match parse_keys(script@, j + 1) { Ok(r) => r, Err(_) => Seq::empty() }
                        =~= old_keys + (seq![key] + match parse_keys(script@, j + 1) { Ok(r) => r, Err(_) => Seq::empty() }));
                }
                keys.push(key);
                i = j + 1;
                continue;
            }
        }
        proof {
            let ghost old_keys = keys@;
            let k = Key::Char(lower(c));
            assert(old_keys.push(k) + match parse_keys(script@, i + 1) { Ok(r) => r, Err(_) => Seq::empty() }
                =~= old_keys + (seq![k] + match parse_keys(script@, i + 1) { Ok(r) => r, Err(_) => Seq::empty() }));
        }
        keys.push(Key::Char(to_lower(c)));
        i = i + 1;
    }
    assert(keys@ + Seq::<Key>::empty() =~= keys@);
    Ok(keys)
}

/// `q` and Escape quit.
pub open spec fn quits(key: Key) -> bool {
    key == Key::Char('q') || key == Key::Escape
}

/// Does the interactive loop treat `key` as quit (`q` or Escape)? The
/// scripted loop uses the same rule so a script and a real session agree.
pub fn is_quit(key: Key) -> (b: bool)
    ensures
        b == quits(key),
{
    match key {
        Key::Char('q') | Key::Escape => true,
        _ => false,
    }
}

/// The status line begins with the floor, the gold, and the hit points as
/// the current value followed by the maximum in brackets, then the
/// strength field.
pub proof fn lemma_status_fields(g: GameView)
    ensures
        ({
            let p = g.player;
            let head = "Level: "@ + decimal(g.floor as int) + "  Gold: "@ + decimal(p.gold as int) + "  Hp: "@
                + decimal(p.hp as int) + "("@ + decimal(p.max_hp as int) + ")  Str: "@;
            &&& head.len() <= status_text(g).len()
            &&& status_text(g).subrange(0, head.len() as int) == head
        }),
{
    let p = g.player;
    let head = "Level: "@ + decimal(g.floor as int) + "  Gold: "@ + decimal(p.gold as int) + "  Hp: "@
        + decimal(p.hp as int) + "("@ + decimal(p.max_hp as int) + ")  Str: "@;
    assert(status_text(g).subrange(0, head.len() as int) =~= head);
}

impl Game {
    /// Does a round toward `dir` stay inside the integer limits whatever
    /// the dice show? A consistent session with its monsters on the map (as
    /// every session this library builds and steps is) can then take it.
    pub fn round_fits(&self, dir: Direction) -> (b: bool)
        ensures
            b == numbers_in_range(self@, dir),
            b && game_wf(self@) && monsters_ok(self@) ==> round_ok(self@, dir),
    {
        let p = &self.player;
        let hp = p.hp as i64;
        let room = (if hp > 0 { hp } else { 0 }) + 10 * 21 + p.level as i64 + 21;
        if hp < -2147483648i64 + 64 || room >= 2147483647i64 {
            return false;
        }
        if self.quiet as u64 + 1 + 2 * (p.level as u64 + 21) > 4294967295u64 {
            return false;
        }
        match next_position(p.x, p.y, dir) {
            None => true,
            Some(t) => match monster_index_at(&self.monsters, t.0, t.1) {
                None => true,
                Some(i) => blow_fits(p, &self.monsters[i]),
            },
        }
    }
}

/// The session after the keys: each applied as the interactive loop
/// would, stopping at a quit key, at death, or at the escape; unknown keys
/// and blocked moves change nothing. A run also ends before a round whose
/// numbers have left the range the round arithmetic is proved for
/// (see `round_fits`).
pub open spec fn played(g: GameView, keys: Seq<Key>) -> GameView
    decreases keys.len(),
{
    if keys.len() == 0 || g.won || g.player.hp <= 0 || quits(keys[0]) {
        g
    } else {
        match direction_of(keys[0]) {
            None => played(g, keys.drop_first()),
            Some(d) => if numbers_in_range(g, d) {
                played(stepped(g, d).0, keys.drop_first())
            } else {
                g
            },
        }
    }
}

/// Run a scripted session with no terminal: apply each key exactly like
/// the interactive loop would, then return the final state. Deterministic
/// for a given seed, so scripts double as regression tests for whole runs.
pub fn play(seed: u64, width: usize, height: usize, keys: &[Key]) -> (g: Game)
    requires
        level_size(width as int, height as int).0 * level_size(width as int, height as int).1 <= usize::MAX,
        level_size(width as int, height as int).0 <= VIEW_LIMIT,
        level_size(width as int, height as int).1 <= VIEW_LIMIT,
    ensures
        g@ == played(assembled(level_board(seed, 1, width as int, height as int), 1, seed), keys@),
{
    let mut game = Game::new(seed, width, height);
    let ghost target = played(game@, keys@);
    assert(keys@.skip(0) =~= keys@);
    let mut i: usize = 0;
    while i < keys.len()
        invariant
            i <= keys@.len(),
            played(game@, keys@.skip(i as int)) == target,
            game_wf(game@),
            monsters_ok(game@),
        ensures
            game@ == target,
        decreases keys@.len() - i,
    {
        let key = keys[i];
        assert(keys@.skip(i as int)[0] == key);
        assert(keys@.skip(i as int).drop_first() =~= keys@.skip(i as int + 1));
        if game.won || game.player.hp <= 0 || is_quit(key) {
            break;
        }
        match key_to_direction(key) {
            Some(dir) => {
                if !game.round_fits(dir) {
                    break;
                }
                game.step(dir);
            },
            None => {},
        }
        i = i + 1;
    }
    game
}


// ---------------------------------------------------------------------
// Laws of a session
// ---------------------------------------------------------------------

/// A session whose first key quits ends as it began, whatever keys follow.
pub proof fn lemma_quit_first(g: GameView, k: Key, rest: Seq<Key>)
    requires
        quits(k),
    ensures
        played(g, seq![k] + rest) == g,
{
    assert((seq![k] + rest)[0] == k);
}

/// The Amulet lies on no floor but the Amulet floor.
pub open spec fn amulet_in_place(g: GameView) -> bool {
    g.amulet is Some ==> g.floor == AMULET_LEVEL
}

/// A freshly built floor holds the Amulet exactly when it is the Amulet
/// floor; nobody carries it yet and nobody has escaped.
pub proof fn lemma_fresh_floor_amulet(b: Board, floor: u32, seed: u64)
    ensures
        (assembled(b, floor, seed).amulet is Some) == (floor == AMULET_LEVEL),
        !assembled(b, floor, seed).has_amulet,
        !assembled(b, floor, seed).won,
        assembled(b, floor, seed).floor == floor,
        assembled(b, floor, seed).seed == seed,
        assembled(b, floor, seed).map == b,
{
    reveal(assembled);
}

/// Every round keeps the Amulet off every floor but the Amulet floor.
pub proof fn lemma_round_keeps_amulet_in_place(g: GameView, dir: Direction)
    requires
        amulet_in_place(g),
    ensures
        amulet_in_place(stepped(g, dir).0),
{
    reveal(stepped);
    match acted(g, dir) {
        None => {},
        Some((g1, fought)) => {
            let g1r = GameView { player: Player { running: true, ..g1.player }, ..g1 };
            let gp = picked_up(g1r);
            assert(amulet_in_place(gp));
            let pos = (gp.player.x, gp.player.y);
            if pos == gp.stairs.down && gp.floor < MAX_FLOOR {
                let f = (gp.floor + 1) as u32;
                lemma_fresh_floor_amulet(level_board(gp.seed, f, gp.map.width as int, gp.map.height as int), f, gp.seed);
            } else if pos == gp.stairs.up && !escaped(gp.floor, true, gp.has_amulet) && gp.floor > 1 {
                let f = (gp.floor - 1) as u32;
                lemma_fresh_floor_amulet(level_board(gp.seed, f, gp.map.width as int, gp.map.height as int), f, gp.seed);
            }
        },
    }
}

/// Stepping onto the Amulet's tile carries it: it leaves the floor, and the
/// round goes on as usual (carrying it alone does not win).
pub proof fn lemma_stepping_onto_the_amulet(g: GameView, dir: Direction)
    requires
        g.amulet is Some,
        acted(g, dir) matches Some((g1, fought)) && !fought && (g1.player.x, g1.player.y) == (
            g.amulet->0.x,
            g.amulet->0.y,
        ),
        (g.amulet->0.x, g.amulet->0.y) != g.stairs.up,
        (g.amulet->0.x, g.amulet->0.y) != g.stairs.down,
        !g.won,
    ensures
        stepped(g, dir).0.has_amulet,
        stepped(g, dir).0.amulet is None,
        !stepped(g, dir).0.won,
        stepped(g, dir).0.floor == g.floor,
{
    reveal(stepped);
}

/// Only one move escapes: onto floor 1's exit stair while carrying the
/// Amulet.
pub proof fn lemma_escape_needs_floor_one_and_the_amulet(g: GameView, dir: Direction)
    requires
        amulet_in_place(g),
        !g.won,
    ensures
        stepped(g, dir).0.won ==> {
            let w = stepped(g, dir).0;
            &&& w.floor == 1
            &&& w.has_amulet
            &&& (w.player.x, w.player.y) == w.stairs.up
        },
{
    reveal(stepped);
    match acted(g, dir) {
        None => {},
        Some((g1, fought)) => {
            assert(!g1.won && amulet_in_place(g1));
            let g1r = GameView { player: Player { running: true, ..g1.player }, ..g1 };
            let gp = picked_up(g1r);
            assert(!gp.won && gp.floor == g.floor);
            assert(gp.has_amulet ==> g.has_amulet || g.floor == AMULET_LEVEL);
            let g2 = stairs_taken(gp);
            let pos = (gp.player.x, gp.player.y);
            if pos == gp.stairs.down {
                if gp.floor < MAX_FLOOR {
                    let f = (gp.floor + 1) as u32;
                    lemma_fresh_floor_amulet(level_board(gp.seed, f, gp.map.width as int, gp.map.height as int), f, gp.seed);
                    assert(!g2.won);
                }
            } else if pos == gp.stairs.up {
                if escaped(gp.floor, true, gp.has_amulet) {
                    assert(g2.won && g2.floor == 1 && g2.has_amulet);
                } else if gp.floor > 1 {
                    let f = (gp.floor - 1) as u32;
                    lemma_fresh_floor_amulet(level_board(gp.seed, f, gp.map.width as int, gp.map.height as int), f, gp.seed);
                    assert(!g2.won);
                }
            }
            if !g2.won {
                assert(after_phase(g2, fought).won == g2.won);
            }
        },
    }
}

/// With the Amulet carried, a move that lands on floor 1's exit stair wins.
pub proof fn lemma_exit_with_the_amulet_wins(g: GameView, dir: Direction)
    requires
        g.floor == 1,
        g.has_amulet,
        g.amulet is None,
        acted(g, dir) matches Some((g1, _)) && (g1.player.x, g1.player.y) == g.stairs.up,
        g.stairs.up != g.stairs.down,
    ensures
        stepped(g, dir).0.won,
        stepped(g, dir).1,
{
    reveal(stepped);
}

/// Re-entering a floor rebuilds it exactly as it was first built: the map,
/// the staircases, the monsters and the Amulet depend only on the game's
/// seed, the floor and the map size. The player arrives on the up staircase
/// going down, on the down staircase going up.
pub proof fn lemma_floor_rebuilds_identically(g: GameView, w: int, h: int, floor: u32, going_down: bool)
    requires
        level_size(w, h).0 <= VIEW_LIMIT,
        level_size(w, h).1 <= VIEW_LIMIT,
        g.map == level_board(g.seed, g.floor, w, h),
    ensures
        ({
            let next = changed_floor(g, floor, going_down);
            let first = assembled(level_board(g.seed, floor, w, h), floor, g.seed);
            &&& next.floor == floor
            &&& next.map == first.map
            &&& next.stairs == first.stairs
            &&& next.monsters == first.monsters
            &&& next.amulet == first.amulet
            &&& (next.player.x, next.player.y) == if going_down { first.stairs.up } else { first.stairs.down }
        }),
{
    reveal(assembled);
    lemma_level_at_its_size(floor_seed_value(g.seed, floor), w, h);
    assert(level_board(g.seed, floor, g.map.width as int, g.map.height as int) == level_board(g.seed, floor, w, h));
}

/// Leaving a floor for another and coming back keeps every tile explored
/// before: the floor's memory is saved on leaving and restored on arrival.
pub proof fn lemma_memory_survives_a_round_trip(g: GameView, w: int, h: int, other: u32, down1: bool, down2: bool)
    requires
        game_wf(g),
        level_size(w, h).0 <= VIEW_LIMIT,
        level_size(w, h).1 <= VIEW_LIMIT,
        g.map == level_board(g.seed, g.floor, w, h),
        1 <= other <= MAX_FLOOR,
        other != g.floor,
    ensures
        ({
            let back = changed_floor(changed_floor(g, other, down1), g.floor, down2);
            &&& back.floor == g.floor
            &&& back.seen.len() == g.seen.len()
            &&& forall|i: int| 0 <= i < g.seen.len() && g.seen[i] ==> #[trigger] back.seen[i]
        }),
{
    let g2 = changed_floor(g, other, down1);
    lemma_floor_rebuilds_identically(g, w, h, other, down1);
    lemma_fresh_floor_amulet(level_board(g.seed, other, w, h), other, g.seed);
    assert(g2.seed == g.seed);
    assert(g2.seen_maps == g.seen_maps.update(g.floor as int, g.seen).update(other as int, Seq::empty()));
    assert(g2.seen_maps[g.floor as int] == g.seen);
    assert(g2.map == level_board(g.seed, other, w, h));
    lemma_floor_rebuilds_identically(g2, w, h, g.floor, down2);
    let back = changed_floor(g2, g.floor, down2);
    lemma_fresh_floor_amulet(level_board(g.seed, g.floor, w, h), g.floor, g.seed);
    assert(back.map == g.map);
    let maps1 = g2.seen_maps.update(other as int, g2.seen);
    assert(maps1[g.floor as int] == g.seen);
    assert(g.seen.len() == back.map.width * back.map.height);
}

/// A resize keeps the player's numbers, the floor, and a carried Amulet.
pub proof fn lemma_resize_keeps_the_player(g: GameView, w: int, h: int)
    ensures
        ({
            let r = resized(g, w, h);
            &&& r.floor == g.floor
            &&& r.has_amulet == g.has_amulet
            &&& r.player == Player { x: r.player.x, y: r.player.y, ..g.player }
        }),
{
    reveal(assembled);
}

} // verus!
