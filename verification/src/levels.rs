//! Dungeon level progression: floor constants, staircases, and the Amulet
//! of Yendor.
//!
//! Pure bookkeeping and placement: no rendering, no input. The game loop
//! drives descents and ascents through these helpers; the spawner reads the
//! floor number for monster depth scaling.

use vstd::prelude::*;
use crate::map::{Board, Dungeon, Room, Tile, present_rooms, in_room, walkable, room_fits};
use crate::rng::{Rng, below_value, next_state, seeded, draw};
use crate::entity::{free_in_room, free_in_rows, free_in_row, free_spot, free_spots, contains_spot, lemma_rooms_fit};
use crate::generate::lemma_index_in;

verus! {

/// How many floors the dungeon has: 1 (the surface entrance) through 26
/// (the Amulet floor). The floor counter stays in `1..=MAX_FLOOR`.
pub const MAX_FLOOR: u32 = 26;

/// The floor the Amulet of Yendor lies on.
pub const AMULET_LEVEL: u32 = 26;

/// How many draws `other_room` makes before it settles for the first other
/// room in list order.
pub const OTHER_ROOM_TRIES: u64 = 0xFFFF_FFFF_FFFF_FFFF;

/// Both staircases of one floor, as map coordinates `(x, y)`.
///
/// Every floor carries a down stair (deeper dungeon) and an up stair. Floor
/// 1's up stair is the surface exit: stepping on it with the Amulet wins the
/// game, without it the way out is magically blocked.
#[derive(Debug, Clone, Copy, PartialEq, Eq)]
pub struct Stairs {
    pub up: (usize, usize),
    pub down: (usize, usize),
}

/// The Amulet of Yendor while it lies on the floor of [`AMULET_LEVEL`].
#[derive(Debug, Clone, Copy, PartialEq, Eq, Structural)]
pub struct Amulet {
    pub x: usize,
    pub y: usize,
}

/// The map seed of `floor`: the base seed itself on floor 1, otherwise the
/// first draw of a generator seeded with `base ^ floor`.
pub open spec fn floor_seed_value(base: u64, floor: u32) -> u64 {
    if floor == 1 {
        base
    } else {
        draw(seeded(base ^ (floor as u64)))
    }
}

/// Derive the map seed for one floor from the game's base seed.
///
/// Floor 1 keeps the base seed untouched, so a seed still reproduces the
/// opening level exactly. Deeper floors mix the floor number into the seed;
/// the same `(seed, floor)` pair always yields the same level, which makes
/// re-ascending deterministic.
pub fn floor_seed(base: u64, floor: u32) -> (s: u64)
    requires
        1 <= floor <= MAX_FLOOR,
    ensures
        s == floor_seed_value(base, floor),
{
    if floor == 1 {
        return base;
    }
    let mut rng = Rng::new(base ^ floor as u64);
    rng.next_u64()
}

/// The win condition: on floor 1, on the exit stair, carrying the Amulet.
pub open spec fn escaped(floor: u32, at_exit: bool, has_amulet: bool) -> bool {
    floor == 1 && at_exit && has_amulet
}

/// The win predicate: the player escapes by stepping onto floor 1's exit
/// stair *while carrying* the Amulet of Yendor.
pub fn has_escaped(floor: u32, at_exit: bool, has_amulet: bool) -> (b: bool)
    ensures
        b == escaped(floor, at_exit, has_amulet),
{
    floor == 1 && at_exit && has_amulet
}

// ---------------------------------------------------------------------
// Candidate tiles
// ---------------------------------------------------------------------

/// A tile a roomless map can hold a stair on: on the map, walkable, and not
/// blocked.
pub open spec fn open_spot(cells: Seq<Tile>, w: int, h: int, blocked: Seq<(usize, usize)>, x: int, y: int) -> bool {
    &&& 0 <= x < w
    &&& 0 <= y < h
    &&& walkable(cells[y * w + x])
    &&& !blocked.contains((x as usize, y as usize))
}

/// The open spots of row `y`, columns `0..x`, left to right.
pub open spec fn open_in_row(cells: Seq<Tile>, w: int, h: int, blocked: Seq<(usize, usize)>, y: int, x: int) -> Seq<(usize, usize)>
    decreases x,
{
    if x <= 0 {
        Seq::empty()
    } else {
        let p = open_in_row(cells, w, h, blocked, y, x - 1);
        if open_spot(cells, w, h, blocked, x - 1, y) {
            p.push(((x - 1) as usize, y as usize))
        } else {
            p
        }
    }
}

/// The open spots of rows `0..y`, in row-major order.
pub open spec fn open_in_rows(cells: Seq<Tile>, w: int, h: int, blocked: Seq<(usize, usize)>, y: int) -> Seq<(usize, usize)>
    decreases y,
{
    if y <= 0 {
        Seq::empty()
    } else {
        open_in_rows(cells, w, h, blocked, y - 1) + open_in_row(cells, w, h, blocked, y - 1, w)
    }
}

/// Every open spot of the map, in row-major order.
pub open spec fn open_spots(cells: Seq<Tile>, w: int, h: int, blocked: Seq<(usize, usize)>) -> Seq<(usize, usize)> {
    open_in_rows(cells, w, h, blocked, h)
}

/// A roomless map has two distinct walkable tiles other than `avoid`, room
/// enough for both stairs.
pub open spec fn two_open_spots(d: Board, avoid: (usize, usize)) -> bool {
    exists|x1: int, y1: int, x2: int, y2: int|
        (x1 != x2 || y1 != y2)
        && #[trigger] open_spot(d.cells(), d.width as int, d.height as int, seq![avoid], x1, y1)
        && #[trigger] open_spot(d.cells(), d.width as int, d.height as int, seq![avoid], x2, y2)
}

/// The entry of `free` that a draw from state `s` picks.
pub open spec fn pick(free: Seq<(usize, usize)>, s: u64) -> (usize, usize) {
    free[below_value(s, free.len()) as int]
}

proof fn lemma_open_row_sound(cells: Seq<Tile>, w: int, h: int, blocked: Seq<(usize, usize)>, y: int, x: int)
    requires
        0 <= y <= usize::MAX,
        x <= usize::MAX + 1,
    ensures
        forall|i: int| 0 <= i < open_in_row(cells, w, h, blocked, y, x).len() ==> {
            let p = #[trigger] open_in_row(cells, w, h, blocked, y, x)[i];
            open_spot(cells, w, h, blocked, p.0 as int, p.1 as int) && p.0 < x
        },
    decreases x,
{
    if x > 0 {
        lemma_open_row_sound(cells, w, h, blocked, y, x - 1);
        let p = open_in_row(cells, w, h, blocked, y, x - 1);
        let q = ((x - 1) as usize, y as usize);
        if open_spot(cells, w, h, blocked, x - 1, y) {
            assert forall|i: int| 0 <= i < p.push(q).len() implies open_spot(cells, w, h, blocked, p.push(q)[i].0 as int, p.push(q)[i].1 as int)
                && p.push(q)[i].0 < x by {
                if i < p.len() {
                    assert(p.push(q)[i] == p[i]);
                }
            }
        }
    }
}

proof fn lemma_open_rows_sound(cells: Seq<Tile>, w: int, h: int, blocked: Seq<(usize, usize)>, y: int)
    requires
        y <= usize::MAX + 1,
        0 <= w <= usize::MAX,
    ensures
        forall|i: int| 0 <= i < open_in_rows(cells, w, h, blocked, y).len() ==> {
            let p = #[trigger] open_in_rows(cells, w, h, blocked, y)[i];
            open_spot(cells, w, h, blocked, p.0 as int, p.1 as int)
        },
    decreases y,
{
    if y > 0 {
        lemma_open_rows_sound(cells, w, h, blocked, y - 1);
        lemma_open_row_sound(cells, w, h, blocked, y - 1, w);
        let a = open_in_rows(cells, w, h, blocked, y - 1);
        let b = open_in_row(cells, w, h, blocked, y - 1, w);
        assert forall|i: int| 0 <= i < (a + b).len() implies open_spot(cells, w, h, blocked, (a + b)[i].0 as int, (a + b)[i].1 as int) by {
            if i >= a.len() {
                assert((a + b)[i] == b[i - a.len()]);
            }
        }
    }
}

proof fn lemma_open_row_has(cells: Seq<Tile>, w: int, h: int, blocked: Seq<(usize, usize)>, y: int, x: int, xx: int)
    requires
        0 <= xx < x,
        open_spot(cells, w, h, blocked, xx, y),
    ensures
        open_in_row(cells, w, h, blocked, y, x).contains((xx as usize, y as usize)),
    decreases x,
{
    let p = open_in_row(cells, w, h, blocked, y, x - 1);
    if xx == x - 1 {
        assert(open_in_row(cells, w, h, blocked, y, x)[p.len() as int] == (xx as usize, y as usize));
    } else {
        lemma_open_row_has(cells, w, h, blocked, y, x - 1, xx);
        let i = choose|i: int| 0 <= i < p.len() && p[i] == (xx as usize, y as usize);
        assert(open_in_row(cells, w, h, blocked, y, x)[i] == (xx as usize, y as usize));
    }
}

proof fn lemma_open_rows_has(cells: Seq<Tile>, w: int, h: int, blocked: Seq<(usize, usize)>, y: int, xx: int, yy: int)
    requires
        0 <= yy < y,
        open_spot(cells, w, h, blocked, xx, yy),
    ensures
        open_in_rows(cells, w, h, blocked, y).contains((xx as usize, yy as usize)),
    decreases y,
{
    let a = open_in_rows(cells, w, h, blocked, y - 1);
    let b = open_in_row(cells, w, h, blocked, y - 1, w);
    let target = (xx as usize, yy as usize);
    if yy == y - 1 {
        lemma_open_row_has(cells, w, h, blocked, y - 1, w, xx);
        let i = choose|i: int| 0 <= i < b.len() && b[i] == target;
        assert((a + b)[a.len() + i] == target);
    } else {
        lemma_open_rows_has(cells, w, h, blocked, y - 1, xx, yy);
        let i = choose|i: int| 0 <= i < a.len() && a[i] == target;
        assert((a + b)[i] == target);
    }
}

proof fn lemma_free_row_sound(cells: Seq<Tile>, w: int, r: Room, blocked: Seq<(usize, usize)>, y: int, x: int)
    requires
        r.y0 <= y <= r.y1,
        x <= r.x1 + 1,
    ensures
        forall|i: int| 0 <= i < free_in_row(cells, w, r, blocked, y, x).len() ==> {
            let p = #[trigger] free_in_row(cells, w, r, blocked, y, x)[i];
            in_room(r, p.0 as int, p.1 as int) && free_spot(cells, w, blocked, p.0 as int, p.1 as int)
        },
    decreases x - r.x0,
{
    if x > r.x0 {
        lemma_free_row_sound(cells, w, r, blocked, y, x - 1);
        let p = free_in_row(cells, w, r, blocked, y, x - 1);
        let q = ((x - 1) as usize, y as usize);
        if free_spot(cells, w, blocked, x - 1, y) {
            assert forall|i: int| 0 <= i < p.push(q).len() implies in_room(r, p.push(q)[i].0 as int, p.push(q)[i].1 as int)
                && free_spot(cells, w, blocked, p.push(q)[i].0 as int, p.push(q)[i].1 as int) by {
                if i < p.len() {
                    assert(p.push(q)[i] == p[i]);
                }
            }
        }
    }
}

proof fn lemma_free_rows_sound(cells: Seq<Tile>, w: int, r: Room, blocked: Seq<(usize, usize)>, y: int)
    requires
        y <= r.y1 + 1,
    ensures
        forall|i: int| 0 <= i < free_in_rows(cells, w, r, blocked, y).len() ==> {
            let p = #[trigger] free_in_rows(cells, w, r, blocked, y)[i];
            in_room(r, p.0 as int, p.1 as int) && free_spot(cells, w, blocked, p.0 as int, p.1 as int)
        },
    decreases y - r.y0,
{
    if y > r.y0 {
        lemma_free_rows_sound(cells, w, r, blocked, y - 1);
        lemma_free_row_sound(cells, w, r, blocked, y - 1, r.x1 + 1);
        let a = free_in_rows(cells, w, r, blocked, y - 1);
        let b = free_in_row(cells, w, r, blocked, y - 1, r.x1 + 1);
        assert forall|i: int| 0 <= i < (a + b).len() implies in_room(r, (a + b)[i].0 as int, (a + b)[i].1 as int)
            && free_spot(cells, w, blocked, (a + b)[i].0 as int, (a + b)[i].1 as int) by {
            if i >= a.len() {
                assert((a + b)[i] == b[i - a.len()]);
            }
        }
    }
}

/// Every entry of a room's free list is a free spot inside the room.
pub proof fn lemma_free_in_room_sound(cells: Seq<Tile>, w: int, r: Room, blocked: Seq<(usize, usize)>)
    ensures
        forall|i: int| 0 <= i < free_in_room(cells, w, r, blocked).len() ==> {
            let p = #[trigger] free_in_room(cells, w, r, blocked)[i];
            in_room(r, p.0 as int, p.1 as int) && free_spot(cells, w, blocked, p.0 as int, p.1 as int)
        },
{
    lemma_free_rows_sound(cells, w, r, blocked, r.y1 + 1);
}

proof fn lemma_free_row_has(cells: Seq<Tile>, w: int, r: Room, blocked: Seq<(usize, usize)>, y: int, x: int, xx: int)
    requires
        r.x0 <= xx < x,
        free_spot(cells, w, blocked, xx, y),
    ensures
        free_in_row(cells, w, r, blocked, y, x).contains((xx as usize, y as usize)),
    decreases x - r.x0,
{
    let p = free_in_row(cells, w, r, blocked, y, x - 1);
    if xx == x - 1 {
        assert(free_in_row(cells, w, r, blocked, y, x)[p.len() as int] == (xx as usize, y as usize));
    } else {
        lemma_free_row_has(cells, w, r, blocked, y, x - 1, xx);
        let i = choose|i: int| 0 <= i < p.len() && p[i] == (xx as usize, y as usize);
        assert(free_in_row(cells, w, r, blocked, y, x)[i] == (xx as usize, y as usize));
    }
}

proof fn lemma_free_rows_has(cells: Seq<Tile>, w: int, r: Room, blocked: Seq<(usize, usize)>, y: int, xx: int, yy: int)
    requires
        r.y0 <= yy < y,
        r.x0 <= xx <= r.x1,
        free_spot(cells, w, blocked, xx, yy),
    ensures
        free_in_rows(cells, w, r, blocked, y).contains((xx as usize, yy as usize)),
    decreases y - r.y0,
{
    let a = free_in_rows(cells, w, r, blocked, y - 1);
    let b = free_in_row(cells, w, r, blocked, y - 1, r.x1 + 1);
    let target = (xx as usize, yy as usize);
    if yy == y - 1 {
        lemma_free_row_has(cells, w, r, blocked, y - 1, r.x1 + 1, xx);
        let i = choose|i: int| 0 <= i < b.len() && b[i] == target;
        assert((a + b)[a.len() + i] == target);
    } else {
        lemma_free_rows_has(cells, w, r, blocked, y - 1, xx, yy);
        let i = choose|i: int| 0 <= i < a.len() && a[i] == target;
        assert((a + b)[i] == target);
    }
}

/// A room of a well-formed dungeon (at least four tiles wide, all floor)
/// keeps a free spot with up to three tiles blocked.
pub proof fn lemma_room_has_free(cells: Seq<Tile>, w: int, h: int, r: Room, blocked: Seq<(usize, usize)>)
    requires
        room_fits(r, w, h),
        forall|x: int, y: int| in_room(r, x, y) ==> #[trigger] cells[y * w + x] == Tile::Floor,
        blocked.len() <= 3,
    ensures
        free_in_room(cells, w, r, blocked).len() > 0,
{
    let y = r.y0 as int;
    let k = if !blocked.contains((r.x0, r.y0)) {
        0int
    } else if !blocked.contains(((r.x0 + 1) as usize, r.y0)) {
        1int
    } else if !blocked.contains(((r.x0 + 2) as usize, r.y0)) {
        2int
    } else {
        let i0 = choose|i: int| 0 <= i < blocked.len() && blocked[i] == (r.x0, r.y0);
        let i1 = choose|i: int| 0 <= i < blocked.len() && blocked[i] == ((r.x0 + 1) as usize, r.y0);
        let i2 = choose|i: int| 0 <= i < blocked.len() && blocked[i] == ((r.x0 + 2) as usize, r.y0);
        if blocked.contains(((r.x0 + 3) as usize, r.y0)) {
            let i3 = choose|i: int| 0 <= i < blocked.len() && blocked[i] == ((r.x0 + 3) as usize, r.y0);
            assert(i0 != i1 && i0 != i2 && i0 != i3 && i1 != i2 && i1 != i3 && i2 != i3);
            assert(false);
        }
        3int
    };
    let x = r.x0 + k;
    assert(in_room(r, x, y));
    assert(cells[y * w + x] == Tile::Floor);
    assert(free_spot(cells, w, blocked, x, y));
    lemma_free_rows_has(cells, w, r, blocked, r.y1 + 1, x, y);
}

// ---------------------------------------------------------------------
// Placement
// ---------------------------------------------------------------------

/// The first room of `rooms[i..]` other than `except`, or `except` itself
/// when there is none.
pub open spec fn first_other(rooms: Seq<Room>, except: Room, i: int) -> Room
    decreases rooms.len() - i,
{
    if i < 0 || i >= rooms.len() {
        except
    } else if rooms[i] != except {
        rooms[i]
    } else {
        first_other(rooms, except, i + 1)
    }
}

/// Draw rooms from state `s` until one differs from `except`, at most
/// `fuel` times; then fall back to [`first_other`]. Returns the room and
/// the state.
pub open spec fn other_room_from(rooms: Seq<Room>, except: Room, s: u64, fuel: nat) -> (Room, u64)
    decreases fuel,
{
    if fuel == 0 {
        (first_other(rooms, except, 0), s)
    } else {
        let r = rooms[below_value(s, rooms.len()) as int];
        if r != except {
            (r, next_state(s))
        } else {
            other_room_from(rooms, except, next_state(s), (fuel - 1) as nat)
        }
    }
}

/// What `other_room` picks from state `s`: the only room of a one-room
/// list (with no draw), otherwise a drawn room other than `except`.
pub open spec fn other_room_value(rooms: Seq<Room>, except: Room, s: u64) -> (Room, u64) {
    if rooms.len() == 1 {
        (rooms[0], s)
    } else {
        other_room_from(rooms, except, s, OTHER_ROOM_TRIES as nat)
    }
}

/// The stairs `place_stairs` puts on a level with tiles `cells` (`w` by
/// `h`) and grid slots `slots`, from state `s`, with the state after.
pub open spec fn stairs_value(
    cells: Seq<Tile>,
    w: int,
    h: int,
    slots: Seq<Option<Room>>,
    s: u64,
    avoid: (usize, usize),
) -> (Stairs, u64) {
    let rooms = present_rooms(slots);
    if rooms.len() == 0 {
        let down = pick(open_spots(cells, w, h, seq![avoid]), s);
        let s1 = next_state(s);
        let up = pick(open_spots(cells, w, h, seq![avoid, down]), s1);
        (Stairs { up, down }, next_state(s1))
    } else {
        let down_room = rooms[below_value(s, rooms.len()) as int];
        let s1 = next_state(s);
        let down = pick(free_in_room(cells, w, down_room, seq![avoid]), s1);
        let s2 = next_state(s1);
        let (up_room, s3) = other_room_value(rooms, down_room, s2);
        let up = pick(free_in_room(cells, w, up_room, seq![avoid, down]), s3);
        (Stairs { up, down }, next_state(s3))
    }
}

/// The Amulet `place_amulet` puts on a level from state `s`, with the
/// state after.
pub open spec fn amulet_value(
    cells: Seq<Tile>,
    w: int,
    slots: Seq<Option<Room>>,
    s: u64,
    stairs: Stairs,
    avoid: (usize, usize),
) -> (Amulet, u64) {
    let rooms = present_rooms(slots);
    let room = rooms[below_value(s, rooms.len()) as int];
    let p = pick(free_in_room(cells, w, room, seq![avoid, stairs.up, stairs.down]), next_state(s));
    (Amulet { x: p.0, y: p.1 }, next_state(next_state(s)))
}

/// `(x, y)` is a floor tile inside one of the level's rooms.
pub open spec fn on_room_floor(d: Board, x: int, y: int) -> bool {
    &&& d.in_bounds(x, y)
    &&& d.tile_at(x, y) == Tile::Floor
    &&& exists|i: int| 0 <= i < present_rooms(d.slots()).len() && in_room(#[trigger] present_rooms(d.slots())[i], x, y)
}

/// A free spot of a room of a well-formed dungeon is a floor tile inside
/// one of its rooms.
proof fn lemma_room_spot(d: Board, i: int, x: int, y: int)
    requires
        d.wf(),
        0 <= i < present_rooms(d.slots()).len(),
        in_room(present_rooms(d.slots())[i], x, y),
    ensures
        on_room_floor(d, x, y),
{
    lemma_rooms_fit(d);
    assert(room_fits(present_rooms(d.slots())[i], d.width as int, d.height as int));
}

/// A uniformly random walkable tile not in `avoid`, for roomless maps.
fn pick_walkable(dungeon: &Dungeon, rng: &mut Rng, avoid: &Vec<(usize, usize)>) -> (p: (usize, usize))
    requires
        dungeon.cells().len() == dungeon.width * dungeon.height,
        open_spots(dungeon.cells(), dungeon.width as int, dungeon.height as int, avoid@).len() > 0,
    ensures
        p == pick(open_spots(dungeon.cells(), dungeon.width as int, dungeon.height as int, avoid@), old(rng)@),
        final(rng)@ == next_state(old(rng)@),
{
    let ghost cells = dungeon.cells();
    let ghost w = dungeon.width as int;
    let ghost h = dungeon.height as int;
    let mut tiles: Vec<(usize, usize)> = Vec::new();
    let mut y: usize = 0;
    while y < dungeon.height
        invariant
            dungeon.cells().len() == dungeon.width * dungeon.height,
            cells == dungeon.cells(),
            w == dungeon.width,
            h == dungeon.height,
            y <= dungeon.height,
            tiles@ == open_in_rows(cells, w, h, avoid@, y as int),
        decreases dungeon.height - y,
    {
        let ghost before = tiles@;
        let mut x: usize = 0;
        while x < dungeon.width
            invariant
                dungeon.cells().len() == dungeon.width * dungeon.height,
                cells == dungeon.cells(),
                w == dungeon.width,
                h == dungeon.height,
                y < dungeon.height,
                x <= dungeon.width,
                tiles@ == before + open_in_row(cells, w, h, avoid@, y as int, x as int),
            decreases dungeon.width - x,
        {
            proof {
                lemma_index_in(w, h, x as int, y as int);
            }
            if dungeon.tile(x, y).is_walkable() && !contains_spot(avoid, x, y) {
                tiles.push((x, y));
            }
            x = x + 1;
            assert(tiles@ =~= before + open_in_row(cells, w, h, avoid@, y as int, x as int));
        }
        y = y + 1;
    }
    let i = rng.below(tiles.len());
    tiles[i]
}

/// A uniformly random floor tile of `room` not in `avoid`.
fn floor_in_room(dungeon: &Dungeon, room: Room, rng: &mut Rng, avoid: &Vec<(usize, usize)>) -> (p: (usize, usize))
    requires
        dungeon.cells().len() == dungeon.width * dungeon.height,
        room_fits(room, dungeon.width as int, dungeon.height as int),
        free_in_room(dungeon.cells(), dungeon.width as int, room, avoid@).len() > 0,
    ensures
        p == pick(free_in_room(dungeon.cells(), dungeon.width as int, room, avoid@), old(rng)@),
        final(rng)@ == next_state(old(rng)@),
{
    let free = free_spots(dungeon, &room, avoid);
    let i = rng.below(free.len());
    free[i]
}

/// The first room of `rooms` other than `except`, or `except` when every
/// room equals it.
fn first_other_room(rooms: &Vec<Room>, except: Room) -> (r: Room)
    ensures
        r == first_other(rooms@, except, 0),
{
    let mut i: usize = 0;
    while i < rooms.len()
        invariant
            i <= rooms@.len(),
            first_other(rooms@, except, i as int) == first_other(rooms@, except, 0),
        decreases rooms@.len() - i,
    {
        if rooms[i] != except {
            return rooms[i];
        }
        i = i + 1;
    }
    except
}

/// A room other than `except`, drawn at random, for maps with two or more
/// rooms; a one-room list gives its only room. The draw repeats while it
/// lands on `except`, at most [`OTHER_ROOM_TRIES`] times, after which the
/// first other room in list order is taken.
fn other_room(rooms: &Vec<Room>, rng: &mut Rng, except: Room) -> (r: Room)
    requires
        rooms@.len() > 0,
    ensures
        (r, final(rng)@) == other_room_value(rooms@, except, old(rng)@),
{
    if rooms.len() == 1 {
        return rooms[0];
    }
    let ghost target = other_room_from(rooms@, except, old(rng)@, OTHER_ROOM_TRIES as nat);
    let mut tries: u64 = OTHER_ROOM_TRIES;
    while tries > 0
        invariant
            rooms@.len() > 1,
            target == other_room_value(rooms@, except, old(rng)@),
            other_room_from(rooms@, except, rng@, tries as nat) == target,
        decreases tries,
    {
        let ghost s0 = rng@;
        let k = rng.below(rooms.len());
        let room = rooms[k];
        assert(other_room_from(rooms@, except, s0, tries as nat) == if room != except {
            (room, next_state(s0))
        } else {
            other_room_from(rooms@, except, next_state(s0), (tries - 1) as nat)
        });
        if room != except {
            return room;
        }
        tries = tries - 1;
    }
    first_other_room(rooms, except)
}

/// Place both staircases of a floor: each on a floor tile inside a room,
/// never on the tile `avoid` (the player's spawn) and never on each other.
/// The up stair goes to a different room when there is one. Roomless maps
/// fall back to any walkable tile.
pub fn place_stairs(dungeon: &Dungeon, rng: &mut Rng, avoid: (usize, usize)) -> (st: Stairs)
    requires
        dungeon.wf(),
        present_rooms(dungeon.slots()).len() == 0 ==> two_open_spots(dungeon@, avoid),
    ensures
        (st, final(rng)@) == stairs_value(
            dungeon.cells(),
            dungeon.width as int,
            dungeon.height as int,
            dungeon.slots(),
            old(rng)@,
            avoid,
        ),
        st.up != st.down,
        st.up != avoid,
        st.down != avoid,
        dungeon.in_bounds(st.up.0 as int, st.up.1 as int),
        dungeon.in_bounds(st.down.0 as int, st.down.1 as int),
        walkable(dungeon.tile_at(st.up.0 as int, st.up.1 as int)),
        walkable(dungeon.tile_at(st.down.0 as int, st.down.1 as int)),
        present_rooms(dungeon.slots()).len() > 0 ==> on_room_floor(dungeon@, st.up.0 as int, st.up.1 as int)
            && on_room_floor(dungeon@, st.down.0 as int, st.down.1 as int),
{
    let ghost cells = dungeon.cells();
    let ghost w = dungeon.width as int;
    let ghost h = dungeon.height as int;
    let rooms = dungeon.rooms();
    if rooms.len() == 0 {
        let mut avoid1: Vec<(usize, usize)> = Vec::new();
        avoid1.push(avoid);
        proof {
            assert(avoid1@ =~= seq![avoid]);
            let (x1, y1, x2, y2) = choose|x1: int, y1: int, x2: int, y2: int|
                (x1 != x2 || y1 != y2)
                && #[trigger] open_spot(cells, w, h, seq![avoid], x1, y1)
                && #[trigger] open_spot(cells, w, h, seq![avoid], x2, y2);
            lemma_open_rows_has(cells, w, h, seq![avoid], h, x1, y1);
        }
        let down = pick_walkable(dungeon, rng, &avoid1);
        let mut avoid2: Vec<(usize, usize)> = Vec::new();
        avoid2.push(avoid);
        avoid2.push(down);
        proof {
            assert(avoid2@ =~= seq![avoid, down]);
            lemma_open_rows_sound(cells, w, h, seq![avoid], h);
            let (x1, y1, x2, y2) = choose|x1: int, y1: int, x2: int, y2: int|
                (x1 != x2 || y1 != y2)
                && #[trigger] open_spot(cells, w, h, seq![avoid], x1, y1)
                && #[trigger] open_spot(cells, w, h, seq![avoid], x2, y2);
            let (xx, yy) = if (x1 as usize, y1 as usize) != down { (x1, y1) } else { (x2, y2) };
            assert(!seq![avoid, down].contains((xx as usize, yy as usize)));
            assert(open_spot(cells, w, h, seq![avoid, down], xx, yy));
            lemma_open_rows_has(cells, w, h, seq![avoid, down], h, xx, yy);
        }
        let up = pick_walkable(dungeon, rng, &avoid2);
        proof {
            lemma_open_rows_sound(cells, w, h, seq![avoid, down], h);
            let a = open_spots(cells, w, h, seq![avoid]);
            let b = open_spots(cells, w, h, seq![avoid, down]);
            assert(open_spot(cells, w, h, seq![avoid], down.0 as int, down.1 as int)) by {
                assert(a[below_value(old(rng)@, a.len()) as int] == down);
            }
            assert(open_spot(cells, w, h, seq![avoid, down], up.0 as int, up.1 as int)) by {
                assert(b[below_value(next_state(old(rng)@), b.len()) as int] == up);
            }
            assert(seq![avoid].contains(avoid) && seq![avoid, down].contains(avoid)
                && seq![avoid, down].contains(down)) by {
                assert(seq![avoid][0] == avoid);
                assert(seq![avoid, down][0] == avoid);
                assert(seq![avoid, down][1] == down);
            }
        }
        return Stairs { up, down };
    }
    proof {
        lemma_rooms_fit(dungeon@);
    }
    let di = rng.below(rooms.len());
    let down_room = rooms[di];
    let mut avoid1: Vec<(usize, usize)> = Vec::new();
    avoid1.push(avoid);
    proof {
        assert(avoid1@ =~= seq![avoid]);
        assert(room_fits(down_room, w, h));
        assert forall|x: int, y: int| in_room(down_room, x, y) implies #[trigger] cells[y * w + x] == Tile::Floor by {
            assert(dungeon.tile_at(x, y) == Tile::Floor);
        }
        lemma_room_has_free(cells, w, h, down_room, seq![avoid]);
    }
    let down = floor_in_room(dungeon, down_room, rng, &avoid1);
    proof {
        lemma_free_in_room_sound(cells, w, down_room, seq![avoid]);
        let f = free_in_room(cells, w, down_room, seq![avoid]);
        assert(f[below_value(next_state(old(rng)@), f.len()) as int] == down);
        lemma_room_spot(dungeon@, di as int, down.0 as int, down.1 as int);
        assert(seq![avoid][0] == avoid);
    }
    let up_room = other_room(&rooms, rng, down_room);
    let mut avoid2: Vec<(usize, usize)> = Vec::new();
    avoid2.push(avoid);
    avoid2.push(down);
    proof {
        assert(avoid2@ =~= seq![avoid, down]);
        let s2 = next_state(next_state(old(rng)@));
        let ui: int = if rooms@.len() == 1 {
            0
        } else {
            lemma_other_room_member(rooms@, down_room, s2, OTHER_ROOM_TRIES as nat);
            choose|i: int| 0 <= i < rooms@.len() && rooms@[i] == up_room
        };
        assert(rooms@[ui] == up_room);
        assert(room_fits(up_room, w, h));
        assert forall|x: int, y: int| in_room(up_room, x, y) implies #[trigger] cells[y * w + x] == Tile::Floor by {
            assert(dungeon.tile_at(x, y) == Tile::Floor);
        }
        lemma_room_has_free(cells, w, h, up_room, seq![avoid, down]);
    }
    let up = floor_in_room(dungeon, up_room, rng, &avoid2);
    proof {
        let s2 = next_state(next_state(old(rng)@));
        let ui: int = if rooms@.len() == 1 {
            0
        } else {
            lemma_other_room_member(rooms@, down_room, s2, OTHER_ROOM_TRIES as nat);
            choose|i: int| 0 <= i < rooms@.len() && rooms@[i] == up_room
        };
        lemma_free_in_room_sound(cells, w, up_room, seq![avoid, down]);
        let f = free_in_room(cells, w, up_room, seq![avoid, down]);
        assert(f[below_value(other_room_value(rooms@, down_room, s2).1, f.len()) as int] == up);
        lemma_room_spot(dungeon@, ui, up.0 as int, up.1 as int);
        assert(seq![avoid, down][0] == avoid);
        assert(seq![avoid, down][1] == down);
    }
    Stairs { up, down }
}

/// The room `other_room_from` settles on is one of the list (given that
/// `except` is too).
proof fn lemma_other_room_member(rooms: Seq<Room>, except: Room, s: u64, fuel: nat)
    requires
        rooms.len() > 0,
        rooms.contains(except),
    ensures
        rooms.contains(other_room_from(rooms, except, s, fuel).0),
    decreases fuel,
{
    if fuel == 0 {
        lemma_first_other_member(rooms, except, 0);
    } else {
        let r = rooms[below_value(s, rooms.len()) as int];
        if r == except {
            lemma_other_room_member(rooms, except, next_state(s), (fuel - 1) as nat);
        }
    }
}

proof fn lemma_first_other_member(rooms: Seq<Room>, except: Room, i: int)
    requires
        0 <= i,
        rooms.contains(except),
    ensures
        rooms.contains(first_other(rooms, except, i)),
    decreases rooms.len() - i,
{
    if i < rooms.len() {
        if rooms[i] == except {
            lemma_first_other_member(rooms, except, i + 1);
        }
    }
}

/// Place the Amulet on the floor: a floor tile in a room, distinct from both
/// staircases and the tile `avoid` (the player's spawn).
pub fn place_amulet(dungeon: &Dungeon, rng: &mut Rng, stairs: Stairs, avoid: (usize, usize)) -> (a: Amulet)
    requires
        dungeon.wf(),
        present_rooms(dungeon.slots()).len() > 0,
    ensures
        (a, final(rng)@) == amulet_value(dungeon.cells(), dungeon.width as int, dungeon.slots(), old(rng)@, stairs, avoid),
        on_room_floor(dungeon@, a.x as int, a.y as int),
        (a.x, a.y) != avoid,
        (a.x, a.y) != stairs.up,
        (a.x, a.y) != stairs.down,
{
    let ghost cells = dungeon.cells();
    let ghost w = dungeon.width as int;
    let ghost h = dungeon.height as int;
    let rooms = dungeon.rooms();
    proof {
        lemma_rooms_fit(dungeon@);
    }
    let ri = rng.below(rooms.len());
    let room = rooms[ri];
    let mut blocked: Vec<(usize, usize)> = Vec::new();
    blocked.push(avoid);
    blocked.push(stairs.up);
    blocked.push(stairs.down);
    let ghost b = seq![avoid, stairs.up, stairs.down];
    proof {
        assert(blocked@ =~= b);
        assert(room_fits(room, w, h));
        assert forall|x: int, y: int| in_room(room, x, y) implies #[trigger] cells[y * w + x] == Tile::Floor by {
            assert(dungeon.tile_at(x, y) == Tile::Floor);
        }
        lemma_room_has_free(cells, w, h, room, b);
    }
    let free = free_spots(dungeon, &room, &blocked);
    let i = rng.below(free.len());
    let (x, y) = free[i];
    proof {
        lemma_free_in_room_sound(cells, w, room, b);
        assert(free@[i as int] == (x, y));
        lemma_room_spot(dungeon@, ri as int, x as int, y as int);
        assert(b[0] == avoid && b[1] == stairs.up && b[2] == stairs.down);
    }
    Amulet { x, y }
}

} // verus!
