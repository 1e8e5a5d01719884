//! Field of view, classic-Rogue style.
//!
//! The player sees the room they stand in (its floor, its wall ring, and
//! its doors) and, out in a corridor, a short line-of-sight reach with walls
//! and closed doors blocking. The game keeps the per-floor exploration
//! memory; this module computes the tiles lit right now from the map and the
//! player's position.

use vstd::prelude::*;
use crate::combat::{SIGHT_RANGE, gap};
use crate::map::{Board, Dungeon, Room, Tile, in_room, in_room_box};
use crate::generate::{lemma_index_in, lemma_index_injective};

verus! {

/// The largest map side the view arithmetic (done in `i32`) handles.
pub const VIEW_LIMIT: usize = 0x3FFF_FFFF;

/// Entry `(x, y)` of a row-major grid of width `w`.
pub open spec fn cell(v: Seq<bool>, w: int, x: int, y: int) -> bool {
    v[y * w + x]
}

/// `(x, y)` is a floor tile on the map.
pub open spec fn floor_at(d: Board, x: int, y: int) -> bool {
    d.in_bounds(x, y) && d.tile_at(x, y) == Tile::Floor
}

/// Two positions one orthogonal step apart.
pub open spec fn is_step(a: (int, int), b: (int, int)) -> bool {
    gap(a.0, b.0) + gap(a.1, b.1) == 1
}

/// A walk over floor tiles, one orthogonal step at a time.
pub open spec fn floor_walk(d: Board, p: Seq<(int, int)>) -> bool {
    &&& p.len() > 0
    &&& forall|i: int| 0 <= i < p.len() ==> floor_at(d, (#[trigger] p[i]).0, p[i].1)
    &&& forall|i: int| 0 <= i < p.len() - 1 ==> is_step(#[trigger] p[i], p[i + 1])
}

/// `b` is reachable from `a` over floor tiles: both lie in one room.
pub open spec fn same_room(d: Board, a: (int, int), b: (int, int)) -> bool {
    exists|p: Seq<(int, int)>| #[trigger] floor_walk(d, p) && p[0] == a && p.last() == b
}

/// Where the room flood starts from `(px, py)`: the tile itself when it is
/// floor; from a door, the first floor neighbor west, east, north, south;
/// nothing anywhere else.
pub open spec fn room_start(d: Board, px: int, py: int) -> Option<(int, int)> {
    if d.tile_at(px, py) == Tile::Floor {
        Some((px, py))
    } else if d.tile_at(px, py) == Tile::Door {
        if floor_at(d, px - 1, py) {
            Some((px - 1, py))
        } else if floor_at(d, px + 1, py) {
            Some((px + 1, py))
        } else if floor_at(d, px, py - 1) {
            Some((px, py - 1))
        } else if floor_at(d, px, py + 1) {
            Some((px, py + 1))
        } else {
            None
        }
    } else {
        None
    }
}

/// `b` is the bounding box `(x0, y0, x1, y1)` of the room around `s`: it
/// holds every tile of the room, and each side touches one.
pub open spec fn is_room_box(d: Board, s: (int, int), b: (int, int, int, int)) -> bool {
    &&& forall|x: int, y: int| #[trigger] same_room(d, s, (x, y)) ==> b.0 <= x <= b.2 && b.1 <= y <= b.3
    &&& exists|y: int| #[trigger] same_room(d, s, (b.0, y))
    &&& exists|x: int| #[trigger] same_room(d, s, (x, b.1))
    &&& exists|y: int| #[trigger] same_room(d, s, (b.2, y))
    &&& exists|x: int| #[trigger] same_room(d, s, (x, b.3))
}

/// The bounding box of the room the player at `(px, py)` stands in (or in
/// whose doorway), if any.
pub open spec fn room_box(d: Board, px: int, py: int) -> Option<(int, int, int, int)> {
    match room_start(d, px, py) {
        Some(s) => Some(choose|b: (int, int, int, int)| is_room_box(d, s, b)),
        None => None,
    }
}

/// A room's bounding box is unique.
proof fn lemma_room_box_unique(d: Board, s: (int, int), a: (int, int, int, int), b: (int, int, int, int))
    requires
        is_room_box(d, s, a),
        is_room_box(d, s, b),
    ensures
        a == b,
{
    let ya = choose|y: int| #[trigger] same_room(d, s, (a.0, y));
    let yb = choose|y: int| #[trigger] same_room(d, s, (b.0, y));
    let xa = choose|x: int| #[trigger] same_room(d, s, (x, a.1));
    let xb = choose|x: int| #[trigger] same_room(d, s, (x, b.1));
    let ya2 = choose|y: int| #[trigger] same_room(d, s, (a.2, y));
    let yb2 = choose|y: int| #[trigger] same_room(d, s, (b.2, y));
    let xa3 = choose|x: int| #[trigger] same_room(d, s, (x, a.3));
    let xb3 = choose|x: int| #[trigger] same_room(d, s, (x, b.3));
    assert(same_room(d, s, (a.0, ya)));
    assert(same_room(d, s, (b.0, yb)));
    assert(same_room(d, s, (xa, a.1)));
    assert(same_room(d, s, (xb, b.1)));
    assert(same_room(d, s, (a.2, ya2)));
    assert(same_room(d, s, (b.2, yb2)));
    assert(same_room(d, s, (xa3, a.3)));
    assert(same_room(d, s, (xb3, b.3)));
}

/// All four floor neighbors of `(x, y)` are marked in `r`.
pub open spec fn closed(d: Board, r: Seq<bool>, x: int, y: int) -> bool {
    let w = d.width as int;
    &&& floor_at(d, x - 1, y) ==> cell(r, w, x - 1, y)
    &&& floor_at(d, x + 1, y) ==> cell(r, w, x + 1, y)
    &&& floor_at(d, x, y - 1) ==> cell(r, w, x, y - 1)
    &&& floor_at(d, x, y + 1) ==> cell(r, w, x, y + 1)
}

/// The number of unmarked entries.
pub open spec fn falses(s: Seq<bool>) -> nat
    decreases s.len(),
{
    if s.len() == 0 {
        0
    } else {
        falses(s.drop_last()) + if s.last() {
            0nat
        } else {
            1nat
        }
    }
}

proof fn lemma_falses_mark(s: Seq<bool>, i: int)
    requires
        0 <= i < s.len(),
        !s[i],
    ensures
        falses(s.update(i, true)) + 1 == falses(s),
    decreases s.len(),
{
    let t = s.update(i, true);
    if i == s.len() - 1 {
        assert(t.drop_last() =~= s.drop_last());
    } else {
        assert(t.drop_last() =~= s.drop_last().update(i, true));
        lemma_falses_mark(s.drop_last(), i);
    }
}

/// Marking `(nx, ny)` marks exactly that cell.
proof fn lemma_mark_cell(r: Seq<bool>, w: int, h: int, nx: int, ny: int)
    requires
        0 <= nx < w,
        0 <= ny < h,
        r.len() == w * h,
    ensures
        forall|x: int, y: int|
            0 <= x < w && 0 <= y < h ==> #[trigger] cell(r.update(ny * w + nx, true), w, x, y) == (cell(r, w, x, y) || (x == nx
                && y == ny)),
{
    lemma_index_in(w, h, nx, ny);
    assert forall|x: int, y: int| 0 <= x < w && 0 <= y < h implies #[trigger] cell(r.update(ny * w + nx, true), w, x, y) == (cell(
        r,
        w,
        x,
        y,
    ) || (x == nx && y == ny)) by {
        lemma_index_in(w, h, x, y);
        if y * w + x == ny * w + nx {
            lemma_index_injective(w, x, y, nx, ny);
        }
    }
}

/// A walk from a marked start stays marked when every marked cell is closed.
proof fn lemma_walk_marked(d: Board, r: Seq<bool>, p: Seq<(int, int)>, k: int)
    requires
        floor_walk(d, p),
        0 <= k < p.len(),
        cell(r, d.width as int, p[0].0, p[0].1),
        forall|x: int, y: int| d.in_bounds(x, y) && #[trigger] cell(r, d.width as int, x, y) ==> closed(d, r, x, y),
    ensures
        cell(r, d.width as int, p[k].0, p[k].1),
    decreases k,
{
    if k > 0 {
        lemma_walk_marked(d, r, p, k - 1);
        assert(is_step(p[k - 1], p[k]));
        assert(floor_at(d, p[k].0, p[k].1));
        assert(floor_at(d, p[k - 1].0, p[k - 1].1));
        assert(closed(d, r, p[k - 1].0, p[k - 1].1));
    }
}

/// Extending a walk by one step onto a floor tile.
proof fn lemma_walk_extend(d: Board, s: (int, int), c: (int, int), n: (int, int))
    requires
        same_room(d, s, c),
        is_step(c, n),
        floor_at(d, n.0, n.1),
    ensures
        same_room(d, s, n),
{
    let p = choose|p: Seq<(int, int)>| #[trigger] floor_walk(d, p) && p[0] == s && p.last() == c;
    let q = p.push(n);
    assert forall|i: int| 0 <= i < q.len() implies floor_at(d, (#[trigger] q[i]).0, q[i].1) by {
        if i < p.len() {
            assert(q[i] == p[i]);
        }
    }
    assert forall|i: int| 0 <= i < q.len() - 1 implies is_step(#[trigger] q[i], q[i + 1]) by {
        if i < p.len() - 1 {
            assert(q[i] == p[i]);
            assert(q[i + 1] == p[i + 1]);
        } else {
            assert(q[i] == c);
            assert(q[i + 1] == n);
        }
    }
    assert(floor_walk(d, q) && q[0] == s && q.last() == n);
}

/// The flood state: `r` marks part of the room around `s`, the pending
/// stack holds distinct marked cells, and every marked cell off the stack,
/// other than `c`, is closed.
pub open spec fn flood_inv(d: Board, s: (int, int), r: Seq<bool>, stack: Seq<(usize, usize)>, c: (int, int)) -> bool {
    let w = d.width as int;
    let h = d.height as int;
    &&& r.len() == w * h
    &&& d.in_bounds(s.0, s.1)
    &&& cell(r, w, s.0, s.1)
    &&& forall|x: int, y: int| d.in_bounds(x, y) && #[trigger] cell(r, w, x, y) ==> same_room(d, s, (x, y))
    &&& forall|i: int| 0 <= i < stack.len() ==> d.in_bounds((#[trigger] stack[i]).0 as int, stack[i].1 as int) && cell(
        r,
        w,
        stack[i].0 as int,
        stack[i].1 as int,
    )
    &&& forall|i: int, j: int| 0 <= i < j < stack.len() ==> #[trigger] stack[i] != #[trigger] stack[j]
    &&& forall|x: int, y: int|
        d.in_bounds(x, y) && #[trigger] cell(r, w, x, y) && !stack.contains((x as usize, y as usize)) && (x != c.0 || y
            != c.1) ==> closed(d, r, x, y)
}

/// No cell is exempt from closure.
pub open spec fn nowhere() -> (int, int) {
    (-1, -1)
}

/// Flood one neighbor: mark and push it when it is an unmarked floor tile.
fn visit(
    map: &Dungeon,
    region: &mut Vec<bool>,
    stack: &mut Vec<(usize, usize)>,
    nx: usize,
    ny: usize,
    Ghost(s): Ghost<(int, int)>,
    Ghost(from): Ghost<(int, int)>,
)
    requires
        map.cells().len() == map.width * map.height,
        flood_inv(map@, s, old(region)@, old(stack)@, from),
        map.in_bounds(from.0, from.1),
        cell(old(region)@, map.width as int, from.0, from.1),
        is_step(from, (nx as int, ny as int)),
    ensures
        flood_inv(map@, s, final(region)@, final(stack)@, from),
        forall|x: int, y: int|
            map.in_bounds(x, y) && #[trigger] cell(old(region)@, map.width as int, x, y) ==> cell(
                final(region)@,
                map.width as int,
                x,
                y,
            ),
        floor_at(map@, nx as int, ny as int) ==> cell(final(region)@, map.width as int, nx as int, ny as int),
        falses(final(region)@) + final(stack)@.len() == falses(old(region)@) + old(stack)@.len(),
{
    let w = map.width;
    let h = map.height;
    if nx < w && ny < h {
        proof {
            lemma_index_in(w as int, h as int, nx as int, ny as int);
            assert(map.tiles@.len() == map.tiles.len());
        }
        let idx = ny * w + nx;
        if !region[idx] && map.tile(nx, ny) == Tile::Floor {
            let ghost r0 = region@;
            let ghost st0 = stack@;
            proof {
                lemma_mark_cell(region@, w as int, h as int, nx as int, ny as int);
                lemma_falses_mark(region@, idx as int);
                lemma_walk_extend(map@, s, from, (nx as int, ny as int));
            }
            region.set(idx, true);
            stack.push((nx, ny));
            proof {
                let r1 = region@;
                let st1 = stack@;
                assert(st1 == st0.push((nx, ny)));
                assert forall|i: int| 0 <= i < st1.len() implies map.in_bounds((#[trigger] st1[i]).0 as int, st1[i].1 as int)
                    && cell(r1, w as int, st1[i].0 as int, st1[i].1 as int) by {
                    if i < st0.len() {
                        assert(st1[i] == st0[i]);
                    }
                }
                assert forall|i: int, j: int| 0 <= i < j < st1.len() implies #[trigger] st1[i] != #[trigger] st1[j] by {
                    if j == st0.len() {
                        assert(st1[i] == st0[i]);
                        assert(cell(r0, w as int, st0[i].0 as int, st0[i].1 as int));
                    } else {
                        assert(st1[i] == st0[i]);
                        assert(st1[j] == st0[j]);
                    }
                }
                assert forall|x: int, y: int|
                    map.in_bounds(x, y) && #[trigger] cell(r1, w as int, x, y) && !st1.contains((x as usize, y as usize))
                        && (x != from.0 || y != from.1) implies closed(map@, r1, x, y) by {
                    if x == nx && y == ny {
                        assert(st1[st0.len() as int] == (nx, ny));
                    } else {
                        assert(cell(r0, w as int, x, y));
                        if st0.contains((x as usize, y as usize)) {
                            let i = choose|i: int| 0 <= i < st0.len() && st0[i] == (x as usize, y as usize);
                            assert(st1[i] == (x as usize, y as usize));
                        }
                        assert(closed(map@, r0, x, y));
                        if floor_at(map@, x - 1, y) {
                            assert(cell(r0, w as int, x - 1, y));
                        }
                        if floor_at(map@, x + 1, y) {
                            assert(cell(r0, w as int, x + 1, y));
                        }
                        if floor_at(map@, x, y - 1) {
                            assert(cell(r0, w as int, x, y - 1));
                        }
                        if floor_at(map@, x, y + 1) {
                            assert(cell(r0, w as int, x, y + 1));
                        }
                    }
                }
            }
        }
    }
}

/// A floor tile is in its own room.
proof fn lemma_same_room_self(d: Board, s: (int, int))
    requires
        floor_at(d, s.0, s.1),
    ensures
        same_room(d, s, s),
{
    let p = seq![s];
    assert(p[0] == s);
    assert(floor_walk(d, p));
}

/// A row-major grid of `n` unmarked cells.
fn unmarked(n: usize) -> (v: Vec<bool>)
    ensures
        v@ == Seq::new(n as nat, |i: int| false),
{
    let mut v: Vec<bool> = Vec::new();
    let mut i: usize = 0;
    while i < n
        invariant
            i <= n,
            v@ == Seq::new(i as nat, |k: int| false),
        decreases n - i,
    {
        v.push(false);
        i = i + 1;
        assert(v@ =~= Seq::new(i as nat, |k: int| false));
    }
    v
}

/// Flood the room from `s`: mark every floor tile reachable from it.
fn flood(map: &Dungeon, sx: usize, sy: usize) -> (region: Vec<bool>)
    requires
        map.cells().len() == map.width * map.height,
        floor_at(map@, sx as int, sy as int),
    ensures
        region@.len() == map.width * map.height,
        forall|x: int, y: int|
            map.in_bounds(x, y) ==> (#[trigger] cell(region@, map.width as int, x, y) <==> same_room(
                map@,
                (sx as int, sy as int),
                (x, y),
            )),
{
    let w = map.width;
    let h = map.height;
    let ghost s = (sx as int, sy as int);
    proof {
        lemma_index_in(w as int, h as int, sx as int, sy as int);
        assert(map.tiles@.len() == map.tiles.len());
        lemma_same_room_self(map@, s);
    }
    let mut region = unmarked(w * h);
    let ghost r0 = region@;
    proof {
        lemma_mark_cell(region@, w as int, h as int, sx as int, sy as int);
    }
    region.set(sy * w + sx, true);
    proof {
        assert(region@ == r0.update(sy * w + sx, true));
        assert forall|x: int, y: int| map.in_bounds(x, y) implies !#[trigger] cell(r0, w as int, x, y) by {
            lemma_index_in(w as int, h as int, x, y);
        }
    }
    let mut stack: Vec<(usize, usize)> = Vec::new();
    stack.push((sx, sy));
    proof {
        assert forall|x: int, y: int| map.in_bounds(x, y) && #[trigger] cell(region@, w as int, x, y) implies same_room(
            map@,
            s,
            (x, y),
        ) by {
            assert(x == sx && y == sy);
        }
        assert forall|x: int, y: int|
            map.in_bounds(x, y) && #[trigger] cell(region@, w as int, x, y) && !stack@.contains((x as usize, y as usize)) && (x
                != nowhere().0 || y != nowhere().1) implies closed(map@, region@, x, y) by {
            assert(x == sx && y == sy);
            assert(stack@[0] == (sx, sy));
        }
    }
    while stack.len() > 0
        invariant
            map.cells().len() == map.width * map.height,
            w == map.width,
            h == map.height,
            s == (sx as int, sy as int),
            flood_inv(map@, s, region@, stack@, nowhere()),
        decreases falses(region@) + stack@.len(),
    {
        let ghost st_before = stack@;
        let top = stack.pop();
        match top {
            Some((x, y)) => {
                let ghost c = (x as int, y as int);
                proof {
                    assert(st_before[st_before.len() - 1] == (x, y));
                    assert(stack@ == st_before.drop_last());
                    assert(map.in_bounds(c.0, c.1) && cell(region@, w as int, c.0, c.1));
                    assert forall|i: int| 0 <= i < stack@.len() implies map.in_bounds((#[trigger] stack@[i]).0 as int, stack@[i].1 as int)
                        && cell(region@, w as int, stack@[i].0 as int, stack@[i].1 as int) by {
                        assert(stack@[i] == st_before[i]);
                    }
                    assert forall|i: int, j: int| 0 <= i < j < stack@.len() implies #[trigger] stack@[i] != #[trigger] stack@[j] by {
                        assert(stack@[i] == st_before[i]);
                        assert(stack@[j] == st_before[j]);
                    }
                    assert forall|xx: int, yy: int|
                        map.in_bounds(xx, yy) && #[trigger] cell(region@, w as int, xx, yy) && !stack@.contains((xx as usize, yy as usize))
                            && (xx != c.0 || yy != c.1) implies closed(map@, region@, xx, yy) by {
                        if st_before.contains((xx as usize, yy as usize)) {
                            let i = choose|i: int| 0 <= i < st_before.len() && st_before[i] == (xx as usize, yy as usize);
                            if i < st_before.len() - 1 {
                                assert(stack@[i] == st_before[i]);
                            }
                        }
                    }
                    assert(flood_inv(map@, s, region@, stack@, c));
                }
                let ghost r_popped = region@;
                if x > 0 {
                    visit(map, &mut region, &mut stack, x - 1, y, Ghost(s), Ghost(c));
                }
                visit(map, &mut region, &mut stack, x + 1, y, Ghost(s), Ghost(c));
                if y > 0 {
                    visit(map, &mut region, &mut stack, x, y - 1, Ghost(s), Ghost(c));
                }
                visit(map, &mut region, &mut stack, x, y + 1, Ghost(s), Ghost(c));
                proof {
                    assert(closed(map@, region@, c.0, c.1));
                    assert forall|xx: int, yy: int|
                        map.in_bounds(xx, yy) && #[trigger] cell(region@, w as int, xx, yy) && !stack@.contains((xx as usize, yy as usize))
                            && (xx != nowhere().0 || yy != nowhere().1) implies closed(map@, region@, xx, yy) by {
                        if xx != c.0 || yy != c.1 {
                        }
                    }
                }
            },
            None => {},
        }
    }
    proof {
        assert forall|x: int, y: int| map.in_bounds(x, y) && #[trigger] cell(region@, w as int, x, y) implies closed(map@, region@, x, y) by {
            assert(!stack@.contains((x as usize, y as usize)));
        }
        assert forall|x: int, y: int| map.in_bounds(x, y) && #[trigger] same_room(map@, s, (x, y)) implies cell(region@, w as int, x, y) by {
            let p = choose|p: Seq<(int, int)>| #[trigger] floor_walk(map@, p) && p[0] == s && p.last() == (x, y);
            lemma_walk_marked(map@, region@, p, p.len() - 1);
        }
    }
    region
}

/// The room the player at `(px, py)` stands in (or in whose doorway), as
/// an inclusive bounding box of its floor, or `None` out in a corridor.
///
/// A room is a maximal region of connected floor tiles; corridors are a
/// distinct tile kind, so they never merge into a room. Standing on a door
/// counts as standing in the room it opens into.
fn room_bounds(map: &Dungeon, px: usize, py: usize) -> (r: Option<(usize, usize, usize, usize)>)
    requires
        map.cells().len() == map.width * map.height,
        px < map.width,
        py < map.height,
    ensures
        match r {
            Some(b) => room_start(map@, px as int, py as int) is Some && is_room_box(
                map@,
                room_start(map@, px as int, py as int)->0,
                (b.0 as int, b.1 as int, b.2 as int, b.3 as int),
            ),
            None => room_start(map@, px as int, py as int) is None,
        },
{
    let w = map.width;
    let h = map.height;
    proof {
        lemma_index_in(w as int, h as int, px as int, py as int);
        assert(map.tiles@.len() == map.tiles.len());
        if px > 0 {
            lemma_index_in(w as int, h as int, px - 1, py as int);
        }
        if px + 1 < w {
            lemma_index_in(w as int, h as int, px + 1, py as int);
        }
        if py > 0 {
            lemma_index_in(w as int, h as int, px as int, py - 1);
        }
        if py + 1 < h {
            lemma_index_in(w as int, h as int, px as int, py + 1);
        }
    }
    let t = map.tile(px, py);
    let (sx, sy) = if t == Tile::Floor {
        (px, py)
    } else if t == Tile::Door {
        if px > 0 && map.tile(px - 1, py) == Tile::Floor {
            (px - 1, py)
        } else if px + 1 < w && map.tile(px + 1, py) == Tile::Floor {
            (px + 1, py)
        } else if py > 0 && map.tile(px, py - 1) == Tile::Floor {
            (px, py - 1)
        } else if py + 1 < h && map.tile(px, py + 1) == Tile::Floor {
            (px, py + 1)
        } else {
            return None;
        }
    } else {
        return None;
    };
    let ghost s = (sx as int, sy as int);
    assert(room_start(map@, px as int, py as int) == Some(s));
    let region = flood(map, sx, sy);
    let mut x0: usize = usize::MAX;
    let mut y0: usize = usize::MAX;
    let mut x1: usize = 0;
    let mut y1: usize = 0;
    let ghost mut found = false;
    let ghost mut w0: (int, int) = s;
    let ghost mut w1: (int, int) = s;
    let ghost mut w2: (int, int) = s;
    let ghost mut w3: (int, int) = s;
    let mut y: usize = 0;
    while y < h
        invariant
            w == map.width,
            h == map.height,
            map.cells().len() == map.width * map.height,
            region@.len() == w * h,
            y <= h,
            forall|xx: int, yy: int| 0 <= xx < w && 0 <= yy < y && #[trigger] cell(region@, w as int, xx, yy) ==> x0 <= xx <= x1
                && y0 <= yy <= y1,
            !found ==> forall|xx: int, yy: int| 0 <= xx < w && 0 <= yy < y ==> !#[trigger] cell(region@, w as int, xx, yy),
            !found ==> x0 == usize::MAX && y0 == usize::MAX && x1 == 0 && y1 == 0,
            found ==> {
                &&& 0 <= w0.0 < w && 0 <= w0.1 < h && cell(region@, w as int, w0.0, w0.1) && w0.0 == x0
                &&& 0 <= w1.0 < w && 0 <= w1.1 < h && cell(region@, w as int, w1.0, w1.1) && w1.1 == y0
                &&& 0 <= w2.0 < w && 0 <= w2.1 < h && cell(region@, w as int, w2.0, w2.1) && w2.0 == x1
                &&& 0 <= w3.0 < w && 0 <= w3.1 < h && cell(region@, w as int, w3.0, w3.1) && w3.1 == y1
            },
        decreases h - y,
    {
        let mut x: usize = 0;
        while x < w
            invariant
                w == map.width,
                h == map.height,
                map.cells().len() == map.width * map.height,
                region@.len() == w * h,
                y < h,
                x <= w,
                forall|xx: int, yy: int|
                    0 <= xx < w && 0 <= yy < h && (yy < y || (yy == y && xx < x)) && #[trigger] cell(region@, w as int, xx, yy)
                        ==> x0 <= xx <= x1 && y0 <= yy <= y1,
                !found ==> forall|xx: int, yy: int|
                    0 <= xx < w && 0 <= yy < h && (yy < y || (yy == y && xx < x)) ==> !#[trigger] cell(region@, w as int, xx, yy),
                !found ==> x0 == usize::MAX && y0 == usize::MAX && x1 == 0 && y1 == 0,
                found ==> {
                    &&& 0 <= w0.0 < w && 0 <= w0.1 < h && cell(region@, w as int, w0.0, w0.1) && w0.0 == x0
                    &&& 0 <= w1.0 < w && 0 <= w1.1 < h && cell(region@, w as int, w1.0, w1.1) && w1.1 == y0
                    &&& 0 <= w2.0 < w && 0 <= w2.1 < h && cell(region@, w as int, w2.0, w2.1) && w2.0 == x1
                    &&& 0 <= w3.0 < w && 0 <= w3.1 < h && cell(region@, w as int, w3.0, w3.1) && w3.1 == y1
                },
            decreases w - x,
        {
            proof {
                lemma_index_in(w as int, h as int, x as int, y as int);
            }
            if region[y * w + x] {
                proof {
                    let c = (x as int, y as int);
                    if !found || x < x0 {
                        w0 = c;
                    }
                    if !found || y < y0 {
                        w1 = c;
                    }
                    if !found || x > x1 {
                        w2 = c;
                    }
                    if !found || y > y1 {
                        w3 = c;
                    }
                }
                if x < x0 {
                    x0 = x;
                }
                if y < y0 {
                    y0 = y;
                }
                if x > x1 {
                    x1 = x;
                }
                if y > y1 {
                    y1 = y;
                }
                proof {
                    found = true;
                }
            }
            x = x + 1;
        }
        y = y + 1;
    }
    proof {
        lemma_same_room_self(map@, s);
        assert(cell(region@, w as int, sx as int, sy as int));
        assert(found);
        assert(same_room(map@, s, w0));
        assert(same_room(map@, s, w1));
        assert(same_room(map@, s, w2));
        assert(same_room(map@, s, w3));
        let b = (x0 as int, y0 as int, x1 as int, y1 as int);
        assert(same_room(map@, s, (b.0, w0.1)));
        assert(same_room(map@, s, (w1.0, b.1)));
        assert(same_room(map@, s, (b.2, w2.1)));
        assert(same_room(map@, s, (w3.0, b.3)));
        assert forall|xx: int, yy: int| #[trigger] same_room(map@, s, (xx, yy)) implies b.0 <= xx <= b.2 && b.1 <= yy <= b.3 by {
            lemma_same_room_in_bounds(map@, s, (xx, yy));
            assert(cell(region@, w as int, xx, yy));
        }
    }
    Some((x0, y0, x1, y1))
}

/// Both ends of a floor walk are floor tiles on the map.
proof fn lemma_same_room_in_bounds(d: Board, s: (int, int), t: (int, int))
    requires
        same_room(d, s, t),
    ensures
        floor_at(d, t.0, t.1),
{
    let p = choose|p: Seq<(int, int)>| #[trigger] floor_walk(d, p) && p[0] == s && p.last() == t;
    assert(floor_at(d, p[p.len() - 1].0, p[p.len() - 1].1));
}

// ---------------------------------------------------------------------
// Line of sight
// ---------------------------------------------------------------------

/// Light passes through open floor and corridor; walls and closed doors
/// (which sit in walls) stop it.
pub open spec fn sees_through(t: Tile) -> bool {
    t == Tile::Floor || t == Tile::Corridor
}

/// The Bresenham walk from `(x, y)` toward `(tx, ty)` with error term
/// `err`, spans `dx >= 0` and `dy <= 0`, and unit steps `sx`, `sy`: true
/// when the target is reached before any tile that blocks light, taking at
/// most `fuel` steps.
pub open spec fn sight_walk(
    d: Board,
    x: int,
    y: int,
    tx: int,
    ty: int,
    err: int,
    dx: int,
    dy: int,
    sx: int,
    sy: int,
    fuel: nat,
) -> bool
    decreases fuel,
{
    if x == tx && y == ty {
        true
    } else if fuel == 0 {
        true
    } else {
        let e2 = 2 * err;
        let err1 = if e2 >= dy { err + dy } else { err };
        let nx = if e2 >= dy { x + sx } else { x };
        let err2 = if e2 <= dx { err1 + dx } else { err1 };
        let ny = if e2 <= dx { y + sy } else { y };
        if nx == tx && ny == ty {
            true
        } else if !sees_through(d.tile_at(nx, ny)) {
            false
        } else {
            sight_walk(d, nx, ny, tx, ty, err2, dx, dy, sx, sy, (fuel - 1) as nat)
        }
    }
}

/// Is `(x1, y1)` in sight from `(x0, y0)`: does the Bresenham line between
/// them cross only tiles that let light through? The walk reaches the
/// target within `dx - dy` steps, its full length.
pub open spec fn sight_line(d: Board, x0: int, y0: int, x1: int, y1: int) -> bool {
    let dx = gap(x1, x0);
    let dy = -gap(y1, y0);
    let sx = if x0 < x1 { 1int } else { -1int };
    let sy = if y0 < y1 { 1int } else { -1int };
    sight_walk(d, x0, y0, x1, y1, dx + dy, dx, dy, sx, sy, (dx - dy) as nat)
}

/// One product step: `a * (b + 1) == a * b + a`.
proof fn lemma_times_succ(a: int, b: int)
    ensures
        a * (b + 1) == a * b + a,
{
    assert(a * (b + 1) == a * b + a) by (nonlinear_arith);
}

/// Once the walk's x is at the target and y is not, the next step moves
/// y only.
proof fn lemma_no_x_overshoot(dx: int, big_dy: int, nys: int)
    requires
        0 <= dx,
        0 <= nys < big_dy,
    ensures
        2 * (dx * (1 + nys) - big_dy * (1 + dx)) < -big_dy,
{
    assert(dx * (1 + nys) <= dx * big_dy) by (nonlinear_arith)
        requires
            0 <= dx,
            1 + nys <= big_dy,
    ;
    assert(big_dy * (1 + dx) == big_dy + big_dy * dx) by (nonlinear_arith);
    assert(dx * big_dy == big_dy * dx) by (nonlinear_arith);
}

/// Once the walk's y is at the target and x is not, the next step moves
/// x only.
proof fn lemma_no_y_overshoot(dx: int, big_dy: int, nxs: int)
    requires
        0 <= big_dy,
        0 <= nxs < dx,
    ensures
        2 * (dx * (1 + big_dy) - big_dy * (1 + nxs)) > dx,
{
    assert(big_dy * (1 + nxs) <= big_dy * dx) by (nonlinear_arith)
        requires
            0 <= big_dy,
            1 + nxs <= dx,
    ;
    assert(dx * (1 + big_dy) == dx + dx * big_dy) by (nonlinear_arith);
    assert(dx * big_dy == big_dy * dx) by (nonlinear_arith);
}

/// The error term stays small for short lines.
proof fn lemma_err_bounds(dx: int, big_dy: int, nxs: int, nys: int)
    requires
        0 <= dx <= SIGHT_RANGE,
        0 <= big_dy <= SIGHT_RANGE,
        0 <= nxs <= dx,
        0 <= nys <= big_dy,
    ensures
        -100 <= dx * (1 + nys) - big_dy * (1 + nxs) <= 100,
{
    assert(0 <= dx * (1 + nys) <= 42) by (nonlinear_arith)
        requires
            0 <= dx <= 6,
            0 <= nys <= 6,
    ;
    assert(0 <= big_dy * (1 + nxs) <= 42) by (nonlinear_arith)
        requires
            0 <= big_dy <= 6,
            0 <= nxs <= 6,
    ;
}

/// The step `sx` taken `n` times from `a`.
pub open spec fn toward(a: int, s: int, n: int) -> int {
    if s == 1 {
        a + n
    } else {
        a - n
    }
}

/// Open floor or corridor at `(x, y)`.
fn is_open(map: &Dungeon, x: i32, y: i32) -> (b: bool)
    requires
        map.cells().len() == map.width * map.height,
        map.in_bounds(x as int, y as int),
    ensures
        b == sees_through(map.tile_at(x as int, y as int)),
{
    proof {
        lemma_index_in(map.width as int, map.height as int, x as int, y as int);
        assert(map.tiles@.len() == map.tiles.len());
    }
    let t = map.tile(x as usize, y as usize);
    t == Tile::Floor || t == Tile::Corridor
}

/// Bresenham line from `(x0, y0)` to `(x1, y1)`: the target is visible when
/// every tile between it and the start is open floor or corridor.
fn line_of_sight(map: &Dungeon, x0: i32, y0: i32, x1: i32, y1: i32) -> (b: bool)
    requires
        map.cells().len() == map.width * map.height,
        map.in_bounds(x0 as int, y0 as int),
        map.in_bounds(x1 as int, y1 as int),
        gap(x1 as int, x0 as int) <= SIGHT_RANGE,
        gap(y1 as int, y0 as int) <= SIGHT_RANGE,
    ensures
        b == sight_line(map@, x0 as int, y0 as int, x1 as int, y1 as int),
{
    let dx: i32 = if x1 >= x0 { x1 - x0 } else { x0 - x1 };
    let dy: i32 = if y1 >= y0 { y0 - y1 } else { y1 - y0 };
    let sx: i32 = if x0 < x1 { 1 } else { -1 };
    let sy: i32 = if y0 < y1 { 1 } else { -1 };
    let mut err: i32 = dx + dy;
    let mut x: i32 = x0;
    let mut y: i32 = y0;
    let ghost big_dy: int = -dy;
    let ghost mut nxs: int = 0;
    let ghost mut nys: int = 0;
    let ghost mut fuel: nat = (dx - dy) as nat;
    let ghost target = sight_line(map@, x0 as int, y0 as int, x1 as int, y1 as int);
    proof {
        assert(dx * 1 == dx && big_dy * 1 == big_dy) by (nonlinear_arith);
    }
    loop
        invariant
            map.cells().len() == map.width * map.height,
            map.in_bounds(x0 as int, y0 as int),
            map.in_bounds(x1 as int, y1 as int),
            0 <= dx <= SIGHT_RANGE,
            0 <= big_dy <= SIGHT_RANGE,
            dy == -big_dy,
            x1 == toward(x0 as int, sx as int, dx as int),
            y1 == toward(y0 as int, sy as int, big_dy),
            sx == 1 || sx == -1,
            sy == 1 || sy == -1,
            sx == (if x0 < x1 { 1int } else { -1int }),
            sy == (if y0 < y1 { 1int } else { -1int }),
            0 <= nxs <= dx,
            0 <= nys <= big_dy,
            x == toward(x0 as int, sx as int, nxs),
            y == toward(y0 as int, sy as int, nys),
            err == dx * (1 + nys) - big_dy * (1 + nxs),
            (dx - nxs) + (big_dy - nys) <= fuel,
            sight_walk(map@, x as int, y as int, x1 as int, y1 as int, err as int, dx as int, dy as int, sx as int, sy as int, fuel)
                == target,
            target == sight_line(map@, x0 as int, y0 as int, x1 as int, y1 as int),
        decreases (dx - nxs) + (big_dy - nys),
    {
        if x == x1 && y == y1 {
            return true;
        }
        proof {
            lemma_err_bounds(dx as int, big_dy, nxs, nys);
            if nxs == dx {
                lemma_no_x_overshoot(dx as int, big_dy, nys);
            }
            if nys == big_dy {
                lemma_no_y_overshoot(dx as int, big_dy, nxs);
            }
        }
        let ghost err0 = err as int;
        let ghost x_before = x as int;
        let ghost y_before = y as int;
        let e2 = 2 * err;
        if e2 >= dy {
            proof {
                lemma_times_succ(big_dy, 1 + nxs);
                nxs = nxs + 1;
            }
            err = err + dy;
            x = x + sx;
        }
        if e2 <= dx {
            proof {
                lemma_times_succ(dx as int, 1 + nys);
                nys = nys + 1;
            }
            err = err + dx;
            y = y + sy;
        }
        assert(sight_walk(map@, x_before, y_before, x1 as int, y1 as int, err0, dx as int, dy as int, sx as int, sy as int, fuel)
            == if x == x1 && y == y1 {
            true
        } else if !sees_through(map.tile_at(x as int, y as int)) {
            false
        } else {
            sight_walk(map@, x as int, y as int, x1 as int, y1 as int, err as int, dx as int, dy as int, sx as int, sy as int, (fuel - 1) as nat)
        });
        if x == x1 && y == y1 {
            return true;
        }
        if !is_open(map, x, y) {
            return false;
        }
        proof {
            fuel = (fuel - 1) as nat;
        }
    }
}

/// The tiles a player out in a corridor at `(px, py)` sees: every tile
/// within [`SIGHT_RANGE`] on both axes whose line from the player crosses
/// only open floor or corridor (the player's own tile included).
pub open spec fn corridor_lit(d: Board, px: int, py: int, x: int, y: int) -> bool {
    gap(x, px) <= SIGHT_RANGE && gap(y, py) <= SIGHT_RANGE && sight_line(d, px, py, x, y)
}

/// Is `(x, y)` lit for a player at `(px, py)`: inside the room's box
/// grown by its wall ring when the player is in a room (or its doorway),
/// otherwise by the corridor reach.
pub open spec fn lit(d: Board, px: int, py: int, x: int, y: int) -> bool {
    match room_box(d, px, py) {
        Some(b) => b.0 - 1 <= x <= b.2 + 1 && b.1 - 1 <= y <= b.3 + 1,
        None => corridor_lit(d, px, py, x, y),
    }
}

/// A short line-of-sight reach down the corridor: every tile within
/// [`SIGHT_RANGE`] whose line from the player crosses only open floor or
/// corridor. Walls and closed doors stop the line, so a bend hides what is
/// behind it; a wall or door tile itself can be seen, which is how the
/// player sees the walls beside them and the door at a corridor's end.
fn corridor_view(map: &Dungeon, px: usize, py: usize, visible: &mut Vec<bool>)
    requires
        map.cells().len() == map.width * map.height,
        px < map.width,
        py < map.height,
        map.width <= VIEW_LIMIT,
        map.height <= VIEW_LIMIT,
        old(visible)@.len() == map.width * map.height,
        forall|x: int, y: int| map.in_bounds(x, y) ==> !#[trigger] cell(old(visible)@, map.width as int, x, y),
    ensures
        final(visible)@.len() == map.width * map.height,
        forall|x: int, y: int|
            map.in_bounds(x, y) ==> #[trigger] cell(final(visible)@, map.width as int, x, y) == corridor_lit(
                map@,
                px as int,
                py as int,
                x,
                y,
            ),
{
    let width = map.width;
    let height = map.height;
    let w = map.width as i32;
    let h = map.height as i32;
    let r = SIGHT_RANGE as i32;
    let ghost pxi = px as int;
    let ghost pyi = py as int;
    proof {
        lemma_mark_cell(visible@, width as int, height as int, pxi, pyi);
        lemma_index_in(width as int, height as int, pxi, pyi);
        assert(map.tiles@.len() == map.tiles.len());
    }
    visible.set(py * width + px, true);
    let mut dy: i32 = -r;
    while dy <= r
        invariant
            map.cells().len() == map.width * map.height,
            width == map.width,
            height == map.height,
            w == width,
            h == height,
            r == SIGHT_RANGE,
            px < width,
            py < height,
            pxi == px,
            pyi == py,
            width <= VIEW_LIMIT,
            height <= VIEW_LIMIT,
            width * height <= usize::MAX,
            -r <= dy <= r + 1,
            visible@.len() == width * height,
            forall|x: int, y: int|
                map.in_bounds(x, y) ==> #[trigger] cell(visible@, width as int, x, y) == ((x == pxi && y == pyi) || (gap(
                    x,
                    pxi,
                ) <= SIGHT_RANGE && gap(y, pyi) <= SIGHT_RANGE && y - pyi < dy && sight_line(map@, pxi, pyi, x, y))),
        decreases r + 1 - dy,
    {
        let mut dx: i32 = -r;
        while dx <= r
            invariant
                map.cells().len() == map.width * map.height,
                width == map.width,
                height == map.height,
                w == width,
                h == height,
                r == SIGHT_RANGE,
                px < width,
                py < height,
                pxi == px,
                pyi == py,
                width <= VIEW_LIMIT,
                height <= VIEW_LIMIT,
                width * height <= usize::MAX,
                -r <= dy <= r,
                -r <= dx <= r + 1,
                visible@.len() == width * height,
                forall|x: int, y: int|
                    map.in_bounds(x, y) ==> #[trigger] cell(visible@, width as int, x, y) == ((x == pxi && y == pyi) || (gap(
                        x,
                        pxi,
                    ) <= SIGHT_RANGE && gap(y, pyi) <= SIGHT_RANGE && (y - pyi < dy || (y - pyi == dy && x - pxi < dx))
                        && sight_line(map@, pxi, pyi, x, y))),
            decreases r + 1 - dx,
        {
            if !(dx == 0 && dy == 0) {
                let tx = px as i32 + dx;
                let ty = py as i32 + dy;
                if tx >= 0 && ty >= 0 && tx < w && ty < h {
                    if line_of_sight(map, px as i32, py as i32, tx, ty) {
                        proof {
                            lemma_mark_cell(visible@, width as int, height as int, tx as int, ty as int);
                            lemma_index_in(width as int, height as int, tx as int, ty as int);
                        }
                        visible.set(ty as usize * width + tx as usize, true);
                    }
                }
            }
            dx = dx + 1;
        }
        dy = dy + 1;
    }
    proof {
        assert forall|x: int, y: int| map.in_bounds(x, y) implies #[trigger] cell(visible@, width as int, x, y) == corridor_lit(
            map@,
            pxi,
            pyi,
            x,
            y,
        ) by {
            if x == pxi && y == pyi {
                assert(sight_line(map@, pxi, pyi, x, y));
            }
        }
    }
}

/// The tiles currently visible from `(px, py)`, row-major over the map.
///
/// In a room the whole room is lit: the interior floor, the surrounding wall
/// ring, and the doors in it. In a corridor the player sees a short
/// line-of-sight reach ([`SIGHT_RANGE`]): walls and closed doors block, so
/// a bend hides what is around the corner. The player's own tile is always
/// lit.
pub fn compute(map: &Dungeon, px: usize, py: usize) -> (visible: Vec<bool>)
    requires
        map.cells().len() == map.width * map.height,
        px < map.width,
        py < map.height,
        map.width <= VIEW_LIMIT,
        map.height <= VIEW_LIMIT,
    ensures
        visible@.len() == map.width * map.height,
        forall|x: int, y: int|
            map.in_bounds(x, y) ==> #[trigger] cell(visible@, map.width as int, x, y) == lit(map@, px as int, py as int, x, y),
{
    let w = map.width;
    let h = map.height;
    proof {
        assert(map.tiles@.len() == map.tiles.len());
    }
    let mut visible = unmarked(w * h);
    proof {
        assert forall|x: int, y: int| map.in_bounds(x, y) implies !#[trigger] cell(visible@, w as int, x, y) by {
            lemma_index_in(w as int, h as int, x, y);
        }
    }
    match room_bounds(map, px, py) {
        Some((x0, y0, x1, y1)) => {
            let ghost s = room_start(map@, px as int, py as int)->0;
            let ghost b = (x0 as int, y0 as int, x1 as int, y1 as int);
            proof {
                let yy = choose|y: int| #[trigger] same_room(map@, s, (b.2, y));
                lemma_same_room_in_bounds(map@, s, (b.2, yy));
                let xx = choose|x: int| #[trigger] same_room(map@, s, (x, b.3));
                lemma_same_room_in_bounds(map@, s, (xx, b.3));
                assert(floor_at(map@, s.0, s.1));
                lemma_same_room_self(map@, s);
                assert(same_room(map@, s, (s.0, s.1)));
                let c = choose|c: (int, int, int, int)| is_room_box(map@, s, c);
                lemma_room_box_unique(map@, s, b, c);
                assert(room_box(map@, px as int, py as int) == Some(b));
            }
            let rx0 = if x0 > 0 { x0 - 1 } else { 0 };
            let ry0 = if y0 > 0 { y0 - 1 } else { 0 };
            let rx1 = if x1 + 1 < w - 1 { x1 + 1 } else { w - 1 };
            let ry1 = if y1 + 1 < h - 1 { y1 + 1 } else { h - 1 };
            let mut y = ry0;
            while y <= ry1
                invariant
                    map.cells().len() == map.width * map.height,
                    w == map.width,
                    h == map.height,
                    rx1 < w,
                    ry1 < h,
                    rx0 <= rx1,
                    w * h <= usize::MAX,
                    ry0 <= y <= ry1 + 1,
                    visible@.len() == w * h,
                    forall|xx: int, yy: int|
                        map.in_bounds(xx, yy) ==> #[trigger] cell(visible@, w as int, xx, yy) == (rx0 <= xx <= rx1 && ry0 <= yy < y),
                decreases ry1 + 1 - y,
            {
                let mut x = rx0;
                while x <= rx1
                    invariant
                        map.cells().len() == map.width * map.height,
                        w == map.width,
                        h == map.height,
                        rx1 < w,
                        ry1 < h,
                        rx0 <= rx1,
                        w * h <= usize::MAX,
                        ry0 <= y <= ry1,
                        rx0 <= x <= rx1 + 1,
                        visible@.len() == w * h,
                        forall|xx: int, yy: int|
                            map.in_bounds(xx, yy) ==> #[trigger] cell(visible@, w as int, xx, yy) == (rx0 <= xx <= rx1 && (ry0 <= yy
                                < y || (yy == y && xx < x))),
                    decreases rx1 + 1 - x,
                {
                    proof {
                        lemma_mark_cell(visible@, w as int, h as int, x as int, y as int);
                        lemma_index_in(w as int, h as int, x as int, y as int);
                    }
                    visible.set(y * w + x, true);
                    x = x + 1;
                }
                y = y + 1;
            }
        },
        None => {
            corridor_view(map, px, py, &mut visible);
        },
    }
    visible
}


// ---------------------------------------------------------------------
// What a room shows
// ---------------------------------------------------------------------

/// A closed room: an all-floor interior on the map, inside the map's edge,
/// and no floor on its wall ring.
pub open spec fn closed_room(d: Board, r: Room) -> bool {
    &&& 1 <= r.x0 <= r.x1
    &&& r.x1 + 1 < d.width
    &&& 1 <= r.y0 <= r.y1
    &&& r.y1 + 1 < d.height
    &&& forall|x: int, y: int| #[trigger] in_room(r, x, y) ==> d.tile_at(x, y) == Tile::Floor
    &&& forall|x: int, y: int| #[trigger] in_room_box(r, x, y) && !in_room(r, x, y) ==> d.tile_at(x, y) != Tile::Floor
}

/// A walk over floor tiles that starts in a closed room never leaves it.
proof fn lemma_walk_stays(d: Board, r: Room, p: Seq<(int, int)>, i: int)
    requires
        closed_room(d, r),
        floor_walk(d, p),
        in_room(r, p[0].0, p[0].1),
        0 <= i < p.len(),
    ensures
        in_room(r, p[i].0, p[i].1),
    decreases i,
{
    if i > 0 {
        lemma_walk_stays(d, r, p, i - 1);
        assert(is_step(p[i - 1], p[i]));
        assert(floor_at(d, p[i].0, p[i].1));
        if !in_room(r, p[i].0, p[i].1) {
            assert(in_room_box(r, p[i].0, p[i].1));
        }
    }
}

/// Two floor tiles of one row of a closed room share the room.
proof fn lemma_row_walk(d: Board, r: Room, y: int, a: int, b: int)
    requires
        closed_room(d, r),
        r.y0 <= y <= r.y1,
        r.x0 <= a <= r.x1,
        r.x0 <= b <= r.x1,
    ensures
        same_room(d, (a, y), (b, y)),
{
    let n = if a <= b { b - a + 1 } else { a - b + 1 };
    let dir = if a <= b { 1int } else { -1int };
    let p = Seq::new(n as nat, |i: int| (a + dir * i, y));
    assert forall|i: int| 0 <= i < p.len() implies floor_at(d, (#[trigger] p[i]).0, p[i].1) by {
        assert(in_room(r, a + dir * i, y));
    }
    assert forall|i: int| 0 <= i < p.len() - 1 implies is_step(#[trigger] p[i], p[i + 1]) by {
    }
    assert(floor_walk(d, p));
    assert(p.last() == (b, y));
}

/// Two floor tiles of one column of a closed room share the room.
proof fn lemma_col_walk(d: Board, r: Room, x: int, a: int, b: int)
    requires
        closed_room(d, r),
        r.x0 <= x <= r.x1,
        r.y0 <= a <= r.y1,
        r.y0 <= b <= r.y1,
    ensures
        same_room(d, (x, a), (x, b)),
{
    let n = if a <= b { b - a + 1 } else { a - b + 1 };
    let dir = if a <= b { 1int } else { -1int };
    let p = Seq::new(n as nat, |i: int| (x, a + dir * i));
    assert forall|i: int| 0 <= i < p.len() implies floor_at(d, (#[trigger] p[i]).0, p[i].1) by {
        assert(in_room(r, x, a + dir * i));
    }
    assert forall|i: int| 0 <= i < p.len() - 1 implies is_step(#[trigger] p[i], p[i + 1]) by {
    }
    assert(floor_walk(d, p));
    assert(p.last() == (x, b));
}

/// Standing on the floor of a closed room lights exactly the room and its
/// wall ring: every tile of it, doors included, and nothing beyond.
pub proof fn lemma_room_lit(d: Board, r: Room, px: int, py: int)
    requires
        closed_room(d, r),
        in_room(r, px, py),
    ensures
        forall|x: int, y: int| #[trigger] lit(d, px, py, x, y) <==> in_room_box(r, x, y),
{
    let s = (px, py);
    assert(d.tile_at(px, py) == Tile::Floor);
    assert(room_start(d, px, py) == Some(s));
    let b = (r.x0 as int, r.y0 as int, r.x1 as int, r.y1 as int);
    assert forall|x: int, y: int| #[trigger] same_room(d, s, (x, y)) implies b.0 <= x <= b.2 && b.1 <= y <= b.3 by {
        let p = choose|p: Seq<(int, int)>| #[trigger] floor_walk(d, p) && p[0] == s && p.last() == (x, y);
        lemma_walk_stays(d, r, p, p.len() - 1);
    }
    lemma_row_walk(d, r, py, px, b.0);
    lemma_row_walk(d, r, py, px, b.2);
    lemma_col_walk(d, r, px, py, b.1);
    lemma_col_walk(d, r, px, py, b.3);
    assert(is_room_box(d, s, b));
    let c = choose|c: (int, int, int, int)| is_room_box(d, s, c);
    lemma_room_box_unique(d, s, b, c);
    assert(room_box(d, px, py) == Some(b));
}

} // verus!
