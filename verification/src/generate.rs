//! Level generation: rooms in a 3x3 grid of cells, wired together by
//! orthogonal corridors. Every step draws from one seeded `Rng`, so the level
//! is a function of the seed and the size.

use vstd::prelude::*;
use crate::map::{present_rooms,
    Dungeon, Room, Tile, GRID_CELLS, GRID_COLS, GRID_ROWS, MIN_ROOM_WIDTH, MIN_ROOM_HEIGHT,
    CELL_MARGIN, GRID_MIN_WIDTH, GRID_MIN_HEIGHT, MAP_WIDTH, MAP_HEIGHT, in_room, in_room_box, room_fits,
};
use crate::rng::{
    Rng, range_value, chance_value, next_state, shuffled, lemma_shuffled, seeded, lemma_range_value,
};

verus! {

// ---------------------------------------------------------------------
// Tile edits
// ---------------------------------------------------------------------

/// Dig the tile at index `i`: solid rock becomes corridor; anything else is
/// left alone, so a corridor never breaks through a floor or a doorway.
pub open spec fn dig_at(t: Seq<Tile>, i: int) -> Seq<Tile> {
    if t[i] == Tile::Wall {
        t.update(i, Tile::Corridor)
    } else {
        t
    }
}

/// Dig `(x, y)` for `x` in `a..=b`, in that order.
pub open spec fn dig_row(t: Seq<Tile>, w: int, y: int, a: int, b: int) -> Seq<Tile>
    decreases b + 1 - a,
{
    if a > b {
        t
    } else {
        dig_row(dig_at(t, y * w + a), w, y, a + 1, b)
    }
}

/// Dig `(x, y)` for `y` in `a..=b`, in that order.
pub open spec fn dig_col(t: Seq<Tile>, w: int, x: int, a: int, b: int) -> Seq<Tile>
    decreases b + 1 - a,
{
    if a > b {
        t
    } else {
        dig_col(dig_at(t, a * w + x), w, x, a + 1, b)
    }
}

/// The tile a room carving writes at `(x, y)` of its box.
pub open spec fn carve_value(r: Room, x: int, y: int) -> Tile {
    if in_room(r, x, y) {
        Tile::Floor
    } else {
        Tile::Wall
    }
}

/// Carve row `y` of room `r`'s box from column `x` to `r.x1 + 1`.
pub open spec fn carve_row(t: Seq<Tile>, w: int, r: Room, y: int, x: int) -> Seq<Tile>
    decreases r.x1 + 2 - x,
{
    if x > r.x1 + 1 {
        t
    } else {
        carve_row(t.update(y * w + x, carve_value(r, x, y)), w, r, y, x + 1)
    }
}

/// Carve the rows of room `r`'s box from row `y` to `r.y1 + 1`.
pub open spec fn carve_rows(t: Seq<Tile>, w: int, r: Room, y: int) -> Seq<Tile>
    decreases r.y1 + 2 - y,
{
    if y > r.y1 + 1 {
        t
    } else {
        carve_rows(carve_row(t, w, r, y, r.x0 - 1), w, r, y + 1)
    }
}

/// Room `r` carved into `t`: floor inside, wall on the surrounding ring.
pub open spec fn carved(t: Seq<Tile>, w: int, r: Room) -> Seq<Tile> {
    carve_rows(t, w, r, r.y0 - 1)
}

/// A map of solid rock.
pub open spec fn solid(n: int) -> Seq<Tile> {
    Seq::new(n as nat, |i: int| Tile::Wall)
}

/// Nine empty grid slots.
pub open spec fn no_rooms() -> Seq<Option<Room>> {
    Seq::new(GRID_CELLS as nat, |i: int| None::<Room>)
}

// ---------------------------------------------------------------------
// The grid
// ---------------------------------------------------------------------

/// The inclusive interior limits `(x0, y0, x1, y1)` a room in `cell` must
/// stay inside, on a `w` x `h` map: the cell's share of the map minus a
/// two-tile margin on each side.
pub open spec fn cell_bounds(w: int, h: int, cell: int) -> (int, int, int, int) {
    let col = cell % 3;
    let row = cell / 3;
    (
        col * w / 3 + 2,
        row * h / 3 + 2,
        (col + 1) * w / 3 - 3,
        (row + 1) * h / 3 - 3,
    )
}

/// Is `r` inside the limits of `cell`?
pub open spec fn room_in_bounds(r: Room, w: int, h: int, cell: int) -> bool {
    let (xl, yl, xh, yh) = cell_bounds(w, h, cell);
    &&& xl <= r.x0
    &&& r.x0 + (MIN_ROOM_WIDTH - 1) <= r.x1
    &&& r.x1 <= xh
    &&& yl <= r.y0
    &&& r.y0 + (MIN_ROOM_HEIGHT - 1) <= r.y1
    &&& r.y1 <= yh
}

/// A size the 3x3 grid generator handles.
pub open spec fn grid_size(w: int, h: int) -> bool {
    w >= GRID_MIN_WIDTH && h >= GRID_MIN_HEIGHT
}

/// Each cell of a grid-size map leaves room for a minimum room and a
/// corridor margin on every side.
pub proof fn lemma_cell_bounds(w: int, h: int, cell: int)
    requires
        grid_size(w, h),
        0 <= cell < 9,
    ensures
        ({
            let (xl, yl, xh, yh) = cell_bounds(w, h, cell);
            &&& 2 <= xl
            &&& xl + 3 <= xh
            &&& xh + 3 <= w
            &&& 2 <= yl
            &&& yl + 1 <= yh
            &&& yh + 3 <= h
        }),
{
    let col = cell % 3;
    let row = cell / 3;
    assert(0 <= col < 3 && 0 <= row < 3);
    if col == 0 {
        assert(0 * w / 3 == 0);
        assert(1 * w / 3 == w / 3);
    } else if col == 1 {
        assert(1 * w / 3 == w / 3);
        assert(2 * w / 3 == (w + w) / 3);
    } else {
        assert(2 * w / 3 == (w + w) / 3);
        assert(3 * w / 3 == w);
    }
    if row == 0 {
        assert(0 * h / 3 == 0);
        assert(1 * h / 3 == h / 3);
    } else if row == 1 {
        assert(1 * h / 3 == h / 3);
        assert(2 * h / 3 == (h + h) / 3);
    } else {
        assert(2 * h / 3 == (h + h) / 3);
        assert(3 * h / 3 == h);
    }
}

/// Cells in different columns (rows) are at least five tiles apart, so rooms
/// in them never touch and a corridor always has room to bend.
pub proof fn lemma_cells_apart(w: int, h: int, a: int, b: int)
    requires
        grid_size(w, h),
        0 <= a < 9,
        0 <= b < 9,
    ensures
        a % 3 < b % 3 ==> cell_bounds(w, h, a).2 + 5 <= cell_bounds(w, h, b).0,
        a / 3 < b / 3 ==> cell_bounds(w, h, a).3 + 5 <= cell_bounds(w, h, b).1,
{
    assert(0 * w / 3 == 0);
    assert(1 * w / 3 == w / 3);
    assert(2 * w / 3 == (w + w) / 3);
    assert(3 * w / 3 == w);
    assert(0 * h / 3 == 0);
    assert(1 * h / 3 == h / 3);
    assert(2 * h / 3 == (h + h) / 3);
    assert(3 * h / 3 == h);
}

/// The room `random_room_in_cell` draws for `cell` from state `s`: a random
/// size of at least the minimum, at a random position inside the cell's
/// limits. Returns the room and the state after the four draws.
pub open spec fn room_in_cell(w: int, h: int, cell: int, s: u64) -> (Room, u64) {
    let (xl, yl, xh, yh) = cell_bounds(w, h, cell);
    let s1 = next_state(s);
    let s2 = next_state(s1);
    let s3 = next_state(s2);
    let rw = range_value(s, MIN_ROOM_WIDTH as nat, (xh - xl + 1) as nat) as int;
    let rh = range_value(s1, MIN_ROOM_HEIGHT as nat, (yh - yl + 1) as nat) as int;
    let x0 = range_value(s2, xl as nat, (xh - rw + 1) as nat) as int;
    let y0 = range_value(s3, yl as nat, (yh - rh + 1) as nat) as int;
    (
        Room {
            x0: x0 as usize,
            y0: y0 as usize,
            x1: (x0 + rw - 1) as usize,
            y1: (y0 + rh - 1) as usize,
        },
        next_state(s3),
    )
}

/// The grid cells `0..9` in order.
pub open spec fn all_cells() -> Seq<usize> {
    Seq::new(GRID_CELLS as nat, |i: int| i as usize)
}

/// Which cells hold a room, drawn from state `s`: six to nine rooms, in the
/// first cells of a shuffled order.
pub open spec fn occupied_cells(s: u64) -> (Seq<bool>, u64) {
    let count = range_value(s, 6, GRID_CELLS as nat) as int;
    let (s2, order) = shuffled(next_state(s), all_cells());
    (Seq::new(GRID_CELLS as nat, |c: int| order.take(count).contains(c as usize)), s2)
}

/// Rooms for the cells `cell..9` (drawn for occupied cells, in cell order),
/// carved into `t` and recorded in `slots`.
pub open spec fn place_rooms(
    w: int,
    h: int,
    occ: Seq<bool>,
    t: Seq<Tile>,
    slots: Seq<Option<Room>>,
    s: u64,
    cell: int,
) -> (Seq<Tile>, Seq<Option<Room>>, u64)
    decreases 9 - cell,
{
    if cell >= 9 || cell < 0 {
        (t, slots, s)
    } else if occ[cell] {
        let (r, s2) = room_in_cell(w, h, cell, s);
        place_rooms(w, h, occ, carved(t, w, r), slots.update(cell, Some(r)), s2, cell + 1)
    } else {
        place_rooms(w, h, occ, t, slots, s, cell + 1)
    }
}

// ---------------------------------------------------------------------
// Corridor planning
// ---------------------------------------------------------------------

/// The first occupied cell of `row` at column `c` or further left.
pub open spec fn scan_left(occ: Seq<bool>, row: int, c: int) -> Option<usize>
    decreases c + 1,
{
    if c < 0 {
        None
    } else if occ[row * 3 + c] {
        Some((row * 3 + c) as usize)
    } else {
        scan_left(occ, row, c - 1)
    }
}

/// The first occupied cell of `row` at column `c` or further right.
pub open spec fn scan_right(occ: Seq<bool>, row: int, c: int) -> Option<usize>
    decreases 3 - c,
{
    if c >= 3 {
        None
    } else if occ[row * 3 + c] {
        Some((row * 3 + c) as usize)
    } else {
        scan_right(occ, row, c + 1)
    }
}

/// The first occupied cell of column `col` at row `r` or further up.
pub open spec fn scan_up(occ: Seq<bool>, col: int, r: int) -> Option<usize>
    decreases r + 1,
{
    if r < 0 {
        None
    } else if occ[r * 3 + col] {
        Some((r * 3 + col) as usize)
    } else {
        scan_up(occ, col, r - 1)
    }
}

/// The first occupied cell of column `col` at row `r` or further down.
pub open spec fn scan_down(occ: Seq<bool>, col: int, r: int) -> Option<usize>
    decreases 3 - r,
{
    if r >= 3 {
        None
    } else if occ[r * 3 + col] {
        Some((r * 3 + col) as usize)
    } else {
        scan_down(occ, col, r + 1)
    }
}

pub open spec fn push_some(s: Seq<usize>, o: Option<usize>) -> Seq<usize> {
    match o {
        Some(c) => s.push(c),
        None => s,
    }
}

/// The cells a corridor may join `cell` to directly: the next occupied cell
/// along its row and along its column, each way, skipping gone rooms. Order:
/// left, up, right, down.
pub open spec fn neighbors(occ: Seq<bool>, cell: int) -> Seq<usize> {
    let col = cell % 3;
    let row = cell / 3;
    push_some(
        push_some(
            push_some(push_some(Seq::empty(), scan_left(occ, row, col - 1)), scan_up(occ, col, row - 1)),
            scan_right(occ, row, col + 1),
        ),
        scan_down(occ, col, row + 1),
    )
}

/// How many entries of `s` are true.
pub open spec fn count_true(s: Seq<bool>) -> nat
    decreases s.len(),
{
    if s.len() == 0 {
        0
    } else {
        count_true(s.drop_last()) + if s.last() { 1nat } else { 0nat }
    }
}

pub proof fn lemma_count_true(s: Seq<bool>, i: int)
    requires
        0 <= i < s.len(),
        !s[i],
    ensures
        count_true(s.update(i, true)) == count_true(s) + 1,
        count_true(s) < s.len(),
    decreases s.len(),
{
    if i == s.len() - 1 {
        assert(s.update(i, true).drop_last() =~= s.drop_last());
        lemma_count_true_le(s.drop_last());
    } else {
        assert(s.update(i, true).drop_last() =~= s.drop_last().update(i, true));
        lemma_count_true(s.drop_last(), i);
    }
}

pub proof fn lemma_count_true_le(s: Seq<bool>)
    ensures
        count_true(s) <= s.len(),
    decreases s.len(),
{
    if s.len() > 0 {
        lemma_count_true_le(s.drop_last());
    }
}

/// Is cell `n` still outside the tree?
pub open spec fn unvisited(in_tree: Seq<bool>) -> spec_fn(usize) -> bool {
    |n: usize| !in_tree[n as int]
}

/// The unvisited neighbors of `cell`.
pub open spec fn fresh_neighbors(occ: Seq<bool>, in_tree: Seq<bool>, cell: int) -> Seq<usize> {
    neighbors(occ, cell).filter(unvisited(in_tree))
}

/// A randomized depth-first walk over the occupied cells: from the cell on
/// top of `frontier`, link a random unvisited neighbor and continue from it,
/// or backtrack when there is none. Returns the tree's links and the state.
pub open spec fn spanning_walk(
    occ: Seq<bool>,
    in_tree: Seq<bool>,
    frontier: Seq<usize>,
    edges: Seq<(usize, usize)>,
    s: u64,
) -> (Seq<(usize, usize)>, u64)
    decreases in_tree.len() - count_true(in_tree), frontier.len(),
{
    if frontier.len() == 0 {
        (edges, s)
    } else {
        let cell = frontier.last();
        let candidates = fresh_neighbors(occ, in_tree, cell as int);
        if candidates.len() == 0 {
            spanning_walk(occ, in_tree, frontier.drop_last(), edges, s)
        } else {
            let (s2, order) = shuffled(s, candidates);
            let next = order[0];
            if next < in_tree.len() && !in_tree[next as int] {
                proof {
                    lemma_count_true(in_tree, next as int);
                }
                spanning_walk(
                    occ,
                    in_tree.update(next as int, true),
                    frontier.push(next),
                    edges.push((cell, next)),
                    s2,
                )
            } else {
                (edges, s2)
            }
        }
    }
}

/// Is `a`-`b` already a link, in either direction?
pub open spec fn has_link(edges: Seq<(usize, usize)>, a: usize, b: usize) -> bool {
    edges.contains((a, b)) || edges.contains((b, a))
}

/// Extra links from `cell` to its later neighbors `nbrs[k..]`: each new one
/// is added with probability one in four.
pub open spec fn links_for(
    edges: Seq<(usize, usize)>,
    s: u64,
    cell: usize,
    nbrs: Seq<usize>,
    k: int,
) -> (Seq<(usize, usize)>, u64)
    decreases nbrs.len() - k,
{
    if k >= nbrs.len() || k < 0 {
        (edges, s)
    } else {
        let n = nbrs[k];
        if n <= cell || has_link(edges, cell, n) {
            links_for(edges, s, cell, nbrs, k + 1)
        } else if chance_value(s, 1, 4) {
            links_for(edges.push((cell, n)), next_state(s), cell, nbrs, k + 1)
        } else {
            links_for(edges, next_state(s), cell, nbrs, k + 1)
        }
    }
}

/// Extra links for the occupied cells `cell..9`, so the level has loops.
pub open spec fn extra_links(occ: Seq<bool>, edges: Seq<(usize, usize)>, s: u64, cell: int) -> (
    Seq<(usize, usize)>,
    u64,
)
    decreases 9 - cell,
{
    if cell >= 9 || cell < 0 {
        (edges, s)
    } else if !occ[cell] {
        extra_links(occ, edges, s, cell + 1)
    } else {
        let (e2, s2) = links_for(edges, s, cell as usize, neighbors(occ, cell), 0);
        extra_links(occ, e2, s2, cell + 1)
    }
}

/// The first occupied cell at index `c` or later.
pub open spec fn first_occupied(occ: Seq<bool>, c: int) -> Option<usize>
    decreases 9 - c,
{
    if c >= 9 || c < 0 {
        None
    } else if occ[c] {
        Some(c as usize)
    } else {
        first_occupied(occ, c + 1)
    }
}

/// The corridors to dig: a random spanning tree over the occupied cells, plus
/// a few extra links.
pub open spec fn corridor_plan(occ: Seq<bool>, s: u64) -> (Seq<(usize, usize)>, u64) {
    match first_occupied(occ, 0) {
        None => (Seq::empty(), s),
        Some(start) => {
            let in_tree = Seq::new(GRID_CELLS as nat, |c: int| c == start);
            let (tree, s2) = spanning_walk(occ, in_tree, seq![start], Seq::empty(), s);
            extra_links(occ, tree, s2, 0)
        },
    }
}

// ---------------------------------------------------------------------
// Corridor carving
// ---------------------------------------------------------------------

pub open spec fn min_int(a: int, b: int) -> int {
    if a <= b { a } else { b }
}

pub open spec fn max_int(a: int, b: int) -> int {
    if a >= b { a } else { b }
}

/// The corridor between rooms `a` and `b` carved into `t` from state `s`:
/// out of a door in one room, along, one bend, and in at the far door. Rooms
/// in one grid row are joined left to right, others top to bottom.
pub open spec fn corridor_tiles(t: Seq<Tile>, w: int, a: Room, b: Room, same_row: bool, s: u64) -> (
    Seq<Tile>,
    u64,
) {
    let s1 = next_state(s);
    let s2 = next_state(s1);
    if same_row {
        let (l, r) = if a.x0 < b.x0 { (a, b) } else { (b, a) };
        let ly = range_value(s, l.y0 as nat, l.y1 as nat) as int;
        let ry = range_value(s1, r.y0 as nat, r.y1 as nat) as int;
        let ldx = l.x1 + 1;
        let rdx = r.x0 - 1;
        let bend = range_value(s2, (ldx + 1) as nat, (rdx - 1) as nat) as int;
        let t1 = t.update(ly * w + ldx, Tile::Door).update(ry * w + rdx, Tile::Door);
        let t2 = dig_row(t1, w, ly, ldx + 1, bend);
        let t3 = dig_col(t2, w, bend, min_int(ly, ry), max_int(ly, ry));
        (dig_row(t3, w, ry, bend, rdx - 1), next_state(s2))
    } else {
        let (tp, bt) = if a.y0 < b.y0 { (a, b) } else { (b, a) };
        let tx = range_value(s, tp.x0 as nat, tp.x1 as nat) as int;
        let bx = range_value(s1, bt.x0 as nat, bt.x1 as nat) as int;
        let tdy = tp.y1 + 1;
        let bdy = bt.y0 - 1;
        let bend = range_value(s2, (tdy + 1) as nat, (bdy - 1) as nat) as int;
        let t1 = t.update(tdy * w + tx, Tile::Door).update(bdy * w + bx, Tile::Door);
        let t2 = dig_col(t1, w, tx, tdy + 1, bend);
        let t3 = dig_row(t2, w, bend, min_int(tx, bx), max_int(tx, bx));
        (dig_col(t3, w, bx, bend, bdy - 1), next_state(s2))
    }
}

/// The corridors `edges[i..]` carved into `t`, in order.
pub open spec fn carve_corridors(
    t: Seq<Tile>,
    w: int,
    slots: Seq<Option<Room>>,
    edges: Seq<(usize, usize)>,
    s: u64,
    i: int,
) -> (Seq<Tile>, u64)
    decreases edges.len() - i,
{
    if i >= edges.len() || i < 0 {
        (t, s)
    } else {
        let (a, b) = edges[i];
        let (t2, s2) = corridor_tiles(
            t,
            w,
            slots[a as int]->0,
            slots[b as int]->0,
            a / 3 == b / 3,
            s,
        );
        carve_corridors(t2, w, slots, edges, s2, i + 1)
    }
}

/// The level the grid generator builds from `seed` at size `w` x `h`:
/// its tiles and its grid slots.
pub open spec fn grid_level(seed: u64, w: int, h: int) -> (Seq<Tile>, Seq<Option<Room>>) {
    let (occ, s1) = occupied_cells(seeded(seed));
    let (t, slots, s2) = place_rooms(w, h, occ, solid(w * h), no_rooms(), s1, 0);
    let (edges, s3) = corridor_plan(occ, s2);
    (carve_corridors(t, w, slots, edges, s3, 0).0, slots)
}

/// The extent of the level built for a requested `w` x `h`: the request
/// itself on the grid, grown to the minimum room plus walls otherwise.
pub open spec fn level_size(w: int, h: int) -> (int, int) {
    if grid_size(w, h) {
        (w, h)
    } else {
        (max_int(w, MIN_ROOM_WIDTH + 2), max_int(h, MIN_ROOM_HEIGHT + 2))
    }
}

/// The single-room fallback level: tiles and grid slots.
pub open spec fn tiny_level(w: int, h: int) -> (Seq<Tile>, Seq<Option<Room>>) {
    let (tw, th) = level_size(w, h);
    (carved(solid(tw * th), tw, tiny_room(w, h)), no_rooms().update(0, Some(tiny_room(w, h))))
}

/// The level `generate_sized(seed, w, h)` builds: tiles and grid slots.
pub open spec fn level(seed: u64, w: int, h: int) -> (Seq<Tile>, Seq<Option<Room>>) {
    if grid_size(w, h) {
        grid_level(seed, w, h)
    } else {
        tiny_level(w, h)
    }
}

/// The single-room level for maps too small for the grid: a room filling the
/// whole interior (grown to the minimum room size), recorded in cell 0.
pub open spec fn tiny_room(w: int, h: int) -> Room {
    let tw = max_int(w, MIN_ROOM_WIDTH + 2);
    let th = max_int(h, MIN_ROOM_HEIGHT + 2);
    Room { x0: 1, y0: 1, x1: (tw - 2) as usize, y1: (th - 2) as usize }
}


// ---------------------------------------------------------------------
// Index arithmetic
// ---------------------------------------------------------------------

/// A position inside a `w` x `h` map has an index inside the tile vector.
pub proof fn lemma_index_in(w: int, h: int, x: int, y: int)
    requires
        0 <= x < w,
        0 <= y < h,
    ensures
        0 <= y * w + x < w * h,
        y * w + x < h * w,
{
    assert(y * w + x < w * h) by (nonlinear_arith)
        requires
            0 <= x < w,
            0 <= y < h,
    ;
    assert(0 <= y * w) by (nonlinear_arith)
        requires
            0 <= x < w,
            0 <= y,
    ;
    assert(w * h == h * w) by (nonlinear_arith);
}

/// Distinct positions of a row-major map have distinct indices.
pub proof fn lemma_index_injective(w: int, x1: int, y1: int, x2: int, y2: int)
    requires
        0 <= x1 < w,
        0 <= x2 < w,
        0 <= y1,
        0 <= y2,
        y1 * w + x1 == y2 * w + x2,
    ensures
        x1 == x2,
        y1 == y2,
{
    vstd::arithmetic::div_mod::lemma_fundamental_div_mod_converse(y1 * w + x1, w, y1, x1);
    vstd::arithmetic::div_mod::lemma_fundamental_div_mod_converse(y2 * w + x2, w, y2, x2);
}

// ---------------------------------------------------------------------
// Executable generation
// ---------------------------------------------------------------------

impl Dungeon {
    fn set(&mut self, x: usize, y: usize, tile: Tile)
        requires
            old(self).tiles@.len() == old(self).width * old(self).height,
            x < old(self).width,
            y < old(self).height,
        ensures
            final(self).tiles@ == old(self).tiles@.update(y * old(self).width + x, tile),
            final(self).tiles@.len() == old(self).tiles@.len(),
            final(self).width == old(self).width,
            final(self).height == old(self).height,
            final(self).rooms == old(self).rooms,
    {
        proof {
            lemma_index_in(self.width as int, self.height as int, x as int, y as int);
            assert(self.tiles@.len() == self.tiles.len());
        }
        let i = y * self.width + x;
        self.tiles.set(i, tile);
    }

    /// Only dig through solid rock, so a corridor crossing another
    /// corridor's doorway or a room floor leaves it alone.
    fn dig(&mut self, x: usize, y: usize)
        requires
            old(self).tiles@.len() == old(self).width * old(self).height,
            x < old(self).width,
            y < old(self).height,
        ensures
            final(self).tiles@ == dig_at(old(self).tiles@, y * old(self).width + x),
            final(self).tiles@.len() == old(self).tiles@.len(),
            final(self).width == old(self).width,
            final(self).height == old(self).height,
            final(self).rooms == old(self).rooms,
    {
        proof {
            lemma_index_in(self.width as int, self.height as int, x as int, y as int);
        }
        if self.tile(x, y) == Tile::Wall {
            self.set(x, y, Tile::Corridor);
        }
    }

    /// Dig row `y` from column `a` to column `b`.
    fn dig_row(&mut self, y: usize, a: usize, b: usize)
        requires
            old(self).tiles@.len() == old(self).width * old(self).height,
            b < old(self).width,
            y < old(self).height,
            a <= b + 1,
        ensures
            final(self).tiles@ == dig_row(old(self).tiles@, old(self).width as int, y as int, a as int, b as int),
            final(self).tiles@.len() == old(self).tiles@.len(),
            final(self).width == old(self).width,
            final(self).height == old(self).height,
            final(self).rooms == old(self).rooms,
    {
        let mut x = a;
        while x <= b
            invariant
                self.tiles@.len() == self.width * self.height,
                self.width == old(self).width,
                self.height == old(self).height,
                self.rooms == old(self).rooms,
                b < self.width,
                y < self.height,
                a <= x <= b + 1,
                dig_row(self.tiles@, self.width as int, y as int, x as int, b as int) == dig_row(
                    old(self).tiles@,
                    old(self).width as int,
                    y as int,
                    a as int,
                    b as int,
                ),
            decreases b + 1 - x,
        {
            proof {
                lemma_index_in(self.width as int, self.height as int, x as int, y as int);
            }
            self.dig(x, y);
            x = x + 1;
        }
    }

    /// Dig column `x` from row `a` to row `b`.
    fn dig_col(&mut self, x: usize, a: usize, b: usize)
        requires
            old(self).tiles@.len() == old(self).width * old(self).height,
            x < old(self).width,
            b < old(self).height,
            a <= b + 1,
        ensures
            final(self).tiles@ == dig_col(old(self).tiles@, old(self).width as int, x as int, a as int, b as int),
            final(self).tiles@.len() == old(self).tiles@.len(),
            final(self).width == old(self).width,
            final(self).height == old(self).height,
            final(self).rooms == old(self).rooms,
    {
        let mut y = a;
        while y <= b
            invariant
                self.tiles@.len() == self.width * self.height,
                self.width == old(self).width,
                self.height == old(self).height,
                self.rooms == old(self).rooms,
                x < self.width,
                b < self.height,
                a <= y <= b + 1,
                dig_col(self.tiles@, self.width as int, x as int, y as int, b as int) == dig_col(
                    old(self).tiles@,
                    old(self).width as int,
                    x as int,
                    a as int,
                    b as int,
                ),
            decreases b + 1 - y,
        {
            proof {
                lemma_index_in(self.width as int, self.height as int, x as int, y as int);
            }
            self.dig(x, y);
            y = y + 1;
        }
    }

    /// Floor inside `room`, wall on its ring.
    fn carve_room(&mut self, room: &Room)
        requires
            old(self).tiles@.len() == old(self).width * old(self).height,
            1 <= room.x0 <= room.x1,
            room.x1 + 1 < old(self).width,
            1 <= room.y0 <= room.y1,
            room.y1 + 1 < old(self).height,
        ensures
            final(self).tiles@ == carved(old(self).tiles@, old(self).width as int, *room),
            final(self).tiles@.len() == old(self).tiles@.len(),
            final(self).width == old(self).width,
            final(self).height == old(self).height,
            final(self).rooms == old(self).rooms,
    {
        let mut y = room.y0 - 1;
        while y <= room.y1 + 1
            invariant
                self.tiles@.len() == self.width * self.height,
                self.width == old(self).width,
                self.height == old(self).height,
                self.rooms == old(self).rooms,
                1 <= room.x0 <= room.x1,
                room.x1 + 1 < self.width,
                1 <= room.y0 <= room.y1,
                room.y1 + 1 < self.height,
                room.y0 - 1 <= y <= room.y1 + 2,
                carve_rows(self.tiles@, self.width as int, *room, y as int) == carved(
                    old(self).tiles@,
                    old(self).width as int,
                    *room,
                ),
            decreases room.y1 + 2 - y,
        {
            let mut x = room.x0 - 1;
            while x <= room.x1 + 1
                invariant
                    self.tiles@.len() == self.width * self.height,
                    self.width == old(self).width,
                    self.height == old(self).height,
                    self.rooms == old(self).rooms,
                    1 <= room.x0 <= room.x1,
                    room.x1 + 1 < self.width,
                    1 <= room.y0 <= room.y1,
                    room.y1 + 1 < self.height,
                    room.y0 - 1 <= y <= room.y1 + 1,
                    room.x0 - 1 <= x <= room.x1 + 2,
                    carve_rows(
                        carve_row(self.tiles@, self.width as int, *room, y as int, x as int),
                        self.width as int,
                        *room,
                        y + 1,
                    ) == carved(old(self).tiles@, old(self).width as int, *room),
                decreases room.x1 + 2 - x,
            {
                proof {
                    lemma_index_in(self.width as int, self.height as int, x as int, y as int);
                }
                let inside = room.y0 <= y && y <= room.y1 && room.x0 <= x && x <= room.x1;
                self.set(x, y, if inside { Tile::Floor } else { Tile::Wall });
                x = x + 1;
            }
            y = y + 1;
        }
    }
}


impl Dungeon {
    /// The bounds a room in `cell` must stay inside, as inclusive interior
    /// limits `(x0, y0, x1, y1)`.
    pub fn cell_interior_bounds(&self, cell: usize) -> (r: (usize, usize, usize, usize))
        requires
            cell < GRID_CELLS,
            3 * self.width <= usize::MAX,
            3 * self.height <= usize::MAX,
            ((cell % 3) + 1) * self.width / 3 >= 3,
            ((cell / 3) + 1) * self.height / 3 >= 3,
        ensures
            (r.0 as int, r.1 as int, r.2 as int, r.3 as int) == cell_bounds(
                self.width as int,
                self.height as int,
                cell as int,
            ),
    {
        let col = cell % GRID_COLS;
        let row = cell / GRID_COLS;
        proof {
            let w = self.width as int;
            let h = self.height as int;
            assert(col * w <= 3 * w && (col + 1) * w <= 3 * w) by (nonlinear_arith)
                requires
                    0 <= col < 3,
                    0 <= w,
            ;
            assert(row * h <= 3 * h && (row + 1) * h <= 3 * h) by (nonlinear_arith)
                requires
                    0 <= row < 3,
                    0 <= h,
            ;
            assert(col * w / 3 <= w && row * h / 3 <= h) by (nonlinear_arith)
                requires
                    0 <= col < 3,
                    0 <= w,
                    0 <= row < 3,
                    0 <= h,
            ;
        }
        let x_lo = col * self.width / GRID_COLS;
        let x_hi = (col + 1) * self.width / GRID_COLS - 1;
        let y_lo = row * self.height / GRID_ROWS;
        let y_hi = (row + 1) * self.height / GRID_ROWS - 1;
        (x_lo + CELL_MARGIN, y_lo + CELL_MARGIN, x_hi - CELL_MARGIN, y_hi - CELL_MARGIN)
    }

    fn random_room_in_cell(&self, cell: usize, rng: &mut Rng) -> (r: Room)
        requires
            grid_size(self.width as int, self.height as int),
            3 * self.width <= usize::MAX,
            3 * self.height <= usize::MAX,
            cell < GRID_CELLS,
        ensures
            (r, final(rng)@) == room_in_cell(self.width as int, self.height as int, cell as int, old(rng)@),
            room_in_bounds(r, self.width as int, self.height as int, cell as int),
    {
        proof {
            lemma_cell_bounds(self.width as int, self.height as int, cell as int);
        }
        let (x_lo, y_lo, x_hi, y_hi) = self.cell_interior_bounds(cell);
        let w = rng.range(MIN_ROOM_WIDTH, x_hi - x_lo + 1);
        let h = rng.range(MIN_ROOM_HEIGHT, y_hi - y_lo + 1);
        let x0 = rng.range(x_lo, x_hi - w + 1);
        let y0 = rng.range(y_lo, y_hi - h + 1);
        Room { x0, y0, x1: x0 + w - 1, y1: y0 + h - 1 }
    }
}

/// Choose which grid cells hold a room: six to nine of them, the first
/// cells of a shuffled order.
fn pick_occupied_cells(rng: &mut Rng) -> (occupied: Vec<bool>)
    ensures
        (occupied@, final(rng)@) == occupied_cells(old(rng)@),
{
    let room_count = rng.range(6, GRID_CELLS);
    let mut cells: Vec<usize> = Vec::new();
    let mut i: usize = 0;
    while i < GRID_CELLS
        invariant
            i <= GRID_CELLS,
            cells@ == Seq::new(i as nat, |k: int| k as usize),
        decreases GRID_CELLS - i,
    {
        cells.push(i);
        i = i + 1;
        assert(cells@ =~= Seq::new(i as nat, |k: int| k as usize));
    }
    assert(cells@ =~= all_cells());
    let ghost s1 = rng@;
    rng.shuffle(&mut cells);
    proof {
        lemma_shuffled(s1, all_cells());
    }
    let mut occupied: Vec<bool> = Vec::new();
    let mut c: usize = 0;
    while c < GRID_CELLS
        invariant
            c <= GRID_CELLS,
            occupied@ == Seq::new(c as nat, |k: int| false),
        decreases GRID_CELLS - c,
    {
        occupied.push(false);
        c = c + 1;
        assert(occupied@ =~= Seq::new(c as nat, |k: int| false));
    }
    let mut k: usize = 0;
    while k < room_count
        invariant
            6 <= room_count <= GRID_CELLS,
            k <= room_count,
            cells@ == shuffled(s1, all_cells()).1,
            cells@.len() == GRID_CELLS,
            forall|x: usize| all_cells().contains(x) <==> #[trigger] cells@.contains(x),
            occupied@ == Seq::new(GRID_CELLS as nat, |c: int| cells@.take(k as int).contains(c as usize)),
        decreases room_count - k,
    {
        let cell = cells[k];
        assert(cells@.contains(cell));
        assert(cell < GRID_CELLS);
        let ghost prev = occupied@;
        occupied.set(cell, true);
        k = k + 1;
        assert forall|c: int| 0 <= c < GRID_CELLS implies #[trigger] occupied@[c] == cells@.take(
            k as int,
        ).contains(c as usize) by {
            assert(cells@.take(k as int) =~= cells@.take(k - 1).push(cell));
            assert(cells@.take(k as int)[k - 1] == cell);
            assert(occupied@[c] == if c == cell as int { true } else { prev[c] });
            if cells@.take(k - 1).contains(c as usize) {
                let j = choose|j: int| 0 <= j < k - 1 && #[trigger] cells@.take(k - 1)[j] == c as usize;
                assert(cells@.take(k as int)[j] == c as usize);
            }
            if cells@.take(k as int).contains(c as usize) && c as usize != cell {
                let j = choose|j: int| 0 <= j < k && #[trigger] cells@.take(k as int)[j] == c as usize;
                assert(j != k - 1);
                assert(cells@.take(k - 1)[j] == c as usize);
            }
        }
        assert(occupied@ =~= Seq::new(
            GRID_CELLS as nat,
            |c: int| cells@.take(k as int).contains(c as usize),
        ));
    }
    occupied
}


/// A cell a corridor from `cell` may lead to: another occupied cell in the
/// same grid row or column.
pub open spec fn good_link(occ: Seq<bool>, cell: int, n: usize) -> bool {
    &&& n < GRID_CELLS
    &&& occ[n as int]
    &&& n != cell
    &&& ((n as int) / 3 == cell / 3 || (n as int) % 3 == cell % 3)
}

proof fn lemma_scans_left(occ: Seq<bool>, row: int, col: int, c: int)
    requires
        occ.len() == GRID_CELLS,
        0 <= row < 3,
        0 <= col < 3,
        -1 <= c <= 2,
    ensures
        scan_left(occ, row, c) matches Some(n) ==> n < 9 && occ[n as int] && (n as int) / 3 == row
            && (n as int) % 3 <= c,
        scan_up(occ, col, c) matches Some(n) ==> n < 9 && occ[n as int] && (n as int) % 3 == col
            && (n as int) / 3 <= c,
    decreases c + 1,
{
    if c >= 0 {
        lemma_scans_left(occ, row, col, c - 1);
    }
}

proof fn lemma_scans_right(occ: Seq<bool>, row: int, col: int, c: int)
    requires
        occ.len() == GRID_CELLS,
        0 <= row < 3,
        0 <= col < 3,
        0 <= c <= 3,
    ensures
        scan_right(occ, row, c) matches Some(n) ==> n < 9 && occ[n as int] && (n as int) / 3
            == row && (n as int) % 3 >= c,
        scan_down(occ, col, c) matches Some(n) ==> n < 9 && occ[n as int] && (n as int) % 3
            == col && (n as int) / 3 >= c,
    decreases 3 - c,
{
    if c < 3 {
        lemma_scans_right(occ, row, col, c + 1);
    }
}

/// Every neighbor is another occupied cell in the same row or column, and
/// there are at most four of them.
pub proof fn lemma_neighbors(occ: Seq<bool>, cell: int)
    requires
        occ.len() == GRID_CELLS,
        0 <= cell < GRID_CELLS,
    ensures
        neighbors(occ, cell).len() <= 4,
        forall|k: int|
            0 <= k < neighbors(occ, cell).len() ==> good_link(occ, cell, #[trigger] neighbors(occ, cell)[k]),
{
    let col = cell % 3;
    let row = cell / 3;
    lemma_scans_left(occ, row, col, col - 1);
    lemma_scans_left(occ, row, col, row - 1);
    lemma_scans_right(occ, row, col, col + 1);
    lemma_scans_right(occ, row, col, row + 1);
    let s1 = push_some(Seq::empty(), scan_left(occ, row, col - 1));
    let s2 = push_some(s1, scan_up(occ, col, row - 1));
    let s3 = push_some(s2, scan_right(occ, row, col + 1));
    let s4 = push_some(s3, scan_down(occ, col, row + 1));
    assert(forall|k: int| 0 <= k < s1.len() ==> good_link(occ, cell, #[trigger] s1[k]));
    assert(forall|k: int| 0 <= k < s2.len() ==> good_link(occ, cell, #[trigger] s2[k])) by {
        assert forall|k: int| 0 <= k < s2.len() implies good_link(occ, cell, #[trigger] s2[k]) by {
            if k < s1.len() {
                assert(s2[k] == s1[k]);
            }
        }
    }
    assert(forall|k: int| 0 <= k < s3.len() ==> good_link(occ, cell, #[trigger] s3[k])) by {
        assert forall|k: int| 0 <= k < s3.len() implies good_link(occ, cell, #[trigger] s3[k]) by {
            if k < s2.len() {
                assert(s3[k] == s2[k]);
            }
        }
    }
    assert(forall|k: int| 0 <= k < s4.len() ==> good_link(occ, cell, #[trigger] s4[k])) by {
        assert forall|k: int| 0 <= k < s4.len() implies good_link(occ, cell, #[trigger] s4[k]) by {
            if k < s3.len() {
                assert(s4[k] == s3[k]);
            }
        }
    }
}

fn push_opt(v: &mut Vec<usize>, o: Option<usize>)
    ensures
        final(v)@ == push_some(old(v)@, o),
{
    match o {
        Some(c) => v.push(c),
        None => {},
    }
}

fn scan_row_left(occ: &Vec<bool>, row: usize, col: usize) -> (r: Option<usize>)
    requires
        occ@.len() == GRID_CELLS,
        row < 3,
        col < 3,
    ensures
        r == scan_left(occ@, row as int, col - 1),
{
    let mut c = col;
    while c > 0
        invariant
            c <= col < 3,
            row < 3,
            occ@.len() == GRID_CELLS,
            scan_left(occ@, row as int, c - 1) == scan_left(occ@, row as int, col - 1),
        decreases c,
    {
        if occ[row * 3 + c - 1] {
            return Some(row * 3 + c - 1);
        }
        c = c - 1;
    }
    None
}

fn scan_row_right(occ: &Vec<bool>, row: usize, col: usize) -> (r: Option<usize>)
    requires
        occ@.len() == GRID_CELLS,
        row < 3,
        col < 3,
    ensures
        r == scan_right(occ@, row as int, col + 1),
{
    let mut c = col + 1;
    while c < 3
        invariant
            col < c <= 3,
            col < 3,
            row < 3,
            occ@.len() == GRID_CELLS,
            scan_right(occ@, row as int, c as int) == scan_right(occ@, row as int, col + 1),
        decreases 3 - c,
    {
        if occ[row * 3 + c] {
            return Some(row * 3 + c);
        }
        c = c + 1;
    }
    None
}

fn scan_col_up(occ: &Vec<bool>, col: usize, row: usize) -> (r: Option<usize>)
    requires
        occ@.len() == GRID_CELLS,
        row < 3,
        col < 3,
    ensures
        r == scan_up(occ@, col as int, row - 1),
{
    let mut r = row;
    while r > 0
        invariant
            r <= row < 3,
            col < 3,
            occ@.len() == GRID_CELLS,
            scan_up(occ@, col as int, r - 1) == scan_up(occ@, col as int, row - 1),
        decreases r,
    {
        if occ[(r - 1) * 3 + col] {
            return Some((r - 1) * 3 + col);
        }
        r = r - 1;
    }
    None
}

fn scan_col_down(occ: &Vec<bool>, col: usize, row: usize) -> (r: Option<usize>)
    requires
        occ@.len() == GRID_CELLS,
        row < 3,
        col < 3,
    ensures
        r == scan_down(occ@, col as int, row + 1),
{
    let mut r = row + 1;
    while r < 3
        invariant
            row < r <= 3,
            row < 3,
            col < 3,
            occ@.len() == GRID_CELLS,
            scan_down(occ@, col as int, r as int) == scan_down(occ@, col as int, row + 1),
        decreases 3 - r,
    {
        if occ[r * 3 + col] {
            return Some(r * 3 + col);
        }
        r = r + 1;
    }
    None
}

/// Cells that a corridor may join directly: the next occupied cell along a
/// row or column, skipping over gone rooms.
fn cell_neighbors(occupied: &Vec<bool>, cell: usize) -> (out: Vec<usize>)
    requires
        occupied@.len() == GRID_CELLS,
        cell < GRID_CELLS,
    ensures
        out@ == neighbors(occupied@, cell as int),
{
    let col = cell % GRID_COLS;
    let row = cell / GRID_COLS;
    let mut out: Vec<usize> = Vec::new();
    push_opt(&mut out, scan_row_left(occupied, row, col));
    push_opt(&mut out, scan_col_up(occupied, col, row));
    push_opt(&mut out, scan_row_right(occupied, row, col));
    push_opt(&mut out, scan_col_down(occupied, col, row));
    out
}

fn has_link_exec(edges: &Vec<(usize, usize)>, a: usize, b: usize) -> (r: bool)
    ensures
        r == has_link(edges@, a, b),
{
    let mut i: usize = 0;
    while i < edges.len()
        invariant
            i <= edges@.len(),
            forall|j: int| 0 <= j < i ==> #[trigger] edges@[j] != (a, b) && edges@[j] != (b, a),
        decreases edges@.len() - i,
    {
        let (x, y) = edges[i];
        if (x == a && y == b) || (x == b && y == a) {
            assert(edges@[i as int] == (a, b) || edges@[i as int] == (b, a));
            return true;
        }
        i = i + 1;
    }
    false
}


/// The first occupied cell, if any.
fn first_occupied_cell(occupied: &Vec<bool>) -> (r: Option<usize>)
    requires
        occupied@.len() == GRID_CELLS,
    ensures
        r == first_occupied(occupied@, 0),
{
    let mut c: usize = 0;
    while c < GRID_CELLS
        invariant
            c <= GRID_CELLS,
            occupied@.len() == GRID_CELLS,
            first_occupied(occupied@, c as int) == first_occupied(occupied@, 0),
        decreases GRID_CELLS - c,
    {
        if occupied[c] {
            return Some(c);
        }
        c = c + 1;
    }
    None
}

/// The unvisited cells among `nbrs`, in order.
fn unvisited_among(nbrs: &Vec<usize>, in_tree: &Vec<bool>) -> (out: Vec<usize>)
    requires
        forall|k: int| 0 <= k < nbrs@.len() ==> #[trigger] nbrs@[k] < in_tree@.len(),
    ensures
        out@ == nbrs@.filter(unvisited(in_tree@)),
{
    let mut out: Vec<usize> = Vec::new();
    let mut i: usize = 0;
    while i < nbrs.len()
        invariant
            i <= nbrs@.len(),
            forall|k: int| 0 <= k < nbrs@.len() ==> #[trigger] nbrs@[k] < in_tree@.len(),
            out@ == nbrs@.take(i as int).filter(unvisited(in_tree@)),
        decreases nbrs@.len() - i,
    {
        let n = nbrs[i];
        proof {
            reveal_with_fuel(Seq::<_>::filter, 1);
            assert(nbrs@.take(i + 1).drop_last() =~= nbrs@.take(i as int));
        }
        if !in_tree[n] {
            out.push(n);
        }
        i = i + 1;
    }
    assert(nbrs@.take(i as int) =~= nbrs@);
    out
}

/// Pick the corridors to dig: a random spanning tree over the occupied cells
/// (a randomized depth-first walk), plus a few extra links so the level has
/// loops rather than reading as a strict tree.
fn corridor_edges(occupied: &Vec<bool>, rng: &mut Rng) -> (edges: Vec<(usize, usize)>)
    requires
        occupied@.len() == GRID_CELLS,
    ensures
        (edges@, final(rng)@) == corridor_plan(occupied@, old(rng)@),
{
    let mut edges: Vec<(usize, usize)> = Vec::new();
    let start = match first_occupied_cell(occupied) {
        Some(c) => c,
        None => {
            return edges;
        },
    };
    proof {
        assert(start < GRID_CELLS) by {
            lemma_first_occupied(occupied@, 0);
        }
    }
    let mut in_tree: Vec<bool> = Vec::new();
    let mut c: usize = 0;
    while c < GRID_CELLS
        invariant
            c <= GRID_CELLS,
            start < GRID_CELLS,
            in_tree@ == Seq::new(c as nat, |k: int| k == start),
        decreases GRID_CELLS - c,
    {
        in_tree.push(c == start);
        c = c + 1;
        assert(in_tree@ =~= Seq::new(c as nat, |k: int| k == start));
    }
    let mut frontier: Vec<usize> = Vec::new();
    frontier.push(start);
    let ghost target = corridor_plan(occupied@, old(rng)@);
    let ghost s0 = old(rng)@;
    assert(frontier@ =~= seq![start]);
    assert(edges@ =~= Seq::<(usize, usize)>::empty());

    // Randomized depth-first walk: a spanning tree, Rogue-ish winding shape.
    while frontier.len() > 0
        invariant
            occupied@.len() == GRID_CELLS,
            in_tree@.len() == GRID_CELLS,
            forall|k: int| 0 <= k < frontier@.len() ==> #[trigger] frontier@[k] < GRID_CELLS,
            extra_links(
                occupied@,
                spanning_walk(occupied@, in_tree@, frontier@, edges@, rng@).0,
                spanning_walk(occupied@, in_tree@, frontier@, edges@, rng@).1,
                0,
            ) == target,
        decreases in_tree@.len() - count_true(in_tree@), frontier@.len(),
    {
        let cell = frontier[frontier.len() - 1];
        let nbrs = cell_neighbors(occupied, cell);
        proof {
            lemma_neighbors(occupied@, cell as int);
        }
        let mut candidates = unvisited_among(&nbrs, &in_tree);
        if candidates.len() == 0 {
            frontier.pop();
        } else {
            let ghost s = rng@;
            let ghost cands = candidates@;
            rng.shuffle(&mut candidates);
            proof {
                lemma_shuffled(s, cands);
                assert(candidates@.contains(candidates@[0]));
                assert(cands.contains(candidates@[0]));
                let j = choose|j: int| 0 <= j < cands.len() && cands[j] == candidates@[0];
                nbrs@.lemma_filter_pred(unvisited(in_tree@), j);
                nbrs@.lemma_filter_contains_rev(unvisited(in_tree@), candidates@[0]);
                let m = choose|m: int| 0 <= m < nbrs@.len() && nbrs@[m] == candidates@[0];
                assert(good_link(occupied@, cell as int, nbrs@[m]));
                lemma_count_true(in_tree@, candidates@[0] as int);
            }
            let next = candidates[0];
            in_tree.set(next, true);
            edges.push((cell, next));
            frontier.push(next);
        }
    }

    // Extra connections, one in four of the remaining adjacencies.
    let mut cell: usize = 0;
    while cell < GRID_CELLS
        invariant
            cell <= GRID_CELLS,
            occupied@.len() == GRID_CELLS,
            extra_links(occupied@, edges@, rng@, cell as int) == target,
        decreases GRID_CELLS - cell,
    {
        if occupied[cell] {
            let nbrs = cell_neighbors(occupied, cell);
            let mut k: usize = 0;
            while k < nbrs.len()
                invariant
                    k <= nbrs@.len(),
                    cell < GRID_CELLS,
                    occupied@.len() == GRID_CELLS,
                    occupied@[cell as int],
                    nbrs@ == neighbors(occupied@, cell as int),
                    extra_links(
                        occupied@,
                        links_for(edges@, rng@, cell, nbrs@, k as int).0,
                        links_for(edges@, rng@, cell, nbrs@, k as int).1,
                        cell + 1,
                    ) == target,
                decreases nbrs@.len() - k,
            {
                let n = nbrs[k];
                if n > cell {
                    let known = has_link_exec(&edges, cell, n);
                    if !known && rng.chance(1, 4) {
                        edges.push((cell, n));
                    }
                }
                k = k + 1;
            }
        }
        cell = cell + 1;
    }
    edges
}

pub(crate) proof fn lemma_first_occupied(occ: Seq<bool>, c: int)
    requires
        occ.len() == GRID_CELLS,
    ensures
        first_occupied(occ, c) matches Some(n) ==> n < GRID_CELLS && occ[n as int],
    decreases 9 - c,
{
    if 0 <= c < 9 {
        lemma_first_occupied(occ, c + 1);
    }
}


// ---------------------------------------------------------------------
// What carving does, tile by tile
// ---------------------------------------------------------------------

/// Carving one row of a room's box changes exactly the box cells of that
/// row from column `xx` on.
proof fn lemma_carve_row_at(t: Seq<Tile>, w: int, h: int, r: Room, yy: int, xx: int, x: int, y: int)
    requires
        t.len() == w * h,
        1 <= r.x0,
        r.x1 + 1 < w,
        0 <= yy < h,
        r.x0 - 1 <= xx,
        0 <= x < w,
        0 <= y < h,
    ensures
        carve_row(t, w, r, yy, xx).len() == t.len(),
        carve_row(t, w, r, yy, xx)[y * w + x] == if y == yy && xx <= x <= r.x1 + 1 {
            carve_value(r, x, y)
        } else {
            t[y * w + x]
        },
    decreases r.x1 + 2 - xx,
{
    if xx <= r.x1 + 1 {
        lemma_index_in(w, h, xx, yy);
        lemma_index_in(w, h, x, y);
        let t2 = t.update(yy * w + xx, carve_value(r, xx, yy));
        if y * w + x == yy * w + xx {
            lemma_index_injective(w, x, y, xx, yy);
        }
        lemma_carve_row_at(t2, w, h, r, yy, xx + 1, x, y);
    }
}

proof fn lemma_carve_rows_at(t: Seq<Tile>, w: int, h: int, r: Room, yy: int, x: int, y: int)
    requires
        t.len() == w * h,
        1 <= r.x0,
        r.x1 + 1 < w,
        1 <= r.y0,
        r.y1 + 1 < h,
        r.y0 - 1 <= yy,
        0 <= x < w,
        0 <= y < h,
    ensures
        carve_rows(t, w, r, yy).len() == t.len(),
        carve_rows(t, w, r, yy)[y * w + x] == if yy <= y <= r.y1 + 1 && r.x0 - 1 <= x <= r.x1 + 1 {
            carve_value(r, x, y)
        } else {
            t[y * w + x]
        },
    decreases r.y1 + 2 - yy,
{
    if yy <= r.y1 + 1 {
        let t2 = carve_row(t, w, r, yy, r.x0 - 1);
        lemma_carve_row_at(t, w, h, r, yy, r.x0 - 1, x, y);
        lemma_carve_rows_at(t2, w, h, r, yy + 1, x, y);
    }
}

/// Carving a room sets its box: floor inside, wall on the ring, and leaves
/// every other tile alone.
pub proof fn lemma_carved_at(t: Seq<Tile>, w: int, h: int, r: Room, x: int, y: int)
    requires
        t.len() == w * h,
        1 <= r.x0,
        r.x1 + 1 < w,
        1 <= r.y0,
        r.y1 + 1 < h,
        0 <= x < w,
        0 <= y < h,
    ensures
        carved(t, w, r).len() == t.len(),
        carved(t, w, r)[y * w + x] == if in_room_box(r, x, y) {
            carve_value(r, x, y)
        } else {
            t[y * w + x]
        },
{
    lemma_carve_rows_at(t, w, h, r, r.y0 - 1, x, y);
}

/// Digging never changes a tile that is not solid rock.
pub(crate) proof fn lemma_dig_at(t: Seq<Tile>, j: int, i: int)
    requires
        0 <= j < t.len(),
        0 <= i < t.len(),
    ensures
        dig_at(t, j).len() == t.len(),
        t[i] != Tile::Wall ==> dig_at(t, j)[i] == t[i],
        dig_at(t, j)[i] != Tile::Wall ==> t[i] != Tile::Wall || i == j,
        i != j ==> dig_at(t, j)[i] == t[i],
{
}

proof fn lemma_dig_row_keeps(t: Seq<Tile>, w: int, h: int, y: int, a: int, b: int, i: int)
    requires
        t.len() == w * h,
        0 <= y < h,
        0 <= a,
        b < w,
        0 <= i < t.len(),
    ensures
        dig_row(t, w, y, a, b).len() == t.len(),
        t[i] != Tile::Wall ==> dig_row(t, w, y, a, b)[i] == t[i],
    decreases b + 1 - a,
{
    if a <= b {
        lemma_index_in(w, h, a, y);
        lemma_dig_at(t, y * w + a, i);
        lemma_dig_row_keeps(dig_at(t, y * w + a), w, h, y, a + 1, b, i);
    }
}

proof fn lemma_dig_col_keeps(t: Seq<Tile>, w: int, h: int, x: int, a: int, b: int, i: int)
    requires
        t.len() == w * h,
        0 <= x < w,
        0 <= a,
        b < h,
        0 <= i < t.len(),
    ensures
        dig_col(t, w, x, a, b).len() == t.len(),
        t[i] != Tile::Wall ==> dig_col(t, w, x, a, b)[i] == t[i],
    decreases b + 1 - a,
{
    if a <= b {
        lemma_index_in(w, h, x, a);
        lemma_dig_at(t, a * w + x, i);
        lemma_dig_col_keeps(dig_at(t, a * w + x), w, h, x, a + 1, b, i);
    }
}

/// Rooms in different cells keep apart: one room's box (interior plus wall
/// ring) never reaches into another room's interior, so they never overlap.
pub proof fn lemma_rooms_apart(w: int, h: int, c1: int, c2: int, r1: Room, r2: Room)
    requires
        grid_size(w, h),
        0 <= c1 < 9,
        0 <= c2 < 9,
        c1 != c2,
        room_in_bounds(r1, w, h, c1),
        room_in_bounds(r2, w, h, c2),
    ensures
        forall|x: int, y: int| in_room_box(r1, x, y) ==> !in_room(r2, x, y),
        !crate::map::rooms_overlap(r1, r2),
{
    lemma_cells_apart(w, h, c1, c2);
    lemma_cells_apart(w, h, c2, c1);
    assert(c1 % 3 != c2 % 3 || c1 / 3 != c2 / 3);
}

/// The grid slots hold a room in bounds for exactly the occupied cells
/// among the first `n`.
pub open spec fn slots_placed(slots: Seq<Option<Room>>, occ: Seq<bool>, w: int, h: int, n: int) -> bool {
    &&& slots.len() == GRID_CELLS
    &&& forall|c: int|
        0 <= c < GRID_CELLS ==> ((#[trigger] slots[c]) is Some <==> (c < n && occ[c]))
    &&& forall|c: int|
        0 <= c < GRID_CELLS && (#[trigger] slots[c]) is Some ==> room_in_bounds(slots[c]->0, w, h, c)
}

/// Every recorded room's interior is floor.
pub open spec fn floors_kept(t: Seq<Tile>, w: int, slots: Seq<Option<Room>>) -> bool {
    forall|c: int, x: int, y: int|
        0 <= c < GRID_CELLS && (#[trigger] slots[c]) is Some && in_room(slots[c]->0, x, y)
            ==> #[trigger] t[y * w + x] == Tile::Floor
}

pub(crate) proof fn lemma_room_inside(w: int, h: int, c: int, r: Room)
    requires
        grid_size(w, h),
        0 <= c < 9,
        room_in_bounds(r, w, h, c),
    ensures
        room_fits(r, w, h),
        1 <= r.x0 <= r.x1,
        r.x1 + 3 <= w,
        1 <= r.y0 <= r.y1,
        r.y1 + 3 <= h,
{
    lemma_cell_bounds(w, h, c);
}

/// Placing a room in the next cell keeps the earlier rooms' floors and
/// makes the new room's interior floor.
proof fn lemma_place_room_step(
    w: int,
    h: int,
    occ: Seq<bool>,
    t: Seq<Tile>,
    slots: Seq<Option<Room>>,
    cell: int,
    r: Room,
)
    requires
        grid_size(w, h),
        t.len() == w * h,
        occ.len() == GRID_CELLS,
        0 <= cell < 9,
        occ[cell],
        slots_placed(slots, occ, w, h, cell),
        floors_kept(t, w, slots),
        room_in_bounds(r, w, h, cell),
    ensures
        carved(t, w, r).len() == t.len(),
        slots_placed(slots.update(cell, Some(r)), occ, w, h, cell + 1),
        floors_kept(carved(t, w, r), w, slots.update(cell, Some(r))),
{
    lemma_room_inside(w, h, cell, r);
    let t2 = carved(t, w, r);
    let s2 = slots.update(cell, Some(r));
    lemma_carved_at(t, w, h, r, 0, 0);
    assert forall|c: int, x: int, y: int|
        0 <= c < GRID_CELLS && (#[trigger] s2[c]) is Some && in_room(s2[c]->0, x, y) implies #[trigger] t2[y * w + x]
        == Tile::Floor by {
        let q = s2[c]->0;
        lemma_room_inside(w, h, c, q);
        lemma_carved_at(t, w, h, r, x, y);
        if c != cell {
            lemma_rooms_apart(w, h, cell, c, r, q);
        }
    }
}

/// Placing the rooms of cells `cell..9` keeps the slot and floor facts.
pub(crate) proof fn lemma_place_rooms(
    w: int,
    h: int,
    occ: Seq<bool>,
    t: Seq<Tile>,
    slots: Seq<Option<Room>>,
    s: u64,
    cell: int,
)
    requires
        grid_size(w, h),
        t.len() == w * h,
        w * h <= usize::MAX,
        occ.len() == GRID_CELLS,
        0 <= cell <= 9,
        slots_placed(slots, occ, w, h, cell),
        floors_kept(t, w, slots),
    ensures
        ({
            let (t2, s2, _) = place_rooms(w, h, occ, t, slots, s, cell);
            t2.len() == w * h && slots_placed(s2, occ, w, h, 9) && floors_kept(t2, w, s2)
        }),
    decreases 9 - cell,
{
    if cell < 9 {
        if occ[cell] {
            assert(w <= usize::MAX && h <= usize::MAX) by {
                assert(w * h >= w && w * h >= h) by (nonlinear_arith)
                    requires
                        w >= 24,
                        h >= 18,
                ;
            }
            let (r, s2) = room_in_cell(w, h, cell, s);
            lemma_room_in_cell(w, h, cell, s);
            lemma_place_room_step(w, h, occ, t, slots, cell, r);
            lemma_place_rooms(w, h, occ, carved(t, w, r), slots.update(cell, Some(r)), s2, cell + 1);
        } else {
            assert(slots_placed(slots, occ, w, h, cell + 1));
            lemma_place_rooms(w, h, occ, t, slots, s, cell + 1);
        }
    }
}

/// A drawn room stays inside its cell's limits.
pub(crate) proof fn lemma_room_in_cell(w: int, h: int, cell: int, s: u64)
    requires
        grid_size(w, h),
        w <= usize::MAX,
        h <= usize::MAX,
        0 <= cell < 9,
    ensures
        room_in_bounds(room_in_cell(w, h, cell, s).0, w, h, cell),
{
    lemma_cell_bounds(w, h, cell);
    let (xl, yl, xh, yh) = cell_bounds(w, h, cell);
    let s1 = next_state(s);
    let s2 = next_state(s1);
    let s3 = next_state(s2);
    lemma_range_value(s, MIN_ROOM_WIDTH as nat, (xh - xl + 1) as nat);
    lemma_range_value(s1, MIN_ROOM_HEIGHT as nat, (yh - yl + 1) as nat);
    let rw = range_value(s, MIN_ROOM_WIDTH as nat, (xh - xl + 1) as nat) as int;
    let rh = range_value(s1, MIN_ROOM_HEIGHT as nat, (yh - yl + 1) as nat) as int;
    lemma_range_value(s2, xl as nat, (xh - rw + 1) as nat);
    lemma_range_value(s3, yl as nat, (yh - rh + 1) as nat);
}


/// A write at `(dx, dy)`, a spot on the box of the room in cell `c0` but not
/// in its interior, keeps every room's floor.
proof fn lemma_write_keeps_floors(
    t: Seq<Tile>,
    w: int,
    h: int,
    slots: Seq<Option<Room>>,
    occ: Seq<bool>,
    c0: int,
    dx: int,
    dy: int,
    v: Tile,
)
    requires
        grid_size(w, h),
        t.len() == w * h,
        slots_placed(slots, occ, w, h, 9),
        floors_kept(t, w, slots),
        0 <= c0 < 9,
        slots[c0] is Some,
        in_room_box(slots[c0]->0, dx, dy),
        !in_room(slots[c0]->0, dx, dy),
        0 <= dx < w,
        0 <= dy < h,
    ensures
        floors_kept(t.update(dy * w + dx, v), w, slots),
{
    let t2 = t.update(dy * w + dx, v);
    assert forall|c: int, x: int, y: int|
        0 <= c < GRID_CELLS && (#[trigger] slots[c]) is Some && in_room(slots[c]->0, x, y) implies #[trigger] t2[y * w + x]
        == Tile::Floor by {
        let q = slots[c]->0;
        lemma_room_inside(w, h, c, q);
        lemma_index_in(w, h, x, y);
        lemma_index_in(w, h, dx, dy);
        if c != c0 {
            lemma_rooms_apart(w, h, c0, c, slots[c0]->0, q);
        }
        if y * w + x == dy * w + dx {
            lemma_index_injective(w, x, y, dx, dy);
        }
    }
}

proof fn lemma_dig_row_floors(t: Seq<Tile>, w: int, h: int, slots: Seq<Option<Room>>, occ: Seq<bool>, y: int, a: int, b: int)
    requires
        grid_size(w, h),
        t.len() == w * h,
        slots_placed(slots, occ, w, h, 9),
        floors_kept(t, w, slots),
        0 <= y < h,
        0 <= a,
        b < w,
    ensures
        dig_row(t, w, y, a, b).len() == t.len(),
        floors_kept(dig_row(t, w, y, a, b), w, slots),
{
    lemma_index_in(w, h, 0, 0);
    lemma_dig_row_keeps(t, w, h, y, a, b, 0);
    let t2 = dig_row(t, w, y, a, b);
    assert forall|c: int, x: int, yy: int|
        0 <= c < GRID_CELLS && (#[trigger] slots[c]) is Some && in_room(slots[c]->0, x, yy) implies #[trigger] t2[yy * w + x]
        == Tile::Floor by {
        lemma_room_inside(w, h, c, slots[c]->0);
        lemma_index_in(w, h, x, yy);
        lemma_dig_row_keeps(t, w, h, y, a, b, yy * w + x);
    }
}

proof fn lemma_dig_col_floors(t: Seq<Tile>, w: int, h: int, slots: Seq<Option<Room>>, occ: Seq<bool>, x: int, a: int, b: int)
    requires
        grid_size(w, h),
        t.len() == w * h,
        slots_placed(slots, occ, w, h, 9),
        floors_kept(t, w, slots),
        0 <= x < w,
        0 <= a,
        b < h,
    ensures
        dig_col(t, w, x, a, b).len() == t.len(),
        floors_kept(dig_col(t, w, x, a, b), w, slots),
{
    lemma_index_in(w, h, 0, 0);
    lemma_dig_col_keeps(t, w, h, x, a, b, 0);
    let t2 = dig_col(t, w, x, a, b);
    assert forall|c: int, xx: int, yy: int|
        0 <= c < GRID_CELLS && (#[trigger] slots[c]) is Some && in_room(slots[c]->0, xx, yy) implies #[trigger] t2[yy * w + xx]
        == Tile::Floor by {
        lemma_room_inside(w, h, c, slots[c]->0);
        lemma_index_in(w, h, xx, yy);
        lemma_dig_col_keeps(t, w, h, x, a, b, yy * w + xx);
    }
}

/// Two cells a corridor may join: distinct occupied cells in one grid row
/// or column.
pub open spec fn joinable(slots: Seq<Option<Room>>, a: int, b: int) -> bool {
    &&& 0 <= a < 9
    &&& 0 <= b < 9
    &&& a != b
    &&& (a / 3 == b / 3 || a % 3 == b % 3)
    &&& slots[a] is Some
    &&& slots[b] is Some
}

/// Rooms in two joinable cells of one grid row leave a gap of at least four
/// columns; of one grid column, at least four rows.
pub(crate) proof fn lemma_joinable_gap(w: int, h: int, slots: Seq<Option<Room>>, occ: Seq<bool>, a: int, b: int)
    requires
        grid_size(w, h),
        slots_placed(slots, occ, w, h, 9),
        joinable(slots, a, b),
    ensures
        ({
            let ra = slots[a]->0;
            let rb = slots[b]->0;
            &&& a / 3 == b / 3 ==> (if ra.x0 < rb.x0 { ra.x1 + 5 <= rb.x0 } else { rb.x1 + 5 <= ra.x0 })
            &&& a / 3 != b / 3 ==> (if ra.y0 < rb.y0 { ra.y1 + 5 <= rb.y0 } else { rb.y1 + 5 <= ra.y0 })
        }),
{
    lemma_cells_apart(w, h, a, b);
    lemma_cells_apart(w, h, b, a);
    lemma_room_inside(w, h, a, slots[a]->0);
    lemma_room_inside(w, h, b, slots[b]->0);
}

/// Digging a corridor keeps every room's floor.
pub(crate) proof fn lemma_corridor_floors(
    t: Seq<Tile>,
    w: int,
    h: int,
    slots: Seq<Option<Room>>,
    occ: Seq<bool>,
    a: int,
    b: int,
    s: u64,
)
    requires
        grid_size(w, h),
        t.len() == w * h,
        slots_placed(slots, occ, w, h, 9),
        floors_kept(t, w, slots),
        joinable(slots, a, b),
    ensures
        corridor_tiles(t, w, slots[a]->0, slots[b]->0, a / 3 == b / 3, s).0.len() == t.len(),
        floors_kept(corridor_tiles(t, w, slots[a]->0, slots[b]->0, a / 3 == b / 3, s).0, w, slots),
{
    let ra = slots[a]->0;
    let rb = slots[b]->0;
    lemma_joinable_gap(w, h, slots, occ, a, b);
    lemma_room_inside(w, h, a, ra);
    lemma_room_inside(w, h, b, rb);
    let s1 = next_state(s);
    let s2 = next_state(s1);
    if a / 3 == b / 3 {
        let (l, r) = if ra.x0 < rb.x0 { (ra, rb) } else { (rb, ra) };
        let (cl, cr) = if ra.x0 < rb.x0 { (a, b) } else { (b, a) };
        lemma_range_value(s, l.y0 as nat, l.y1 as nat);
        lemma_range_value(s1, r.y0 as nat, r.y1 as nat);
        let ly = range_value(s, l.y0 as nat, l.y1 as nat) as int;
        let ry = range_value(s1, r.y0 as nat, r.y1 as nat) as int;
        let ldx = l.x1 + 1;
        let rdx = r.x0 - 1;
        lemma_range_value(s2, (ldx + 1) as nat, (rdx - 1) as nat);
        let bend = range_value(s2, (ldx + 1) as nat, (rdx - 1) as nat) as int;
        lemma_index_in(w, h, ldx, ly);
        let t0 = t.update(ly * w + ldx, Tile::Door);
        lemma_write_keeps_floors(t, w, h, slots, occ, cl, ldx, ly, Tile::Door);
        lemma_index_in(w, h, rdx, ry);
        let t1 = t0.update(ry * w + rdx, Tile::Door);
        lemma_write_keeps_floors(t0, w, h, slots, occ, cr, rdx, ry, Tile::Door);
        lemma_dig_row_floors(t1, w, h, slots, occ, ly, ldx + 1, bend);
        let t2 = dig_row(t1, w, ly, ldx + 1, bend);
        lemma_dig_col_floors(t2, w, h, slots, occ, bend, min_int(ly, ry), max_int(ly, ry));
        let t3 = dig_col(t2, w, bend, min_int(ly, ry), max_int(ly, ry));
        lemma_dig_row_floors(t3, w, h, slots, occ, ry, bend, rdx - 1);
    } else {
        let (tp, bt) = if ra.y0 < rb.y0 { (ra, rb) } else { (rb, ra) };
        let (ct, cb) = if ra.y0 < rb.y0 { (a, b) } else { (b, a) };
        lemma_range_value(s, tp.x0 as nat, tp.x1 as nat);
        lemma_range_value(s1, bt.x0 as nat, bt.x1 as nat);
        let tx = range_value(s, tp.x0 as nat, tp.x1 as nat) as int;
        let bx = range_value(s1, bt.x0 as nat, bt.x1 as nat) as int;
        let tdy = tp.y1 + 1;
        let bdy = bt.y0 - 1;
        lemma_range_value(s2, (tdy + 1) as nat, (bdy - 1) as nat);
        let bend = range_value(s2, (tdy + 1) as nat, (bdy - 1) as nat) as int;
        lemma_index_in(w, h, tx, tdy);
        lemma_index_in(w, h, bx, bdy);
        let t0 = t.update(tdy * w + tx, Tile::Door);
        lemma_write_keeps_floors(t, w, h, slots, occ, ct, tx, tdy, Tile::Door);
        let t1 = t0.update(bdy * w + bx, Tile::Door);
        lemma_write_keeps_floors(t0, w, h, slots, occ, cb, bx, bdy, Tile::Door);
        lemma_dig_col_floors(t1, w, h, slots, occ, tx, tdy + 1, bend);
        let t2 = dig_col(t1, w, tx, tdy + 1, bend);
        lemma_dig_row_floors(t2, w, h, slots, occ, bend, min_int(tx, bx), max_int(tx, bx));
        let t3 = dig_row(t2, w, bend, min_int(tx, bx), max_int(tx, bx));
        lemma_dig_col_floors(t3, w, h, slots, occ, bx, bend, bdy - 1);
    }
}

/// Every planned link starts at an occupied cell and joins it to another
/// occupied cell in its grid row or column.
pub open spec fn links_good(occ: Seq<bool>, edges: Seq<(usize, usize)>) -> bool {
    forall|i: int|
        0 <= i < edges.len() ==> {
            let (a, b) = #[trigger] edges[i];
            a < GRID_CELLS && occ[a as int] && good_link(occ, a as int, b)
        }
}

proof fn lemma_walk_links(
    occ: Seq<bool>,
    in_tree: Seq<bool>,
    frontier: Seq<usize>,
    edges: Seq<(usize, usize)>,
    s: u64,
)
    requires
        occ.len() == GRID_CELLS,
        links_good(occ, edges),
        forall|k: int| 0 <= k < frontier.len() ==> #[trigger] frontier[k] < GRID_CELLS && occ[frontier[k] as int],
    ensures
        links_good(occ, spanning_walk(occ, in_tree, frontier, edges, s).0),
    decreases in_tree.len() - count_true(in_tree), frontier.len(),
{
    if frontier.len() > 0 {
        let cell = frontier.last();
        let candidates = fresh_neighbors(occ, in_tree, cell as int);
        if candidates.len() == 0 {
            lemma_walk_links(occ, in_tree, frontier.drop_last(), edges, s);
        } else {
            let (s2, order) = shuffled(s, candidates);
            let next = order[0];
            lemma_shuffled(s, candidates);
            assert(order.contains(next));
            assert(candidates.contains(next));
            neighbors(occ, cell as int).lemma_filter_contains_rev(unvisited(in_tree), next);
            lemma_neighbors(occ, cell as int);
            let m = choose|m: int| 0 <= m < neighbors(occ, cell as int).len() && neighbors(occ, cell as int)[m] == next;
            assert(good_link(occ, cell as int, neighbors(occ, cell as int)[m]));
            if next < in_tree.len() && !in_tree[next as int] {
                lemma_count_true(in_tree, next as int);
                let e2 = edges.push((cell, next));
                let f2 = frontier.push(next);
                assert(links_good(occ, e2)) by {
                    assert forall|i: int| 0 <= i < e2.len() implies {
                        let (a, b) = #[trigger] e2[i];
                        a < GRID_CELLS && occ[a as int] && good_link(occ, a as int, b)
                    } by {
                        if i < edges.len() {
                            assert(e2[i] == edges[i]);
                        }
                    }
                }
                assert forall|k: int| 0 <= k < f2.len() implies #[trigger] f2[k] < GRID_CELLS && occ[f2[k] as int] by {
                    if k < frontier.len() {
                        assert(f2[k] == frontier[k]);
                    }
                }
                lemma_walk_links(occ, in_tree.update(next as int, true), f2, e2, s2);
            }
        }
    }
}

proof fn lemma_links_for(occ: Seq<bool>, edges: Seq<(usize, usize)>, s: u64, cell: usize, k: int)
    requires
        occ.len() == GRID_CELLS,
        cell < GRID_CELLS,
        occ[cell as int],
        links_good(occ, edges),
    ensures
        links_good(occ, links_for(edges, s, cell, neighbors(occ, cell as int), k).0),
    decreases neighbors(occ, cell as int).len() - k,
{
    let nbrs = neighbors(occ, cell as int);
    if 0 <= k < nbrs.len() {
        let n = nbrs[k];
        lemma_neighbors(occ, cell as int);
        assert(good_link(occ, cell as int, n));
        if n <= cell || has_link(edges, cell, n) {
            lemma_links_for(occ, edges, s, cell, k + 1);
        } else {
            let e2 = edges.push((cell, n));
            assert(links_good(occ, e2)) by {
                assert forall|i: int| 0 <= i < e2.len() implies {
                    let (a, b) = #[trigger] e2[i];
                    a < GRID_CELLS && occ[a as int] && good_link(occ, a as int, b)
                } by {
                    if i < edges.len() {
                        assert(e2[i] == edges[i]);
                    }
                }
            }
            lemma_links_for(occ, e2, next_state(s), cell, k + 1);
            lemma_links_for(occ, edges, next_state(s), cell, k + 1);
        }
    }
}

proof fn lemma_extra_links(occ: Seq<bool>, edges: Seq<(usize, usize)>, s: u64, cell: int)
    requires
        occ.len() == GRID_CELLS,
        0 <= cell,
        links_good(occ, edges),
    ensures
        links_good(occ, extra_links(occ, edges, s, cell).0),
    decreases 9 - cell,
{
    if cell < 9 {
        if !occ[cell] {
            lemma_extra_links(occ, edges, s, cell + 1);
        } else {
            lemma_links_for(occ, edges, s, cell as usize, 0);
            let (e2, s2) = links_for(edges, s, cell as usize, neighbors(occ, cell), 0);
            lemma_extra_links(occ, e2, s2, cell + 1);
        }
    }
}

/// Every planned corridor joins two occupied cells in one grid row or
/// column.
pub proof fn lemma_plan_links(occ: Seq<bool>, s: u64)
    requires
        occ.len() == GRID_CELLS,
    ensures
        links_good(occ, corridor_plan(occ, s).0),
{
    lemma_first_occupied(occ, 0);
    match first_occupied(occ, 0) {
        None => {},
        Some(start) => {
            let in_tree = Seq::new(GRID_CELLS as nat, |c: int| c == start);
            lemma_walk_links(occ, in_tree, seq![start], Seq::empty(), s);
            let (tree, s2) = spanning_walk(occ, in_tree, seq![start], Seq::empty(), s);
            lemma_extra_links(occ, tree, s2, 0);
        },
    }
}


/// `n` tiles of solid rock.
fn solid_tiles(n: usize) -> (v: Vec<Tile>)
    ensures
        v@ == solid(n as int),
{
    let mut v: Vec<Tile> = Vec::new();
    let mut i: usize = 0;
    while i < n
        invariant
            i <= n,
            v@ == solid(i as int),
        decreases n - i,
    {
        v.push(Tile::Wall);
        i = i + 1;
        assert(v@ =~= solid(i as int));
    }
    v
}

impl Dungeon {
    /// Join the rooms of two cells in one grid row (or column) with an
    /// orthogonal corridor: out of a door, along, one bend, and in the far
    /// door.
    fn carve_corridor(&mut self, cell_a: usize, cell_b: usize, rng: &mut Rng, Ghost(occ): Ghost<Seq<bool>>)
        requires
            grid_size(old(self).width as int, old(self).height as int),
            old(self).tiles@.len() == old(self).width * old(self).height,
            slots_placed(old(self).rooms@, occ, old(self).width as int, old(self).height as int, 9),
            joinable(old(self).rooms@, cell_a as int, cell_b as int),
        ensures
            (final(self).tiles@, final(rng)@) == corridor_tiles(
                old(self).tiles@,
                old(self).width as int,
                old(self).rooms@[cell_a as int]->0,
                old(self).rooms@[cell_b as int]->0,
                cell_a / 3 == cell_b / 3,
                old(rng)@,
            ),
            final(self).width == old(self).width,
            final(self).height == old(self).height,
            final(self).rooms == old(self).rooms,
    {
        let a = self.rooms[cell_a].unwrap();
        let b = self.rooms[cell_b].unwrap();
        proof {
            lemma_joinable_gap(self.width as int, self.height as int, self.rooms@, occ, cell_a as int, cell_b as int);
            lemma_room_inside(self.width as int, self.height as int, cell_a as int, a);
            lemma_room_inside(self.width as int, self.height as int, cell_b as int, b);
        }
        if cell_a / GRID_COLS == cell_b / GRID_COLS {
            // Same grid row: run left to right.
            let (left, right) = if a.x0 < b.x0 { (a, b) } else { (b, a) };
            let ly = rng.range(left.y0, left.y1);
            let ry = rng.range(right.y0, right.y1);
            let left_door_x = left.x1 + 1;
            let right_door_x = right.x0 - 1;
            let bend_x = rng.range(left_door_x + 1, right_door_x - 1);
            self.set(left_door_x, ly, Tile::Door);
            self.set(right_door_x, ry, Tile::Door);
            self.dig_row(ly, left_door_x + 1, bend_x);
            let (lo, hi) = if ly <= ry { (ly, ry) } else { (ry, ly) };
            self.dig_col(bend_x, lo, hi);
            self.dig_row(ry, bend_x, right_door_x - 1);
        } else {
            // Same grid column: run top to bottom.
            let (top, bottom) = if a.y0 < b.y0 { (a, b) } else { (b, a) };
            let tx = rng.range(top.x0, top.x1);
            let bx = rng.range(bottom.x0, bottom.x1);
            let top_door_y = top.y1 + 1;
            let bottom_door_y = bottom.y0 - 1;
            let bend_y = rng.range(top_door_y + 1, bottom_door_y - 1);
            self.set(tx, top_door_y, Tile::Door);
            self.set(bx, bottom_door_y, Tile::Door);
            self.dig_col(tx, top_door_y + 1, bend_y);
            let (lo, hi) = if tx <= bx { (tx, bx) } else { (bx, tx) };
            self.dig_row(bend_y, lo, hi);
            self.dig_col(bx, bend_y, bottom_door_y - 1);
        }
    }
}


impl Dungeon {
    /// Generate a level with the default 80x24 extent.
    pub fn generate(seed: u64) -> (d: Dungeon)
        ensures
            d.wf(),
            d.width == MAP_WIDTH,
            d.height == MAP_HEIGHT,
            (d.cells(), d.slots()) == level(seed, MAP_WIDTH as int, MAP_HEIGHT as int),
    {
        assert(level_size(MAP_WIDTH as int, MAP_HEIGHT as int) == (80int, 24int));
        Dungeon::generate_sized(seed, MAP_WIDTH, MAP_HEIGHT)
    }

    /// Generate a `width` x `height` level from `seed`. Sizes below the 3x3
    /// grid's minimum get the single-room fallback.
    pub fn generate_sized(seed: u64, width: usize, height: usize) -> (d: Dungeon)
        requires
            level_size(width as int, height as int).0 * level_size(width as int, height as int).1
                <= usize::MAX,
        ensures
            d.wf(),
            (d.width as int, d.height as int) == level_size(width as int, height as int),
            (d.cells(), d.slots()) == level(seed, width as int, height as int),
    {
        let min_width = GRID_COLS * (MIN_ROOM_WIDTH + 2 * CELL_MARGIN);
        let min_height = GRID_ROWS * (MIN_ROOM_HEIGHT + 2 * CELL_MARGIN);
        if width < min_width || height < min_height {
            return Dungeon::generate_tiny(seed, width, height);
        }
        let ghost w = width as int;
        let ghost h = height as int;
        proof {
            assert(3 * w <= w * h && 3 * h <= w * h) by (nonlinear_arith)
                requires
                    w >= 24,
                    h >= 18,
            ;
        }
        let mut rng = Rng::new(seed);
        let mut dungeon = Dungeon {
            width,
            height,
            tiles: solid_tiles(width * height),
            rooms: crate::map::empty_slots(),
        };
        assert(dungeon.rooms@ =~= no_rooms());
        let occupied = pick_occupied_cells(&mut rng);
        let ghost occ = occupied@;
        let ghost s1 = rng@;
        let ghost target = place_rooms(w, h, occ, solid(w * h), no_rooms(), s1, 0);
        proof {
            assert(floors_kept(dungeon.tiles@, w, dungeon.rooms@));
            assert(slots_placed(dungeon.rooms@, occ, w, h, 0));
        }
        let mut cell: usize = 0;
        while cell < GRID_CELLS
            invariant
                cell <= GRID_CELLS,
                dungeon.width == width,
                dungeon.height == height,
                w == width,
                h == height,
                grid_size(w, h),
                w * h <= usize::MAX,
                3 * w <= usize::MAX,
                3 * h <= usize::MAX,
                occupied@ == occ,
                occ.len() == GRID_CELLS,
                dungeon.tiles@.len() == w * h,
                slots_placed(dungeon.rooms@, occ, w, h, cell as int),
                floors_kept(dungeon.tiles@, w, dungeon.rooms@),
                place_rooms(w, h, occ, dungeon.tiles@, dungeon.rooms@, rng@, cell as int) == target,
            decreases GRID_CELLS - cell,
        {
            if occupied[cell] {
                let room = dungeon.random_room_in_cell(cell, &mut rng);
                proof {
                    lemma_place_room_step(w, h, occ, dungeon.tiles@, dungeon.rooms@, cell as int, room);
                    lemma_room_inside(w, h, cell as int, room);
                }
                dungeon.rooms.set(cell, Some(room));
                dungeon.carve_room(&room);
            } else {
                assert(slots_placed(dungeon.rooms@, occ, w, h, cell + 1));
            }
            cell = cell + 1;
        }
        let ghost slots = dungeon.rooms@;
        let ghost s2 = rng@;
        let edges = corridor_edges(&occupied, &mut rng);
        proof {
            lemma_plan_links(occ, s2);
        }
        let ghost target2 = carve_corridors(dungeon.tiles@, w, slots, edges@, rng@, 0);
        let mut i: usize = 0;
        while i < edges.len()
            invariant
                i <= edges@.len(),
                dungeon.width == width,
                dungeon.height == height,
                w == width,
                h == height,
                grid_size(w, h),
                occ.len() == GRID_CELLS,
                dungeon.rooms@ == slots,
                dungeon.tiles@.len() == w * h,
                slots_placed(slots, occ, w, h, 9),
                floors_kept(dungeon.tiles@, w, slots),
                links_good(occ, edges@),
                carve_corridors(dungeon.tiles@, w, slots, edges@, rng@, i as int) == target2,
            decreases edges@.len() - i,
        {
            let (a, b) = edges[i];
            proof {
                assert(joinable(slots, a as int, b as int));
                lemma_corridor_floors(dungeon.tiles@, w, h, slots, occ, a as int, b as int, rng@);
            }
            dungeon.carve_corridor(a, b, &mut rng, Ghost(occ));
            i = i + 1;
        }
        proof {
            assert forall|c: int| 0 <= c < GRID_CELLS && (#[trigger] slots[c]) is Some implies room_fits(
                slots[c]->0,
                w,
                h,
            ) by {
                lemma_room_inside(w, h, c, slots[c]->0);
            }
        }
        dungeon
    }

    /// Tiny-map fallback: a single room filling the whole interior, with the
    /// wall ring around it. Room interiors never drop below the minimum
    /// room size. The room is recorded in cell 0, so stair, Amulet, and
    /// monster placement find it like any generated room.
    fn generate_tiny(seed: u64, width: usize, height: usize) -> (d: Dungeon)
        requires
            !grid_size(width as int, height as int),
            level_size(width as int, height as int).0 * level_size(width as int, height as int).1
                <= usize::MAX,
        ensures
            d.wf(),
            (d.width as int, d.height as int) == level_size(width as int, height as int),
            (d.cells(), d.slots()) == tiny_level(width as int, height as int),
    {
        let w = if width >= MIN_ROOM_WIDTH + 2 { width } else { MIN_ROOM_WIDTH + 2 };
        let h = if height >= MIN_ROOM_HEIGHT + 2 { height } else { MIN_ROOM_HEIGHT + 2 };
        let mut dungeon = Dungeon {
            width: w,
            height: h,
            tiles: solid_tiles(w * h),
            rooms: crate::map::empty_slots(),
        };
        let room = Room { x0: 1, y0: 1, x1: w - 2, y1: h - 2 };
        dungeon.rooms.set(0, Some(room));
        dungeon.carve_room(&room);
        proof {
            let ww = w as int;
            let hh = h as int;
            assert(dungeon.rooms@ =~= no_rooms().update(0, Some(room)));
            assert forall|c: int, x: int, y: int|
                0 <= c < GRID_CELLS && (#[trigger] dungeon@.slots()[c]) is Some && in_room(
                    dungeon@.slots()[c]->0,
                    x,
                    y,
                ) implies #[trigger] dungeon@.tile_at(x, y) == Tile::Floor by {
                lemma_carved_at(solid(ww * hh), ww, hh, room, x, y);
            }
            assert forall|c: int|
                0 <= c < GRID_CELLS && (#[trigger] dungeon@.slots()[c]) is Some implies room_fits(
                    dungeon@.slots()[c]->0,
                    ww,
                    hh,
                ) by {
                assert(c == 0);
            }
        }
        dungeon
    }
}


// ---------------------------------------------------------------------
// The rooms of a level
// ---------------------------------------------------------------------

/// On a grid-sized map every recorded room lies inside its own cell's
/// limits, so each cell holds at most one room and it stays inside that
/// cell.
pub proof fn lemma_rooms_in_cells(seed: u64, w: int, h: int)
    requires
        grid_size(w, h),
        w * h <= usize::MAX,
    ensures
        level(seed, w, h).1.len() == GRID_CELLS,
        forall|c: int|
            0 <= c < GRID_CELLS && (#[trigger] level(seed, w, h).1[c]) is Some ==> room_in_bounds(
                level(seed, w, h).1[c]->0,
                w,
                h,
                c,
            ),
{
    let (occ, s1) = occupied_cells(seeded(seed));
    assert(occ.len() == GRID_CELLS);
    assert(slots_placed(no_rooms(), occ, w, h, 0));
    assert(floors_kept(solid(w * h), w, no_rooms()));
    assert(solid(w * h).len() == w * h);
    lemma_place_rooms(w, h, occ, solid(w * h), no_rooms(), s1, 0);
}

/// The rooms of a generated level never overlap: no two of them even
/// share a wall.
pub proof fn lemma_rooms_never_overlap(seed: u64, w: int, h: int, c1: int, c2: int)
    requires
        level_size(w, h).0 * level_size(w, h).1 <= usize::MAX,
        0 <= c1 < GRID_CELLS,
        0 <= c2 < GRID_CELLS,
        c1 != c2,
        level(seed, w, h).1[c1] is Some,
        level(seed, w, h).1[c2] is Some,
    ensures
        !crate::map::rooms_overlap(level(seed, w, h).1[c1]->0, level(seed, w, h).1[c2]->0),
{
    if grid_size(w, h) {
        lemma_rooms_in_cells(seed, w, h);
        let slots = level(seed, w, h).1;
        lemma_rooms_apart(w, h, c1, c2, slots[c1]->0, slots[c2]->0);
    } else {
        assert(level(seed, w, h).1 == no_rooms().update(0, Some(tiny_room(w, h))));
    }
}

/// The extent a build produces is final: building again at that extent
/// gives the same extent and the same level.
pub proof fn lemma_level_at_its_size(seed: u64, w: int, h: int)
    ensures
        level_size(level_size(w, h).0, level_size(w, h).1) == level_size(w, h),
        level(seed, level_size(w, h).0, level_size(w, h).1) == level(seed, w, h),
{
    let (lw, lh) = level_size(w, h);
    if !grid_size(w, h) {
        assert(!grid_size(lw, lh));
        assert(tiny_room(lw, lh) == tiny_room(w, h));
    }
}

// ---------------------------------------------------------------------
// Every level has a room
// ---------------------------------------------------------------------

/// A filled slot puts a room in the list.
pub proof fn lemma_present_nonempty(slots: Seq<Option<Room>>, c: int)
    requires
        0 <= c < slots.len(),
        slots[c] is Some,
    ensures
        present_rooms(slots).len() > 0,
    decreases slots.len(),
{
    if c < slots.len() - 1 {
        lemma_present_nonempty(slots.drop_last(), c);
        lemma_present_len(slots.drop_last());
    }
}

proof fn lemma_present_len(slots: Seq<Option<Room>>)
    ensures
        slots.len() > 0 ==> present_rooms(slots).len() >= present_rooms(slots.drop_last()).len(),
{
}

/// Every generated level records at least one room.
pub proof fn lemma_level_has_room(seed: u64, w: int, h: int)
    requires
        w >= 0,
        h >= 0,
        level_size(w, h).0 * level_size(w, h).1 <= usize::MAX,
    ensures
        present_rooms(level(seed, w, h).1).len() > 0,
{
    if grid_size(w, h) {
        let (occ, s1) = occupied_cells(seeded(seed));
        let count = range_value(seeded(seed), 6, GRID_CELLS as nat) as int;
        lemma_range_value(seeded(seed), 6, GRID_CELLS as nat);
        let order = shuffled(next_state(seeded(seed)), all_cells()).1;
        lemma_shuffled(next_state(seeded(seed)), all_cells());
        assert(order.contains(order[0]));
        assert(all_cells().contains(order[0]));
        let c0 = order[0];
        assert(c0 < 9);
        assert(order.take(count)[0] == c0);
        assert(order.take(count).contains(c0));
        assert(occ[c0 as int]);
        assert(slots_placed(no_rooms(), occ, w, h, 0));
        assert(floors_kept(solid(w * h), w, no_rooms()));
        lemma_place_rooms(w, h, occ, solid(w * h), no_rooms(), s1, 0);
        let slots = place_rooms(w, h, occ, solid(w * h), no_rooms(), s1, 0).1;
        assert(slots[c0 as int] is Some);
        lemma_present_nonempty(slots, c0 as int);
    } else {
        let slots = no_rooms().update(0, Some(tiny_room(w, h)));
        lemma_present_nonempty(slots, 0);
    }
}
} // verus!
