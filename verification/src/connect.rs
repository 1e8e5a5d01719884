//! Every room of a generated level can be walked to from every other: each
//! planned corridor opens a walk between its two rooms, the plan links
//! every room, and nothing carved later closes a tile again.

use vstd::prelude::*;
use crate::map::{Room, Tile, GRID_CELLS, in_room, present_rooms};
use crate::generate::{
    carved,
    grid_size, slots_placed, floors_kept, joinable, corridor_tiles, carve_corridors, links_good, good_link,
    dig_at, dig_row, dig_col, min_int, max_int, lemma_dig_at, lemma_index_in, lemma_room_inside,
    lemma_joinable_gap, lemma_corridor_floors, has_link, links_for, extra_links, spanning_walk, neighbors,
    fresh_neighbors, unvisited, count_true, lemma_count_true, lemma_neighbors, scan_left, scan_right, scan_up,
    scan_down, push_some, level, level_size, tiny_room, occupied_cells, place_rooms,
    corridor_plan, first_occupied, solid, no_rooms, all_cells, lemma_place_rooms, lemma_plan_links,
    lemma_first_occupied, lemma_carved_at,
};
use crate::rng::{next_state, range_value, lemma_range_value, shuffled, lemma_shuffled, seeded};
use crate::walks::{open_at, reaches, more_open, lemma_reach_here, lemma_reach_step, lemma_reach_trans,
    lemma_reach_back, lemma_reach_row, lemma_reach_col, lemma_reach_rect, lemma_reach_grows,
};

verus! {

/// The tile a room is entered by in these proofs: its top-left interior
/// corner.
pub open spec fn anchor(r: Room) -> (int, int) {
    (r.x0 as int, r.y0 as int)
}

/// `more_open` chains.
proof fn lemma_more_open_trans(t1: Seq<Tile>, t2: Seq<Tile>, t3: Seq<Tile>, w: int, h: int)
    requires
        more_open(t1, t2, w, h),
        more_open(t2, t3, w, h),
    ensures
        more_open(t1, t3, w, h),
{
    assert forall|x: int, y: int| #[trigger] open_at(t1, w, h, x, y) implies open_at(t3, w, h, x, y) by {
        assert(open_at(t2, w, h, x, y));
    }
}

/// Digging one tile opens it and closes nothing.
proof fn lemma_dig_at_opens(t: Seq<Tile>, w: int, h: int, x: int, y: int)
    requires
        t.len() == w * h,
        0 <= x < w,
        0 <= y < h,
    ensures
        dig_at(t, y * w + x).len() == t.len(),
        more_open(t, dig_at(t, y * w + x), w, h),
        open_at(dig_at(t, y * w + x), w, h, x, y),
{
    lemma_index_in(w, h, x, y);
    let j = y * w + x;
    assert forall|xx: int, yy: int| #[trigger] open_at(t, w, h, xx, yy) implies open_at(dig_at(t, j), w, h, xx, yy) by {
        lemma_index_in(w, h, xx, yy);
        lemma_dig_at(t, j, yy * w + xx);
    }
}

/// Digging along row `y` opens `(a..=b, y)` and closes nothing.
proof fn lemma_dig_row_opens(t: Seq<Tile>, w: int, h: int, y: int, a: int, b: int)
    requires
        t.len() == w * h,
        0 <= y < h,
        0 <= a,
        b < w,
    ensures
        dig_row(t, w, y, a, b).len() == t.len(),
        more_open(t, dig_row(t, w, y, a, b), w, h),
        forall|x: int| a <= x <= b ==> #[trigger] open_at(dig_row(t, w, y, a, b), w, h, x, y),
    decreases b + 1 - a,
{
    if a <= b {
        let t1 = dig_at(t, y * w + a);
        lemma_dig_at_opens(t, w, h, a, y);
        lemma_dig_row_opens(t1, w, h, y, a + 1, b);
        lemma_more_open_trans(t, t1, dig_row(t, w, y, a, b), w, h);
        assert(open_at(dig_row(t, w, y, a, b), w, h, a, y));
    }
}

/// Digging along column `x` opens `(x, a..=b)` and closes nothing.
proof fn lemma_dig_col_opens(t: Seq<Tile>, w: int, h: int, x: int, a: int, b: int)
    requires
        t.len() == w * h,
        0 <= x < w,
        0 <= a,
        b < h,
    ensures
        dig_col(t, w, x, a, b).len() == t.len(),
        more_open(t, dig_col(t, w, x, a, b), w, h),
        forall|y: int| a <= y <= b ==> #[trigger] open_at(dig_col(t, w, x, a, b), w, h, x, y),
    decreases b + 1 - a,
{
    if a <= b {
        let t1 = dig_at(t, a * w + x);
        lemma_dig_at_opens(t, w, h, x, a);
        lemma_dig_col_opens(t1, w, h, x, a + 1, b);
        lemma_more_open_trans(t, t1, dig_col(t, w, x, a, b), w, h);
        assert(open_at(dig_col(t, w, x, a, b), w, h, x, a));
    }
}

/// Setting a door opens its tile and closes nothing.
proof fn lemma_door_opens(t: Seq<Tile>, w: int, h: int, x: int, y: int)
    requires
        t.len() == w * h,
        0 <= x < w,
        0 <= y < h,
    ensures
        0 <= y * w + x < t.len(),
        t.update(y * w + x, Tile::Door).len() == t.len(),
        more_open(t, t.update(y * w + x, Tile::Door), w, h),
        open_at(t.update(y * w + x, Tile::Door), w, h, x, y),
{
    lemma_index_in(w, h, x, y);
    let t2 = t.update(y * w + x, Tile::Door);
    assert forall|xx: int, yy: int| #[trigger] open_at(t, w, h, xx, yy) implies open_at(t2, w, h, xx, yy) by {
        lemma_index_in(w, h, xx, yy);
    }
}

/// The interior of every recorded room is open.
proof fn lemma_rooms_open(t: Seq<Tile>, w: int, h: int, slots: Seq<Option<Room>>, occ: Seq<bool>, c: int)
    requires
        grid_size(w, h),
        t.len() == w * h,
        slots_placed(slots, occ, w, h, 9),
        floors_kept(t, w, slots),
        0 <= c < GRID_CELLS,
        slots[c] is Some,
    ensures
        forall|x: int, y: int| in_room(slots[c]->0, x, y) ==> #[trigger] open_at(t, w, h, x, y),
{
    lemma_room_inside(w, h, c, slots[c]->0);
    assert forall|x: int, y: int| in_room(slots[c]->0, x, y) implies #[trigger] open_at(t, w, h, x, y) by {
        assert(t[y * w + x] == Tile::Floor);
    }
}

/// Any interior tile of a recorded room reaches any other.
proof fn lemma_room_walk(
    t: Seq<Tile>,
    w: int,
    h: int,
    slots: Seq<Option<Room>>,
    occ: Seq<bool>,
    c: int,
    p: (int, int),
    q: (int, int),
)
    requires
        grid_size(w, h),
        t.len() == w * h,
        slots_placed(slots, occ, w, h, 9),
        floors_kept(t, w, slots),
        0 <= c < GRID_CELLS,
        slots[c] is Some,
        in_room(slots[c]->0, p.0, p.1),
        in_room(slots[c]->0, q.0, q.1),
    ensures
        reaches(t, w, h, p, q),
{
    let r = slots[c]->0;
    lemma_rooms_open(t, w, h, slots, occ, c);
    assert forall|x: int, y: int| r.x0 <= x <= r.x1 && r.y0 <= y <= r.y1 implies #[trigger] open_at(t, w, h, x, y) by {
        assert(in_room(r, x, y));
    }
    lemma_reach_rect(t, w, h, r.x0 as int, r.y0 as int, r.x1 as int, r.y1 as int, p, q);
}

/// What a corridor needs of the tiles and rooms it joins.
pub open spec fn corridor_ready(
    t: Seq<Tile>,
    w: int,
    h: int,
    slots: Seq<Option<Room>>,
    occ: Seq<bool>,
    a: int,
    b: int,
) -> bool {
    &&& grid_size(w, h)
    &&& t.len() == w * h
    &&& slots_placed(slots, occ, w, h, 9)
    &&& floors_kept(t, w, slots)
    &&& joinable(slots, a, b)
}

/// What a corridor leaves: nothing closed, the room floors kept, and a walk
/// between the two rooms.
pub open spec fn corridor_done(t: Seq<Tile>, t2: Seq<Tile>, w: int, h: int, slots: Seq<Option<Room>>, a: int, b: int) -> bool {
    &&& t2.len() == t.len()
    &&& floors_kept(t2, w, slots)
    &&& more_open(t, t2, w, h)
    &&& reaches(t2, w, h, anchor(slots[a]->0), anchor(slots[b]->0))
}

/// Five successive tile sets, each opening more than the last: the first
/// opens less than each later one.
proof fn lemma_more_open_chain(
    t: Seq<Tile>,
    t0: Seq<Tile>,
    t1: Seq<Tile>,
    t2: Seq<Tile>,
    t3: Seq<Tile>,
    t4: Seq<Tile>,
    w: int,
    h: int,
)
    requires
        more_open(t, t0, w, h),
        more_open(t0, t1, w, h),
        more_open(t1, t2, w, h),
        more_open(t2, t3, w, h),
        more_open(t3, t4, w, h),
    ensures
        more_open(t, t4, w, h),
        more_open(t0, t4, w, h),
        more_open(t1, t4, w, h),
        more_open(t2, t4, w, h),
{
    lemma_more_open_trans(t2, t3, t4, w, h);
    lemma_more_open_trans(t1, t2, t4, w, h);
    lemma_more_open_trans(t0, t1, t4, w, h);
    lemma_more_open_trans(t, t0, t4, w, h);
}

/// A corridor between rooms of one grid row.
#[verifier::rlimit(100)]
proof fn lemma_row_corridor(
    t: Seq<Tile>,
    w: int,
    h: int,
    slots: Seq<Option<Room>>,
    occ: Seq<bool>,
    a: int,
    b: int,
    s: u64,
)
    requires
        corridor_ready(t, w, h, slots, occ, a, b),
        a / 3 == b / 3,
    ensures
        corridor_done(t, corridor_tiles(t, w, slots[a]->0, slots[b]->0, true, s).0, w, h, slots, a, b),
{
    let ra = slots[a]->0;
    let rb = slots[b]->0;
    lemma_corridor_floors(t, w, h, slots, occ, a, b, s);
    lemma_joinable_gap(w, h, slots, occ, a, b);
    lemma_room_inside(w, h, a, ra);
    lemma_room_inside(w, h, b, rb);
    let s1 = next_state(s);
    let s2 = next_state(s1);
    let t4 = corridor_tiles(t, w, ra, rb, true, s).0;
    let (l, r) = if ra.x0 < rb.x0 { (ra, rb) } else { (rb, ra) };
    let (cl, cr) = if ra.x0 < rb.x0 { (a, b) } else { (b, a) };
    lemma_range_value(s, l.y0 as nat, l.y1 as nat);
    lemma_range_value(s1, r.y0 as nat, r.y1 as nat);
    let ly = range_value(s, l.y0 as nat, l.y1 as nat) as int;
    let ry = range_value(s1, r.y0 as nat, r.y1 as nat) as int;
    let ldx = l.x1 + 1;
    let rdx = r.x0 - 1;
    lemma_range_value(s2, (ldx + 1) as nat, (rdx - 1) as nat);
    let bend = range_value(s2, (ldx + 1) as nat, (rdx - 1) as nat) as int;
    let t0 = t.update(ly * w + ldx, Tile::Door);
    lemma_door_opens(t, w, h, ldx, ly);
    assert(t0.len() == w * h);
    let t1 = t0.update(ry * w + rdx, Tile::Door);
    lemma_door_opens(t0, w, h, rdx, ry);
    assert(t1.len() == w * h);
    let t2 = dig_row(t1, w, ly, ldx + 1, bend);
    lemma_dig_row_opens(t1, w, h, ly, ldx + 1, bend);
    let (ylo, yhi) = (min_int(ly, ry), max_int(ly, ry));
    let t3 = dig_col(t2, w, bend, ylo, yhi);
    lemma_dig_col_opens(t2, w, h, bend, ylo, yhi);
    lemma_dig_row_opens(t3, w, h, ry, bend, rdx - 1);
    assert(t4 == dig_row(t3, w, ry, bend, rdx - 1));
    lemma_more_open_chain(t, t0, t1, t2, t3, t4, w, h);
    assert forall|x: int| ldx <= x <= bend implies #[trigger] open_at(t4, w, h, x, ly) by {
        if x > ldx {
            assert(open_at(t2, w, h, x, ly));
        } else {
            assert(open_at(t0, w, h, ldx, ly));
        }
    }
    assert forall|y: int| ylo <= y <= yhi implies #[trigger] open_at(t4, w, h, bend, y) by {
        assert(open_at(t3, w, h, bend, y));
        lemma_more_open_trans(t3, t4, t4, w, h);
    }
    assert forall|x: int| bend <= x <= rdx implies #[trigger] open_at(t4, w, h, x, ry) by {
        if x == rdx {
            assert(open_at(t1, w, h, rdx, ry));
        }
    }
    lemma_reach_row(t4, w, h, ly, ldx, bend);
    lemma_reach_col(t4, w, h, bend, ylo, yhi);
    lemma_reach_row(t4, w, h, ry, bend, rdx);
    lemma_room_walk(t4, w, h, slots, occ, cl, anchor(l), (l.x1 as int, ly));
    lemma_room_walk(t4, w, h, slots, occ, cr, (r.x0 as int, ry), anchor(r));
    lemma_rooms_open(t4, w, h, slots, occ, cr);
    lemma_reach_step(t4, w, h, anchor(l), (l.x1 as int, ly), (ldx, ly));
    lemma_reach_trans(t4, w, h, anchor(l), (ldx, ly), (bend, ly));
    lemma_reach_trans(t4, w, h, anchor(l), (bend, ly), (bend, ry));
    lemma_reach_trans(t4, w, h, anchor(l), (bend, ry), (rdx, ry));
    lemma_reach_step(t4, w, h, anchor(l), (rdx, ry), (r.x0 as int, ry));
    lemma_reach_trans(t4, w, h, anchor(l), (r.x0 as int, ry), anchor(r));
    if ra.x0 >= rb.x0 {
        lemma_reach_back(t4, w, h, anchor(l), anchor(r));
    }
}

/// A corridor between rooms of one grid column.
#[verifier::rlimit(100)]
proof fn lemma_col_corridor(
    t: Seq<Tile>,
    w: int,
    h: int,
    slots: Seq<Option<Room>>,
    occ: Seq<bool>,
    a: int,
    b: int,
    s: u64,
)
    requires
        corridor_ready(t, w, h, slots, occ, a, b),
        a / 3 != b / 3,
    ensures
        corridor_done(t, corridor_tiles(t, w, slots[a]->0, slots[b]->0, false, s).0, w, h, slots, a, b),
{
    let ra = slots[a]->0;
    let rb = slots[b]->0;
    lemma_corridor_floors(t, w, h, slots, occ, a, b, s);
    lemma_joinable_gap(w, h, slots, occ, a, b);
    lemma_room_inside(w, h, a, ra);
    lemma_room_inside(w, h, b, rb);
    let s1 = next_state(s);
    let s2 = next_state(s1);
    let t4 = corridor_tiles(t, w, ra, rb, false, s).0;
    let (tp, bt) = if ra.y0 < rb.y0 { (ra, rb) } else { (rb, ra) };
    let (ct, cb) = if ra.y0 < rb.y0 { (a, b) } else { (b, a) };
    lemma_range_value(s, tp.x0 as nat, tp.x1 as nat);
    lemma_range_value(s1, bt.x0 as nat, bt.x1 as nat);
    let tx = range_value(s, tp.x0 as nat, tp.x1 as nat) as int;
    let bx = range_value(s1, bt.x0 as nat, bt.x1 as nat) as int;
    let tdy = tp.y1 + 1;
    let bdy = bt.y0 - 1;
    lemma_range_value(s2, (tdy + 1) as nat, (bdy - 1) as nat);
    let bend = range_value(s2, (tdy + 1) as nat, (bdy - 1) as nat) as int;
    let t0 = t.update(tdy * w + tx, Tile::Door);
    lemma_door_opens(t, w, h, tx, tdy);
    assert(t0.len() == w * h);
    let t1 = t0.update(bdy * w + bx, Tile::Door);
    lemma_door_opens(t0, w, h, bx, bdy);
    assert(t1.len() == w * h);
    let t2 = dig_col(t1, w, tx, tdy + 1, bend);
    lemma_dig_col_opens(t1, w, h, tx, tdy + 1, bend);
    let (xlo, xhi) = (min_int(tx, bx), max_int(tx, bx));
    let t3 = dig_row(t2, w, bend, xlo, xhi);
    lemma_dig_row_opens(t2, w, h, bend, xlo, xhi);
    lemma_dig_col_opens(t3, w, h, bx, bend, bdy - 1);
    assert(t4 == dig_col(t3, w, bx, bend, bdy - 1));
    lemma_more_open_chain(t, t0, t1, t2, t3, t4, w, h);
    assert forall|y: int| tdy <= y <= bend implies #[trigger] open_at(t4, w, h, tx, y) by {
        if y > tdy {
            assert(open_at(t2, w, h, tx, y));
        } else {
            assert(open_at(t0, w, h, tx, tdy));
        }
    }
    assert forall|x: int| xlo <= x <= xhi implies #[trigger] open_at(t4, w, h, x, bend) by {
        assert(open_at(t3, w, h, x, bend));
        lemma_more_open_trans(t3, t4, t4, w, h);
    }
    assert forall|y: int| bend <= y <= bdy implies #[trigger] open_at(t4, w, h, bx, y) by {
        if y == bdy {
            assert(open_at(t1, w, h, bx, bdy));
        }
    }
    lemma_reach_col(t4, w, h, tx, tdy, bend);
    lemma_reach_row(t4, w, h, bend, xlo, xhi);
    lemma_reach_col(t4, w, h, bx, bend, bdy);
    lemma_room_walk(t4, w, h, slots, occ, ct, anchor(tp), (tx, tp.y1 as int));
    lemma_room_walk(t4, w, h, slots, occ, cb, (bx, bt.y0 as int), anchor(bt));
    lemma_rooms_open(t4, w, h, slots, occ, cb);
    lemma_reach_step(t4, w, h, anchor(tp), (tx, tp.y1 as int), (tx, tdy));
    lemma_reach_trans(t4, w, h, anchor(tp), (tx, tdy), (tx, bend));
    lemma_reach_trans(t4, w, h, anchor(tp), (tx, bend), (bx, bend));
    lemma_reach_trans(t4, w, h, anchor(tp), (bx, bend), (bx, bdy));
    lemma_reach_step(t4, w, h, anchor(tp), (bx, bdy), (bx, bt.y0 as int));
    lemma_reach_trans(t4, w, h, anchor(tp), (bx, bt.y0 as int), anchor(bt));
    if ra.y0 >= rb.y0 {
        lemma_reach_back(t4, w, h, anchor(tp), anchor(bt));
    }
}

/// The corridor of one planned link opens a walk between its two rooms and
/// closes nothing.
proof fn lemma_corridor_joins(
    t: Seq<Tile>,
    w: int,
    h: int,
    slots: Seq<Option<Room>>,
    occ: Seq<bool>,
    a: int,
    b: int,
    s: u64,
)
    requires
        corridor_ready(t, w, h, slots, occ, a, b),
    ensures
        corridor_done(t, corridor_tiles(t, w, slots[a]->0, slots[b]->0, a / 3 == b / 3, s).0, w, h, slots, a, b),
{
    if a / 3 == b / 3 {
        lemma_row_corridor(t, w, h, slots, occ, a, b, s);
    } else {
        lemma_col_corridor(t, w, h, slots, occ, a, b, s);
    }
}

/// Carving the links `edges[i..]` closes nothing, keeps the room floors,
/// and leaves a walk between the two rooms of each of those links.
proof fn lemma_corridors_join(
    t: Seq<Tile>,
    w: int,
    h: int,
    slots: Seq<Option<Room>>,
    occ: Seq<bool>,
    edges: Seq<(usize, usize)>,
    s: u64,
    i: int,
)
    requires
        grid_size(w, h),
        t.len() == w * h,
        occ.len() == GRID_CELLS,
        slots_placed(slots, occ, w, h, 9),
        floors_kept(t, w, slots),
        links_good(occ, edges),
        0 <= i <= edges.len(),
    ensures
        ({
            let t2 = carve_corridors(t, w, slots, edges, s, i).0;
            &&& t2.len() == t.len()
            &&& floors_kept(t2, w, slots)
            &&& more_open(t, t2, w, h)
            &&& forall|k: int|
                i <= k < edges.len() ==> reaches(
                    t2,
                    w,
                    h,
                    anchor(slots[(#[trigger] edges[k]).0 as int]->0),
                    anchor(slots[edges[k].1 as int]->0),
                )
        }),
    decreases edges.len() - i,
{
    if i < edges.len() {
        let (a, b) = edges[i];
        assert(joinable(slots, a as int, b as int)) by {
            assert(good_link(occ, a as int, b));
        }
        let (t1, s1) = corridor_tiles(t, w, slots[a as int]->0, slots[b as int]->0, a / 3 == b / 3, s);
        lemma_corridor_joins(t, w, h, slots, occ, a as int, b as int, s);
        lemma_corridors_join(t1, w, h, slots, occ, edges, s1, i + 1);
        let t2 = carve_corridors(t, w, slots, edges, s, i).0;
        assert(t2 == carve_corridors(t1, w, slots, edges, s1, i + 1).0);
        lemma_more_open_trans(t, t1, t2, w, h);
        lemma_reach_grows(t1, t2, w, h, anchor(slots[a as int]->0), anchor(slots[b as int]->0));
    } else {
        assert(more_open(t, t, w, h));
    }
}


// ---------------------------------------------------------------------
// The plan links every room
// ---------------------------------------------------------------------

/// A chain of cells, each joined to the next by a planned link.
pub open spec fn is_chain(edges: Seq<(usize, usize)>, p: Seq<usize>) -> bool {
    &&& p.len() > 0
    &&& forall|i: int| 0 <= i < p.len() - 1 ==> has_link(edges, #[trigger] p[i], p[i + 1])
}

/// A chain of planned links leads from `a` to `b`.
pub open spec fn linked(edges: Seq<(usize, usize)>, a: usize, b: usize) -> bool {
    exists|p: Seq<usize>| #[trigger] is_chain(edges, p) && p[0] == a && p.last() == b
}

/// `e` starts with `edges`.
pub open spec fn extends(edges: Seq<(usize, usize)>, e: Seq<(usize, usize)>) -> bool {
    edges.len() <= e.len() && forall|i: int| 0 <= i < edges.len() ==> e[i] == edges[i]
}

proof fn lemma_linked_here(edges: Seq<(usize, usize)>, a: usize)
    ensures
        linked(edges, a, a),
{
    assert(is_chain(edges, seq![a]));
}

proof fn lemma_linked_prepend(edges: Seq<(usize, usize)>, c: usize, a: usize, b: usize)
    requires
        has_link(edges, c, a),
        linked(edges, a, b),
    ensures
        linked(edges, c, b),
{
    let p = choose|p: Seq<usize>| #[trigger] is_chain(edges, p) && p[0] == a && p.last() == b;
    let q = seq![c] + p;
    assert forall|i: int| 0 <= i < q.len() - 1 implies has_link(edges, #[trigger] q[i], q[i + 1]) by {
        if i > 0 {
            assert(q[i] == p[i - 1]);
            assert(q[i + 1] == p[i]);
        }
    }
    assert(is_chain(edges, q));
    assert(q.last() == p.last());
}

proof fn lemma_linked_grows(edges: Seq<(usize, usize)>, e: Seq<(usize, usize)>, a: usize, b: usize)
    requires
        extends(edges, e),
        linked(edges, a, b),
    ensures
        linked(e, a, b),
{
    let p = choose|p: Seq<usize>| #[trigger] is_chain(edges, p) && p[0] == a && p.last() == b;
    assert forall|i: int| 0 <= i < p.len() - 1 implies has_link(e, #[trigger] p[i], p[i + 1]) by {
        let (u, v) = (p[i], p[i + 1]);
        if edges.contains((u, v)) {
            let k = choose|k: int| 0 <= k < edges.len() && edges[k] == (u, v);
            assert(e[k] == (u, v));
        } else {
            let k = choose|k: int| 0 <= k < edges.len() && edges[k] == (v, u);
            assert(e[k] == (v, u));
        }
    }
    assert(is_chain(e, p));
}

proof fn lemma_extends_trans(a: Seq<(usize, usize)>, b: Seq<(usize, usize)>, c: Seq<(usize, usize)>)
    requires
        extends(a, b),
        extends(b, c),
    ensures
        extends(a, c),
{
}

/// The cells `x` (among the occupied `occ`) are all linked to `start`, and
/// every neighbor of one of them is one of them.
pub open spec fn spans(occ: Seq<bool>, x: Seq<bool>, edges: Seq<(usize, usize)>, start: usize) -> bool {
    &&& x.len() == GRID_CELLS
    &&& forall|c: int| 0 <= c < GRID_CELLS && #[trigger] x[c] ==> occ[c] && linked(edges, c as usize, start)
    &&& forall|c: int, k: int|
        0 <= c < GRID_CELLS && x[c] && 0 <= k < neighbors(occ, c).len() ==> x[(#[trigger] neighbors(occ, c)[k]) as int]
}

/// The depth-first walk ends with its tree closed under neighbors and
/// every tree cell linked to the start.
proof fn lemma_walk_spans(
    occ: Seq<bool>,
    in_tree: Seq<bool>,
    frontier: Seq<usize>,
    edges: Seq<(usize, usize)>,
    s: u64,
    start: usize,
)
    requires
        occ.len() == GRID_CELLS,
        in_tree.len() == GRID_CELLS,
        forall|c: int| 0 <= c < GRID_CELLS && #[trigger] in_tree[c] ==> occ[c] && linked(edges, c as usize, start),
        forall|k: int| 0 <= k < frontier.len() ==> #[trigger] frontier[k] < GRID_CELLS && in_tree[frontier[k] as int],
        forall|c: int, k: int|
            0 <= c < GRID_CELLS && in_tree[c] && !frontier.contains(c as usize) && 0 <= k < neighbors(occ, c).len()
                ==> in_tree[(#[trigger] neighbors(occ, c)[k]) as int],
    ensures
        extends(edges, spanning_walk(occ, in_tree, frontier, edges, s).0),
        exists|x: Seq<bool>|
            #[trigger] spans(occ, x, spanning_walk(occ, in_tree, frontier, edges, s).0, start) && forall|c: int|
                0 <= c < GRID_CELLS && in_tree[c] ==> x[c],
    decreases in_tree.len() - count_true(in_tree), frontier.len(),
{
    let e_final = spanning_walk(occ, in_tree, frontier, edges, s).0;
    if frontier.len() == 0 {
        assert(spans(occ, in_tree, e_final, start));
    } else {
        let cell = frontier.last();
        let candidates = fresh_neighbors(occ, in_tree, cell as int);
        if candidates.len() == 0 {
            let f2 = frontier.drop_last();
            assert forall|c: int, k: int|
                0 <= c < GRID_CELLS && in_tree[c] && !f2.contains(c as usize) && 0 <= k < neighbors(occ, c).len()
                    implies in_tree[(#[trigger] neighbors(occ, c)[k]) as int] by {
                if frontier.contains(c as usize) {
                    let j = choose|j: int| 0 <= j < frontier.len() && frontier[j] == c as usize;
                    if j < f2.len() {
                        assert(f2[j] == c as usize);
                    }
                    assert(c == cell as int);
                    let n = neighbors(occ, c)[k];
                    if !in_tree[n as int] {
                        neighbors(occ, c).lemma_filter_contains(unvisited(in_tree), k);
                    }
                }
            }
            assert forall|k: int| 0 <= k < f2.len() implies #[trigger] f2[k] < GRID_CELLS && in_tree[f2[k] as int] by {
                assert(f2[k] == frontier[k]);
            }
            lemma_walk_spans(occ, in_tree, f2, edges, s, start);
        } else {
            let (s2, order) = shuffled(s, candidates);
            let next = order[0];
            lemma_shuffled(s, candidates);
            assert(order.contains(next));
            assert(candidates.contains(next));
            neighbors(occ, cell as int).lemma_filter_contains_rev(unvisited(in_tree), next);
            let j = choose|j: int| 0 <= j < candidates.len() && candidates[j] == next;
            neighbors(occ, cell as int).lemma_filter_pred(unvisited(in_tree), j);
            lemma_neighbors(occ, cell as int);
            let m = choose|m: int| 0 <= m < neighbors(occ, cell as int).len() && neighbors(occ, cell as int)[m] == next;
            assert(good_link(occ, cell as int, neighbors(occ, cell as int)[m]));
            assert(next < in_tree.len() && !in_tree[next as int]);
            lemma_count_true(in_tree, next as int);
            let t2 = in_tree.update(next as int, true);
            let f2 = frontier.push(next);
            let e2 = edges.push((cell, next));
            assert(extends(edges, e2));
            assert(has_link(e2, next, cell)) by {
                assert(e2[edges.len() as int] == (cell, next));
            }
            assert forall|c: int| 0 <= c < GRID_CELLS && #[trigger] t2[c] implies occ[c] && linked(e2, c as usize, start) by {
                if c == next as int {
                    lemma_linked_grows(edges, e2, cell, start);
                    lemma_linked_prepend(e2, next, cell, start);
                } else {
                    lemma_linked_grows(edges, e2, c as usize, start);
                }
            }
            assert forall|k: int| 0 <= k < f2.len() implies #[trigger] f2[k] < GRID_CELLS && t2[f2[k] as int] by {
                if k < frontier.len() {
                    assert(f2[k] == frontier[k]);
                }
            }
            assert forall|c: int, k: int|
                0 <= c < GRID_CELLS && t2[c] && !f2.contains(c as usize) && 0 <= k < neighbors(occ, c).len()
                    implies t2[(#[trigger] neighbors(occ, c)[k]) as int] by {
                assert(f2[f2.len() - 1] == next);
                assert(c != next as int);
                assert(in_tree[c]);
                if frontier.contains(c as usize) {
                    let i = choose|i: int| 0 <= i < frontier.len() && frontier[i] == c as usize;
                    assert(f2[i] == c as usize);
                }
                lemma_neighbors(occ, c);
                let n = neighbors(occ, c)[k];
                assert(good_link(occ, c, n));
                assert(in_tree[n as int]);
            }
            lemma_walk_spans(occ, t2, f2, e2, s2, start);
            lemma_extends_trans(edges, e2, e_final);
        }
    }
}

/// The extra links only add to the plan.
proof fn lemma_links_for_extend(edges: Seq<(usize, usize)>, s: u64, cell: usize, nbrs: Seq<usize>, k: int)
    ensures
        extends(edges, links_for(edges, s, cell, nbrs, k).0),
    decreases nbrs.len() - k,
{
    if 0 <= k < nbrs.len() {
        let n = nbrs[k];
        lemma_links_for_extend(edges, next_state(s), cell, nbrs, k + 1);
        lemma_links_for_extend(edges, s, cell, nbrs, k + 1);
        let e2 = edges.push((cell, n));
        lemma_links_for_extend(e2, next_state(s), cell, nbrs, k + 1);
        lemma_extends_trans(edges, e2, links_for(e2, next_state(s), cell, nbrs, k + 1).0);
    }
}

proof fn lemma_extra_links_extend(occ: Seq<bool>, edges: Seq<(usize, usize)>, s: u64, cell: int)
    ensures
        extends(edges, extra_links(occ, edges, s, cell).0),
    decreases 9 - cell,
{
    if 0 <= cell < 9 {
        if !occ[cell] {
            lemma_extra_links_extend(occ, edges, s, cell + 1);
        } else {
            let (e2, s2) = links_for(edges, s, cell as usize, neighbors(occ, cell), 0);
            lemma_links_for_extend(edges, s, cell as usize, neighbors(occ, cell), 0);
            lemma_extra_links_extend(occ, e2, s2, cell + 1);
            lemma_extends_trans(edges, e2, extra_links(occ, e2, s2, cell + 1).0);
        }
    }
}



/// The next occupied cell each way along the row and column of a spanned
/// cell is spanned too.
proof fn lemma_scans_spanned(occ: Seq<bool>, x: Seq<bool>, edges: Seq<(usize, usize)>, start: usize, c: int)
    requires
        occ.len() == GRID_CELLS,
        spans(occ, x, edges, start),
        0 <= c < GRID_CELLS,
        x[c],
    ensures
        scan_left(occ, c / 3, c % 3 - 1) matches Some(n) ==> x[n as int],
        scan_up(occ, c % 3, c / 3 - 1) matches Some(n) ==> x[n as int],
        scan_right(occ, c / 3, c % 3 + 1) matches Some(n) ==> x[n as int],
        scan_down(occ, c % 3, c / 3 + 1) matches Some(n) ==> x[n as int],
{
    let col = c % 3;
    let row = c / 3;
    let s1 = push_some(Seq::empty(), scan_left(occ, row, col - 1));
    let s2 = push_some(s1, scan_up(occ, col, row - 1));
    let s3 = push_some(s2, scan_right(occ, row, col + 1));
    let s4 = push_some(s3, scan_down(occ, col, row + 1));
    assert(neighbors(occ, c) == s4);
    assert forall|k: int| 0 <= k < s4.len() implies x[(#[trigger] s4[k]) as int] by {
        assert(x[(neighbors(occ, c)[k]) as int]);
    }
    if let Some(n) = scan_left(occ, row, col - 1) {
        assert(s2[0] == n && s3[0] == n && s4[0] == n);
    }
    if let Some(n) = scan_up(occ, col, row - 1) {
        let i = s1.len() as int;
        assert(s3[i] == n && s4[i] == n);
    }
    if let Some(n) = scan_right(occ, row, col + 1) {
        let i = s2.len() as int;
        assert(s4[i] == n);
    }
    if let Some(n) = scan_down(occ, col, row + 1) {
        assert(s4[s3.len() as int] == n);
    }
}

/// Spanned cells spread along rows and columns: every occupied cell in the
/// row or the column of a spanned cell is spanned.
proof fn lemma_line_spanned(occ: Seq<bool>, x: Seq<bool>, edges: Seq<(usize, usize)>, start: usize, c: int, d: int)
    requires
        occ.len() == GRID_CELLS,
        spans(occ, x, edges, start),
        0 <= c < GRID_CELLS,
        0 <= d < GRID_CELLS,
        x[c],
        occ[d],
        c / 3 == d / 3 || c % 3 == d % 3,
    ensures
        x[d],
{
    reveal_with_fuel(scan_left, 3);
    reveal_with_fuel(scan_right, 3);
    reveal_with_fuel(scan_up, 3);
    reveal_with_fuel(scan_down, 3);
    let (rc, cc) = (c / 3, c % 3);
    let (rd, cd) = (d / 3, d % 3);
    assert(c == rc * 3 + cc && d == rd * 3 + cd);
    lemma_scans_spanned(occ, x, edges, start, c);
    if c != d {
        if rc == rd {
            let m = rc * 3 + 1;
            if cc == 0 && cd == 2 && occ[m] {
                assert(scan_right(occ, rc, 1) == Some(m as usize));
                lemma_scans_spanned(occ, x, edges, start, m);
                assert(scan_right(occ, rc, 2) == Some(d as usize));
            } else if cc == 2 && cd == 0 && occ[m] {
                assert(scan_left(occ, rc, 1) == Some(m as usize));
                lemma_scans_spanned(occ, x, edges, start, m);
                assert(scan_left(occ, rc, 0) == Some(d as usize));
            }
        } else {
            let m = 3 + cc;
            if rc == 0 && rd == 2 && occ[m] {
                assert(scan_down(occ, cc, 1) == Some(m as usize));
                lemma_scans_spanned(occ, x, edges, start, m);
                assert(scan_down(occ, cc, 2) == Some(d as usize));
            } else if rc == 2 && rd == 0 && occ[m] {
                assert(scan_up(occ, cc, 1) == Some(m as usize));
                lemma_scans_spanned(occ, x, edges, start, m);
                assert(scan_up(occ, cc, 0) == Some(d as usize));
            }
        }
    }
}

/// With at most three empty cells, a spanned set holding one occupied cell
/// holds them all.
proof fn lemma_grid_spanned(
    occ: Seq<bool>,
    x: Seq<bool>,
    edges: Seq<(usize, usize)>,
    start: usize,
    e0: int,
    e1: int,
    e2: int,
    c: int,
)
    requires
        occ.len() == GRID_CELLS,
        spans(occ, x, edges, start),
        start < GRID_CELLS,
        x[start as int],
        forall|d: int| 0 <= d < GRID_CELLS && !#[trigger] occ[d] ==> d == e0 || d == e1 || d == e2,
        0 <= c < GRID_CELLS,
        occ[c],
    ensures
        x[c],
{
    let s = start as int;
    let (rs, cs) = (s / 3, s % 3);
    let (rc, cc) = (c / 3, c % 3);
    if rs == rc || cs == cc {
        lemma_line_spanned(occ, x, edges, start, s, c);
    } else {
        let p = rs * 3 + cc;
        let q = rc * 3 + cs;
        let r3 = 3 - rs - rc;
        let c3 = 3 - cs - cc;
        let u = rs * 3 + c3;
        let v = rc * 3 + c3;
        let u2 = r3 * 3 + cs;
        let v2 = r3 * 3 + cc;
        if occ[p] {
            lemma_line_spanned(occ, x, edges, start, s, p);
            lemma_line_spanned(occ, x, edges, start, p, c);
        } else if occ[q] {
            lemma_line_spanned(occ, x, edges, start, s, q);
            lemma_line_spanned(occ, x, edges, start, q, c);
        } else if occ[u] && occ[v] {
            lemma_line_spanned(occ, x, edges, start, s, u);
            lemma_line_spanned(occ, x, edges, start, u, v);
            lemma_line_spanned(occ, x, edges, start, v, c);
        } else if occ[u2] && occ[v2] {
            lemma_line_spanned(occ, x, edges, start, s, u2);
            lemma_line_spanned(occ, x, edges, start, u2, v2);
            lemma_line_spanned(occ, x, edges, start, v2, c);
        } else {
            // Four distinct empty cells: more than three.
            let a = if !occ[u] { u } else { v };
            let b = if !occ[u2] { u2 } else { v2 };
            assert(!occ[a] && !occ[b]);
            assert(p != q && p != a && p != b && q != a && q != b && a != b);
            assert(false);
        }
    }
}


/// A chain of planned links, each of whose corridors is walkable, gives a
/// walk between the rooms at its two ends.
proof fn lemma_chain_walks(
    t: Seq<Tile>,
    w: int,
    h: int,
    slots: Seq<Option<Room>>,
    edges: Seq<(usize, usize)>,
    p: Seq<usize>,
)
    requires
        is_chain(edges, p),
        forall|k: int|
            0 <= k < edges.len() ==> reaches(
                t,
                w,
                h,
                anchor(slots[(#[trigger] edges[k]).0 as int]->0),
                anchor(slots[edges[k].1 as int]->0),
            ),
        p.len() == 1 ==> open_at(t, w, h, anchor(slots[p[0] as int]->0).0, anchor(slots[p[0] as int]->0).1),
    ensures
        reaches(t, w, h, anchor(slots[p[0] as int]->0), anchor(slots[p.last() as int]->0)),
    decreases p.len(),
{
    if p.len() == 1 {
        lemma_reach_here(t, w, h, anchor(slots[p[0] as int]->0));
    } else {
        let (u, v) = (p[0], p[1]);
        assert(has_link(edges, u, v));
        let au = anchor(slots[u as int]->0);
        let av = anchor(slots[v as int]->0);
        if edges.contains((u, v)) {
            let k = choose|k: int| 0 <= k < edges.len() && edges[k] == (u, v);
            assert(reaches(t, w, h, anchor(slots[edges[k].0 as int]->0), anchor(slots[edges[k].1 as int]->0)));
        } else {
            let k = choose|k: int| 0 <= k < edges.len() && edges[k] == (v, u);
            assert(reaches(t, w, h, anchor(slots[edges[k].0 as int]->0), anchor(slots[edges[k].1 as int]->0)));
            lemma_reach_back(t, w, h, av, au);
        }
        if p.len() > 2 {
            let q = p.drop_first();
            assert forall|i: int| 0 <= i < q.len() - 1 implies has_link(edges, #[trigger] q[i], q[i + 1]) by {
                assert(has_link(edges, p[i + 1], p[i + 2]));
            }
            lemma_chain_walks(t, w, h, slots, edges, q);
            lemma_reach_trans(t, w, h, au, av, anchor(slots[p.last() as int]->0));
        }
    }
}

/// On a grid-sized map every room reaches every other.
#[verifier::rlimit(40)]
proof fn lemma_grid_rooms_connected(seed: u64, w: int, h: int, c1: int, c2: int, a: (int, int), b: (int, int))
    requires
        grid_size(w, h),
        w * h <= usize::MAX,
        0 <= c1 < GRID_CELLS,
        0 <= c2 < GRID_CELLS,
        level(seed, w, h).1[c1] is Some,
        level(seed, w, h).1[c2] is Some,
        in_room(level(seed, w, h).1[c1]->0, a.0, a.1),
        in_room(level(seed, w, h).1[c2]->0, b.0, b.1),
    ensures
        reaches(level(seed, w, h).0, w, h, a, b),
{
    let (occ, s1) = occupied_cells(seeded(seed));
    let count = range_value(seeded(seed), 6, GRID_CELLS as nat) as int;
    let (s_order, order) = shuffled(next_state(seeded(seed)), all_cells());
    lemma_range_value(seeded(seed), 6, GRID_CELLS as nat);
    lemma_shuffled(next_state(seeded(seed)), all_cells());
    assert(occ.len() == GRID_CELLS);
    // At most three cells stay empty: those past the first `count` of the order.
    assert forall|d: int| 0 <= d < GRID_CELLS && !#[trigger] occ[d] implies d == order[6] as int || d == order[7] as int
        || d == order[8] as int by {
        assert(all_cells()[d] == d as usize);
        assert(order.contains(d as usize));
        let j = choose|j: int| 0 <= j < order.len() && order[j] == d as usize;
        if j < count {
            assert(order.take(count)[j] == d as usize);
        }
    }
    assert(slots_placed(no_rooms(), occ, w, h, 0));
    assert(floors_kept(solid(w * h), w, no_rooms()));
    lemma_place_rooms(w, h, occ, solid(w * h), no_rooms(), s1, 0);
    let (t_rooms, slots, s2) = place_rooms(w, h, occ, solid(w * h), no_rooms(), s1, 0);
    let (edges, s3) = corridor_plan(occ, s2);
    lemma_plan_links(occ, s2);
    assert(level(seed, w, h) == (carve_corridors(t_rooms, w, slots, edges, s3, 0).0, slots));
    let t = level(seed, w, h).0;
    lemma_corridors_join(t_rooms, w, h, slots, occ, edges, s3, 0);
    assert(occ[c1] && occ[c2]);
    lemma_first_occupied(occ, 0);
    let start = match first_occupied(occ, 0) {
        Some(st) => st,
        None => {
            // No occupied cell at all would contradict `c1`.
            assert(false) by {
                lemma_no_first_occupied(occ, 0, c1);
            }
            0usize
        },
    };
    let in_tree = Seq::new(GRID_CELLS as nat, |c: int| c == start as int);
    let frontier = seq![start];
    let empty = Seq::<(usize, usize)>::empty();
    lemma_linked_here(empty, start);
    assert forall|c: int| 0 <= c < GRID_CELLS && #[trigger] in_tree[c] implies occ[c] && linked(empty, c as usize, start) by {
        assert(c == start as int);
    }
    assert forall|c: int, k: int|
        0 <= c < GRID_CELLS && in_tree[c] && !frontier.contains(c as usize) && 0 <= k < neighbors(occ, c).len()
            implies in_tree[(#[trigger] neighbors(occ, c)[k]) as int] by {
        assert(c == start as int);
        assert(frontier[0] == start);
    }
    lemma_walk_spans(occ, in_tree, frontier, empty, s2, start);
    let (tree, s4) = spanning_walk(occ, in_tree, frontier, empty, s2);
    assert(edges == extra_links(occ, tree, s4, 0).0);
    lemma_extra_links_extend(occ, tree, s4, 0);
    let x = choose|x: Seq<bool>| #[trigger] spans(occ, x, tree, start) && forall|c: int| 0 <= c < GRID_CELLS && in_tree[c] ==> x[c];
    assert(x[start as int]);
    lemma_grid_spanned(occ, x, tree, start, order[6] as int, order[7] as int, order[8] as int, c1);
    lemma_grid_spanned(occ, x, tree, start, order[6] as int, order[7] as int, order[8] as int, c2);
    lemma_linked_grows(tree, edges, c1 as usize, start);
    lemma_linked_grows(tree, edges, c2 as usize, start);
    let p1 = choose|p: Seq<usize>| #[trigger] is_chain(edges, p) && p[0] == c1 as usize && p.last() == start;
    let p2 = choose|p: Seq<usize>| #[trigger] is_chain(edges, p) && p[0] == c2 as usize && p.last() == start;
    let r1 = slots[c1]->0;
    let r2 = slots[c2]->0;
    lemma_rooms_open(t, w, h, slots, occ, c1);
    lemma_rooms_open(t, w, h, slots, occ, c2);
    assert(in_room(r1, anchor(r1).0, anchor(r1).1) && in_room(r2, anchor(r2).0, anchor(r2).1)) by {
        lemma_room_inside(w, h, c1, r1);
        lemma_room_inside(w, h, c2, r2);
    }
    lemma_chain_walks(t, w, h, slots, edges, p1);
    lemma_chain_walks(t, w, h, slots, edges, p2);
    let ast = anchor(slots[start as int]->0);
    lemma_reach_back(t, w, h, anchor(r2), ast);
    lemma_reach_trans(t, w, h, anchor(r1), ast, anchor(r2));
    lemma_room_walk(t, w, h, slots, occ, c1, a, anchor(r1));
    lemma_room_walk(t, w, h, slots, occ, c2, anchor(r2), b);
    lemma_reach_trans(t, w, h, a, anchor(r1), anchor(r2));
    lemma_reach_trans(t, w, h, a, anchor(r2), b);
}

/// No first occupied cell means no occupied cell from `c` on.
proof fn lemma_no_first_occupied(occ: Seq<bool>, c: int, d: int)
    requires
        occ.len() == GRID_CELLS,
        0 <= c <= d < GRID_CELLS,
        occ[d],
    ensures
        first_occupied(occ, c) is Some,
    decreases d - c,
{
    if !occ[c] {
        lemma_no_first_occupied(occ, c + 1, d);
    }
}

/// Every room of a generated level can be walked to from every other: from
/// any interior tile of one room to any interior tile of another, over
/// floors, doors and corridors.
pub proof fn lemma_rooms_connected(seed: u64, w: int, h: int, c1: int, c2: int, a: (int, int), b: (int, int))
    requires
        level_size(w, h).0 * level_size(w, h).1 <= usize::MAX,
        0 <= c1 < GRID_CELLS,
        0 <= c2 < GRID_CELLS,
        level(seed, w, h).1[c1] is Some,
        level(seed, w, h).1[c2] is Some,
        in_room(level(seed, w, h).1[c1]->0, a.0, a.1),
        in_room(level(seed, w, h).1[c2]->0, b.0, b.1),
    ensures
        reaches(level(seed, w, h).0, level_size(w, h).0, level_size(w, h).1, a, b),
{
    if grid_size(w, h) {
        lemma_grid_rooms_connected(seed, w, h, c1, c2, a, b);
    } else {
        let (tw, th) = level_size(w, h);
        let r = tiny_room(w, h);
        assert(level(seed, w, h).1 == no_rooms().update(0, Some(r)));
        assert(c1 == 0 && c2 == 0);
        let t = level(seed, w, h).0;
        assert(t == carved(solid(tw * th), tw, r));
        assert forall|x: int, y: int| r.x0 <= x <= r.x1 && r.y0 <= y <= r.y1 implies #[trigger] open_at(t, tw, th, x, y) by {
            lemma_carved_at(solid(tw * th), tw, th, r, x, y);
        }
        lemma_reach_rect(t, tw, th, r.x0 as int, r.y0 as int, r.x1 as int, r.y1 as int, a, b);
    }
}


/// On a grid-sized map the interior of every recorded room is floor in the
/// finished level.
pub proof fn lemma_level_floors(seed: u64, w: int, h: int)
    requires
        grid_size(w, h),
        w * h <= usize::MAX,
    ensures
        level(seed, w, h).0.len() == w * h,
        floors_kept(level(seed, w, h).0, w, level(seed, w, h).1),
{
    let (occ, s1) = occupied_cells(seeded(seed));
    assert(occ.len() == GRID_CELLS);
    assert(slots_placed(no_rooms(), occ, w, h, 0));
    assert(floors_kept(solid(w * h), w, no_rooms()));
    lemma_place_rooms(w, h, occ, solid(w * h), no_rooms(), s1, 0);
    let (t_rooms, slots, s2) = place_rooms(w, h, occ, solid(w * h), no_rooms(), s1, 0);
    let (edges, s3) = corridor_plan(occ, s2);
    lemma_plan_links(occ, s2);
    lemma_corridors_join(t_rooms, w, h, slots, occ, edges, s3, 0);
}


// ---------------------------------------------------------------------
// How many rooms
// ---------------------------------------------------------------------

/// The rooms among the slots are as many as the marked cells when the
/// slots hold a room exactly where `occ` is marked.
proof fn lemma_present_count(slots: Seq<Option<Room>>, occ: Seq<bool>)
    requires
        slots.len() == occ.len(),
        forall|i: int| 0 <= i < slots.len() ==> ((#[trigger] slots[i]) is Some <==> occ[i]),
    ensures
        present_rooms(slots).len() == count_true(occ),
    decreases slots.len(),
{
    if slots.len() > 0 {
        let (s2, o2) = (slots.drop_last(), occ.drop_last());
        assert forall|i: int| 0 <= i < s2.len() implies ((#[trigger] s2[i]) is Some <==> o2[i]) by {
            assert(s2[i] == slots[i] && o2[i] == occ[i]);
        }
        lemma_present_count(s2, o2);
        assert(slots.last() is Some <==> occ.last());
    }
}

/// Nine marks of which at most three, `e0`, `e1`, `e2`, are unmarked count
/// at least six.
proof fn lemma_six_marked(occ: Seq<bool>, e0: int, e1: int, e2: int)
    requires
        occ.len() == GRID_CELLS,
        forall|d: int| 0 <= d < GRID_CELLS && !#[trigger] occ[d] ==> d == e0 || d == e1 || d == e2,
    ensures
        count_true(occ) >= 6,
{
    reveal_with_fuel(count_true, 10);
    let s8 = occ.drop_last();
    let s7 = s8.drop_last();
    let s6 = s7.drop_last();
    let s5 = s6.drop_last();
    let s4 = s5.drop_last();
    let s3 = s4.drop_last();
    let s2 = s3.drop_last();
    let s1 = s2.drop_last();
    let s0 = s1.drop_last();
    assert(s0.len() == 0);
    assert(occ.last() == occ[8] && s8.last() == occ[7] && s7.last() == occ[6] && s6.last() == occ[5]
        && s5.last() == occ[4] && s4.last() == occ[3] && s3.last() == occ[2] && s2.last() == occ[1]
        && s1.last() == occ[0]);
    assert(!occ[0] ==> 0 == e0 || 0 == e1 || 0 == e2);
    assert(!occ[1] ==> 1 == e0 || 1 == e1 || 1 == e2);
    assert(!occ[2] ==> 2 == e0 || 2 == e1 || 2 == e2);
    assert(!occ[3] ==> 3 == e0 || 3 == e1 || 3 == e2);
    assert(!occ[4] ==> 4 == e0 || 4 == e1 || 4 == e2);
    assert(!occ[5] ==> 5 == e0 || 5 == e1 || 5 == e2);
    assert(!occ[6] ==> 6 == e0 || 6 == e1 || 6 == e2);
    assert(!occ[7] ==> 7 == e0 || 7 == e1 || 7 == e2);
    assert(!occ[8] ==> 8 == e0 || 8 == e1 || 8 == e2);
}

/// A grid-sized level keeps at least six rooms.
pub proof fn lemma_at_least_six_rooms(seed: u64, w: int, h: int)
    requires
        grid_size(w, h),
        w * h <= usize::MAX,
    ensures
        present_rooms(level(seed, w, h).1).len() >= 6,
{
    let (occ, s1) = occupied_cells(seeded(seed));
    let count = range_value(seeded(seed), 6, GRID_CELLS as nat) as int;
    let (s_order, order) = shuffled(next_state(seeded(seed)), all_cells());
    lemma_range_value(seeded(seed), 6, GRID_CELLS as nat);
    lemma_shuffled(next_state(seeded(seed)), all_cells());
    assert(occ.len() == GRID_CELLS);
    assert forall|d: int| 0 <= d < GRID_CELLS && !#[trigger] occ[d] implies d == order[6] as int || d == order[7] as int
        || d == order[8] as int by {
        assert(all_cells()[d] == d as usize);
        assert(order.contains(d as usize));
        let j = choose|j: int| 0 <= j < order.len() && order[j] == d as usize;
        if j < count {
            assert(order.take(count)[j] == d as usize);
        }
    }
    lemma_six_marked(occ, order[6] as int, order[7] as int, order[8] as int);
    assert(slots_placed(no_rooms(), occ, w, h, 0));
    assert(floors_kept(solid(w * h), w, no_rooms()));
    lemma_place_rooms(w, h, occ, solid(w * h), no_rooms(), s1, 0);
    let slots = level(seed, w, h).1;
    lemma_present_count(slots, occ);
}

} // verus!
