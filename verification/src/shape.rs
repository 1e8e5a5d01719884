//! The shape of a generated level: its outer edge is solid rock, and every
//! door is set into the wall ring of one of its rooms.

use vstd::prelude::*;
use crate::map::{Board, Room, Tile, GRID_CELLS, on_room_wall, in_room, in_room_box};
use crate::generate::{
    carved, grid_size, slots_placed, joinable, corridor_tiles, carve_corridors, links_good,
    good_link, dig_at, dig_row, dig_col, min_int, max_int, level, level_size, tiny_room,
    occupied_cells, place_rooms, corridor_plan, solid, no_rooms, floors_kept, lemma_carved_at, lemma_dig_at,
    lemma_index_in, lemma_room_inside, lemma_joinable_gap, lemma_place_rooms, lemma_plan_links,
    lemma_corridor_floors,
};
use crate::rng::{next_state, range_value, lemma_range_value, seeded};

verus! {

/// Is `(x, y)` a tile on the outer edge of a `w` x `h` map?
pub open spec fn on_border(w: int, h: int, x: int, y: int) -> bool {
    &&& 0 <= x < w
    &&& 0 <= y < h
    &&& (x == 0 || y == 0 || x == w - 1 || y == h - 1)
}

/// The edge of the map is solid rock.
pub open spec fn border_solid(t: Seq<Tile>, w: int, h: int) -> bool {
    forall|x: int, y: int| #[trigger] on_border(w, h, x, y) ==> t[y * w + x] == Tile::Wall
}

/// Every door is set into the wall ring of a recorded room.
pub open spec fn doors_in_walls(t: Seq<Tile>, w: int, h: int, slots: Seq<Option<Room>>) -> bool {
    forall|x: int, y: int|
        0 <= x < w && 0 <= y < h && #[trigger] t[y * w + x] == Tile::Door ==> exists|c: int|
            0 <= c < GRID_CELLS && (#[trigger] slots[c]) is Some && on_room_wall(slots[c]->0, x, y)
}

/// A tile changed from `t` to `t2` lies in row `y`, columns `a..=b`, and
/// became a corridor.
pub open spec fn changed_only_in_row(t: Seq<Tile>, t2: Seq<Tile>, w: int, h: int, y: int, a: int, b: int) -> bool {
    &&& t2.len() == t.len()
    &&& forall|xx: int, yy: int|
        0 <= xx < w && 0 <= yy < h && #[trigger] t2[yy * w + xx] != t[yy * w + xx] ==> yy == y && a <= xx <= b
            && t2[yy * w + xx] == Tile::Corridor
}

/// A tile changed from `t` to `t2` lies in column `x`, rows `a..=b`, and
/// became a corridor.
pub open spec fn changed_only_in_col(t: Seq<Tile>, t2: Seq<Tile>, w: int, h: int, x: int, a: int, b: int) -> bool {
    &&& t2.len() == t.len()
    &&& forall|xx: int, yy: int|
        0 <= xx < w && 0 <= yy < h && #[trigger] t2[yy * w + xx] != t[yy * w + xx] ==> xx == x && a <= yy <= b
            && t2[yy * w + xx] == Tile::Corridor
}

proof fn lemma_dig_row_changes(t: Seq<Tile>, w: int, h: int, y: int, a: int, b: int)
    requires
        t.len() == w * h,
        0 <= y < h,
        0 <= a,
        b < w,
    ensures
        changed_only_in_row(t, dig_row(t, w, y, a, b), w, h, y, a, b),
    decreases b + 1 - a,
{
    if a <= b {
        lemma_index_in(w, h, a, y);
        let j = y * w + a;
        let t1 = dig_at(t, j);
        lemma_dig_at(t, j, 0);
        lemma_dig_row_changes(t1, w, h, y, a + 1, b);
        let t2 = dig_row(t, w, y, a, b);
        assert forall|xx: int, yy: int|
            0 <= xx < w && 0 <= yy < h && #[trigger] t2[yy * w + xx] != t[yy * w + xx] implies yy == y && a <= xx
                <= b && t2[yy * w + xx] == Tile::Corridor by {
            lemma_index_in(w, h, xx, yy);
            lemma_dig_at(t, j, yy * w + xx);
            if t1[yy * w + xx] == t[yy * w + xx] {
            } else {
                crate::generate::lemma_index_injective(w, xx, yy, a, y);
                if t2[yy * w + xx] != t1[yy * w + xx] {
                } else {
                    assert(t1[j] == Tile::Corridor);
                }
            }
        }
    }
}

proof fn lemma_dig_col_changes(t: Seq<Tile>, w: int, h: int, x: int, a: int, b: int)
    requires
        t.len() == w * h,
        0 <= x < w,
        0 <= a,
        b < h,
    ensures
        changed_only_in_col(t, dig_col(t, w, x, a, b), w, h, x, a, b),
    decreases b + 1 - a,
{
    if a <= b {
        lemma_index_in(w, h, x, a);
        let j = a * w + x;
        let t1 = dig_at(t, j);
        lemma_dig_at(t, j, 0);
        lemma_dig_col_changes(t1, w, h, x, a + 1, b);
        let t2 = dig_col(t, w, x, a, b);
        assert forall|xx: int, yy: int|
            0 <= xx < w && 0 <= yy < h && #[trigger] t2[yy * w + xx] != t[yy * w + xx] implies xx == x && a <= yy
                <= b && t2[yy * w + xx] == Tile::Corridor by {
            lemma_index_in(w, h, xx, yy);
            lemma_dig_at(t, j, yy * w + xx);
            if t1[yy * w + xx] == t[yy * w + xx] {
            } else {
                crate::generate::lemma_index_injective(w, xx, yy, x, a);
                if t2[yy * w + xx] != t1[yy * w + xx] {
                } else {
                    assert(t1[j] == Tile::Corridor);
                }
            }
        }
    }
}

/// Carving a room inside the map's edge keeps the edge solid and sets no
/// door.
proof fn lemma_carve_sealed(t: Seq<Tile>, w: int, h: int, r: Room)
    requires
        t.len() == w * h,
        2 <= r.x0,
        r.x1 + 3 <= w,
        2 <= r.y0,
        r.y1 + 3 <= h,
        border_solid(t, w, h),
        forall|x: int, y: int| 0 <= x < w && 0 <= y < h ==> #[trigger] t[y * w + x] != Tile::Door,
    ensures
        carved(t, w, r).len() == t.len(),
        border_solid(carved(t, w, r), w, h),
        forall|x: int, y: int| 0 <= x < w && 0 <= y < h ==> #[trigger] carved(t, w, r)[y * w + x] != Tile::Door,
{
    lemma_carved_at(t, w, h, r, 0, 0);
    assert forall|x: int, y: int| #[trigger] on_border(w, h, x, y) implies carved(t, w, r)[y * w + x] == Tile::Wall by {
        lemma_carved_at(t, w, h, r, x, y);
    }
    assert forall|x: int, y: int| 0 <= x < w && 0 <= y < h implies #[trigger] carved(t, w, r)[y * w + x] != Tile::Door by {
        lemma_carved_at(t, w, h, r, x, y);
    }
}

/// Placing the rooms of cells `cell..9` keeps the edge solid and sets no
/// door.
proof fn lemma_place_rooms_sealed(
    w: int,
    h: int,
    occ: Seq<bool>,
    t: Seq<Tile>,
    slots: Seq<Option<Room>>,
    s: u64,
    cell: int,
)
    requires
        grid_size(w, h),
        t.len() == w * h,
        w * h <= usize::MAX,
        border_solid(t, w, h),
        forall|x: int, y: int| 0 <= x < w && 0 <= y < h ==> #[trigger] t[y * w + x] != Tile::Door,
    ensures
        ({
            let t2 = place_rooms(w, h, occ, t, slots, s, cell).0;
            &&& t2.len() == w * h
            &&& border_solid(t2, w, h)
            &&& forall|x: int, y: int| 0 <= x < w && 0 <= y < h ==> #[trigger] t2[y * w + x] != Tile::Door
        }),
    decreases 9 - cell,
{
    if 0 <= cell < 9 {
        if occ[cell] {
            assert(w <= usize::MAX && h <= usize::MAX) by {
                assert(w * h >= w && w * h >= h) by (nonlinear_arith)
                    requires
                        w >= 24,
                        h >= 18,
                ;
            }
            let (r, s2) = crate::generate::room_in_cell(w, h, cell, s);
            crate::generate::lemma_room_in_cell(w, h, cell, s);
            lemma_room_inside(w, h, cell, r);
            crate::generate::lemma_cell_bounds(w, h, cell);
            lemma_carve_sealed(t, w, h, r);
            lemma_place_rooms_sealed(w, h, occ, carved(t, w, r), slots.update(cell, Some(r)), s2, cell + 1);
        } else {
            lemma_place_rooms_sealed(w, h, occ, t, slots, s, cell + 1);
        }
    }
}


/// The edge is solid and every door is in a room's wall.
pub open spec fn sealed(t: Seq<Tile>, w: int, h: int, slots: Seq<Option<Room>>) -> bool {
    &&& t.len() == w * h
    &&& border_solid(t, w, h)
    &&& doors_in_walls(t, w, h, slots)
}

/// Setting a door into the wall ring of a recorded room, off the edge,
/// keeps the level sealed.
proof fn lemma_door_sealed(t: Seq<Tile>, w: int, h: int, slots: Seq<Option<Room>>, c: int, x: int, y: int)
    requires
        sealed(t, w, h, slots),
        0 < x < w - 1,
        0 < y < h - 1,
        0 <= c < GRID_CELLS,
        slots[c] is Some,
        on_room_wall(slots[c]->0, x, y),
    ensures
        sealed(t.update(y * w + x, Tile::Door), w, h, slots),
{
    lemma_index_in(w, h, x, y);
    let t2 = t.update(y * w + x, Tile::Door);
    assert forall|xx: int, yy: int| #[trigger] on_border(w, h, xx, yy) implies t2[yy * w + xx] == Tile::Wall by {
        lemma_index_in(w, h, xx, yy);
        if yy * w + xx == y * w + x {
            crate::generate::lemma_index_injective(w, xx, yy, x, y);
        }
    }
    assert forall|xx: int, yy: int| 0 <= xx < w && 0 <= yy < h && #[trigger] t2[yy * w + xx] == Tile::Door implies exists|cc: int|
        0 <= cc < GRID_CELLS && (#[trigger] slots[cc]) is Some && on_room_wall(slots[cc]->0, xx, yy) by {
        lemma_index_in(w, h, xx, yy);
        if yy * w + xx == y * w + x {
            crate::generate::lemma_index_injective(w, xx, yy, x, y);
            assert(slots[c] is Some && on_room_wall(slots[c]->0, xx, yy));
        } else {
            assert(t[yy * w + xx] == Tile::Door);
        }
    }
}

/// Digging along an inner row keeps the level sealed.
proof fn lemma_row_dig_sealed(t: Seq<Tile>, w: int, h: int, slots: Seq<Option<Room>>, y: int, a: int, b: int)
    requires
        sealed(t, w, h, slots),
        0 < y < h - 1,
        0 < a,
        b < w - 1,
    ensures
        sealed(dig_row(t, w, y, a, b), w, h, slots),
{
    lemma_dig_row_changes(t, w, h, y, a, b);
    let t2 = dig_row(t, w, y, a, b);
    assert forall|xx: int, yy: int| #[trigger] on_border(w, h, xx, yy) implies t2[yy * w + xx] == Tile::Wall by {
        if t2[yy * w + xx] != t[yy * w + xx] {
        }
    }
    assert forall|xx: int, yy: int| 0 <= xx < w && 0 <= yy < h && #[trigger] t2[yy * w + xx] == Tile::Door implies exists|cc: int|
        0 <= cc < GRID_CELLS && (#[trigger] slots[cc]) is Some && on_room_wall(slots[cc]->0, xx, yy) by {
        assert(t[yy * w + xx] == Tile::Door);
    }
}

/// Digging along an inner column keeps the level sealed.
proof fn lemma_col_dig_sealed(t: Seq<Tile>, w: int, h: int, slots: Seq<Option<Room>>, x: int, a: int, b: int)
    requires
        sealed(t, w, h, slots),
        0 < x < w - 1,
        0 < a,
        b < h - 1,
    ensures
        sealed(dig_col(t, w, x, a, b), w, h, slots),
{
    lemma_dig_col_changes(t, w, h, x, a, b);
    let t2 = dig_col(t, w, x, a, b);
    assert forall|xx: int, yy: int| #[trigger] on_border(w, h, xx, yy) implies t2[yy * w + xx] == Tile::Wall by {
        if t2[yy * w + xx] != t[yy * w + xx] {
        }
    }
    assert forall|xx: int, yy: int| 0 <= xx < w && 0 <= yy < h && #[trigger] t2[yy * w + xx] == Tile::Door implies exists|cc: int|
        0 <= cc < GRID_CELLS && (#[trigger] slots[cc]) is Some && on_room_wall(slots[cc]->0, xx, yy) by {
        assert(t[yy * w + xx] == Tile::Door);
    }
}

/// The corridor of one planned link keeps the level sealed.
proof fn lemma_corridor_sealed(
    t: Seq<Tile>,
    w: int,
    h: int,
    slots: Seq<Option<Room>>,
    occ: Seq<bool>,
    a: int,
    b: int,
    s: u64,
)
    requires
        grid_size(w, h),
        sealed(t, w, h, slots),
        slots_placed(slots, occ, w, h, 9),
        joinable(slots, a, b),
    ensures
        sealed(corridor_tiles(t, w, slots[a]->0, slots[b]->0, a / 3 == b / 3, s).0, w, h, slots),
{
    let ra = slots[a]->0;
    let rb = slots[b]->0;
    lemma_joinable_gap(w, h, slots, occ, a, b);
    lemma_room_inside(w, h, a, ra);
    lemma_room_inside(w, h, b, rb);
    crate::generate::lemma_cell_bounds(w, h, a);
    crate::generate::lemma_cell_bounds(w, h, b);
    let s1 = next_state(s);
    let s2 = next_state(s1);
    if a / 3 == b / 3 {
        let (l, r) = if ra.x0 < rb.x0 { (ra, rb) } else { (rb, ra) };
        let (cl, cr) = if ra.x0 < rb.x0 { (a, b) } else { (b, a) };
        lemma_range_value(s, l.y0 as nat, l.y1 as nat);
        lemma_range_value(s1, r.y0 as nat, r.y1 as nat);
        let ly = range_value(s, l.y0 as nat, l.y1 as nat) as int;
        let ry = range_value(s1, r.y0 as nat, r.y1 as nat) as int;
        let ldx = l.x1 + 1;
        let rdx = r.x0 - 1;
        lemma_range_value(s2, (ldx + 1) as nat, (rdx - 1) as nat);
        let bend = range_value(s2, (ldx + 1) as nat, (rdx - 1) as nat) as int;
        lemma_door_sealed(t, w, h, slots, cl, ldx, ly);
        let t0 = t.update(ly * w + ldx, Tile::Door);
        lemma_door_sealed(t0, w, h, slots, cr, rdx, ry);
        let t1 = t0.update(ry * w + rdx, Tile::Door);
        lemma_row_dig_sealed(t1, w, h, slots, ly, ldx + 1, bend);
        let t2 = dig_row(t1, w, ly, ldx + 1, bend);
        lemma_col_dig_sealed(t2, w, h, slots, bend, min_int(ly, ry), max_int(ly, ry));
        let t3 = dig_col(t2, w, bend, min_int(ly, ry), max_int(ly, ry));
        lemma_row_dig_sealed(t3, w, h, slots, ry, bend, rdx - 1);
    } else {
        let (tp, bt) = if ra.y0 < rb.y0 { (ra, rb) } else { (rb, ra) };
        let (ct, cb) = if ra.y0 < rb.y0 { (a, b) } else { (b, a) };
        lemma_range_value(s, tp.x0 as nat, tp.x1 as nat);
        lemma_range_value(s1, bt.x0 as nat, bt.x1 as nat);
        let tx = range_value(s, tp.x0 as nat, tp.x1 as nat) as int;
        let bx = range_value(s1, bt.x0 as nat, bt.x1 as nat) as int;
        let tdy = tp.y1 + 1;
        let bdy = bt.y0 - 1;
        lemma_range_value(s2, (tdy + 1) as nat, (bdy - 1) as nat);
        let bend = range_value(s2, (tdy + 1) as nat, (bdy - 1) as nat) as int;
        lemma_door_sealed(t, w, h, slots, ct, tx, tdy);
        let t0 = t.update(tdy * w + tx, Tile::Door);
        lemma_door_sealed(t0, w, h, slots, cb, bx, bdy);
        let t1 = t0.update(bdy * w + bx, Tile::Door);
        lemma_col_dig_sealed(t1, w, h, slots, tx, tdy + 1, bend);
        let t2 = dig_col(t1, w, tx, tdy + 1, bend);
        lemma_row_dig_sealed(t2, w, h, slots, bend, min_int(tx, bx), max_int(tx, bx));
        let t3 = dig_row(t2, w, bend, min_int(tx, bx), max_int(tx, bx));
        lemma_col_dig_sealed(t3, w, h, slots, bx, bend, bdy - 1);
    }
}

/// Carving the links `edges[i..]` keeps the level sealed.
proof fn lemma_corridors_sealed(
    t: Seq<Tile>,
    w: int,
    h: int,
    slots: Seq<Option<Room>>,
    occ: Seq<bool>,
    edges: Seq<(usize, usize)>,
    s: u64,
    i: int,
)
    requires
        grid_size(w, h),
        occ.len() == GRID_CELLS,
        sealed(t, w, h, slots),
        slots_placed(slots, occ, w, h, 9),
        links_good(occ, edges),
        0 <= i <= edges.len(),
    ensures
        sealed(carve_corridors(t, w, slots, edges, s, i).0, w, h, slots),
    decreases edges.len() - i,
{
    if i < edges.len() {
        let (a, b) = edges[i];
        assert(joinable(slots, a as int, b as int)) by {
            assert(good_link(occ, a as int, b));
        }
        let (t1, s1) = corridor_tiles(t, w, slots[a as int]->0, slots[b as int]->0, a / 3 == b / 3, s);
        lemma_corridor_sealed(t, w, h, slots, occ, a as int, b as int, s);
        lemma_corridors_sealed(t1, w, h, slots, occ, edges, s1, i + 1);
    }
}

/// Every generated level is sealed: its outer edge is solid rock and every
/// door sits in the wall ring of one of its rooms.
pub proof fn lemma_level_sealed(seed: u64, w: int, h: int)
    requires
        level_size(w, h).0 * level_size(w, h).1 <= usize::MAX,
    ensures
        border_solid(level(seed, w, h).0, level_size(w, h).0, level_size(w, h).1),
        doors_in_walls(level(seed, w, h).0, level_size(w, h).0, level_size(w, h).1, level(seed, w, h).1),
{
    if grid_size(w, h) {
        let (occ, s1) = occupied_cells(seeded(seed));
        assert(occ.len() == GRID_CELLS);
        assert(slots_placed(no_rooms(), occ, w, h, 0));
        assert(floors_kept(solid(w * h), w, no_rooms()));
        lemma_place_rooms(w, h, occ, solid(w * h), no_rooms(), s1, 0);
        assert forall|x: int, y: int| #[trigger] on_border(w, h, x, y) implies solid(w * h)[y * w + x] == Tile::Wall by {
            lemma_index_in(w, h, x, y);
        }
        assert forall|x: int, y: int| 0 <= x < w && 0 <= y < h implies #[trigger] solid(w * h)[y * w + x] != Tile::Door by {
            lemma_index_in(w, h, x, y);
        }
        lemma_place_rooms_sealed(w, h, occ, solid(w * h), no_rooms(), s1, 0);
        let (t_rooms, slots, s2) = place_rooms(w, h, occ, solid(w * h), no_rooms(), s1, 0);
        let (edges, s3) = corridor_plan(occ, s2);
        lemma_plan_links(occ, s2);
        assert(sealed(t_rooms, w, h, slots));
        lemma_corridors_sealed(t_rooms, w, h, slots, occ, edges, s3, 0);
        assert(level(seed, w, h) == (carve_corridors(t_rooms, w, slots, edges, s3, 0).0, slots));
    } else {
        let (tw, th) = level_size(w, h);
        let r = tiny_room(w, h);
        let t = level(seed, w, h).0;
        assert(t == carved(solid(tw * th), tw, r));
        assert(solid(tw * th).len() == tw * th);
        assert forall|x: int, y: int| #[trigger] on_border(tw, th, x, y) implies t[y * tw + x] == Tile::Wall by {
            lemma_index_in(tw, th, x, y);
            lemma_carved_at(solid(tw * th), tw, th, r, x, y);
        }
        assert forall|x: int, y: int| 0 <= x < tw && 0 <= y < th && #[trigger] t[y * tw + x] == Tile::Door implies exists|c: int|
            0 <= c < GRID_CELLS && (#[trigger] level(seed, w, h).1[c]) is Some && on_room_wall(level(seed, w, h).1[c]->0, x, y) by {
            lemma_index_in(tw, th, x, y);
            lemma_carved_at(solid(tw * th), tw, th, r, x, y);
            assert(t[y * tw + x] != Tile::Door);
        }
    }
}


// ---------------------------------------------------------------------
// Floor only inside rooms
// ---------------------------------------------------------------------

/// Every floor tile lies inside a recorded room.
pub open spec fn floors_in_rooms(t: Seq<Tile>, w: int, h: int, slots: Seq<Option<Room>>) -> bool {
    forall|x: int, y: int|
        0 <= x < w && 0 <= y < h && #[trigger] t[y * w + x] == Tile::Floor ==> exists|c: int|
            0 <= c < GRID_CELLS && (#[trigger] slots[c]) is Some && in_room(slots[c]->0, x, y)
}

/// Placing the rooms of cells `cell..9` lays floor only inside them.
proof fn lemma_place_rooms_floors(
    w: int,
    h: int,
    occ: Seq<bool>,
    t: Seq<Tile>,
    slots: Seq<Option<Room>>,
    s: u64,
    cell: int,
)
    requires
        grid_size(w, h),
        t.len() == w * h,
        w * h <= usize::MAX,
        slots.len() == GRID_CELLS,
        0 <= cell,
        forall|c: int| cell <= c < GRID_CELLS ==> (#[trigger] slots[c]) is None,
        floors_in_rooms(t, w, h, slots),
    ensures
        ({
            let (t2, s2, _) = place_rooms(w, h, occ, t, slots, s, cell);
            floors_in_rooms(t2, w, h, s2)
        }),
    decreases 9 - cell,
{
    if 0 <= cell < 9 {
        if occ[cell] {
            assert(w <= usize::MAX && h <= usize::MAX) by {
                assert(w * h >= w && w * h >= h) by (nonlinear_arith)
                    requires
                        w >= 24,
                        h >= 18,
                ;
            }
            let (r, s2) = crate::generate::room_in_cell(w, h, cell, s);
            crate::generate::lemma_room_in_cell(w, h, cell, s);
            lemma_room_inside(w, h, cell, r);
            let t2 = carved(t, w, r);
            let sl2 = slots.update(cell, Some(r));
            lemma_carved_at(t, w, h, r, 0, 0);
            assert forall|x: int, y: int| 0 <= x < w && 0 <= y < h && #[trigger] t2[y * w + x] == Tile::Floor implies exists|c: int|
                0 <= c < GRID_CELLS && (#[trigger] sl2[c]) is Some && in_room(sl2[c]->0, x, y) by {
                lemma_index_in(w, h, x, y);
                lemma_carved_at(t, w, h, r, x, y);
                if in_room_box(r, x, y) {
                    assert(in_room(r, x, y));
                    assert(sl2[cell] == Some(r));
                    assert(sl2[cell] is Some && in_room(sl2[cell]->0, x, y));
                } else {
                    assert(t[y * w + x] == Tile::Floor);
                    let c = choose|c: int| 0 <= c < GRID_CELLS && (#[trigger] slots[c]) is Some && in_room(slots[c]->0, x, y);
                    assert(c != cell);
                    assert(sl2[c] == slots[c]);
                    assert(sl2[c] is Some && in_room(sl2[c]->0, x, y));
                }
            }
            lemma_place_rooms_floors(w, h, occ, t2, sl2, s2, cell + 1);
        } else {
            lemma_place_rooms_floors(w, h, occ, t, slots, s, cell + 1);
        }
    }
}

/// Digging or setting doors lays no floor.
proof fn lemma_no_new_floor(t: Seq<Tile>, t2: Seq<Tile>, w: int, h: int, slots: Seq<Option<Room>>)
    requires
        t2.len() == t.len(),
        floors_in_rooms(t, w, h, slots),
        forall|x: int, y: int| 0 <= x < w && 0 <= y < h && #[trigger] t2[y * w + x] == Tile::Floor ==> t[y * w + x] == Tile::Floor,
    ensures
        floors_in_rooms(t2, w, h, slots),
{
    assert forall|x: int, y: int| 0 <= x < w && 0 <= y < h && #[trigger] t2[y * w + x] == Tile::Floor implies exists|c: int|
        0 <= c < GRID_CELLS && (#[trigger] slots[c]) is Some && in_room(slots[c]->0, x, y) by {
        assert(t[y * w + x] == Tile::Floor);
    }
}

/// The corridor of one planned link lays no floor.
proof fn lemma_corridor_floors_in_rooms(
    t: Seq<Tile>,
    w: int,
    h: int,
    slots: Seq<Option<Room>>,
    occ: Seq<bool>,
    a: int,
    b: int,
    s: u64,
)
    requires
        grid_size(w, h),
        t.len() == w * h,
        floors_in_rooms(t, w, h, slots),
        slots_placed(slots, occ, w, h, 9),
        joinable(slots, a, b),
    ensures
        floors_in_rooms(corridor_tiles(t, w, slots[a]->0, slots[b]->0, a / 3 == b / 3, s).0, w, h, slots),
{
    let ra = slots[a]->0;
    let rb = slots[b]->0;
    lemma_joinable_gap(w, h, slots, occ, a, b);
    lemma_room_inside(w, h, a, ra);
    lemma_room_inside(w, h, b, rb);
    let s1 = next_state(s);
    let s2 = next_state(s1);
    if a / 3 == b / 3 {
        let (l, r) = if ra.x0 < rb.x0 { (ra, rb) } else { (rb, ra) };
        lemma_range_value(s, l.y0 as nat, l.y1 as nat);
        lemma_range_value(s1, r.y0 as nat, r.y1 as nat);
        let ly = range_value(s, l.y0 as nat, l.y1 as nat) as int;
        let ry = range_value(s1, r.y0 as nat, r.y1 as nat) as int;
        let ldx = l.x1 + 1;
        let rdx = r.x0 - 1;
        lemma_range_value(s2, (ldx + 1) as nat, (rdx - 1) as nat);
        let bend = range_value(s2, (ldx + 1) as nat, (rdx - 1) as nat) as int;
        lemma_index_in(w, h, ldx, ly);
        lemma_index_in(w, h, rdx, ry);
        let t0 = t.update(ly * w + ldx, Tile::Door);
        let t1 = t0.update(ry * w + rdx, Tile::Door);
        assert forall|x: int, y: int| 0 <= x < w && 0 <= y < h && #[trigger] t1[y * w + x] == Tile::Floor implies t[y * w + x] == Tile::Floor by {
            lemma_index_in(w, h, x, y);
        }
        lemma_no_new_floor(t, t1, w, h, slots);
        lemma_dig_row_changes(t1, w, h, ly, ldx + 1, bend);
        let t2 = dig_row(t1, w, ly, ldx + 1, bend);
        lemma_no_new_floor(t1, t2, w, h, slots);
        lemma_dig_col_changes(t2, w, h, bend, min_int(ly, ry), max_int(ly, ry));
        let t3 = dig_col(t2, w, bend, min_int(ly, ry), max_int(ly, ry));
        lemma_no_new_floor(t2, t3, w, h, slots);
        lemma_dig_row_changes(t3, w, h, ry, bend, rdx - 1);
        lemma_no_new_floor(t3, dig_row(t3, w, ry, bend, rdx - 1), w, h, slots);
    } else {
        let (tp, bt) = if ra.y0 < rb.y0 { (ra, rb) } else { (rb, ra) };
        lemma_range_value(s, tp.x0 as nat, tp.x1 as nat);
        lemma_range_value(s1, bt.x0 as nat, bt.x1 as nat);
        let tx = range_value(s, tp.x0 as nat, tp.x1 as nat) as int;
        let bx = range_value(s1, bt.x0 as nat, bt.x1 as nat) as int;
        let tdy = tp.y1 + 1;
        let bdy = bt.y0 - 1;
        lemma_range_value(s2, (tdy + 1) as nat, (bdy - 1) as nat);
        let bend = range_value(s2, (tdy + 1) as nat, (bdy - 1) as nat) as int;
        lemma_index_in(w, h, tx, tdy);
        lemma_index_in(w, h, bx, bdy);
        let t0 = t.update(tdy * w + tx, Tile::Door);
        let t1 = t0.update(bdy * w + bx, Tile::Door);
        assert forall|x: int, y: int| 0 <= x < w && 0 <= y < h && #[trigger] t1[y * w + x] == Tile::Floor implies t[y * w + x] == Tile::Floor by {
            lemma_index_in(w, h, x, y);
        }
        lemma_no_new_floor(t, t1, w, h, slots);
        lemma_dig_col_changes(t1, w, h, tx, tdy + 1, bend);
        let t2 = dig_col(t1, w, tx, tdy + 1, bend);
        lemma_no_new_floor(t1, t2, w, h, slots);
        lemma_dig_row_changes(t2, w, h, bend, min_int(tx, bx), max_int(tx, bx));
        let t3 = dig_row(t2, w, bend, min_int(tx, bx), max_int(tx, bx));
        lemma_no_new_floor(t2, t3, w, h, slots);
        lemma_dig_col_changes(t3, w, h, bx, bend, bdy - 1);
        lemma_no_new_floor(t3, dig_col(t3, w, bx, bend, bdy - 1), w, h, slots);
    }
}

/// Carving the links `edges[i..]` lays no floor.
proof fn lemma_corridors_floors_in_rooms(
    t: Seq<Tile>,
    w: int,
    h: int,
    slots: Seq<Option<Room>>,
    occ: Seq<bool>,
    edges: Seq<(usize, usize)>,
    s: u64,
    i: int,
)
    requires
        grid_size(w, h),
        occ.len() == GRID_CELLS,
        t.len() == w * h,
        floors_in_rooms(t, w, h, slots),
        floors_kept(t, w, slots),
        slots_placed(slots, occ, w, h, 9),
        links_good(occ, edges),
        0 <= i <= edges.len(),
    ensures
        floors_in_rooms(carve_corridors(t, w, slots, edges, s, i).0, w, h, slots),
        carve_corridors(t, w, slots, edges, s, i).0.len() == t.len(),
    decreases edges.len() - i,
{
    if i < edges.len() {
        let (a, b) = edges[i];
        assert(joinable(slots, a as int, b as int)) by {
            assert(good_link(occ, a as int, b));
        }
        let (t1, s1) = corridor_tiles(t, w, slots[a as int]->0, slots[b as int]->0, a / 3 == b / 3, s);
        lemma_corridor_floors_in_rooms(t, w, h, slots, occ, a as int, b as int, s);
        lemma_corridor_floors(t, w, h, slots, occ, a as int, b as int, s);
        lemma_corridors_floors_in_rooms(t1, w, h, slots, occ, edges, s1, i + 1);
    }
}

/// The map of a generated level as a board.
pub open spec fn level_map(seed: u64, w: int, h: int) -> Board {
    Board {
        width: level_size(w, h).0 as usize,
        height: level_size(w, h).1 as usize,
        tiles: level(seed, w, h).0,
        rooms: level(seed, w, h).1,
    }
}

/// Every room of a generated level is closed: its interior is floor and no
/// floor lies on its wall ring, so standing in it lights exactly the room
/// and its walls.
pub proof fn lemma_level_rooms_closed(seed: u64, w: int, h: int, c: int)
    requires
        level_size(w, h).0 * level_size(w, h).1 <= usize::MAX,
        level_size(w, h).0 <= usize::MAX,
        level_size(w, h).1 <= usize::MAX,
        0 <= c < GRID_CELLS,
        level(seed, w, h).1[c] is Some,
    ensures
        crate::visibility::closed_room(level_map(seed, w, h), level(seed, w, h).1[c]->0),
{
    let d = level_map(seed, w, h);
    let r = level(seed, w, h).1[c]->0;
    if grid_size(w, h) {
        let (occ, s1) = occupied_cells(seeded(seed));
        assert(occ.len() == GRID_CELLS);
        assert(slots_placed(no_rooms(), occ, w, h, 0));
        assert(floors_kept(solid(w * h), w, no_rooms()));
        lemma_place_rooms(w, h, occ, solid(w * h), no_rooms(), s1, 0);
        assert forall|x: int, y: int| 0 <= x < w && 0 <= y < h && #[trigger] solid(w * h)[y * w + x] == Tile::Floor implies exists|cc: int|
            0 <= cc < GRID_CELLS && (#[trigger] no_rooms()[cc]) is Some && in_room(no_rooms()[cc]->0, x, y) by {
            lemma_index_in(w, h, x, y);
        }
        lemma_place_rooms_floors(w, h, occ, solid(w * h), no_rooms(), s1, 0);
        let (t_rooms, slots, s2) = place_rooms(w, h, occ, solid(w * h), no_rooms(), s1, 0);
        let (edges, s3) = corridor_plan(occ, s2);
        lemma_plan_links(occ, s2);
        lemma_corridors_floors_in_rooms(t_rooms, w, h, slots, occ, edges, s3, 0);
        crate::connect::lemma_level_floors(seed, w, h);
        assert(level(seed, w, h) == (carve_corridors(t_rooms, w, slots, edges, s3, 0).0, slots));
        let t = d.tiles;
        lemma_room_inside(w, h, c, r);
        assert forall|x: int, y: int| #[trigger] in_room(r, x, y) implies d.tile_at(x, y) == Tile::Floor by {
            assert(t[y * w + x] == Tile::Floor);
        }
        assert forall|x: int, y: int| #[trigger] in_room_box(r, x, y) && !in_room(r, x, y) implies d.tile_at(x, y) != Tile::Floor by {
            if t[y * w + x] == Tile::Floor {
                let cc = choose|cc: int| 0 <= cc < GRID_CELLS && (#[trigger] slots[cc]) is Some && in_room(slots[cc]->0, x, y);
                crate::generate::lemma_rooms_apart(w, h, c, cc, r, slots[cc]->0);
            }
        }
    } else {
        let (tw, th) = level_size(w, h);
        let t = level(seed, w, h).0;
        assert(level(seed, w, h).1 == no_rooms().update(0, Some(tiny_room(w, h))));
        assert(c == 0 && r == tiny_room(w, h));
        assert(t == carved(solid(tw * th), tw, r));
        assert(solid(tw * th).len() == tw * th);
        assert forall|x: int, y: int| #[trigger] in_room(r, x, y) implies d.tile_at(x, y) == Tile::Floor by {
            lemma_carved_at(solid(tw * th), tw, th, r, x, y);
        }
        assert forall|x: int, y: int| #[trigger] in_room_box(r, x, y) && !in_room(r, x, y) implies d.tile_at(x, y) != Tile::Floor by {
            lemma_carved_at(solid(tw * th), tw, th, r, x, y);
        }
    }
}

} // verus!
