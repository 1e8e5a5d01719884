//! Dungeon maps, 1980-Rogue style.
//!
//! The level is divided into a 3x3 grid of cells. Each cell holds at most one
//! rectangular room; a few cells are left empty ("gone rooms"). Rooms are
//! wired together with orthogonal corridors that run through the gaps between
//! cells.

use vstd::prelude::*;
use crate::text::push_char;
use crate::generate::lemma_index_in;

verus! {

/// Full map extent. 80 columns is the classic Rogue screen width.
pub const MAP_WIDTH: usize = 80;
pub const MAP_HEIGHT: usize = 24;

/// The room grid: 3 columns by 3 rows of cells, at most one room per cell.
pub const GRID_COLS: usize = 3;
pub const GRID_ROWS: usize = 3;
pub const GRID_CELLS: usize = 9;

/// Smallest room interior (floor area) that is ever placed.
pub const MIN_ROOM_WIDTH: usize = 4;
pub const MIN_ROOM_HEIGHT: usize = 2;

/// Every cell keeps a two-tile margin on each side: one for the room's own
/// wall and one for corridors to pass through.
pub const CELL_MARGIN: usize = 2;

/// Floor for auto-fitting the map to the terminal: the 3x3 grid's native
/// width minimum, and a height below the grid's 18-row minimum (smaller maps
/// fall back to a single room).
pub const MIN_FIT_WIDTH: usize = GRID_COLS * (MIN_ROOM_WIDTH + 2 * CELL_MARGIN);
pub const MIN_FIT_HEIGHT: usize = 13;

/// The smallest map the 3x3 grid generator accepts.
pub const GRID_MIN_WIDTH: usize = GRID_COLS * (MIN_ROOM_WIDTH + 2 * CELL_MARGIN);
pub const GRID_MIN_HEIGHT: usize = GRID_ROWS * (MIN_ROOM_HEIGHT + 2 * CELL_MARGIN);

pub open spec fn max_nat(a: int, b: int) -> int {
    if a >= b { a } else { b }
}

/// The map size `resolve_map_size` picks.
pub open spec fn resolved_size(width: Option<usize>, height: Option<usize>, cols: int, rows: int) -> (int, int) {
    let w = match width {
        Some(w) => w as int,
        None => cols,
    };
    let h = match height {
        Some(h) => h as int,
        None => max_nat(rows - 2, 0),
    };
    (max_nat(w, MIN_FIT_WIDTH as int), max_nat(h, MIN_FIT_HEIGHT as int))
}

/// The map size that fits a `cols`x`rows` terminal: the full width, and the
/// height minus the two reserved lines below the map, floored at
/// `MIN_FIT_WIDTH` x `MIN_FIT_HEIGHT`.
pub fn fit_bounds(cols: usize, rows: usize) -> (r: (usize, usize))
    ensures
        (r.0 as int, r.1 as int) == resolved_size(None, None, cols as int, rows as int),
{
    resolve_map_size(None, None, cols, rows)
}

/// Resolve the map size for an interactive session: explicit overrides win
/// over the terminal size; the automatic height leaves two rows for the
/// status and hint lines; every result is floored at the minimums.
pub fn resolve_map_size(width: Option<usize>, height: Option<usize>, cols: usize, rows: usize) -> (r: (
    usize,
    usize,
))
    ensures
        (r.0 as int, r.1 as int) == resolved_size(width, height, cols as int, rows as int),
{
    let w0 = match width {
        Some(w) => w,
        None => cols,
    };
    let w = if w0 >= MIN_FIT_WIDTH { w0 } else { MIN_FIT_WIDTH };
    let h0 = match height {
        Some(h) => h,
        None => rows.saturating_sub(2),
    };
    let h = if h0 >= MIN_FIT_HEIGHT { h0 } else { MIN_FIT_HEIGHT };
    (w, h)
}

#[derive(Clone, Copy, PartialEq, Eq, Debug, Structural)]
pub enum Tile {
    /// Solid rock / room wall.
    Wall,
    /// Lit room floor.
    Floor,
    /// Corridor floor: walkable like `Floor`, tracked separately because
    /// rooms are lit and passages are not.
    Corridor,
    /// Doorway in a room wall.
    Door,
}

pub open spec fn glyph_of(t: Tile) -> char {
    match t {
        Tile::Wall => '#',
        Tile::Floor => '.',
        Tile::Corridor => '.',
        Tile::Door => '+',
    }
}

pub open spec fn walkable(t: Tile) -> bool {
    t != Tile::Wall
}

impl Tile {
    pub fn glyph(self) -> (c: char)
        ensures
            c == glyph_of(self),
    {
        match self {
            Tile::Wall => '#',
            Tile::Floor => '.',
            Tile::Corridor => '.',
            Tile::Door => '+',
        }
    }

    pub fn is_walkable(self) -> (b: bool)
        ensures
            b == walkable(self),
    {
        match self {
            Tile::Wall => false,
            _ => true,
        }
    }
}

/// A room's interior (floor) rectangle, inclusive on both ends. Its walls
/// occupy the surrounding ring: columns `x0 - 1` and `x1 + 1`, rows `y0 - 1`
/// and `y1 + 1`.
#[derive(Clone, Copy, PartialEq, Eq, Debug, Structural)]
pub struct Room {
    pub x0: usize,
    pub y0: usize,
    pub x1: usize,
    pub y1: usize,
}

/// Is `(x, y)` inside the interior of `r`?
pub open spec fn in_room(r: Room, x: int, y: int) -> bool {
    r.x0 <= x <= r.x1 && r.y0 <= y <= r.y1
}

/// Is `(x, y)` on the wall ring of `r` (corners excluded)?
pub open spec fn on_room_wall(r: Room, x: int, y: int) -> bool {
    ((x == r.x0 - 1 || x == r.x1 + 1) && r.y0 <= y <= r.y1)
    || ((y == r.y0 - 1 || y == r.y1 + 1) && r.x0 <= x <= r.x1)
}

/// Is `(x, y)` inside `r` or its wall ring (corners included)?
pub open spec fn in_room_box(r: Room, x: int, y: int) -> bool {
    r.x0 - 1 <= x <= r.x1 + 1 && r.y0 - 1 <= y <= r.y1 + 1
}

/// Do the interiors of `a` and `b` come within a wall's width of each other?
pub open spec fn rooms_overlap(a: Room, b: Room) -> bool {
    a.x0 <= b.x1 + 1 && b.x0 <= a.x1 + 1 && a.y0 <= b.y1 + 1 && b.y0 <= a.y1 + 1
}

impl Room {
    pub fn width(&self) -> (w: usize)
        requires
            self.x0 <= self.x1,
            self.x1 - self.x0 < usize::MAX,
        ensures
            w == self.x1 - self.x0 + 1,
    {
        self.x1 - self.x0 + 1
    }

    pub fn height(&self) -> (h: usize)
        requires
            self.y0 <= self.y1,
            self.y1 - self.y0 < usize::MAX,
        ensures
            h == self.y1 - self.y0 + 1,
    {
        self.y1 - self.y0 + 1
    }

    pub fn center(&self) -> (c: (usize, usize))
        requires
            self.x0 + self.x1 <= usize::MAX,
            self.y0 + self.y1 <= usize::MAX,
        ensures
            c.0 == (self.x0 + self.x1) / 2,
            c.1 == (self.y0 + self.y1) / 2,
    {
        ((self.x0 + self.x1) / 2, (self.y0 + self.y1) / 2)
    }

    /// Interiors overlap, counting each room's wall ring, so that two rooms
    /// that do not overlap never share a wall.
    pub fn overlaps(&self, other: &Room) -> (b: bool)
        requires
            self.x1 < usize::MAX,
            self.y1 < usize::MAX,
            other.x1 < usize::MAX,
            other.y1 < usize::MAX,
        ensures
            b == rooms_overlap(*self, *other),
    {
        self.x0 <= other.x1 + 1 && other.x0 <= self.x1 + 1 && self.y0 <= other.y1 + 1 && other.y0
            <= self.y1 + 1
    }
}

/// A room that fits a `w` x `h` map with its wall ring, at least the minimum
/// room size.
pub open spec fn room_fits(r: Room, w: int, h: int) -> bool {
    &&& 1 <= r.x0
    &&& r.x0 + (MIN_ROOM_WIDTH - 1) <= r.x1
    &&& r.x1 + 1 < w
    &&& 1 <= r.y0
    &&& r.y0 + (MIN_ROOM_HEIGHT - 1) <= r.y1
    &&& r.y1 + 1 < h
}

/// The rooms among the grid slots, in grid order.
pub open spec fn present_rooms(slots: Seq<Option<Room>>) -> Seq<Room>
    decreases slots.len(),
{
    if slots.len() == 0 {
        Seq::empty()
    } else {
        let rest = present_rooms(slots.drop_last());
        match slots.last() {
            Some(r) => rest.push(r),
            None => rest,
        }
    }
}

/// The content of a dungeon as plain values: its extent, its tiles
/// (row-major), and its grid slots.
pub struct Board {
    pub width: usize,
    pub height: usize,
    pub tiles: Seq<Tile>,
    pub rooms: Seq<Option<Room>>,
}

impl Board {
    /// The tiles, row-major.
    pub open spec fn cells(&self) -> Seq<Tile> {
        self.tiles
    }

    /// The grid slots, row-major; `None` for a gone room.
    pub open spec fn slots(&self) -> Seq<Option<Room>> {
        self.rooms
    }

    /// The tile at `(x, y)`.
    pub open spec fn tile_at(&self, x: int, y: int) -> Tile {
        self.cells()[y * self.width + x]
    }

    /// Is `(x, y)` on the map?
    pub open spec fn in_bounds(&self, x: int, y: int) -> bool {
        0 <= x < self.width && 0 <= y < self.height
    }

    /// Well-formed: one tile per cell of the extent, one slot per grid cell,
    /// and every recorded room fits the map and has an all-floor interior.
    pub open spec fn wf(&self) -> bool {
        &&& self.cells().len() == self.width * self.height
        &&& self.slots().len() == GRID_CELLS
        &&& forall|c: int|
            0 <= c < GRID_CELLS && (#[trigger] self.slots()[c]) is Some ==> room_fits(
                self.slots()[c]->0,
                self.width as int,
                self.height as int,
            )
        &&& forall|c: int, x: int, y: int|
            0 <= c < GRID_CELLS && (#[trigger] self.slots()[c]) is Some && in_room(
                self.slots()[c]->0,
                x,
                y,
            ) ==> #[trigger] self.tile_at(x, y) == Tile::Floor
    }
}

pub struct Dungeon {
    pub width: usize,
    pub height: usize,
    /// The tiles, row-major.
    pub tiles: Vec<Tile>,
    /// One slot per grid cell, in row-major order; `None` for a gone room.
    pub rooms: Vec<Option<Room>>,
}

impl View for Dungeon {
    type V = Board;

    open spec fn view(&self) -> Board {
        Board { width: self.width, height: self.height, tiles: self.tiles@, rooms: self.rooms@ }
    }
}

impl Dungeon {
    /// The tiles, row-major.
    pub open spec fn cells(&self) -> Seq<Tile> {
        self@.cells()
    }

    /// The grid slots, row-major; `None` for a gone room.
    pub open spec fn slots(&self) -> Seq<Option<Room>> {
        self@.slots()
    }

    /// The tile at `(x, y)`.
    pub open spec fn tile_at(&self, x: int, y: int) -> Tile {
        self@.tile_at(x, y)
    }

    /// Is `(x, y)` on the map?
    pub open spec fn in_bounds(&self, x: int, y: int) -> bool {
        self@.in_bounds(x, y)
    }

    /// Well-formed: see [`Board::wf`].
    pub open spec fn wf(&self) -> bool {
        self@.wf()
    }

    /// Assemble a dungeon from raw tiles (row-major), for tests and tools
    /// that need a level with known contents. No rooms are recorded.
    pub fn from_tiles(width: usize, height: usize, tiles: &[Tile]) -> (d: Dungeon)
        requires
            tiles@.len() == width * height,
        ensures
            d.wf(),
            d.width == width,
            d.height == height,
            d.cells() == tiles@,
            d.slots() == Seq::new(GRID_CELLS as nat, |i: int| None::<Room>),
    {
        let mut v: Vec<Tile> = Vec::new();
        let mut i: usize = 0;
        while i < tiles.len()
            invariant
                i <= tiles@.len(),
                v@ == tiles@.take(i as int),
            decreases tiles@.len() - i,
        {
            v.push(tiles[i]);
            i = i + 1;
            assert(v@ =~= tiles@.take(i as int));
        }
        assert(v@ =~= tiles@);
        let d = Dungeon { width, height, tiles: v, rooms: empty_slots() };
        d
    }

    pub fn tile(&self, x: usize, y: usize) -> (t: Tile)
        requires
            self.cells().len() == self.width * self.height,
            y * self.width + x < self.tiles.len(),
        ensures
            t == self.tile_at(x as int, y as int),
    {
        self.tiles[y * self.width + x]
    }

    /// The rooms that were placed, in grid order.
    pub fn rooms(&self) -> (r: Vec<Room>)
        ensures
            r@ == present_rooms(self.slots()),
    {
        let mut out: Vec<Room> = Vec::new();
        let mut i: usize = 0;
        while i < self.rooms.len()
            invariant
                i <= self.rooms@.len(),
                out@ == present_rooms(self.rooms@.take(i as int)),
            decreases self.rooms@.len() - i,
        {
            assert(self.rooms@.take(i as int + 1).drop_last() =~= self.rooms@.take(i as int));
            match self.rooms[i] {
                Some(r) => out.push(r),
                None => {},
            }
            i = i + 1;
        }
        assert(self.rooms@.take(i as int) =~= self.rooms@);
        out
    }

    /// The room in grid cell `(col, row)`, if that cell is not a gone room.
    pub fn room_at(&self, col: usize, row: usize) -> (r: Option<Room>)
        requires
            self.slots().len() == GRID_CELLS,
            row * GRID_COLS + col < GRID_CELLS,
        ensures
            r == self.slots()[row * GRID_COLS + col],
    {
        self.rooms[row * GRID_COLS + col]
    }
}

/// One map row as glyphs.
pub open spec fn row_text(cells: Seq<Tile>, w: int, y: int) -> Seq<char> {
    Seq::new(w as nat, |x: int| glyph_of(cells[y * w + x]))
}

/// The first `n` rows of a map as text, each row followed by a newline.
pub open spec fn rows_text(cells: Seq<Tile>, w: int, n: int) -> Seq<char>
    decreases n,
{
    if n <= 0 {
        Seq::empty()
    } else {
        rows_text(cells, w, n - 1) + row_text(cells, w, n - 1) + seq!['\n']
    }
}

impl Dungeon {
    /// The map as ASCII, one line per row.
    pub fn render(&self) -> (out: String)
        requires
            self.cells().len() == self.width * self.height,
        ensures
            out@ == rows_text(self.cells(), self.width as int, self.height as int),
    {
        let mut out = String::new();
        let mut y: usize = 0;
        while y < self.height
            invariant
                y <= self.height,
                self.cells().len() == self.width * self.height,
                out@ == rows_text(self.cells(), self.width as int, y as int),
            decreases self.height - y,
        {
            let mut x: usize = 0;
            while x < self.width
                invariant
                    x <= self.width,
                    y < self.height,
                    self.cells().len() == self.width * self.height,
                    out@ == rows_text(self.cells(), self.width as int, y as int) + row_text(
                        self.cells(),
                        self.width as int,
                        y as int,
                    ).take(x as int),
                decreases self.width - x,
            {
                proof {
                    lemma_index_in(self.width as int, self.height as int, x as int, y as int);
                }
                let c = self.tile(x, y).glyph();
                push_char(&mut out, c);
                x = x + 1;
                assert(out@ =~= rows_text(self.cells(), self.width as int, y as int) + row_text(
                    self.cells(),
                    self.width as int,
                    y as int,
                ).take(x as int));
            }
            push_char(&mut out, '\n');
            y = y + 1;
            assert(row_text(self.cells(), self.width as int, y - 1).take(self.width as int) =~= row_text(self.cells(), self.width as int, y - 1));
            assert(out@ =~= rows_text(self.cells(), self.width as int, y as int));
        }
        out
    }
}

/// Nine empty grid slots.
pub(crate) fn empty_slots() -> (v: Vec<Option<Room>>)
    ensures
        v@ == Seq::new(GRID_CELLS as nat, |i: int| None::<Room>),
{
    let mut v: Vec<Option<Room>> = Vec::new();
    let mut i: usize = 0;
    while i < GRID_CELLS
        invariant
            i <= GRID_CELLS,
            v@ == Seq::new(i as nat, |k: int| None::<Room>),
        decreases GRID_CELLS - i,
    {
        v.push(None);
        i = i + 1;
        assert(v@ =~= Seq::new(i as nat, |k: int| None::<Room>));
    }
    v
}

} // verus!
