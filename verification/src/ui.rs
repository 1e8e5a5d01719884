//! The frame: one layout for the interactive terminal and the plain-text
//! frame dump. The map is a grid of single-glyph cells written straight
//! into a ratatui buffer; the status line and the hint/message line are
//! one-line paragraphs below it. The interactive loop draws the same
//! [`FramePlan`] onto the terminal, so both show the same characters.

use vstd::prelude::*;
use ratatui::buffer::Buffer;
use ratatui::layout::Rect;
use ratatui::style::Style;
use ratatui::text::Line;
use ratatui::widgets::{Paragraph, Widget};
use crate::game::{
    Game, GameView, glyph_view, status_text, game_wf, on_exit, monster_at, stepped, acted, after_moved,
    after_phase, fight_message, first_hit, resized, assembled,
};
use crate::entity::{MonsterKind, Player, rules_name_of};
use crate::combat::{MonsterAttack, phase_steps, phase_value, woken, STARTING_ARMOR_AC};
use crate::map::Board;
use crate::text::{push_char, push_str, push_digits, digits, decimal, digit_char};

verus! {

/// The two UI lines (the status line and the hint/message line) reserved
/// below the map.
pub const UI_LINES: usize = 2;

/// Printable ASCII, one cell per character.
pub open spec fn printable(s: Seq<char>) -> bool {
    forall|i: int| 0 <= i < s.len() ==> ' ' <= #[trigger] s[i] <= '~'
}

#[verifier::external_type_specification]
#[verifier::external_body]
pub struct ExBuffer(Buffer);

/// What a ratatui buffer holds: its rows, top to bottom, each a row of
/// cells, left to right, each cell by its symbol.
pub uninterp spec fn buffer_cells(b: Buffer) -> Seq<Seq<Seq<char>>>;

/// The top-left corner of a ratatui buffer's area.
pub uninterp spec fn buffer_corner(b: Buffer) -> (u16, u16);

/// `rows` rows of `cols` blank cells.
pub open spec fn blank_cells(cols: int, rows: int) -> Seq<Seq<Seq<char>>> {
    Seq::new(rows as nat, |y: int| Seq::new(cols as nat, |x: int| seq![' ']))
}

/// The cells after writing text `s` into row `y` from column 0: the first
/// cells, as many as the text has characters but at most `n`, each hold one
/// character; the rest of the grid is untouched.
pub open spec fn painted(g: Seq<Seq<Seq<char>>>, y: int, s: Seq<char>, n: int) -> Seq<Seq<Seq<char>>> {
    g.update(y, Seq::new(g[y].len(), |x: int| if x < s.len() && x < n { seq![s[x]] } else { g[y][x] }))
}

/// Two grids with the same rows of the same lengths.
pub open spec fn same_shape(a: Seq<Seq<Seq<char>>>, b: Seq<Seq<Seq<char>>>) -> bool {
    &&& a.len() == b.len()
    &&& forall|y: int| 0 <= y < a.len() ==> (#[trigger] a[y]).len() == b[y].len()
}

/// `Buffer::empty` over `Rect::new(0, 0, cols, rows)`: a buffer at the
/// origin, `rows` rows of `cols` cells, every cell holding the blank
/// symbol " ".
#[verifier::external_body]
fn blank_buffer(cols: u16, rows: u16) -> (b: Buffer)
    ensures
        buffer_corner(b) == (0u16, 0u16),
        buffer_cells(b) == blank_cells(cols as int, rows as int),
{
    Buffer::empty(Rect::new(0, 0, cols, rows))
}

/// `Buffer::set_stringn(0, y, s, n, Style::default())`: writes the first
/// characters of `s` into row `y` from column 0, at most `n` of them and
/// no further than the row's end. For printable ASCII each character is
/// one grapheme one cell wide, and the contract states the cells for that
/// case; for other text it states only that the grid keeps its shape.
#[verifier::external_body]
fn put_str(b: &mut Buffer, y: u16, s: &str, n: usize)
    requires
        buffer_corner(*old(b)) == (0u16, 0u16),
        (y as int) < buffer_cells(*old(b)).len(),
    ensures
        buffer_corner(*final(b)) == (0u16, 0u16),
        same_shape(buffer_cells(*final(b)), buffer_cells(*old(b))),
        printable(s@) ==> buffer_cells(*final(b)) == painted(buffer_cells(*old(b)), y as int, s@, n as int),
{
    b.set_stringn(0, y, s, n, Style::default());
}

/// `Paragraph::new(Line::from(s))` rendered into `Rect::new(0, y, width,
/// 1)`: one unwrapped, left-aligned line truncated to `width` cells. For
/// printable ASCII the contract states the cells written; for other text
/// it states only that the grid keeps its shape.
#[verifier::external_body]
fn put_line(b: &mut Buffer, y: u16, width: u16, s: &str)
    requires
        buffer_corner(*old(b)) == (0u16, 0u16),
        (y as int) < buffer_cells(*old(b)).len(),
        (width as int) <= buffer_cells(*old(b))[y as int].len(),
    ensures
        buffer_corner(*final(b)) == (0u16, 0u16),
        same_shape(buffer_cells(*final(b)), buffer_cells(*old(b))),
        printable(s@) ==> buffer_cells(*final(b)) == painted(buffer_cells(*old(b)), y as int, s@, width as int),
{
    Paragraph::new(Line::from(s)).render(Rect::new(0, y, width, 1), b);
}

/// The symbol of the cell at `(x, y)` of a buffer at the origin:
/// `buffer[(x, y)].symbol()`, as a `String`.
#[verifier::external_body]
fn cell_symbol(b: &Buffer, x: u16, y: u16) -> (s: String)
    requires
        buffer_corner(*b) == (0u16, 0u16),
        (y as int) < buffer_cells(*b).len(),
        (x as int) < buffer_cells(*b)[y as int].len(),
    ensures
        s@ == buffer_cells(*b)[y as int][x as int],
{
    b[(x, y)].symbol().to_string()
}

/// The symbols of cells `0..n` of a row, in order.
pub open spec fn row_text(r: Seq<Seq<char>>, n: int) -> Seq<char>
    decreases n,
{
    if n <= 0 {
        Seq::empty()
    } else {
        row_text(r, n - 1) + r[n - 1]
    }
}

/// Rows `0..n` of a grid as text, each row ending in a newline.
pub open spec fn grid_text(g: Seq<Seq<Seq<char>>>, n: int) -> Seq<char>
    decreases n,
{
    if n <= 0 {
        Seq::empty()
    } else {
        grid_text(g, n - 1) + row_text(g[n - 1], g[n - 1].len() as int) + seq!['\n']
    }
}

/// One plain-text line per buffer row, in row-major order. Unwritten cells
/// read as spaces, so every line is exactly the buffer's width.
fn buffer_text_of(b: &Buffer, cols: u16, rows: u16) -> (out: String)
    requires
        buffer_corner(*b) == (0u16, 0u16),
        buffer_cells(*b).len() == rows,
        forall|y: int| 0 <= y < rows ==> (#[trigger] buffer_cells(*b)[y]).len() == cols,
    ensures
        out@ == grid_text(buffer_cells(*b), rows as int),
{
    let ghost g = buffer_cells(*b);
    let mut out = String::new();
    let mut y: u16 = 0;
    while y < rows
        invariant
            buffer_corner(*b) == (0u16, 0u16),
            g == buffer_cells(*b),
            g.len() == rows,
            forall|yy: int| 0 <= yy < rows ==> (#[trigger] g[yy]).len() == cols,
            y <= rows,
            out@ == grid_text(g, y as int),
        decreases rows - y,
    {
        let ghost before = out@;
        let mut x: u16 = 0;
        while x < cols
            invariant
                buffer_corner(*b) == (0u16, 0u16),
                g == buffer_cells(*b),
                g.len() == rows,
                forall|yy: int| 0 <= yy < rows ==> (#[trigger] g[yy]).len() == cols,
                y < rows,
                x <= cols,
                out@ == before + row_text(g[y as int], x as int),
            decreases cols - x,
        {
            let sym = cell_symbol(b, x, y);
            push_str(&mut out, sym.as_str());
            x = x + 1;
            assert(out@ =~= before + row_text(g[y as int], x as int));
        }
        push_char(&mut out, '\n');
        y = y + 1;
    }
    out
}

/// The hint shown under the status line before any round produces a
/// message.
pub open spec fn default_hint_text(seed: u64) -> Seq<char> {
    "seed "@ + digits(seed as nat) + " - h/j/k/l or arrows move, q quits"@
}

/// The line under the status line: the last message, or the hint.
pub open spec fn hint_text(g: GameView) -> Seq<char> {
    match g.last_message {
        Some(m) => m,
        None => default_hint_text(g.seed),
    }
}

/// The hint shown under the status line before any round produces a
/// message.
fn default_hint(game: &Game) -> (s: String)
    ensures
        s@ == default_hint_text(game@.seed),
{
    let mut s = String::new();
    push_str(&mut s, "seed ");
    push_digits(&mut s, game.seed);
    push_str(&mut s, " - h/j/k/l or arrows move, q quits");
    s
}

/// Row `y` of the map as drawn, columns `0..n`.
pub open spec fn map_row(g: GameView, y: int, n: int) -> Seq<char> {
    Seq::new(n as nat, |x: int| glyph_view(g, x, y))
}

/// The map rows `0..n`, each `w` cells, written into `grid`.
pub open spec fn map_painted(g: GameView, grid: Seq<Seq<Seq<char>>>, w: int, n: int) -> Seq<Seq<Seq<char>>>
    decreases n,
{
    if n <= 0 {
        grid
    } else {
        painted(map_painted(g, grid, w, n - 1), n - 1, map_row(g, n - 1, w), w)
    }
}

/// How many map rows a `rows`-row window shows: the map's height, less
/// when the window cannot hold it with the two UI lines.
pub open spec fn shown_height(g: GameView, rows: int) -> int {
    let room = if rows >= UI_LINES { rows - UI_LINES } else { 0 };
    if g.map.height <= room {
        g.map.height as int
    } else {
        room
    }
}

/// How many map columns a `cols`-column window shows.
pub open spec fn shown_width(g: GameView, cols: int) -> int {
    if g.map.width <= cols {
        g.map.width as int
    } else {
        cols
    }
}

/// The frame's cells in a `cols` x `rows` window: the map rows that fit,
/// truncated to the window; then the status line, if a row is left below
/// the map with one more to spare; then the hint/message line, if a row is
/// left for it. Both lines are truncated to the window, never wrapped.
pub open spec fn frame_cells(g: GameView, cols: int, rows: int) -> Seq<Seq<Seq<char>>> {
    let map_h = shown_height(g, rows);
    let map_w = shown_width(g, cols);
    let g1 = map_painted(g, blank_cells(cols, rows), map_w, map_h);
    let g2 = if map_h + 1 < rows { painted(g1, map_h, status_text(g), cols) } else { g1 };
    if map_h + 2 <= rows {
        painted(g2, map_h + 1, hint_text(g), cols)
    } else {
        g2
    }
}

/// What a frame draws: the map rows (each already truncated to the
/// window), the status line and its row if it fits, and the hint/message
/// line and its row if it fits.
pub struct FramePlan {
    pub map_rows: Vec<String>,
    pub map_width: usize,
    pub status: Option<(u16, String)>,
    pub hint: Option<(u16, String)>,
}

/// The text 'Level: ' is printable.
proof fn lemma_printable_text_0()
    ensures
        printable("Level: "@),
{
    reveal_strlit("Level: ");
    assert forall|i: int| 0 <= i < "Level: "@.len() implies ' ' <= #[trigger] "Level: "@[i] <= '~' by {
        if i == 0 {} else if i == 1 {} else if i == 2 {} else if i == 3 {} else if i == 4 {} else if i == 5 {} else {}
    }
}

/// The text '  Gold: ' is printable.
proof fn lemma_printable_text_1()
    ensures
        printable("  Gold: "@),
{
    reveal_strlit("  Gold: ");
    assert forall|i: int| 0 <= i < "  Gold: "@.len() implies ' ' <= #[trigger] "  Gold: "@[i] <= '~' by {
        if i == 0 {} else if i == 1 {} else if i == 2 {} else if i == 3 {} else if i == 4 {} else if i == 5 {} else if i == 6 {} else {}
    }
}

/// The text '  Hp: ' is printable.
proof fn lemma_printable_text_2()
    ensures
        printable("  Hp: "@),
{
    reveal_strlit("  Hp: ");
    assert forall|i: int| 0 <= i < "  Hp: "@.len() implies ' ' <= #[trigger] "  Hp: "@[i] <= '~' by {
        if i == 0 {} else if i == 1 {} else if i == 2 {} else if i == 3 {} else if i == 4 {} else {}
    }
}

/// The text '(' is printable.
proof fn lemma_printable_text_3()
    ensures
        printable("("@),
{
    reveal_strlit("(");
    assert forall|i: int| 0 <= i < "("@.len() implies ' ' <= #[trigger] "("@[i] <= '~' by {
        {}
    }
}

/// The text ')  Str: ' is printable.
proof fn lemma_printable_text_4()
    ensures
        printable(")  Str: "@),
{
    reveal_strlit(")  Str: ");
    assert forall|i: int| 0 <= i < ")  Str: "@.len() implies ' ' <= #[trigger] ")  Str: "@[i] <= '~' by {
        if i == 0 {} else if i == 1 {} else if i == 2 {} else if i == 3 {} else if i == 4 {} else if i == 5 {} else if i == 6 {} else {}
    }
}

/// The text ')  Arm: ' is printable.
proof fn lemma_printable_text_5()
    ensures
        printable(")  Arm: "@),
{
    reveal_strlit(")  Arm: ");
    assert forall|i: int| 0 <= i < ")  Arm: "@.len() implies ' ' <= #[trigger] ")  Arm: "@[i] <= '~' by {
        if i == 0 {} else if i == 1 {} else if i == 2 {} else if i == 3 {} else if i == 4 {} else if i == 5 {} else if i == 6 {} else {}
    }
}

/// The text '   Exp: ' is printable.
proof fn lemma_printable_text_6()
    ensures
        printable("   Exp: "@),
{
    reveal_strlit("   Exp: ");
    assert forall|i: int| 0 <= i < "   Exp: "@.len() implies ' ' <= #[trigger] "   Exp: "@[i] <= '~' by {
        if i == 0 {} else if i == 1 {} else if i == 2 {} else if i == 3 {} else if i == 4 {} else if i == 5 {} else if i == 6 {} else {}
    }
}

/// The text '/' is printable.
proof fn lemma_printable_text_7()
    ensures
        printable("/"@),
{
    reveal_strlit("/");
    assert forall|i: int| 0 <= i < "/"@.len() implies ' ' <= #[trigger] "/"@[i] <= '~' by {
        {}
    }
}

/// The text '  Amulet: carried' is printable.
proof fn lemma_printable_text_8()
    ensures
        printable("  Amulet: carried"@),
{
    reveal_strlit("  Amulet: carried");
    assert forall|i: int| 0 <= i < "  Amulet: carried"@.len() implies ' ' <= #[trigger] "  Amulet: carried"@[i] <= '~' by {
        if i == 0 {} else if i == 1 {} else if i == 2 {} else if i == 3 {} else if i == 4 {} else if i == 5 {} else if i == 6 {} else if i == 7 {} else if i == 8 {} else if i == 9 {} else if i == 10 {} else if i == 11 {} else if i == 12 {} else if i == 13 {} else if i == 14 {} else if i == 15 {} else {}
    }
}

/// The text '  (the way out is magically blocked)' is printable.
proof fn lemma_printable_text_9()
    ensures
        printable("  (the way out is magically blocked)"@),
{
    reveal_strlit("  (the way out is magically blocked)");
    assert forall|i: int| 0 <= i < "  (the way out is magically blocked)"@.len() implies ' ' <= #[trigger] "  (the way out is magically blocked)"@[i] <= '~' by {
        if i == 0 {} else if i == 1 {} else if i == 2 {} else if i == 3 {} else if i == 4 {} else if i == 5 {} else if i == 6 {} else if i == 7 {} else if i == 8 {} else if i == 9 {} else if i == 10 {} else if i == 11 {} else if i == 12 {} else if i == 13 {} else if i == 14 {} else if i == 15 {} else if i == 16 {} else if i == 17 {} else if i == 18 {} else if i == 19 {} else if i == 20 {} else if i == 21 {} else if i == 22 {} else if i == 23 {} else if i == 24 {} else if i == 25 {} else if i == 26 {} else if i == 27 {} else if i == 28 {} else if i == 29 {} else if i == 30 {} else if i == 31 {} else if i == 32 {} else if i == 33 {} else if i == 34 {} else {}
    }
}

/// The text 'seed ' is printable.
proof fn lemma_printable_text_10()
    ensures
        printable("seed "@),
{
    reveal_strlit("seed ");
    assert forall|i: int| 0 <= i < "seed "@.len() implies ' ' <= #[trigger] "seed "@[i] <= '~' by {
        if i == 0 {} else if i == 1 {} else if i == 2 {} else if i == 3 {} else {}
    }
}

/// The text ' - h/j/k/l or arrows move, q quits' is printable.
proof fn lemma_printable_text_11()
    ensures
        printable(" - h/j/k/l or arrows move, q quits"@),
{
    reveal_strlit(" - h/j/k/l or arrows move, q quits");
    assert forall|i: int| 0 <= i < " - h/j/k/l or arrows move, q quits"@.len() implies ' ' <= #[trigger] " - h/j/k/l or arrows move, q quits"@[i] <= '~' by {
        if i == 0 {} else if i == 1 {} else if i == 2 {} else if i == 3 {} else if i == 4 {} else if i == 5 {} else if i == 6 {} else if i == 7 {} else if i == 8 {} else if i == 9 {} else if i == 10 {} else if i == 11 {} else if i == 12 {} else if i == 13 {} else if i == 14 {} else if i == 15 {} else if i == 16 {} else if i == 17 {} else if i == 18 {} else if i == 19 {} else if i == 20 {} else if i == 21 {} else if i == 22 {} else if i == 23 {} else if i == 24 {} else if i == 25 {} else if i == 26 {} else if i == 27 {} else if i == 28 {} else if i == 29 {} else if i == 30 {} else if i == 31 {} else if i == 32 {} else {}
    }
}

proof fn lemma_printable_concat(a: Seq<char>, b: Seq<char>)
    requires
        printable(a),
        printable(b),
    ensures
        printable(a + b),
{
    assert forall|i: int| 0 <= i < (a + b).len() implies ' ' <= #[trigger] (a + b)[i] <= '~' by {
        if i < a.len() {
            assert((a + b)[i] == a[i]);
        } else {
            assert((a + b)[i] == b[i - a.len()]);
        }
    }
}

proof fn lemma_digits_printable(n: nat)
    ensures
        printable(digits(n)),
    decreases n,
{
    if n >= 10 {
        lemma_digits_printable(n / 10);
        let d = digits(n / 10);
        assert forall|i: int| 0 <= i < d.push(digit_char(n % 10)).len() implies ' ' <= #[trigger] d.push(digit_char(n % 10))[i] <= '~' by {
            if i < d.len() {
                assert(d.push(digit_char(n % 10))[i] == d[i]);
            }
        }
    }
}

proof fn lemma_decimal_printable(n: int)
    ensures
        printable(decimal(n)),
{
    if n < 0 {
        lemma_digits_printable((-n) as nat);
        assert(printable(seq!['-']));
        lemma_printable_concat(seq!['-'], digits((-n) as nat));
    } else {
        lemma_digits_printable(n as nat);
    }
}

/// The status line is printable text.
proof fn lemma_status_printable(g: GameView)
    ensures
        printable(status_text(g)),
{
    let p = g.player;
    lemma_printable_text_0();
    lemma_printable_text_1();
    lemma_printable_text_2();
    lemma_printable_text_3();
    lemma_printable_text_4();
    lemma_printable_text_5();
    lemma_printable_text_6();
    lemma_printable_text_7();
    lemma_printable_text_8();
    lemma_printable_text_9();
    lemma_decimal_printable(g.floor as int);
    lemma_decimal_printable(p.gold as int);
    lemma_decimal_printable(p.hp as int);
    lemma_decimal_printable(p.max_hp as int);
    lemma_decimal_printable(p.strength as int);
    lemma_decimal_printable(10 - crate::combat::STARTING_ARMOR_AC);
    lemma_decimal_printable(p.level as int);
    lemma_decimal_printable(p.experience as int);
    let mut t = "Level: "@;
    lemma_printable_concat(t, decimal(g.floor as int));
    t = t + decimal(g.floor as int);
    lemma_printable_concat(t, "  Gold: "@);
    t = t + "  Gold: "@;
    lemma_printable_concat(t, decimal(p.gold as int));
    t = t + decimal(p.gold as int);
    lemma_printable_concat(t, "  Hp: "@);
    t = t + "  Hp: "@;
    lemma_printable_concat(t, decimal(p.hp as int));
    t = t + decimal(p.hp as int);
    lemma_printable_concat(t, "("@);
    t = t + "("@;
    lemma_printable_concat(t, decimal(p.max_hp as int));
    t = t + decimal(p.max_hp as int);
    lemma_printable_concat(t, ")  Str: "@);
    t = t + ")  Str: "@;
    lemma_printable_concat(t, decimal(p.strength as int));
    t = t + decimal(p.strength as int);
    lemma_printable_concat(t, "("@);
    t = t + "("@;
    lemma_printable_concat(t, decimal(p.strength as int));
    t = t + decimal(p.strength as int);
    lemma_printable_concat(t, ")  Arm: "@);
    t = t + ")  Arm: "@;
    lemma_printable_concat(t, decimal(10 - crate::combat::STARTING_ARMOR_AC));
    t = t + decimal(10 - crate::combat::STARTING_ARMOR_AC);
    lemma_printable_concat(t, "   Exp: "@);
    t = t + "   Exp: "@;
    lemma_printable_concat(t, decimal(p.level as int));
    t = t + decimal(p.level as int);
    lemma_printable_concat(t, "/"@);
    t = t + "/"@;
    lemma_printable_concat(t, decimal(p.experience as int));
    t = t + decimal(p.experience as int);
    let a: Seq<char> = if g.has_amulet { "  Amulet: carried"@ } else { Seq::empty() };
    let b: Seq<char> = if !g.has_amulet && on_exit(g) { "  (the way out is magically blocked)"@ } else { Seq::empty() };
    lemma_printable_concat(t, a);
    lemma_printable_concat(t + a, b);
    assert(status_text(g) == t + a + b);
}

/// The default hint is printable text.
proof fn lemma_hint_printable(seed: u64)
    ensures
        printable(default_hint_text(seed)),
{
    lemma_printable_text_10();
    lemma_printable_text_11();
    lemma_digits_printable(seed as nat);
    lemma_printable_concat("seed "@, digits(seed as nat));
    lemma_printable_concat("seed "@ + digits(seed as nat), " - h/j/k/l or arrows move, q quits"@);
}


/// Every glyph the map shows is printable.
proof fn lemma_glyph_printable(g: GameView, x: int, y: int)
    ensures
        ' ' <= glyph_view(g, x, y) <= '~',
{
    match monster_at(g.monsters, x, y, 0) {
        Some(i) => {
            let k = g.monsters[i].kind;
            assert(crate::entity::kind_index(k) <= 25);
        },
        None => {},
    }
}

proof fn lemma_map_row_printable(g: GameView, y: int, n: int)
    ensures
        printable(map_row(g, y, n)),
{
    assert forall|i: int| 0 <= i < map_row(g, y, n).len() implies ' ' <= #[trigger] map_row(g, y, n)[i] <= '~' by {
        lemma_glyph_printable(g, i, y);
    }
}

/// The frame plan for a `cols` x `rows` window; see [`frame_cells`].
pub fn frame_plan(game: &Game, cols: usize, rows: usize) -> (plan: FramePlan)
    requires
        game_wf(game@),
        rows <= u16::MAX,
    ensures
        plan.map_width == shown_width(game@, cols as int),
        plan.map_rows@.len() == shown_height(game@, rows as int),
        forall|y: int|
            0 <= y < plan.map_rows@.len() ==> (#[trigger] plan.map_rows@[y])@ == map_row(
                game@,
                y,
                shown_width(game@, cols as int),
            ),
        match plan.status {
            Some((r, text)) => shown_height(game@, rows as int) + 1 < rows && r == shown_height(game@, rows as int)
                && text@ == status_text(game@),
            None => !(shown_height(game@, rows as int) + 1 < rows),
        },
        match plan.hint {
            Some((r, text)) => shown_height(game@, rows as int) + 2 <= rows && r == shown_height(game@, rows as int) + 1
                && text@ == hint_text(game@),
            None => !(shown_height(game@, rows as int) + 2 <= rows),
        },
{
    let room = if rows >= UI_LINES { rows - UI_LINES } else { 0 };
    let map_h = if game.map.height <= room { game.map.height } else { room };
    let map_w = if game.map.width <= cols { game.map.width } else { cols };
    let mut map_rows: Vec<String> = Vec::new();
    let mut y: usize = 0;
    while y < map_h
        invariant
            game_wf(game@),
            map_h <= game.map.height,
            map_w <= game.map.width,
            map_w == shown_width(game@, cols as int),
            y <= map_h,
            map_rows@.len() == y,
            forall|k: int| 0 <= k < y ==> (#[trigger] map_rows@[k])@ == map_row(game@, k, map_w as int),
        decreases map_h - y,
    {
        let mut row = String::new();
        let mut x: usize = 0;
        while x < map_w
            invariant
                game_wf(game@),
                map_h <= game.map.height,
                map_w <= game.map.width,
                y < map_h,
                x <= map_w,
                row@ == Seq::new(x as nat, |i: int| glyph_view(game@, i, y as int)),
            decreases map_w - x,
        {
            let c = game.glyph_at(x, y);
            push_char(&mut row, c);
            x = x + 1;
            assert(row@ =~= Seq::new(x as nat, |i: int| glyph_view(game@, i, y as int)));
        }
        map_rows.push(row);
        y = y + 1;
    }
    let status = if map_h + 1 < rows {
        Some((map_h as u16, game.status_line()))
    } else {
        None
    };
    let hint = if map_h + 2 <= rows {
        let text = match &game.last_message {
            Some(message) => message.clone(),
            None => default_hint(game),
        };
        Some(((map_h + 1) as u16, text))
    } else {
        None
    };
    FramePlan { map_rows, map_width: map_w, status, hint }
}

/// Draw a plan into a blank `cols` x `rows` buffer and read it back as
/// text, one line per buffer row.
fn paint_plan(plan: &FramePlan, cols: u16, rows: u16, Ghost(g): Ghost<GameView>) -> (out: String)
    requires
        plan.map_width == shown_width(g, cols as int),
        plan.map_rows@.len() == shown_height(g, rows as int),
        forall|y: int|
            0 <= y < plan.map_rows@.len() ==> (#[trigger] plan.map_rows@[y])@ == map_row(g, y, shown_width(g, cols as int)),
        match plan.status {
            Some((r, text)) => shown_height(g, rows as int) + 1 < rows && r == shown_height(g, rows as int) && text@
                == status_text(g),
            None => !(shown_height(g, rows as int) + 1 < rows),
        },
        match plan.hint {
            Some((r, text)) => shown_height(g, rows as int) + 2 <= rows && r == shown_height(g, rows as int) + 1 && text@
                == hint_text(g),
            None => !(shown_height(g, rows as int) + 2 <= rows),
        },
    ensures
        printable(hint_text(g)) ==> out@ == grid_text(frame_cells(g, cols as int, rows as int), rows as int),
{
    let mut b = blank_buffer(cols, rows);
    let ghost target = frame_cells(g, cols as int, rows as int);
    let ghost w = shown_width(g, cols as int);
    let n = plan.map_rows.len();
    let mut y: usize = 0;
    while y < n
        invariant
            n == plan.map_rows@.len(),
            n == shown_height(g, rows as int),
            n <= rows,
            w == plan.map_width,
            w <= cols,
            y <= n,
            forall|k: int| 0 <= k < plan.map_rows@.len() ==> (#[trigger] plan.map_rows@[k])@ == map_row(g, k, w),
            buffer_corner(b) == (0u16, 0u16),
            buffer_cells(b) == map_painted(g, blank_cells(cols as int, rows as int), w, y as int),
        decreases n - y,
    {
        proof {
            lemma_map_row_printable(g, y as int, w);
            lemma_map_painted_shape(g, blank_cells(cols as int, rows as int), w, y as int);
        }
        put_str(&mut b, y as u16, plan.map_rows[y].as_str(), plan.map_width);
        y = y + 1;
    }
    let ghost g1 = buffer_cells(b);
    proof {
        lemma_map_painted_shape(g, blank_cells(cols as int, rows as int), w, n as int);
    }
    match &plan.status {
        Some((r, text)) => {
            proof {
                lemma_status_printable(g);
            }
            put_line(&mut b, *r, cols, text.as_str());
        },
        None => {},
    }
    let ghost g2 = buffer_cells(b);
    match &plan.hint {
        Some((r, text)) => {
            put_line(&mut b, *r, cols, text.as_str());
        },
        None => {},
    }
    proof {
        assert(same_shape(buffer_cells(b), blank_cells(cols as int, rows as int)));
    }
    buffer_text_of(&b, cols, rows)
}

proof fn lemma_painted_shape(g: Seq<Seq<Seq<char>>>, y: int, s: Seq<char>, n: int)
    requires
        0 <= y < g.len(),
    ensures
        same_shape(painted(g, y, s, n), g),
{
}

proof fn lemma_map_painted_shape(g: GameView, grid: Seq<Seq<Seq<char>>>, w: int, n: int)
    requires
        0 <= n <= grid.len(),
    ensures
        same_shape(map_painted(g, grid, w, n), grid),
    decreases n,
{
    if n > 0 {
        lemma_map_painted_shape(g, grid, w, n - 1);
        lemma_painted_shape(map_painted(g, grid, w, n - 1), n - 1, map_row(g, n - 1, w), w);
    }
}

/// A grid of `rows` rows of `cols` cells, each holding one printable
/// character.
pub open spec fn plain_cells(g: Seq<Seq<Seq<char>>>, cols: int, rows: int) -> bool {
    &&& g.len() == rows
    &&& forall|y: int| 0 <= y < rows ==> (#[trigger] g[y]).len() == cols
    &&& forall|y: int, x: int|
        0 <= y < rows && 0 <= x < cols ==> (#[trigger] g[y][x]).len() == 1 && ' ' <= g[y][x][0] <= '~'
}

proof fn lemma_painted_plain(g: Seq<Seq<Seq<char>>>, cols: int, rows: int, y: int, s: Seq<char>, n: int)
    requires
        plain_cells(g, cols, rows),
        0 <= y < rows,
        printable(s),
    ensures
        plain_cells(painted(g, y, s, n), cols, rows),
{
    let g2 = painted(g, y, s, n);
    assert forall|yy: int, x: int| 0 <= yy < rows && 0 <= x < cols implies (#[trigger] g2[yy][x]).len() == 1 && ' '
        <= g2[yy][x][0] <= '~' by {
        if yy == y && x < s.len() && x < n {
            assert(g2[yy][x] == seq![s[x]]);
        } else {
            assert(g2[yy][x] == g[yy][x]);
        }
    }
}

proof fn lemma_map_painted_plain(g: GameView, grid: Seq<Seq<Seq<char>>>, cols: int, rows: int, w: int, n: int)
    requires
        plain_cells(grid, cols, rows),
        0 <= n <= rows,
    ensures
        plain_cells(map_painted(g, grid, w, n), cols, rows),
    decreases n,
{
    if n > 0 {
        lemma_map_painted_plain(g, grid, cols, rows, w, n - 1);
        lemma_map_row_printable(g, n - 1, w);
        lemma_painted_plain(map_painted(g, grid, w, n - 1), cols, rows, n - 1, map_row(g, n - 1, w), w);
    }
}

proof fn lemma_row_text_plain(r: Seq<Seq<char>>, n: int)
    requires
        0 <= n <= r.len(),
        forall|x: int| 0 <= x < r.len() ==> (#[trigger] r[x]).len() == 1 && ' ' <= r[x][0] <= '~',
    ensures
        row_text(r, n).len() == n,
        forall|x: int| 0 <= x < n ==> #[trigger] row_text(r, n)[x] == r[x][0],
    decreases n,
{
    if n > 0 {
        lemma_row_text_plain(r, n - 1);
        let t = row_text(r, n - 1);
        assert(row_text(r, n) == t + r[n - 1]);
        assert forall|x: int| 0 <= x < n implies #[trigger] row_text(r, n)[x] == r[x][0] by {
            if x < n - 1 {
                assert(row_text(r, n)[x] == t[x]);
            }
        }
    }
}

proof fn lemma_grid_text_lines(g: Seq<Seq<Seq<char>>>, cols: int, rows: int, n: int)
    requires
        plain_cells(g, cols, rows),
        0 <= cols,
        0 <= n <= rows,
    ensures
        grid_text(g, n).len() == n * (cols + 1),
        forall|y: int, x: int|
            0 <= y < n && 0 <= x <= cols ==> (#[trigger] grid_text(g, n)[y * (cols + 1) + x] == '\n') == (x == cols),
    decreases n,
{
    if n > 0 {
        lemma_grid_text_lines(g, cols, rows, n - 1);
        let prev = grid_text(g, n - 1);
        let r = g[n - 1];
        assert forall|x: int| 0 <= x < r.len() implies (#[trigger] r[x]).len() == 1 && ' ' <= r[x][0] <= '~' by {
            assert(g[n - 1][x] == r[x]);
        }
        lemma_row_text_plain(r, cols);
        let line = row_text(r, cols) + seq!['\n'];
        let t = grid_text(g, n);
        assert(t == prev + line);
        assert((n - 1) * (cols + 1) + cols + 1 == n * (cols + 1)) by (nonlinear_arith);
        assert forall|y: int, x: int| 0 <= y < n && 0 <= x <= cols implies (#[trigger] t[y * (cols + 1) + x] == '\n') == (x
            == cols) by {
            if y < n - 1 {
                assert(y * (cols + 1) + x < (n - 1) * (cols + 1)) by (nonlinear_arith)
                    requires
                        0 <= y < n - 1,
                        0 <= x <= cols,
                ;
                assert(t[y * (cols + 1) + x] == prev[y * (cols + 1) + x]);
            } else {
                let k = y * (cols + 1) + x - prev.len();
                assert(k == x);
                assert(t[y * (cols + 1) + x] == line[x]);
                if x < cols {
                    assert(line[x] == r[x][0]);
                }
            }
        }
    }
}

/// The text of a `cols` x `rows` frame is `rows` lines of exactly `cols`
/// characters each, whenever the message line under the status line is
/// printable text: the frame never overflows the window, and no line wraps.
pub proof fn lemma_frame_lines(g: GameView, cols: int, rows: int)
    requires
        0 <= cols,
        0 <= rows,
        printable(hint_text(g)),
    ensures
        ({
            let t = grid_text(frame_cells(g, cols, rows), rows);
            &&& t.len() == rows * (cols + 1)
            &&& forall|y: int, x: int|
                0 <= y < rows && 0 <= x <= cols ==> (#[trigger] t[y * (cols + 1) + x] == '\n') == (x == cols)
        }),
{
    let map_h = shown_height(g, rows);
    let map_w = shown_width(g, cols);
    let g0 = blank_cells(cols, rows);
    assert(plain_cells(g0, cols, rows));
    lemma_map_painted_plain(g, g0, cols, rows, map_w, map_h);
    let g1 = map_painted(g, g0, map_w, map_h);
    lemma_status_printable(g);
    if map_h + 1 < rows {
        lemma_painted_plain(g1, cols, rows, map_h, status_text(g), cols);
    }
    let g2 = if map_h + 1 < rows { painted(g1, map_h, status_text(g), cols) } else { g1 };
    if map_h + 2 <= rows {
        lemma_painted_plain(g2, cols, rows, map_h + 1, hint_text(g), cols);
    }
    lemma_grid_text_lines(frame_cells(g, cols, rows), cols, rows, rows);
}


// ---------------------------------------------------------------------
// The messages are printable text
// ---------------------------------------------------------------------

/// Printable, checked one character at a time from the front.
pub open spec fn chars_printable(s: Seq<char>) -> bool
    decreases s.len(),
{
    s.len() == 0 || (' ' <= s[0] <= '~' && chars_printable(s.drop_first()))
}

proof fn lemma_chars_printable(s: Seq<char>)
    requires
        chars_printable(s),
    ensures
        printable(s),
    decreases s.len(),
{
    if s.len() > 0 {
        lemma_chars_printable(s.drop_first());
        assert forall|i: int| 0 <= i < s.len() implies ' ' <= #[trigger] s[i] <= '~' by {
            if i > 0 {
                assert(s[i] == s.drop_first()[i - 1]);
            }
        }
    }
}

/// Every monster's name in combat messages is printable.
pub proof fn lemma_name_printable(k: MonsterKind)
    ensures
        printable(rules_name_of(k)@),
{
    reveal_with_fuel(chars_printable, 16);
    match k {
        MonsterKind::Aquator => {
            reveal_strlit("aquator");
            lemma_chars_printable("aquator"@);
        },
        MonsterKind::Bat => {
            reveal_strlit("bat");
            lemma_chars_printable("bat"@);
        },
        MonsterKind::Centaur => {
            reveal_strlit("centaur");
            lemma_chars_printable("centaur"@);
        },
        MonsterKind::Dragon => {
            reveal_strlit("dragon");
            lemma_chars_printable("dragon"@);
        },
        MonsterKind::Emu => {
            reveal_strlit("emu");
            lemma_chars_printable("emu"@);
        },
        MonsterKind::Fungus => {
            reveal_strlit("venus flytrap");
            lemma_chars_printable("venus flytrap"@);
        },
        MonsterKind::Giant => {
            reveal_strlit("griffin");
            lemma_chars_printable("griffin"@);
        },
        MonsterKind::Hobgoblin => {
            reveal_strlit("hobgoblin");
            lemma_chars_printable("hobgoblin"@);
        },
        MonsterKind::IceMonster => {
            reveal_strlit("ice monster");
            lemma_chars_printable("ice monster"@);
        },
        MonsterKind::Jabberwock => {
            reveal_strlit("jabberwock");
            lemma_chars_printable("jabberwock"@);
        },
        MonsterKind::Kobold => {
            reveal_strlit("kestrel");
            lemma_chars_printable("kestrel"@);
        },
        MonsterKind::Leprechaun => {
            reveal_strlit("leprechaun");
            lemma_chars_printable("leprechaun"@);
        },
        MonsterKind::Medusa => {
            reveal_strlit("medusa");
            lemma_chars_printable("medusa"@);
        },
        MonsterKind::Naga => {
            reveal_strlit("nymph");
            lemma_chars_printable("nymph"@);
        },
        MonsterKind::Orc => {
            reveal_strlit("orc");
            lemma_chars_printable("orc"@);
        },
        MonsterKind::Phantom => {
            reveal_strlit("phantom");
            lemma_chars_printable("phantom"@);
        },
        MonsterKind::Quagga => {
            reveal_strlit("quagga");
            lemma_chars_printable("quagga"@);
        },
        MonsterKind::Rat => {
            reveal_strlit("rattlesnake");
            lemma_chars_printable("rattlesnake"@);
        },
        MonsterKind::Snake => {
            reveal_strlit("snake");
            lemma_chars_printable("snake"@);
        },
        MonsterKind::Troll => {
            reveal_strlit("troll");
            lemma_chars_printable("troll"@);
        },
        MonsterKind::UrVile => {
            reveal_strlit("black unicorn");
            lemma_chars_printable("black unicorn"@);
        },
        MonsterKind::Vampire => {
            reveal_strlit("vampire");
            lemma_chars_printable("vampire"@);
        },
        MonsterKind::Wraith => {
            reveal_strlit("wraith");
            lemma_chars_printable("wraith"@);
        },
        MonsterKind::Xeroc => {
            reveal_strlit("xeroc");
            lemma_chars_printable("xeroc"@);
        },
        MonsterKind::Yeti => {
            reveal_strlit("yeti");
            lemma_chars_printable("yeti"@);
        },
        MonsterKind::Zombie => {
            reveal_strlit("zombie");
            lemma_chars_printable("zombie"@);
        },
    }
}

/// The fixed parts of the game's messages are printable.
proof fn lemma_message_parts_printable()
    ensures
        printable("You scored an excellent hit on the "@),
        printable(" - you have defeated the "@),
        printable("You swing and miss the "@),
        printable("The "@),
        printable(" has injured you"@),
        printable(" doesn't hit you"@),
        printable("you have died"@),
{
    reveal_with_fuel(chars_printable, 40);
    reveal_strlit("You scored an excellent hit on the ");
    lemma_chars_printable("You scored an excellent hit on the "@);
    reveal_strlit(" - you have defeated the ");
    lemma_chars_printable(" - you have defeated the "@);
    reveal_strlit("You swing and miss the ");
    lemma_chars_printable("You swing and miss the "@);
    reveal_strlit("The ");
    lemma_chars_printable("The "@);
    reveal_strlit(" has injured you");
    lemma_chars_printable(" has injured you"@);
    reveal_strlit(" doesn't hit you");
    lemma_chars_printable(" doesn't hit you"@);
    reveal_strlit("you have died");
    lemma_chars_printable("you have died"@);
}

/// The message line holds printable text, if anything.
pub open spec fn message_printable(g: GameView) -> bool {
    match g.last_message {
        Some(m) => printable(m),
        None => true,
    }
}

/// With a printable message (or none, when the hint shows) the line under
/// the status line is printable.
pub proof fn lemma_hint_line_printable(g: GameView)
    requires
        message_printable(g),
    ensures
        printable(hint_text(g)),
{
    lemma_hint_printable(g.seed);
}

/// The attacks of a runners phase name monsters of the table.
proof fn lemma_attack_names(d: Board, player_arm: i32, s: u64, p: Player, ms: Seq<crate::entity::Monster>, n: nat)
    ensures
        forall|j: int|
            0 <= j < phase_steps(d, player_arm, s, p, ms, n).3.len() ==> printable(
                (#[trigger] phase_steps(d, player_arm, s, p, ms, n).3[j]).name@,
            ),
    decreases n,
{
    if n > 0 && n <= ms.len() {
        lemma_attack_names(d, player_arm, s, p, ms, (n - 1) as nat);
        let (ms1, p1, s1, attacks) = phase_steps(d, player_arm, s, p, ms, (n - 1) as nat);
        let m = ms[n - 1];
        lemma_name_printable(m.kind);
        let a2 = phase_steps(d, player_arm, s, p, ms, n).3;
        assert forall|j: int| 0 <= j < a2.len() implies printable((#[trigger] a2[j]).name@) by {
            if j < attacks.len() {
                assert(a2[j] == attacks[j]);
            }
        }
    }
}

/// A freshly built floor, and a session regenerated at a new size, start
/// with no message.
pub proof fn lemma_fresh_message(b: Board, floor: u32, seed: u64, g: GameView, w: int, h: int)
    ensures
        message_printable(assembled(b, floor, seed)),
        message_printable(resized(g, w, h)),
{
    reveal(assembled);
}

/// The player's action leaves a printable message.
proof fn lemma_acted_message(g: GameView, dir: crate::game::Direction)
    requires
        message_printable(g),
    ensures
        acted(g, dir) matches Some((g1, _)) ==> message_printable(g1),
{
    lemma_message_parts_printable();
    match crate::game::next_pos(g.player.x as int, g.player.y as int, dir) {
        None => {},
        Some(t) => {
            match monster_at(g.monsters, t.0, t.1, 0) {
                Some(i) => {
                    let (r, p2, m2, s2) = crate::combat::player_attack_value(
                        g.rng,
                        g.player,
                        g.monsters[i],
                        crate::combat::starting_weapon_spec(),
                    );
                    lemma_name_printable(m2.kind);
                    let name = rules_name_of(m2.kind)@;
                    lemma_printable_concat("You scored an excellent hit on the "@, name);
                    lemma_printable_concat("You scored an excellent hit on the "@ + name, " - you have defeated the "@);
                    lemma_printable_concat("You scored an excellent hit on the "@ + name + " - you have defeated the "@, name);
                    lemma_printable_concat("You swing and miss the "@, name);
                    assert(printable(fight_message(m2, r)));
                },
                None => {},
            }
        },
    }
}

/// Taking the stairs or picking up the Amulet keeps a printable message; a
/// new floor starts with none.
proof fn lemma_after_moved_message(g: GameView)
    requires
        message_printable(g),
    ensures
        message_printable(after_moved(g)),
{
    reveal(assembled);
}

/// The AFTER phase leaves a printable message.
proof fn lemma_after_phase_message(g: GameView, fought: bool)
    requires
        message_printable(g),
    ensures
        message_printable(after_phase(g, fought)),
{
    lemma_message_parts_printable();
    let (ms, p, s, attacks) = phase_value(g.map, STARTING_ARMOR_AC, g.rng, g.player, g.monsters);
    let (ms1, s1) = woken(g.rng, g.player, g.monsters, g.monsters.len());
    lemma_attack_names(g.map, STARTING_ARMOR_AC, s1, g.player, ms1, ms1.len());
    match first_hit(attacks, 0) {
        Some(j) => {
            lemma_first_hit_in(attacks, 0);
            lemma_printable_concat("The "@, attacks[j].name@);
            lemma_printable_concat("The "@ + attacks[j].name@, " has injured you"@);
        },
        None => {
            if attacks.len() > 0 {
                lemma_printable_concat("The "@, attacks[0].name@);
                lemma_printable_concat("The "@ + attacks[0].name@, " doesn't hit you"@);
            }
        },
    }
}

/// Every message a round leaves is printable when the one before it was:
/// the fight messages, the monsters' attacks, and the death notice.
pub proof fn lemma_round_message_printable(g: GameView, dir: crate::game::Direction)
    requires
        message_printable(g),
    ensures
        message_printable(stepped(g, dir).0),
{
    reveal(stepped);
    lemma_acted_message(g, dir);
    match acted(g, dir) {
        None => {},
        Some((g1, fought)) => {
            let g1r = GameView { player: Player { running: true, ..g1.player }, ..g1 };
            lemma_after_moved_message(g1r);
            lemma_after_phase_message(after_moved(g1r), fought);
        },
    }
}

/// The first landed attack found is one of the attacks.
proof fn lemma_first_hit_in(a: Seq<MonsterAttack>, i: int)
    requires
        0 <= i,
    ensures
        first_hit(a, i) matches Some(j) ==> i <= j < a.len(),
    decreases a.len() - i,
{
    if i < a.len() {
        lemma_first_hit_in(a, i + 1);
    }
}

/// Render the game's frame into an in-memory `cols` x `rows` buffer and
/// flatten it to plain text, one line per buffer row: exactly `rows` lines
/// of `cols` characters, the same content the interactive terminal shows.
pub fn render_text(game: &Game, cols: usize, rows: usize) -> (out: String)
    requires
        game_wf(game@),
        cols <= u16::MAX,
        rows <= u16::MAX,
    ensures
        printable(hint_text(game@)) ==> out@ == grid_text(frame_cells(game@, cols as int, rows as int), rows as int),
{
    let plan = frame_plan(game, cols, rows);
    paint_plan(&plan, cols as u16, rows as u16, Ghost(game@))
}

impl Game {
    /// The frame exactly as the interactive terminal draws it, as plain
    /// text: the map, then the status line and a hint or message line.
    pub fn render(&self) -> (out: String)
        requires
            game_wf(self@),
            self@.map.width <= u16::MAX,
            self@.map.height + UI_LINES <= u16::MAX,
        ensures
            printable(hint_text(self@)) ==> out@ == grid_text(
                frame_cells(self@, self@.map.width as int, self@.map.height + UI_LINES),
                self@.map.height + UI_LINES,
            ),
    {
        render_text(self, self.map.width, self.map.height + UI_LINES)
    }
}

} // verus!
