//! The terminal emulation of `alacritty_terminal`, row by row.
//!
//! Everything here that is not proved is what this crate takes that
//! emulation's word for.

use crate::term::palette::TermColor;
use crate::term::CursorShape;
use alacritty_terminal::event::VoidListener;
use alacritty_terminal::grid::{Dimensions, Scroll};
use alacritty_terminal::index::{Column, Line};
use alacritty_terminal::term::cell::Flags;
use alacritty_terminal::term::test::TermSize;
use alacritty_terminal::term::{Config, Term, TermMode};
use alacritty_terminal::vte::ansi::Color as AnsiColor;
use alacritty_terminal::vte::ansi::CursorShape as AnsiShape;
use alacritty_terminal::vte::ansi::Processor;
use vstd::prelude::*;

verus! {

/// The most rows that a history holds.
pub const MAX_HISTORY: usize = 10000;

/// The most lines that a screen may have: a row's number, history included,
/// fits in 32 bits.
pub const MAX_LINES: usize = 0x7fff_0000;

/// The most columns that a screen may have: a row fits in memory.
pub const MAX_COLUMNS: usize = 0x7fff_0000;

/// A cell as the emulation holds it. A wide character is followed by a cell
/// that only keeps its place: a spacer.
#[derive(Debug, Clone, Copy, PartialEq, Eq, Structural)]
pub struct CellData {
    pub c: char,
    pub fg: TermColor,
    pub bg: TermColor,
    pub spacer: bool,
}

/// What is to be known of a terminal besides its rows: its size, by how many
/// lines what is displayed is moved up into the history, its cursor, and
/// whether it is narrow: it holds no wide character, neither in its rows nor
/// in those of a screen that another one hides, nor as the last character, nor
/// in output that it keeps to be applied later.
pub ghost struct Facts {
    pub columns: usize,
    pub lines: usize,
    pub offset: usize,
    pub cursor_line: i32,
    pub cursor_col: usize,
    pub show_cursor: bool,
    pub shape: CursorShape,
    pub narrow: bool,
}

/// A `Term` of `alacritty_terminal` and the `Processor` of `vte` that drives
/// it.
#[verifier::external_body]
pub struct Emulator {
    term: Term<VoidListener>,
    processor: Processor,
}

/// The rows that a terminal holds: its history, oldest first, and its screen.
pub uninterp spec fn term_rows(t: Emulator) -> Seq<Seq<CellData>>;

/// What else is to be known of a terminal.
pub uninterp spec fn term_facts(t: Emulator) -> Facts;

/// The rows and facts of a terminal once output has been applied to it.
pub uninterp spec fn fed(t: Emulator, bytes: Seq<u8>) -> (Seq<Seq<CellData>>, Facts);

/// The rows and facts of a terminal once its size has been changed.
pub uninterp spec fn reshaped(t: Emulator, cols: usize, rows: usize) -> (Seq<Seq<CellData>>, Facts);

/// Every row is as wide as the screen; the screen is the last rows; the
/// history is bounded; the cursor is on the screen, unless that is empty.
pub open spec fn well_sized(rows: Seq<Seq<CellData>>, facts: Facts) -> bool {
    &&& facts.lines <= rows.len() <= facts.lines + MAX_HISTORY
    &&& facts.lines <= MAX_LINES
    &&& facts.columns >= 1 && facts.lines >= 1 ==> 0 <= facts.cursor_line < facts.lines
        && facts.cursor_col < facts.columns
    &&& forall|i: int| 0 <= i < rows.len() ==> (#[trigger] rows[i]).len() == facts.columns
}

/// The rows fit the screen, and what is displayed lies within them.
pub open spec fn laid_out(rows: Seq<Seq<CellData>>, facts: Facts) -> bool {
    &&& well_sized(rows, facts)
    &&& facts.offset <= rows.len() - facts.lines
}

/// The byte at `i` does not begin a character that may be wide: it begins none,
/// or one below U+1000, or one in U+2000..U+2300 (punctuation, arrows, signs of
/// mathematics), U+2400..U+25C0 (boxes and blocks), U+2800..U+2B00 (braille and
/// more signs) or U+E000..U+F000 (private use).
pub open spec fn slim_at(bytes: Seq<u8>, i: int) -> bool {
    ||| bytes[i] < 0xe1
    ||| bytes[i] == 0xee
    ||| bytes[i] == 0xe2 && i + 1 < bytes.len() && (0x80 <= bytes[i + 1] <= 0x8b || 0x90 <= bytes[i
        + 1] <= 0x96 || 0xa0 <= bytes[i + 1] <= 0xab)
}

/// Output that brings no wide character, whatever came before it: none of its
/// bytes begins one that may be wide.
pub open spec fn plain(bytes: Seq<u8>) -> bool {
    forall|i: int| 0 <= i < bytes.len() ==> #[trigger] slim_at(bytes, i)
}

/// `v`, or the nearer end of `0..=max`.
pub open spec fn clamped(v: int, max: int) -> int {
    if v < 0 {
        0
    } else if v > max {
        max
    } else {
        v
    }
}

/// A cell in which nothing was written.
pub open spec fn blank_cell() -> CellData {
    CellData { c: ' ', fg: TermColor::Named(256), bg: TermColor::Named(257), spacer: false }
}

/// `Term::new` of `alacritty_terminal`, with its default configuration: a
/// blank screen of this size without a history, the cursor a visible block in
/// the first cell, no wide character anywhere; and `Processor::new` of `vte`,
/// of which nothing is stated.
#[verifier::external_body]
pub(crate) fn blank_term(cols: usize, rows: usize) -> (t: Emulator)
    requires
        rows <= MAX_LINES,
        cols <= MAX_COLUMNS,
        cols >= 1 || rows == 0,
    ensures
        laid_out(term_rows(t), term_facts(t)),
        term_rows(t).len() == rows,
        term_facts(t) == (Facts {
            columns: cols,
            lines: rows,
            offset: 0,
            cursor_line: 0,
            cursor_col: 0,
            show_cursor: true,
            shape: CursorShape::Block,
            narrow: true,
        }),
        forall|i: int, j: int|
            0 <= i < term_rows(t).len() && 0 <= j < term_rows(t)[i].len() ==> #[trigger] term_rows(
                t,
            )[i][j] == blank_cell(),
{
    Emulator {
        term: Term::new(Config::default(), &TermSize::new(cols, rows), VoidListener),
        processor: Processor::new(),
    }
}

/// `Term::resize` of `alacritty_terminal`: a function of the terminal and the
/// size, by which the screen gets this size, and the cursor keeps its shape,
/// stays shown or hidden, and is on the screen; no wide character comes up.
/// How the rows are broken anew is not stated. It needs two columns to break a
/// row with a wide character.
#[verifier::external_body]
pub(crate) fn resize_term(t: &mut Emulator, cols: usize, rows: usize)
    requires
        laid_out(term_rows(*old(t)), term_facts(*old(t))),
        term_facts(*old(t)).columns >= 1 && term_facts(*old(t)).lines >= 1,
        1 <= cols <= MAX_COLUMNS && 1 <= rows <= MAX_LINES,
        cols >= 2 || term_facts(*old(t)).narrow,
    ensures
        (term_rows(*final(t)), term_facts(*final(t))) == reshaped(*old(t), cols, rows),
        laid_out(term_rows(*final(t)), term_facts(*final(t))),
        term_facts(*final(t)).columns == cols,
        term_facts(*final(t)).lines == rows,
        term_facts(*final(t)).show_cursor == term_facts(*old(t)).show_cursor,
        term_facts(*final(t)).shape == term_facts(*old(t)).shape,
        term_facts(*old(t)).narrow ==> term_facts(*final(t)).narrow,
        cols == term_facts(*old(t)).columns && rows == term_facts(*old(t)).lines ==> term_rows(
            *final(t),
        ) == term_rows(*old(t)) && term_facts(*final(t)) == term_facts(*old(t)),
{
    t.term.resize(TermSize::new(cols, rows));
}

/// `Processor::advance` of `vte`, which applies terminal output to a
/// terminal: a function of the terminal and the output, by which the size
/// stays, the cursor is on the screen, a wide character comes up only where
/// one was or comes in, and no output changes nothing. What output does
/// otherwise is not stated, nor what is displayed after it: that may lie beyond
/// the history until the display is reset. The emulation needs two columns to
/// hold a wide character; which characters are wide is not stated, except that
/// those that `plain` admits are not.
#[verifier::external_body]
pub(crate) fn feed_term(t: &mut Emulator, bytes: &[u8])
    requires
        laid_out(term_rows(*old(t)), term_facts(*old(t))),
        term_facts(*old(t)).columns >= 2 || (term_facts(*old(t)).columns == 1 && term_facts(
            *old(t),
        ).narrow && plain(bytes@)) || bytes@.len() == 0,
        term_facts(*old(t)).lines >= 1,
    ensures
        (term_rows(*final(t)), term_facts(*final(t))) == fed(*old(t), bytes@),
        well_sized(term_rows(*final(t)), term_facts(*final(t))),
        term_facts(*final(t)).columns == term_facts(*old(t)).columns,
        term_facts(*final(t)).lines == term_facts(*old(t)).lines,
        term_facts(*old(t)).narrow && plain(bytes@) ==> term_facts(*final(t)).narrow,
        bytes@.len() == 0 ==> term_rows(*final(t)) == term_rows(*old(t)) && term_facts(*final(t))
            == term_facts(*old(t)),
{
    t.processor.advance(&mut t.term, bytes);
}

/// `Term::scroll_display` of `alacritty_terminal` by a number of lines: what
/// is displayed moves up into the history by that many, within its ends, and
/// nothing else changes.
#[verifier::external_body]
pub(crate) fn scroll_by(t: &mut Emulator, delta: i32)
    requires
        laid_out(term_rows(*old(t)), term_facts(*old(t))),
        term_facts(*old(t)).offset + delta <= i32::MAX,
    ensures
        term_rows(*final(t)) == term_rows(*old(t)),
        term_facts(*final(t)) == (Facts {
            offset: clamped(
                term_facts(*old(t)).offset + delta,
                term_rows(*old(t)).len() - term_facts(*old(t)).lines,
            ) as usize,
            ..term_facts(*old(t))
        }),
{
    t.term.scroll_display(Scroll::Delta(delta));
}

/// `Term::scroll_display` of `alacritty_terminal` to the bottom: what is
/// displayed is the screen, and nothing else changes.
#[verifier::external_body]
pub(crate) fn scroll_bottom(t: &mut Emulator)
    ensures
        term_rows(*final(t)) == term_rows(*old(t)),
        term_facts(*final(t)) == (Facts { offset: 0, ..term_facts(*old(t)) }),
{
    t.term.scroll_display(Scroll::Bottom);
}

/// `Dimensions::columns` of `alacritty_terminal`: the screen's width.
#[verifier::external_body]
pub(crate) fn column_count(t: &Emulator) -> (n: usize)
    ensures
        n == term_facts(*t).columns,
{
    t.term.columns()
}

/// `Dimensions::screen_lines` of `alacritty_terminal`: the screen's height.
#[verifier::external_body]
pub(crate) fn line_count(t: &Emulator) -> (n: usize)
    ensures
        n == term_facts(*t).lines,
{
    t.term.screen_lines()
}

/// `Dimensions::history_size` of `alacritty_terminal`: the number of rows in
/// the history, which are those that are not on the screen.
#[verifier::external_body]
pub(crate) fn history_len(t: &Emulator) -> (n: usize)
    requires
        laid_out(term_rows(*t), term_facts(*t)),
    ensures
        n == term_rows(*t).len() - term_facts(*t).lines,
{
    t.term.grid().history_size()
}

/// `Grid::display_offset` of `alacritty_terminal`: by how many lines what is
/// displayed is moved up into the history.
#[verifier::external_body]
pub(crate) fn display_shift(t: &Emulator) -> (n: usize)
    ensures
        n == term_facts(*t).offset,
{
    t.term.grid().display_offset()
}

/// The cursor's point in the `Grid` of `alacritty_terminal`: its line on the
/// screen and its column.
#[verifier::external_body]
pub(crate) fn cursor_at(t: &Emulator) -> (r: (i32, usize))
    ensures
        r.0 == term_facts(*t).cursor_line,
        r.1 == term_facts(*t).cursor_col,
{
    let point = t.term.grid().cursor.point;
    (point.line.0, point.column.0)
}

/// The `SHOW_CURSOR` bit of `Term::mode` of `alacritty_terminal`.
#[verifier::external_body]
pub(crate) fn cursor_shown(t: &Emulator) -> (b: bool)
    ensures
        b == term_facts(*t).show_cursor,
{
    t.term.mode().contains(TermMode::SHOW_CURSOR)
}

/// The shape in `Term::cursor_style` of `alacritty_terminal`.
#[verifier::external_body]
pub(crate) fn cursor_form(t: &Emulator) -> (r: CursorShape)
    ensures
        r == term_facts(*t).shape,
{
    match t.term.cursor_style().shape {
        AnsiShape::Block => CursorShape::Block,
        AnsiShape::Underline => CursorShape::Underline,
        AnsiShape::Beam => CursorShape::Beam,
        AnsiShape::HollowBlock => CursorShape::HollowBlock,
        AnsiShape::Hidden => CursorShape::Hidden,
    }
}

/// The cell in a line and a column of the `Grid` of `alacritty_terminal`,
/// which numbers its rows from the first line of the screen, those of the
/// history below zero. A named colour is given by the number that its enum
/// gives it.
#[verifier::external_body]
pub(crate) fn cell_at(t: &Emulator, line: i32, col: usize) -> (r: CellData)
    requires
        laid_out(term_rows(*t), term_facts(*t)),
        term_facts(*t).lines - term_rows(*t).len() <= line < term_facts(*t).lines,
        col < term_facts(*t).columns,
    ensures
        r == term_rows(*t)[term_rows(*t).len() - term_facts(*t).lines + line][col as int],
{
    let cell = &t.term.grid()[Line(line)][Column(col)];
    let fg = match cell.fg {
        AnsiColor::Spec(rgb) => TermColor::Spec { r: rgb.r, g: rgb.g, b: rgb.b },
        AnsiColor::Named(name) => TermColor::Named(name as usize),
        AnsiColor::Indexed(i) => TermColor::Indexed(i),
    };
    let bg = match cell.bg {
        AnsiColor::Spec(rgb) => TermColor::Spec { r: rgb.r, g: rgb.g, b: rgb.b },
        AnsiColor::Named(name) => TermColor::Named(name as usize),
        AnsiColor::Indexed(i) => TermColor::Indexed(i),
    };
    CellData { c: cell.c, fg, bg, spacer: cell.flags.contains(Flags::WIDE_CHAR_SPACER) }
}

/// The cell in row `at`, counted from the oldest, and column `col`.
pub(crate) fn row_cell(t: &Emulator, at: usize, col: usize) -> (r: CellData)
    requires
        laid_out(term_rows(*t), term_facts(*t)),
        at < term_rows(*t).len(),
        col < term_facts(*t).columns,
    ensures
        r == term_rows(*t)[at as int][col as int],
{
    let history: usize = history_len(t);
    cell_at(t, (at as i64 - history as i64) as i32, col)
}

} // verus!
