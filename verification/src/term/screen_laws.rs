//! What is shown of a screen, cell by cell, and in which colours.

use crate::term::grid::{clamped, laid_out, CellData};
use crate::term::palette::{resolved, TermColor};
use crate::term::{
    law_cells_fill_the_screen, lemma_shown_cells, row_cells, row_text, shown_cells, Color, Screen,
    ScrollbackPos,
};
use vstd::prelude::*;

verus! {

proof fn lemma_shown_cell(s: Screen, n: int, line: int, col: int)
    requires
        laid_out(s.rows, s.facts),
        0 <= line < n <= s.facts.lines,
        0 <= col < s.facts.columns,
    ensures
        0 <= line * s.facts.columns + col < n * s.facts.columns,
        shown_cells(s, n)[line * s.facts.columns + col] == row_cells(s.shown_row(line), line)[col],
    decreases n,
{
    let w = s.facts.columns as int;
    let at = s.history() - s.facts.offset + n - 1;
    assert(s.rows[at].len() == w);
    lemma_shown_cells(s, n - 1);
    assert(n * w == (n - 1) * w + w) by (nonlinear_arith);
    if line < n - 1 {
        lemma_shown_cell(s, n - 1, line, col);
    } else {
        assert(line == n - 1);
        assert(0 <= line * w) by (nonlinear_arith)
            requires
                0 <= line,
                0 <= w,
        ;
    }
}

/// Each cell that is shown stands at its place, line by line, and is the cell
/// there of the rows that are displayed: those that end `offset` rows above the
/// last.
pub proof fn law_cells_in_their_places(s: Screen, line: int, col: int)
    requires
        laid_out(s.rows, s.facts),
        0 <= line < s.facts.lines,
        0 <= col < s.facts.columns,
    ensures
        ({
            let cells = shown_cells(s, s.facts.lines as int);
            let k = line * s.facts.columns + col;
            let cell = s.rows[s.rows.len() - s.facts.lines - s.facts.offset + line][col];
            &&& cells.len() == s.facts.lines * s.facts.columns
            &&& 0 <= k < cells.len()
            &&& cells[k].pos.line == line && cells[k].pos.col == col
            &&& cells[k].c == cell.c
            &&& cells[k].fg == resolved(cell.fg) && cells[k].bg == resolved(cell.bg)
        }),
{
    law_cells_fill_the_screen(s);
    lemma_shown_cell(s, s.facts.lines as int, line, col);
    let at = s.history() - s.facts.offset + line;
    assert(s.rows[at].len() == s.facts.columns);
}

/// The characters of cells, but for those that keep the place of a wide one.
pub open spec fn letters(row: Seq<CellData>) -> Seq<char>
    decreases row.len(),
{
    if row.len() == 0 {
        seq![]
    } else if row[0].spacer {
        letters(row.skip(1))
    } else {
        seq![row[0].c] + letters(row.skip(1))
    }
}

proof fn lemma_letters_push(row: Seq<CellData>, cell: CellData)
    ensures
        letters(row.push(cell)) == (if cell.spacer {
            letters(row)
        } else {
            letters(row).push(cell.c)
        }),
    decreases row.len(),
{
    let all = row.push(cell);
    if row.len() == 0 {
        assert(all.skip(1) =~= row);
        assert(letters(row) =~= seq![]);
        assert(letters(all) =~= if cell.spacer {
            letters(row)
        } else {
            letters(row).push(cell.c)
        });
    } else {
        assert(all.skip(1) =~= row.skip(1).push(cell));
        lemma_letters_push(row.skip(1), cell);
        if !cell.spacer && !row[0].spacer {
            assert(seq![row[0].c] + letters(row.skip(1)).push(cell.c) =~= (seq![row[0].c]
                + letters(row.skip(1))).push(cell.c));
        }
    }
}

proof fn lemma_row_text(row: Seq<CellData>, n: int)
    requires
        0 <= n <= row.len(),
    ensures
        row_text(row, n) == letters(row.take(n)),
    decreases n,
{
    if n > 0 {
        lemma_row_text(row, n - 1);
        assert(row.take(n) =~= row.take(n - 1).push(row[n - 1]));
        lemma_letters_push(row.take(n - 1), row[n - 1]);
    }
}

/// The text of a row is its characters from left to right, without the places
/// behind wide ones.
pub proof fn law_row_text(row: Seq<CellData>)
    ensures
        row_text(row, row.len() as int) == letters(row),
{
    lemma_row_text(row, row.len() as int);
    assert(row.take(row.len() as int) =~= row);
}

/// The display moves by as much as it is told, and stops at the two ends.
pub proof fn law_display_stays_within(offset: int, delta: int, history: int)
    requires
        0 <= offset <= history,
    ensures
        0 <= offset + delta <= history ==> clamped(offset + delta, history) == offset + delta,
        offset + delta < 0 ==> clamped(offset + delta, history) == 0,
        offset + delta > history ==> clamped(offset + delta, history) == history,
{
}

/// Output leaves the size as it is, is to be drawn, and brings the display back
/// to the screen. A change of size gives the size that is asked for, and at
/// least one column and one line.
pub proof fn law_output_and_size(
    s: Screen,
    next: Screen,
    bytes: Seq<u8>,
    cols: int,
    rows: int,
    line: int,
)
    ensures
        s.after_output(bytes, next) ==> {
            &&& next.dirty
            &&& next.facts.columns == s.facts.columns && next.facts.lines == s.facts.lines
            &&& bytes.len() > 0 ==> next.facts.offset == 0 && next.shown_row(line)
                == next.rows[next.rows.len() - next.facts.lines + line]
        },
        s.after_resize(cols, rows, next) ==> {
            &&& next.dirty
            &&& cols >= 1 ==> next.facts.columns == cols
            &&& cols < 1 ==> next.facts.columns == 1
            &&& rows >= 1 ==> next.facts.lines == rows
            &&& rows < 1 ==> next.facts.lines == 1
        },
{
}

/// A row of the history is the one that is meant, and the newest where the
/// history has no such row.
pub proof fn law_history_row(pos: ScrollbackPos, history: int)
    requires
        0 <= history,
    ensures
        pos.row < history ==> pos.index(history) == pos.row,
        pos.row >= history && history > 0 ==> pos.index(history) == history - 1,
        history == 0 ==> pos.index(history) == 0,
{
}

/// A step of the colour cube.
pub open spec fn step_of(k: int) -> int {
    if k == 0 {
        0
    } else if k == 1 {
        95
    } else if k == 2 {
        135
    } else if k == 3 {
        175
    } else if k == 4 {
        215
    } else {
        255
    }
}

/// A colour that is given by its parts is itself. Of the 256 colours, those of
/// the cube are told by their red, green and blue, in this order; the greys
/// rise from 8 in steps of 10; and the first sixteen are those that have names.
pub proof fn law_colors(r: u8, g: u8, b: u8, i: u8)
    ensures
        resolved(TermColor::Spec { r, g, b }) == (Color { r, g, b }),
        r < 6 && g < 6 && b < 6 ==> ({
            let c = resolved(TermColor::Indexed((16 + 36 * r + 6 * g + b) as u8));
            c.r == step_of(r as int) && c.g == step_of(g as int) && c.b == step_of(b as int)
        }),
        i < 24 ==> ({
            let c = resolved(TermColor::Indexed((232 + i) as u8));
            c.r == 8 + 10 * i && c.g == c.r && c.b == c.r
        }),
        i < 16 ==> resolved(TermColor::Indexed(i)) == resolved(TermColor::Named(i as usize)),
        i < 8 ==> resolved(TermColor::Named((259 + i) as usize)) == resolved(
            TermColor::Named(i as usize),
        ),
{
    if r < 6 && g < 6 && b < 6 {
        let v = 36 * r + 6 * g + b;
        assert(v / 36 == r && (v / 6) % 6 == g && v % 6 == b);
    }
}

/// The sixteen colours that have names, dark and then bright: black, red, green,
/// brown (bright yellow), blue, magenta, cyan and white. Text is light grey on
/// black, and the cursor white.
pub proof fn law_named_colors()
    ensures
        resolved(TermColor::Named(0)) == (Color { r: 0, g: 0, b: 0 }),
        resolved(TermColor::Named(1)) == (Color { r: 170, g: 0, b: 0 }),
        resolved(TermColor::Named(2)) == (Color { r: 0, g: 170, b: 0 }),
        resolved(TermColor::Named(3)) == (Color { r: 170, g: 85, b: 0 }),
        resolved(TermColor::Named(4)) == (Color { r: 0, g: 0, b: 170 }),
        resolved(TermColor::Named(5)) == (Color { r: 170, g: 0, b: 170 }),
        resolved(TermColor::Named(6)) == (Color { r: 0, g: 170, b: 170 }),
        resolved(TermColor::Named(7)) == (Color { r: 170, g: 170, b: 170 }),
        resolved(TermColor::Named(8)) == (Color { r: 85, g: 85, b: 85 }),
        resolved(TermColor::Named(9)) == (Color { r: 255, g: 85, b: 85 }),
        resolved(TermColor::Named(10)) == (Color { r: 85, g: 255, b: 85 }),
        resolved(TermColor::Named(11)) == (Color { r: 255, g: 255, b: 85 }),
        resolved(TermColor::Named(12)) == (Color { r: 85, g: 85, b: 255 }),
        resolved(TermColor::Named(13)) == (Color { r: 255, g: 85, b: 255 }),
        resolved(TermColor::Named(14)) == (Color { r: 85, g: 255, b: 255 }),
        resolved(TermColor::Named(15)) == (Color { r: 255, g: 255, b: 255 }),
        resolved(TermColor::Named(256)) == (Color { r: 211, g: 211, b: 211 }),
        resolved(TermColor::Named(257)) == (Color { r: 0, g: 0, b: 0 }),
        resolved(TermColor::Named(258)) == (Color { r: 255, g: 255, b: 255 }),
{
}

} // verus!
