//! The terminal's screen: what the terminal emulation holds, in the types of
//! this library.
//!
//! The emulation itself, from output bytes to a grid of cells, is that of
//! `alacritty_terminal`. Its rows are numbered here from the oldest row of the
//! history to the last row of the screen.

pub mod grid;
pub mod palette;
pub mod screen_laws;

use crate::term::grid::{
    blank_term, column_count, cursor_at, cursor_form, cursor_shown, display_shift, feed_term,
    history_len, line_count, plain, resize_term, row_cell, scroll_bottom, scroll_by, slim_at, term_facts,
    term_rows, CellData, Emulator, Facts,
};
use crate::term::palette::{resolve, resolved};
use vstd::prelude::*;

verus! {

/// A cell's place on the screen.
#[derive(Debug, Clone, Copy, PartialEq, Eq, Hash, Structural)]
pub struct CellPos {
    pub col: usize,
    pub line: usize,
}

impl CellPos {
    /// The place of a line and a column of the emulation; a line above the
    /// screen counts as the first.
    pub fn from_alacritty(line: i32, col: usize) -> (r: Self)
        ensures
            r.col == col,
            r.line == (if line > 0 {
                line as int
            } else {
                0
            }),
    {
        CellPos {
            col,
            line: if line > 0 {
                line as usize
            } else {
                0
            },
        }
    }
}

/// A row of the history: 0 is the oldest.
#[derive(Debug, Clone, Copy, PartialEq, Eq, Hash, Structural)]
pub struct ScrollbackPos {
    pub row: usize,
}

impl ScrollbackPos {
    /// The row that is meant where the history has `history` rows: this one,
    /// or the newest where there are fewer. Without a history, the first row
    /// of the screen.
    pub open spec fn index(&self, history: int) -> int {
        if history == 0 {
            0
        } else if self.row < history {
            self.row as int
        } else {
            history - 1
        }
    }

    /// The emulation's number of that row: the newest row of the history is
    /// -1, the first row of the screen 0.
    pub fn to_alacritty(self, history_size: usize) -> (r: i32)
        requires
            history_size <= i32::MAX,
        ensures
            r == self.index(history_size as int) - history_size,
    {
        if history_size == 0 {
            return 0;
        }
        let row: usize = if self.row < history_size {
            self.row
        } else {
            history_size - 1
        };
        row as i32 - history_size as i32
    }
}

/// The shape of the cursor.
#[derive(Debug, Clone, Copy, PartialEq, Eq, Hash, Structural)]
pub enum CursorShape {
    Block,
    Underline,
    Beam,
    HollowBlock,
    Hidden,
}

/// A colour.
#[derive(Debug, Clone, Copy, PartialEq, Eq, Hash, Structural)]
pub struct Color {
    pub r: u8,
    pub g: u8,
    pub b: u8,
}

/// A cell of the screen, its colours resolved.
#[derive(Debug, Clone, Copy, PartialEq, Eq, Structural)]
pub struct CellRef {
    pub pos: CellPos,
    pub c: char,
    pub fg: Color,
    pub bg: Color,
}

/// A terminal's screen and history.
pub struct TermState {
    term: Emulator,
    dirty: bool,
    /// No output so far had a character that may be wide.
    plain: bool,
}

/// A screen as plain values: the rows of history and screen, oldest first,
/// what else is to be known of it, whether all its output was plain, and the
/// emulation that holds it.
pub ghost struct Screen {
    pub rows: Seq<Seq<CellData>>,
    pub facts: Facts,
    pub dirty: bool,
    pub plain: bool,
    pub emulator: Emulator,
}

impl Screen {
    /// The number of rows in the history.
    pub open spec fn history(self) -> int {
        self.rows.len() - self.facts.lines
    }

    /// The row at line `line` of the screen.
    pub open spec fn screen_row(self, line: int) -> Seq<CellData> {
        self.rows[self.history() + line]
    }

    /// The row at line `line` of what is displayed, which is the screen moved
    /// up into the history.
    pub open spec fn shown_row(self, line: int) -> Seq<CellData> {
        self.rows[self.history() - self.facts.offset + line]
    }
}

impl Screen {
    /// A blank screen of this size that has not been drawn yet, without a
    /// history, the cursor a visible block in the first cell.
    pub open spec fn is_new(self, cols: int, rows: int) -> bool {
        &&& self.dirty
        &&& self.plain
        &&& self.facts.columns == cols
        &&& self.facts.lines == rows
        &&& self.facts.offset == 0
        &&& self.facts.cursor_line == 0 && self.facts.cursor_col == 0
        &&& self.facts.show_cursor
        &&& self.facts.shape == CursorShape::Block
        &&& self.history() == 0
        &&& forall|i: int, j: int|
            0 <= i < self.rows.len() && 0 <= j < self.rows[i].len() ==> #[trigger] self.rows[i][j]
                == grid::blank_cell()
    }

    /// Whether the emulation can take this output: it needs two columns for a
    /// wide character.
    pub open spec fn takes_output(self, bytes: Seq<u8>) -> bool {
        self.facts.columns >= 2 || (self.facts.columns == 1 && self.plain && plain(bytes))
            || bytes.len() == 0
    }

    /// Whether the emulation can be made this wide: it needs two columns once
    /// it may hold a wide character.
    pub open spec fn takes_width(self, cols: int) -> bool {
        cols >= 2 || self.plain
    }

    /// The screen that output leaves: what the emulation makes of it, with the
    /// screen itself displayed unless there was no output. The size is the
    /// same.
    pub open spec fn after_output(self, bytes: Seq<u8>, next: Screen) -> bool {
        let (rows, facts) = grid::fed(self.emulator, bytes);
        &&& next.dirty
        &&& next.rows == rows
        &&& next.facts == (if bytes.len() > 0 {
            Facts { offset: 0, ..facts }
        } else {
            facts
        })
        &&& next.facts.columns == self.facts.columns
        &&& next.facts.lines == self.facts.lines
        &&& next.plain == (self.plain && plain(bytes))
        &&& bytes.len() == 0 ==> next.rows == self.rows && next.facts == self.facts
    }

    /// The screen that a change of size leaves: what the emulation makes of
    /// it. No side becomes less than 1, and the cursor keeps its shape.
    pub open spec fn after_resize(self, cols: int, rows: int, next: Screen) -> bool {
        let columns = if cols > 1 {
            cols
        } else {
            1
        };
        let lines = if rows > 1 {
            rows
        } else {
            1
        };
        &&& next.dirty
        &&& (next.rows, next.facts) == grid::reshaped(
            self.emulator,
            columns as usize,
            lines as usize,
        )
        &&& next.facts.columns == columns
        &&& next.facts.lines == lines
        &&& next.facts.show_cursor == self.facts.show_cursor
        &&& next.facts.shape == self.facts.shape
        &&& next.plain == self.plain
    }
}

/// The cell's place and its contents, resolved.
pub open spec fn cell_ref(cell: CellData, col: int, line: int) -> CellRef {
    CellRef {
        pos: CellPos { col: col as usize, line: line as usize },
        c: cell.c,
        fg: resolved(cell.fg),
        bg: resolved(cell.bg),
    }
}

/// The first `n` characters of a row without the placeholders behind wide
/// ones.
pub open spec fn row_text(row: Seq<CellData>, n: int) -> Seq<char>
    decreases n,
{
    if n <= 0 {
        seq![]
    } else if row[n - 1].spacer {
        row_text(row, n - 1)
    } else {
        row_text(row, n - 1).push(row[n - 1].c)
    }
}

/// The cells of a row, at line `line`.
pub open spec fn row_cells(row: Seq<CellData>, line: int) -> Seq<CellRef> {
    Seq::new(row.len(), |col: int| cell_ref(row[col], col, line))
}

/// The cells of the first `n` lines of what is displayed, line by line.
pub open spec fn shown_cells(s: Screen, n: int) -> Seq<CellRef>
    decreases n,
{
    if n <= 0 {
        seq![]
    } else {
        shown_cells(s, n - 1) + row_cells(s.shown_row(n - 1), n - 1)
    }
}

/// Whether no byte of the output begins a character that may be wide.
fn is_plain(bytes: &[u8]) -> (b: bool)
    ensures
        b == plain(bytes@),
{
    let mut i: usize = 0;
    while i < bytes.len()
        invariant
            i <= bytes@.len(),
            forall|j: int| 0 <= j < i ==> #[trigger] slim_at(bytes@, j),
        decreases bytes@.len() - i,
    {
        let b: u8 = bytes[i];
        let mut slim: bool = b < 0xe1 || b == 0xee;
        if b == 0xe2 && i + 1 < bytes.len() {
            let next: u8 = bytes[i + 1];
            slim = (0x80 <= next && next <= 0x8b) || (0x90 <= next && next <= 0x96) || (0xa0 <= next
                && next <= 0xab);
        }
        assert(slim == slim_at(bytes@, i as int));
        if !slim {
            return false;
        }
        i = i + 1;
    }
    true
}

impl View for TermState {
    type V = Screen;

    closed spec fn view(&self) -> Screen {
        Screen {
            rows: term_rows(self.term),
            facts: term_facts(self.term),
            dirty: self.dirty,
            plain: self.plain,
            emulator: self.term,
        }
    }
}

impl TermState {
    /// What every terminal keeps: the rows are as wide as the screen, what is
    /// displayed lies within them, and plain output has left no wide character.
    pub open spec fn inv(&self) -> bool {
        grid::laid_out(self@.rows, self@.facts) && (self@.plain ==> self@.facts.narrow)
    }

    /// A blank terminal of this size. A row has a column at least.
    pub fn new(cols: u16, rows: u16) -> (r: Self)
        requires
            cols >= 1 || rows == 0,
        ensures
            r.inv(),
            r@.is_new(cols as int, rows as int),
    {
        TermState {
            term: blank_term(cols as usize, rows as usize),
            dirty: true,
            plain: true,
        }
    }

    /// Whether the emulation can take this output.
    pub fn takes_output(&self, bytes: &[u8]) -> (b: bool)
        ensures
            b == self@.takes_output(bytes@),
    {
        let cols: usize = column_count(&self.term);
        cols >= 2 || bytes.len() == 0 || (cols == 1 && self.plain && is_plain(bytes))
    }

    /// Whether the emulation can be made this wide.
    pub fn takes_width(&self, cols: usize) -> (b: bool)
        ensures
            b == self@.takes_width(cols as int),
    {
        cols >= 2 || self.plain
    }

    /// Changes the size; no side becomes less than 1.
    pub fn resize(&mut self, cols: usize, rows: usize)
        requires
            old(self).inv(),
            old(self)@.facts.columns >= 1 && old(self)@.facts.lines >= 1,
            old(self)@.takes_width(cols as int),
            cols <= grid::MAX_COLUMNS,
            rows <= grid::MAX_LINES,
        ensures
            final(self).inv(),
            old(self)@.after_resize(cols as int, rows as int, final(self)@),
    {
        let cols: usize = if cols > 1 {
            cols
        } else {
            1
        };
        let rows: usize = if rows > 1 {
            rows
        } else {
            1
        };
        resize_term(&mut self.term, cols, rows);
        self.dirty = true;
    }

    /// Takes output of the terminal's program. Unless it is empty, what is
    /// displayed then is the screen itself.
    pub fn advance(&mut self, bytes: &[u8])
        requires
            old(self).inv(),
            old(self)@.facts.lines >= 1,
            old(self)@.takes_output(bytes@),
        ensures
            final(self).inv(),
            old(self)@.after_output(bytes@, final(self)@),
    {
        feed_term(&mut self.term, bytes);
        self.plain = self.plain && is_plain(bytes);
        self.dirty = true;
        if bytes.len() > 0 {
            scroll_bottom(&mut self.term);
        }
    }

    /// The cursor's place on the screen, which it never leaves.
    pub fn cursor_pos(&self) -> (r: CellPos)
        requires
            self.inv(),
        ensures
            self@.facts.columns >= 1 && self@.facts.lines >= 1 ==> r.col < self@.facts.columns
                && r.line < self@.facts.lines,
            r.col == self@.facts.cursor_col,
            r.line == (if self@.facts.cursor_line > 0 {
                self@.facts.cursor_line as int
            } else {
                0
            }),
    {
        let (line, col) = cursor_at(&self.term);
        CellPos::from_alacritty(line, col)
    }

    /// The text of the row at index `at`, without the placeholders behind wide
    /// characters.
    fn text_of_row(&self, at: usize) -> (r: String)
        requires
            self.inv(),
            at < self@.rows.len(),
        ensures
            r@ == row_text(self@.rows[at as int], self@.facts.columns as int),
    {
        let cols: usize = column_count(&self.term);
        let mut out: String = String::new();
        let mut c: usize = 0;
        while c < cols
            invariant
                self.inv(),
                at < self@.rows.len(),
                c <= cols == self@.facts.columns,
                out@ == row_text(self@.rows[at as int], c as int),
            decreases cols - c,
        {
            let cell: CellData = row_cell(&self.term, at, c);
            if !cell.spacer {
                out.push(cell.c);
            }
            c = c + 1;
        }
        out
    }

    /// The text of line `line` of the screen, without the placeholders behind
    /// wide characters.
    pub fn line_text(&self, line: usize) -> (r: String)
        requires
            self.inv(),
            line < self@.facts.lines,
        ensures
            r@ == row_text(self@.screen_row(line as int), self@.facts.columns as int),
    {
        let history: usize = history_len(&self.term);
        self.text_of_row(history + line)
    }

    /// The cells of what is displayed, line by line.
    pub fn cells_iter(&self) -> (r: Vec<CellRef>)
        requires
            self.inv(),
        ensures
            r@ == shown_cells(self@, self@.facts.lines as int),
    {
        let lines: usize = line_count(&self.term);
        let first: usize = history_len(&self.term) - display_shift(&self.term);
        let mut out: Vec<CellRef> = Vec::new();
        let mut line: usize = 0;
        while line < lines
            invariant
                self.inv(),
                line <= lines == self@.facts.lines,
                first == self@.history() - self@.facts.offset,
                out@ == shown_cells(self@, line as int),
            decreases lines - line,
        {
            self.push_row(&mut out, first + line, line);
            line = line + 1;
        }
        out
    }

    /// Appends the cells of the row at index `at`, placed at line `line`.
    fn push_row(&self, out: &mut Vec<CellRef>, at: usize, line: usize)
        requires
            self.inv(),
            at < self@.rows.len(),
        ensures
            final(out)@ == old(out)@ + row_cells(self@.rows[at as int], line as int),
    {
        let cols: usize = column_count(&self.term);
        let ghost row = self@.rows[at as int];
        let mut c: usize = 0;
        assert(out@ =~= old(out)@ + row_cells(row, line as int).take(0));
        while c < cols
            invariant
                self.inv(),
                at < self@.rows.len(),
                row == self@.rows[at as int],
                c <= cols == self@.facts.columns == row.len(),
                out@ == old(out)@ + row_cells(row, line as int).take(c as int),
            decreases cols - c,
        {
            let cell: CellData = row_cell(&self.term, at, c);
            let r = CellRef {
                pos: CellPos { col: c, line },
                c: cell.c,
                fg: resolve(cell.fg),
                bg: resolve(cell.bg),
            };
            out.push(r);
            proof {
                let cells = row_cells(row, line as int);
                assert(cells[c as int] == r);
                assert(cells.take(c + 1) =~= cells.take(c as int).push(r));
            }
            c = c + 1;
        }
        assert(row_cells(row, line as int).take(cols as int) =~= row_cells(row, line as int));
    }

    /// Whether the screen has changed since `clear_dirty`.
    pub fn is_dirty(&self) -> (b: bool)
        ensures
            b == self@.dirty,
    {
        self.dirty
    }

    pub fn clear_dirty(&mut self)
        ensures
            final(self)@ == (Screen { dirty: false, ..old(self)@ }),
    {
        self.dirty = false;
    }

    pub fn mark_dirty(&mut self)
        ensures
            final(self)@ == (Screen { dirty: true, ..old(self)@ }),
    {
        self.dirty = true;
    }

    /// Whether the cursor is shown: not while the history is displayed.
    pub fn cursor_visible(&self) -> (b: bool)
        ensures
            b == (self@.facts.offset == 0 && self@.facts.show_cursor),
    {
        if display_shift(&self.term) > 0 {
            return false;
        }
        cursor_shown(&self.term)
    }

    pub fn cursor_shape(&self) -> (r: CursorShape)
        ensures
            r == self@.facts.shape,
    {
        cursor_form(&self.term)
    }

    /// Columns and lines of the screen.
    pub fn dimensions(&self) -> (r: (usize, usize))
        ensures
            r.0 == self@.facts.columns,
            r.1 == self@.facts.lines,
    {
        (column_count(&self.term), line_count(&self.term))
    }

    /// Moves what is displayed: up into the history by a positive `delta`, and
    /// no further than its ends.
    pub fn scroll_display(&mut self, delta: i32)
        requires
            old(self).inv(),
        ensures
            final(self).inv(),
            final(self)@ == (Screen {
                facts: Facts {
                    offset: grid::clamped(
                        old(self)@.facts.offset + delta,
                        old(self)@.history(),
                    ) as usize,
                    ..old(self)@.facts
                },
                dirty: true,
                emulator: final(self)@.emulator,
                ..old(self)@
            }),
    {
        let room: i32 = i32::MAX - display_shift(&self.term) as i32;
        let capped: i32 = if delta > room {
            room
        } else {
            delta
        };
        scroll_by(&mut self.term, capped);
        self.dirty = true;
    }

    /// The number of lines by which what is displayed is moved up into the
    /// history.
    pub fn display_offset(&self) -> (r: usize)
        ensures
            r == self@.facts.offset,
    {
        display_shift(&self.term)
    }

    /// Displays the screen itself.
    pub fn reset_display(&mut self)
        requires
            old(self).inv(),
        ensures
            final(self).inv(),
            final(self)@ == (Screen {
                facts: Facts { offset: 0, ..old(self)@.facts },
                dirty: true,
                emulator: final(self)@.emulator,
                ..old(self)@
            }),
    {
        scroll_bottom(&mut self.term);
        self.dirty = true;
    }

    /// The text of line `line` of what is displayed.
    pub fn display_text(&self, line: usize) -> (r: String)
        requires
            self.inv(),
            line < self@.facts.lines,
        ensures
            r@ == row_text(self@.shown_row(line as int), self@.facts.columns as int),
    {
        let first: usize = history_len(&self.term) - display_shift(&self.term);
        self.text_of_row(first + line)
    }

    /// The number of rows in the history.
    pub fn scrollback_size(&self) -> (r: usize)
        requires
            self.inv(),
        ensures
            r == self@.history(),
    {
        history_len(&self.term)
    }

    /// All characters of a row of the history.
    pub fn scrollback_line_text(&self, pos: ScrollbackPos) -> (r: String)
        requires
            self.inv(),
            self@.rows.len() >= 1,
        ensures
            r@ == self@.rows[pos.index(self@.history())].map_values(|cell: CellData| cell.c),
    {
        let history: usize = history_len(&self.term);
        let at: usize = if history == 0 {
            0
        } else if pos.row < history {
            pos.row
        } else {
            history - 1
        };
        let cols: usize = column_count(&self.term);
        let ghost row = self@.rows[at as int];
        let ghost chars = row.map_values(|cell: CellData| cell.c);
        let mut out: String = String::new();
        let mut c: usize = 0;
        assert(out@ =~= chars.take(0));
        while c < cols
            invariant
                self.inv(),
                at < self@.rows.len(),
                row == self@.rows[at as int],
                chars == row.map_values(|cell: CellData| cell.c),
                c <= cols == self@.facts.columns == row.len(),
                out@ == chars.take(c as int),
            decreases cols - c,
        {
            let cell: CellData = row_cell(&self.term, at, c);
            out.push(cell.c);
            assert(chars.take(c + 1) =~= chars.take(c as int).push(cell.c));
            c = c + 1;
        }
        assert(chars.take(cols as int) =~= chars);
        out
    }

    /// The cells of a row of the history. They are placed at line 0.
    pub fn scrollback_cells_iter(&self, pos: ScrollbackPos) -> (r: Vec<CellRef>)
        requires
            self.inv(),
            self@.rows.len() >= 1,
        ensures
            r@ == row_cells(self@.rows[pos.index(self@.history())], 0),
    {
        let history: usize = history_len(&self.term);
        let at: usize = if history == 0 {
            0
        } else if pos.row < history {
            pos.row
        } else {
            history - 1
        };
        let mut out: Vec<CellRef> = Vec::new();
        self.push_row(&mut out, at, 0);
        assert(Seq::<CellRef>::empty() + row_cells(self@.rows[at as int], 0) =~= row_cells(
            self@.rows[at as int],
            0,
        ));
        out
    }
}

/// How many cells the first lines have.
pub proof fn lemma_shown_cells(s: Screen, n: int)
    requires
        grid::laid_out(s.rows, s.facts),
        0 <= n <= s.facts.lines,
    ensures
        shown_cells(s, n).len() == n * s.facts.columns,
    decreases n,
{
    if n > 0 {
        lemma_shown_cells(s, n - 1);
        let at = s.history() - s.facts.offset + n - 1;
        assert(s.rows[at].len() == s.facts.columns);
        assert(n * s.facts.columns == (n - 1) * s.facts.columns + s.facts.columns)
            by (nonlinear_arith);
    } else {
        assert(n * s.facts.columns == 0) by (nonlinear_arith)
            requires
                n == 0,
        ;
    }
}

/// What is displayed has as many cells as lines times columns, wherever in the
/// history it is.
pub proof fn law_cells_fill_the_screen(s: Screen)
    requires
        grid::laid_out(s.rows, s.facts),
    ensures
        shown_cells(s, s.facts.lines as int).len() == s.facts.lines * s.facts.columns,
{
    lemma_shown_cells(s, s.facts.lines as int);
}

/// At the bottom, what is displayed is the screen.
pub proof fn law_display_at_bottom(s: Screen, line: int)
    requires
        s.facts.offset == 0,
    ensures
        s.shown_row(line) == s.screen_row(line),
{
}

/// Scrolling up and back down by as much, within the history, displays what
/// was displayed.
pub proof fn law_scroll_back(offset: int, history: int, delta: int)
    requires
        0 <= offset <= history,
        0 <= offset + delta <= history,
    ensures
        grid::clamped(grid::clamped(offset + delta, history) - delta, history) == offset,
{
}

} // verus!
