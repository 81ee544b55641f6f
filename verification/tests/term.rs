//! The terminal's screen and what is read of it.

use alacritty_terminal::vte::ansi::NamedColor;
use quill::term::palette::{indexed_color_rgb, named_color_rgb, resolve, TermColor};
use quill::term::{CellPos, CellRef, Color, CursorShape, ScrollbackPos, TermState};

fn filled(prefix: &str) -> TermState {
    let mut t = TermState::new(80, 24);
    for i in 0..50 {
        t.advance(format!("{prefix}{:02}\r\n", i).as_bytes());
    }
    t
}

#[test]
fn advance_hi_newline_moves_cursor() {
    let mut t = TermState::new(80, 24);
    assert_eq!(t.cursor_pos(), CellPos { col: 0, line: 0 });
    t.advance(b"hi");
    let cp = t.cursor_pos();
    assert_eq!(cp.line, 0);
    assert_eq!(cp.col, 2);
    t.advance(b"\r\n");
    let cp = t.cursor_pos();
    assert_eq!(cp.col, 0);
    assert_eq!(cp.line, 1);
}

#[test]
fn advance_empty_is_noop() {
    let mut t = TermState::new(80, 24);
    t.advance(b"");
    assert_eq!(t.cursor_pos(), CellPos { col: 0, line: 0 });
}

#[test]
fn dimensions_reflect_ctor_args() {
    let t = TermState::new(120, 40);
    assert_eq!(t.dimensions().0, 120);
    assert_eq!(t.dimensions().1, 40);
}

#[test]
fn ansi_home_and_clear_resets_cursor() {
    let mut t = TermState::new(80, 24);
    t.advance(b"xyz");
    assert_ne!(t.cursor_pos(), CellPos { col: 0, line: 0 });
    t.advance(b"\x1b[H\x1b[2J");
    assert_eq!(t.cursor_pos(), CellPos { col: 0, line: 0 });
}

#[test]
fn cells_iter_yields_rows_times_cols() {
    let t = TermState::new(80, 24);
    let count = t.cells_iter().len();
    assert_eq!(count, 80 * 24);
}

#[test]
fn cells_iter_reflects_advance_bytes() {
    let mut t = TermState::new(80, 24);
    t.advance(b"A");
    let cell = t
        .cells_iter()
        .into_iter()
        .find(|cr| cr.pos.line == 0 && cr.pos.col == 0)
        .unwrap();
    assert_eq!(cell.c, 'A');
    let cell_01 = t
        .cells_iter()
        .into_iter()
        .find(|cr| cr.pos.line == 0 && cr.pos.col == 1)
        .unwrap();
    assert_eq!(cell_01.c, ' ');
}

#[test]
fn is_dirty_tracks_advance_and_clear() {
    let mut t = TermState::new(80, 24);
    assert!(t.is_dirty());
    t.clear_dirty();
    assert!(!t.is_dirty());
    t.advance(b"hi");
    assert!(t.is_dirty());
    t.clear_dirty();
    assert!(!t.is_dirty());
    t.advance(b"");
    assert!(t.is_dirty());
}

#[test]
fn cursor_visible_reacts_to_decrset_25() {
    let mut t = TermState::new(80, 24);
    assert!(t.cursor_visible());
    t.advance(b"\x1b[?25l");
    assert!(!t.cursor_visible());
    t.advance(b"\x1b[?25h");
    assert!(t.cursor_visible());
}

#[test]
fn dimensions_matches_ctor() {
    let t = TermState::new(80, 24);
    assert_eq!(t.dimensions(), (80, 24));
    let t2 = TermState::new(120, 40);
    assert_eq!(t2.dimensions(), (120, 40));
}

#[test]
fn cellpos_from_alacritty_viewport_and_negative_line() {
    let cp = CellPos::from_alacritty(5, 10);
    assert_eq!(cp.col, 10);
    assert_eq!(cp.line, 5);
    let cp_neg = CellPos::from_alacritty(-3, 7);
    assert_eq!(cp_neg.col, 7);
    assert_eq!(cp_neg.line, 0);
}

#[test]
fn cursor_pos_returns_cellpos() {
    let mut t = TermState::new(80, 24);
    let cp: CellPos = t.cursor_pos();
    assert_eq!(cp, CellPos { col: 0, line: 0 });
    t.advance(b"abc");
    assert_eq!(t.cursor_pos(), CellPos { col: 3, line: 0 });
}

#[test]
fn cursor_shape_default_is_block() {
    let t = TermState::new(80, 24);
    assert_eq!(t.cursor_shape(), CursorShape::Block);
}

#[test]
fn cursor_shape_reacts_to_decscusr() {
    let mut t = TermState::new(80, 24);
    assert_eq!(t.cursor_shape(), CursorShape::Block);
    t.advance(b"\x1b[3 q");
    assert_eq!(t.cursor_shape(), CursorShape::Underline);
    t.advance(b"\x1b[6 q");
    assert_eq!(t.cursor_shape(), CursorShape::Beam);
    t.advance(b"\x1b[2 q");
    assert_eq!(t.cursor_shape(), CursorShape::Block);
}

#[test]
fn scrollback_size_zero_initially() {
    let t = TermState::new(80, 24);
    assert_eq!(t.scrollback_size(), 0);
}

#[test]
fn scrollback_size_grows_after_overflow() {
    let t = filled("line_");
    assert!(t.scrollback_size() >= 25);
}

#[test]
fn scrollback_line_text_returns_oldest_first() {
    let t = filled("line_");
    let history = t.scrollback_size();
    assert!(history >= 25);
    let oldest = t.scrollback_line_text(ScrollbackPos { row: 0 });
    assert!(oldest.starts_with("line_00"));
    let newest_history = t.scrollback_line_text(ScrollbackPos { row: history - 1 });
    assert!(newest_history.starts_with("line_"));
}

#[test]
fn scrollback_cells_iter_yields_chars() {
    let t = filled("ABC");
    let history = t.scrollback_size();
    assert!(history >= 25);
    let pos = ScrollbackPos { row: 0 };
    let cells: Vec<CellRef> = t.scrollback_cells_iter(pos);
    assert_eq!(cells.len(), 80);
    for (i, cr) in cells.iter().enumerate() {
        assert_eq!(cr.pos.line, 0);
        assert_eq!(cr.pos.col, i);
    }
    let chars_from_iter: String = cells.iter().map(|c| c.c).collect();
    let chars_from_text = t.scrollback_line_text(pos);
    assert_eq!(chars_from_iter, chars_from_text);
    assert!(chars_from_iter.starts_with("ABC00"));
}

#[test]
fn scrollbackpos_to_alacritty_boundaries() {
    assert_eq!(ScrollbackPos { row: 0 }.to_alacritty(10), -10);
    assert_eq!(ScrollbackPos { row: 9 }.to_alacritty(10), -1);
    assert_eq!(ScrollbackPos { row: 999 }.to_alacritty(10), -1);
    assert_eq!(ScrollbackPos { row: 0 }.to_alacritty(0), 0);
    assert_eq!(ScrollbackPos { row: 5 }.to_alacritty(0), 0);
}

#[test]
fn color_from_alacritty_spec_passes_rgb() {
    let c = resolve(TermColor::Spec { r: 0x12, g: 0x34, b: 0x56 });
    assert_eq!(c, Color { r: 0x12, g: 0x34, b: 0x56 });
}

#[test]
fn color_from_alacritty_named_resolves_to_palette() {
    assert_eq!(
        resolve(TermColor::Named(NamedColor::Red as usize)),
        Color { r: 170, g: 0, b: 0 }
    );
    assert_eq!(
        resolve(TermColor::Named(NamedColor::BrightGreen as usize)),
        Color { r: 85, g: 255, b: 85 }
    );
    assert_eq!(
        resolve(TermColor::Named(NamedColor::Foreground as usize)),
        Color::default_fg()
    );
    assert_eq!(
        resolve(TermColor::Named(NamedColor::Background as usize)),
        Color::default_bg()
    );
}

#[test]
fn color_from_alacritty_indexed_lookup() {
    assert_eq!(resolve(TermColor::Indexed(1)), Color { r: 170, g: 0, b: 0 });
    assert_eq!(resolve(TermColor::Indexed(15)), Color { r: 255, g: 255, b: 255 });
    assert_eq!(resolve(TermColor::Indexed(16)), Color { r: 0, g: 0, b: 0 });
    assert_eq!(resolve(TermColor::Indexed(231)), Color { r: 255, g: 255, b: 255 });
    assert_eq!(resolve(TermColor::Indexed(25)), Color { r: 0, g: 95, b: 175 });
    assert_eq!(resolve(TermColor::Indexed(232)), Color { r: 8, g: 8, b: 8 });
    assert_eq!(resolve(TermColor::Indexed(255)), Color { r: 238, g: 238, b: 238 });
}

#[test]
fn cellref_carries_fg_and_bg() {
    let t = TermState::new(80, 24);
    let cell = t.cells_iter()[0];
    assert_eq!(cell.fg, Color::default_fg());
    assert_eq!(cell.bg, Color::default_bg());
    let t2 = filled("line_");
    let scroll_cell = t2.scrollback_cells_iter(ScrollbackPos { row: 0 })[0];
    assert_eq!(scroll_cell.fg, Color::default_fg());
    assert_eq!(scroll_cell.bg, Color::default_bg());
}

#[test]
fn resize_changes_dimensions() {
    let mut t = TermState::new(80, 24);
    assert_eq!(t.dimensions(), (80, 24));
    t.resize(100, 30);
    assert_eq!(t.dimensions(), (100, 30));
    assert_eq!(t.cells_iter().len(), 100 * 30);
    t.resize(40, 12);
    assert_eq!(t.dimensions(), (40, 12));
    assert_eq!(t.cells_iter().len(), 40 * 12);
}

#[test]
fn resize_to_smaller_clamps_cursor() {
    let mut t = TermState::new(80, 24);
    for _ in 0..11 {
        t.advance(b"X\r\n");
    }
    let pre = t.cursor_pos();
    assert!(pre.line >= 10);
    t.resize(30, 5);
    let post = t.cursor_pos();
    assert!(post.col < 30);
    assert!(post.line < 5);
}

#[test]
fn resize_zero_clamped_to_one() {
    let mut t = TermState::new(80, 24);
    t.resize(0, 0);
    assert_eq!(t.dimensions(), (1, 1));
    let mut t2 = TermState::new(80, 24);
    t2.resize(0, 5);
    assert_eq!(t2.dimensions(), (1, 5));
    let mut t3 = TermState::new(80, 24);
    t3.resize(5, 0);
    assert_eq!(t3.dimensions(), (5, 1));
}

#[test]
fn display_offset_zero_initially() {
    let t = TermState::new(80, 24);
    assert_eq!(t.display_offset(), 0);
}

#[test]
fn scroll_display_positive_increments_offset() {
    let mut t = filled("line_");
    let history = t.scrollback_size();
    assert!(history >= 25);
    t.scroll_display(5);
    assert_eq!(t.display_offset(), 5);
    t.scroll_display(5);
    assert_eq!(t.display_offset(), 10);
    t.scroll_display(99999);
    assert_eq!(t.display_offset(), history);
}

#[test]
fn scroll_display_negative_decrements_offset_and_clamps_to_zero() {
    let mut t = filled("line_");
    t.scroll_display(20);
    assert!(t.display_offset() > 0);
    t.scroll_display(-5);
    assert_eq!(t.display_offset(), 15);
    t.scroll_display(-9999);
    assert_eq!(t.display_offset(), 0);
}

#[test]
fn scroll_display_sets_dirty() {
    let mut t = filled("line_");
    t.clear_dirty();
    assert!(!t.is_dirty());
    t.scroll_display(5);
    assert!(t.is_dirty());
}

#[test]
fn reset_display_jumps_to_bottom() {
    let mut t = filled("line_");
    t.scroll_display(10);
    assert_eq!(t.display_offset(), 10);
    t.reset_display();
    assert_eq!(t.display_offset(), 0);
}

#[test]
fn advance_with_nonempty_bytes_auto_resets_display() {
    let mut t = filled("line_");
    t.scroll_display(10);
    assert_eq!(t.display_offset(), 10);
    t.advance(b"NEW");
    assert_eq!(t.display_offset(), 0);
}

#[test]
fn advance_with_empty_bytes_does_not_reset_display() {
    let mut t = filled("line_");
    t.scroll_display(10);
    assert_eq!(t.display_offset(), 10);
    t.advance(b"");
    assert_eq!(t.display_offset(), 10);
}

#[test]
fn cells_iter_after_scroll_keeps_viewport_lines_and_shows_history() {
    let mut t = filled("L");
    t.scroll_display(10);
    let cells: Vec<_> = t.cells_iter();
    assert_eq!(cells.len(), 80 * 24);
    for cr in &cells {
        assert!(cr.pos.line < 24);
    }
    let row0: String = cells.iter().filter(|cr| cr.pos.line == 0).map(|cr| cr.c).collect();
    assert!(row0.starts_with("L"));
}

#[test]
fn display_text_follows_display_offset() {
    let mut t = filled("L");
    let active_row0 = t.display_text(0);
    assert!(active_row0.starts_with("L"));
    t.scroll_display(10);
    let scrolled_row0 = t.display_text(0);
    assert_ne!(active_row0, scrolled_row0);
    assert!(scrolled_row0.starts_with("L"));
}

#[test]
fn cursor_visible_false_when_scrolled() {
    let mut t = filled("L");
    assert!(t.cursor_visible());
    t.scroll_display(5);
    assert!(!t.cursor_visible());
    t.reset_display();
    assert!(t.cursor_visible());
}

#[test]
fn resize_sets_dirty() {
    let mut t = TermState::new(80, 24);
    t.clear_dirty();
    assert!(!t.is_dirty());
    t.resize(100, 30);
    assert!(t.is_dirty());
    t.clear_dirty();
    t.resize(100, 30);
    assert!(t.is_dirty());
}

#[test]
fn line_text_is_the_line_on_the_screen() {
    let mut t = TermState::new(10, 3);
    t.advance(b"one\r\ntwo");
    assert_eq!(t.line_text(0), "one       ");
    assert_eq!(t.line_text(1), "two       ");
    assert_eq!(t.line_text(2), "          ");
    assert_eq!(t.line_text(0), t.display_text(0));
}

#[test]
fn a_wide_character_is_one_character_of_the_line() {
    let mut t = TermState::new(6, 2);
    t.advance("你a".as_bytes());
    assert_eq!(t.line_text(0), "你a   ");
    assert_eq!(t.cursor_pos(), CellPos { col: 3, line: 0 });
    assert_eq!(t.cells_iter().len(), 12);
}

#[test]
fn colors_of_a_cell_are_resolved() {
    let mut t = TermState::new(20, 2);
    t.advance(b"\x1b[31;42mR\x1b[38;2;1;2;3mS\x1b[38;5;196mI");
    let cells = t.cells_iter();
    assert_eq!(cells[0].fg, Color { r: 170, g: 0, b: 0 });
    assert_eq!(cells[0].bg, Color { r: 0, g: 170, b: 0 });
    assert_eq!(cells[1].fg, Color { r: 1, g: 2, b: 3 });
    assert_eq!(cells[2].fg, Color { r: 255, g: 0, b: 0 });
    assert_eq!(indexed_color_rgb(196), Color { r: 255, g: 0, b: 0 });
    assert_eq!(named_color_rgb(NamedColor::Red as usize), Color { r: 170, g: 0, b: 0 });
}

#[test]
fn output_in_pieces_moves_the_cursor_alike() {
    let mut whole = TermState::new(20, 4);
    whole.advance(b"ab\x1b[2;5Hc");
    let mut pieces = TermState::new(20, 4);
    pieces.advance(b"ab\x1b[2");
    pieces.advance(b";5Hc");
    assert_eq!(whole.cursor_pos(), CellPos { col: 5, line: 1 });
    assert_eq!(pieces.cursor_pos(), whole.cursor_pos());
    assert_eq!(pieces.line_text(1), whole.line_text(1));
}

#[test]
fn scrolling_back_and_forth_shows_the_same_lines() {
    let mut t = filled("L");
    let before: Vec<String> = (0..24).map(|i| t.display_text(i)).collect();
    t.scroll_display(7);
    t.scroll_display(-7);
    let after: Vec<String> = (0..24).map(|i| t.display_text(i)).collect();
    assert_eq!(before, after);
}

#[test]
fn a_screen_of_one_column_takes_ascii() {
    let mut t = TermState::new(1, 3);
    assert!(t.takes_output(b"abc"));
    assert!(!t.takes_output("你".as_bytes()));
    t.advance(b"abcde\x1b[3b\x1b[@\x1b[2P\t\r\nz");
    assert_eq!(t.dimensions(), (1, 3));
    assert!(t.cursor_pos().col < 1);
    assert_eq!(t.line_text(2), "z");
}

#[test]
fn a_screen_can_become_narrow_as_long_as_it_has_held_no_wide_character() {
    let mut t = TermState::new(20, 4);
    let mut text = Vec::new();
    for i in 0..200 {
        text.extend_from_slice(format!("line {i} with some words\r\n").as_bytes());
    }
    t.advance(&text);
    assert!(t.takes_width(1));
    t.resize(1, 4);
    assert_eq!(t.dimensions(), (1, 4));
    assert!(t.cursor_pos().line < 4);
    t.advance(b"x");
    t.resize(30, 2);
    assert_eq!(t.dimensions(), (30, 2));
    assert!(t.takes_output("你好".as_bytes()));
    t.advance("你好".as_bytes());
    assert!(!t.takes_width(1));
    assert!(t.takes_width(2));
    t.resize(2, 2);
    assert_eq!(t.dimensions(), (2, 2));
}

#[test]
fn output_while_scrolled_back_shows_the_bottom() {
    let mut t = filled("L");
    let history = t.scrollback_size();
    t.scroll_display(1);
    t.advance(b"\x1b[2;4r\x1b[4;1H\n");
    assert_eq!(t.display_offset(), 0);
    assert_eq!(t.scrollback_size(), history);
    assert_eq!(t.cells_iter().len(), 80 * 24);
    t.scroll_display(i32::MAX);
    t.advance(b"\x1b[?1049h");
    assert_eq!((t.display_offset(), t.scrollback_size()), (0, 0));
    t.advance(b"\x1b[?1049l");
    assert_eq!((t.display_offset(), t.scrollback_size()), (0, history));
}

#[test]
fn scrolling_by_any_number_ends_at_an_end() {
    let mut t = filled("L");
    let history = t.scrollback_size();
    t.scroll_display(3);
    t.scroll_display(i32::MAX);
    assert_eq!(t.display_offset(), history);
    t.scroll_display(i32::MAX);
    assert_eq!(t.display_offset(), history);
    t.scroll_display(i32::MIN);
    assert_eq!(t.display_offset(), 0);
}

#[test]
fn a_screen_of_one_column_takes_characters_that_are_not_wide() {
    let mut t = TermState::new(1, 4);
    for text in ["é", "ß\u{301}", "Ж", "س", "ก", "…", "→", "≤", "│", "█", "⠿", "\u{e0b0}"] {
        assert!(t.takes_output(text.as_bytes()));
        t.advance(text.as_bytes());
        assert_eq!(t.line_text(t.cursor_pos().line), text.chars().next().unwrap().to_string());
        t.advance(b"\r\n");
    }
    assert!(t.takes_width(1));
    t.resize(3, 2);
    t.resize(1, 2);
    assert_eq!(t.dimensions(), (1, 2));
    assert!(t.takes_output(b"\xc3"));
    t.advance(b"\xc3");
    t.advance(b"\xa9");
    assert_eq!(t.line_text(1), "é");
    for text in ["你", "⌚", "가", "😀"] {
        assert!(!t.takes_output(text.as_bytes()));
    }
    assert!(!t.takes_output(b"\xe2"));
    assert!(t.takes_output(b""));
}
