use koboterm::term::{Grid, Terminal, VtCell};

#[test]
fn plain_text_lands_in_cells() {
    let mut t = Terminal::new(20, 4, 0);
    t.feed(b"hello\r\nworld");
    let g = t.snapshot();
    assert_eq!(g.row_text(0), "hello");
    assert_eq!(g.row_text(1), "world");
    assert_eq!(g.cursor, Some((5, 1)));
}

#[test]
fn attributes_survive() {
    let mut t = Terminal::new(20, 2, 0);
    t.feed(b"\x1b[1mB\x1b[0m\x1b[7mI\x1b[0m");
    let g = t.snapshot();
    assert!(g.cell(0, 0).bold);
    assert!(!g.cell(0, 0).inverse);
    assert!(g.cell(1, 0).inverse);
}

#[test]
fn scrolling_shifts_rows() {
    let mut t = Terminal::new(10, 2, 0);
    t.feed(b"a\r\nb\r\nc");
    let g = t.snapshot();
    assert_eq!(g.row_text(0), "b");
    assert_eq!(g.row_text(1), "c");
}

#[test]
fn hidden_cursor_is_none() {
    let mut t = Terminal::new(10, 2, 0);
    t.feed(b"\x1b[?25l");
    assert_eq!(t.snapshot().cursor, None);
}

#[test]
fn resize_title_and_size_are_reported() {
    let mut t = Terminal::new(10, 2, 0);
    assert_eq!((t.cols(), t.rows()), (10, 2));
    t.resize(30, 5);
    assert_eq!((t.cols(), t.rows()), (30, 5));
    t.feed(b"\x1b]2;hello\x07");
    assert_eq!(t.title(), "hello");
    let g = t.snapshot();
    assert_eq!(g.cells.len(), 150);
}

#[test]
fn wide_characters_leave_a_nul_behind() {
    let mut t = Terminal::new(10, 1, 0);
    t.feed("漢x".as_bytes());
    let g = t.snapshot();
    assert_eq!(g.cell(0, 0).ch, '漢');
    assert!(g.cell(0, 0).wide);
    assert_eq!(g.cell(1, 0).ch, '\0');
    assert_eq!(g.cell(2, 0).ch, 'x');
    assert_eq!(g.row_text(0), "漢x");
}

#[test]
fn screen_cells_map_to_panel_cells() {
    let raw = vec![
        None,
        Some(VtCell { contents: "é\u{301}".into(), bold: true, inverse: false, underline: true, wide: false, wide_continuation: false }),
        Some(VtCell { contents: String::new(), bold: false, inverse: true, underline: false, wide: false, wide_continuation: false }),
        Some(VtCell { contents: "x".into(), bold: true, inverse: true, underline: true, wide: false, wide_continuation: true }),
    ];
    let g = Grid::from_screen(2, 2, &raw, false, (1, 0));
    assert_eq!(g.cell(0, 0).ch, ' ');
    assert_eq!(g.cell(1, 0).ch, 'é');
    assert!(g.cell(1, 0).bold && g.cell(1, 0).underline);
    assert_eq!(g.cell(0, 1).ch, ' ');
    assert!(g.cell(0, 1).inverse);
    assert_eq!(g.cell(1, 1).ch, '\0');
    assert!(!g.cell(1, 1).bold);
    assert_eq!(g.cursor, Some((0, 1)));
    assert_eq!(Grid::from_screen(2, 2, &raw, true, (1, 0)).cursor, None);
}

#[test]
fn blank_grids_compare_by_content() {
    let a = Grid::blank(3, 2);
    let mut b = Grid::blank(3, 2);
    assert!(a.same_as(&b));
    b.cell_mut(2, 1).bold = true;
    assert!(!a.same_as(&b));
    assert_eq!(a.row_text(1), "");
}

#[test]
fn new_terminal_shows_blank_screen() {
    let t = Terminal::new(3, 2, 0);
    assert_eq!((t.cols(), t.rows()), (3, 2));
    let g = t.snapshot();
    assert_eq!((g.cols, g.rows), (3, 2));
    assert_eq!(g.cells.len(), 6);
    assert_eq!(g.cursor, Some((0, 0)));
    for c in &g.cells {
        assert_eq!(c.ch, ' ');
        assert!(!c.bold && !c.inverse && !c.underline && !c.dim && !c.wide);
    }
}

#[test]
fn feeding_keeps_the_size() {
    let mut t = Terminal::new(7, 3, 0);
    t.feed(b"\x1b[8;40;100tline\r\nmore\x1b[?1049h");
    assert_eq!((t.cols(), t.rows()), (7, 3));
    let g = t.snapshot();
    assert_eq!((g.cols, g.rows), (7, 3));
}

#[test]
fn title_starts_empty_and_survives_resize() {
    let mut t = Terminal::new(10, 2, 0);
    assert_eq!(t.title(), "");
    t.feed(b"\x1b]0;shell\x07");
    assert_eq!(t.title(), "shell");
    t.resize(12, 3);
    assert_eq!(t.title(), "shell");
}

#[test]
fn feeding_changes_what_the_screen_holds() {
    let mut t = Terminal::new(5, 1, 0);
    assert_eq!(t.snapshot().row_text(0), "");
    t.feed(b"ab");
    assert_eq!(t.snapshot().row_text(0), "ab");
}

#[test]
fn resizing_clamps_the_cursor_and_keeps_its_mode() {
    let mut t = Terminal::new(10, 6, 0);
    t.feed(b"\x1b[5;8H");
    assert_eq!(t.snapshot().cursor, Some((7, 4)));
    t.resize(5, 3);
    assert_eq!(t.snapshot().cursor, Some((4, 2)));
    let mut h = Terminal::new(10, 6, 0);
    h.feed(b"\x1b[?25l");
    h.resize(12, 7);
    assert_eq!(h.snapshot().cursor, None);
}

#[test]
fn a_one_column_terminal_can_be_made() {
    let t = Terminal::new(1, 1, 0);
    assert_eq!((t.cols(), t.rows()), (1, 1));
    assert_eq!(t.snapshot().cells.len(), 1);
}
