use koboterm::panel::{Cell, CellRect, FakePanel, Geometry, Offset, Panel, Waveform};
use koboterm::panel_fbink::{cell_pixels, rgb565, PixelGrid};

fn cell(ch: char) -> Cell {
    Cell { ch, bold: false, inverse: false, underline: false, dim: false, wide: false }
}

#[test]
fn offset_view_shifts_requests_down() {
    let p = FakePanel::new(10, 6);
    let mut o = Offset::new(p, 2, 3);
    assert_eq!(o.geometry(), Geometry { cols: 10, rows: 3 });
    o.draw(1, 0, &cell('x'));
    o.refresh(CellRect { col: 0, row: 1, cols: 10, rows: 2 }, Waveform::Fast);
    let p = o.into_inner();
    assert_eq!(p.cell(1, 2).ch, 'x');
    assert_eq!(p.cell(1, 0).ch, ' ');
    assert_eq!(p.refreshes, vec![(CellRect { col: 0, row: 3, cols: 10, rows: 2 }, Waveform::Fast)]);
}

#[test]
fn grid_is_centred_in_the_view() {
    let g = PixelGrid::layout(16, 32, 10, 1072, 1448, 0, 0);
    assert_eq!((g.cols, g.rows, g.x0, g.y0), (65, 44, 16, 20));
    assert_eq!(g.cell_at(16, 20), Some((0, 0)));
    assert_eq!(g.cell_at(15, 20), None);
    assert_eq!(g.cell_at(16 + 16 * 65, 20), None);
    assert_eq!(g.cell_at(40, 60), Some((1, 1)));
    assert_eq!(g.px_rect(CellRect { col: 1, row: 2, cols: 3, rows: 1 }), (84, 32, 48, 32));
    let o = PixelGrid::layout(16, 32, 0, 100, 100, 5, 7);
    assert_eq!((o.cols, o.rows, o.x0, o.y0), (6, 3, 7, 9));
}

#[test]
fn cell_greys() {
    let mut c = cell('A');
    c.underline = true;
    assert_eq!(cell_pixels(&c, &vec![0x8000_0000, 0, 0], 2, 3), vec![vec![0, 255], vec![0, 0], vec![0, 0]]);
    let mut c = cell('A');
    c.inverse = true;
    c.dim = true;
    assert_eq!(cell_pixels(&c, &vec![0x8000_0000], 2, 1), vec![vec![255, 0x60]]);
    let mut c = cell('B');
    c.bold = true;
    assert_eq!(cell_pixels(&c, &vec![0x4000_0000], 4, 1), vec![vec![255, 0, 0, 255]]);
    assert_eq!(cell_pixels(&cell('\0'), &vec![0xFFFF_FFFF], 2, 2), vec![vec![255, 255], vec![255, 255]]);
    assert_eq!(rgb565(255), 0xFFFF);
    assert_eq!(rgb565(128), 33808);
    assert_eq!(rgb565(0), 0);
}

#[test]
fn bands_and_corner_cells() {
    let g = PixelGrid::band(16, 32, 10, 1072, 0, 0, 100, 500);
    assert_eq!((g.cols, g.rows, g.x0, g.y0), (65, 12, 16, 108));
    for (c, r) in [(0u16, 0u16), (3, 5), (64, 11)] {
        let (top, left, _, _) = g.px_rect(CellRect { col: c, row: r, cols: 1, rows: 1 });
        assert_eq!(g.cell_at(left as i32, top as i32), Some((c, r)));
    }
    let empty = PixelGrid::band(16, 32, 10, 1072, 0, 0, 500, 100);
    assert_eq!(empty.rows, 0);
}

#[test]
fn offset_ignores_draws_below_the_band_and_clips_refreshes() {
    let p = FakePanel::new(10, 6);
    let mut o = Offset::new(p, 2, 3);
    o.draw_in_band(1, 3, &cell('y'));
    o.draw_in_band(2, 2, &cell('z'));
    o.refresh_in_band(CellRect { col: 0, row: 1, cols: 10, rows: 5 }, Waveform::Full);
    o.refresh_in_band(CellRect { col: 0, row: 3, cols: 10, rows: 1 }, Waveform::Fast);
    let p = o.into_inner();
    assert_eq!(p.cell(1, 5).ch, ' ', "a draw below the band is ignored");
    assert_eq!(p.cell(2, 4).ch, 'z');
    assert_eq!(p.refreshes, vec![(CellRect { col: 0, row: 3, cols: 10, rows: 2 }, Waveform::Full)]);
}

#[test]
fn fake_panel_cell_is_the_last_draw_there() {
    let mut p = FakePanel::new(4, 2);
    p.draw(1, 1, &cell('a'));
    p.draw(2, 1, &cell('b'));
    p.refresh(CellRect { col: 0, row: 0, cols: 4, rows: 2 }, Waveform::Fast);
    p.draw(1, 1, &cell('c'));
    assert_eq!(p.cell(1, 1).ch, 'c');
    assert_eq!(p.cell(2, 1).ch, 'b');
    assert_eq!(p.cell(0, 0).ch, ' ');
}
