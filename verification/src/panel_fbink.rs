//! The arithmetic of the real e-ink panel: how the cell grid sits in the
//! framebuffer's view, which cell a touch lands on, which pixels a cell
//! covers, and the grey levels a cell's glyph is drawn with. FBInk and the
//! framebuffer itself are the application's.

use vstd::prelude::*;
use crate::font::pixel;
use crate::panel::{Cell, CellRect};

verus! {

/// `a - b`, or 0 when `b > a`.
pub open spec fn sat(a: int, b: int) -> int {
    if a >= b {
        a - b
    } else {
        0
    }
}

/// Where the grid sits: cell size, the pixel of its top-left corner, and
/// its size in cells.
#[derive(Clone, Copy, Debug, PartialEq, Eq, Structural)]
pub struct PixelGrid {
    pub fw: u32,
    pub fh: u32,
    pub x0: u32,
    pub y0: u32,
    pub cols: u16,
    pub rows: u16,
}

/// Columns (or rows) that fit in `v` pixels less a margin on both sides.
pub open spec fn fit_cells(v: u32, margin: u32, f: u32) -> u16 {
    (sat(v as int, 2 * margin) / (f as int)) as u16
}

/// The grid of `fw` x `fh` cells for a view `vw` x `vh` with its origin at
/// (`ox`, `oy`): as many cells as fit inside the margin, centred.
pub open spec fn grid_spec(fw: u32, fh: u32, margin: u32, vw: u32, vh: u32, ox: u32, oy: u32) -> PixelGrid {
    let cols = fit_cells(vw, margin, fw);
    let rows = fit_cells(vh, margin, fh);
    PixelGrid {
        fw,
        fh,
        x0: (ox + (vw - cols * fw) / 2) as u32,
        y0: (oy + (vh - rows * fh) / 2) as u32,
        cols,
        rows,
    }
}

proof fn lemma_fit(v: u32, margin: u32, f: u32)
    requires
        f > 0,
    ensures
        fit_cells(v, margin, f) * f <= v,
{
    let q = sat(v as int, 2 * margin) / (f as int);
    let c = fit_cells(v, margin, f);
    assert(c <= q);
    assert(q * f <= sat(v as int, 2 * margin)) by (nonlinear_arith)
        requires
            q == sat(v as int, 2 * margin) / (f as int),
            f > 0,
            sat(v as int, 2 * margin) >= 0,
    ;
    assert(c * f <= q * f) by (nonlinear_arith)
        requires
            0 <= c <= q,
            f > 0,
    ;
}

impl PixelGrid {
    pub fn layout(fw: u32, fh: u32, margin: u32, vw: u32, vh: u32, ox: u32, oy: u32) -> (g: PixelGrid)
        requires
            fw > 0,
            fh > 0,
            2 * margin <= u32::MAX,
            ox + (vw - fit_cells(vw, margin, fw) * fw) / 2 <= u32::MAX,
            oy + (vh - fit_cells(vh, margin, fh) * fh) / 2 <= u32::MAX,
        ensures
            g == grid_spec(fw, fh, margin, vw, vh, ox, oy),
    {
        proof {
            lemma_fit(vw, margin, fw);
            lemma_fit(vh, margin, fh);
        }
        let cols = (vw.saturating_sub(2 * margin) / fw) as u16;
        let rows = (vh.saturating_sub(2 * margin) / fh) as u16;
        let x0 = ox + (vw - cols as u32 * fw) / 2;
        let y0 = oy + (vh - rows as u32 * fh) / 2;
        PixelGrid { fw, fh, x0, y0, cols, rows }
    }

    /// The grid of `fw` x `fh` cells in the band of lines `top..bottom` of
    /// a view `vw` wide with its origin at (`ox`, `oy`): as many columns as
    /// fit inside the side margins and rows as fit in the band, centred.
    pub open spec fn band_spec(fw: u32, fh: u32, margin: u32, vw: u32, ox: u32, oy: u32, top: u32, bottom: u32) -> PixelGrid {
        let cols = fit_cells(vw, margin, fw);
        let rows = fit_cells((sat(bottom as int, top as int)) as u32, 0, fh);
        PixelGrid {
            fw,
            fh,
            x0: (ox + (vw - cols * fw) / 2) as u32,
            y0: (oy + top + (sat(bottom as int, top as int) - rows * fh) / 2) as u32,
            cols,
            rows,
        }
    }

    pub fn band(fw: u32, fh: u32, margin: u32, vw: u32, ox: u32, oy: u32, top: u32, bottom: u32) -> (g: PixelGrid)
        requires
            fw > 0,
            fh > 0,
            2 * margin <= u32::MAX,
            ox + (vw - fit_cells(vw, margin, fw) * fw) / 2 <= u32::MAX,
            oy + top + (sat(bottom as int, top as int) - fit_cells((sat(bottom as int, top as int)) as u32, 0, fh) * fh)
                / 2 <= u32::MAX,
        ensures
            g == Self::band_spec(fw, fh, margin, vw, ox, oy, top, bottom),
    {
        let span = bottom.saturating_sub(top);
        proof {
            lemma_fit(vw, margin, fw);
            lemma_fit(span, 0, fh);
        }
        let cols = (vw.saturating_sub(2 * margin) / fw) as u16;
        let rows = (span / fh) as u16;
        let x0 = ox + (vw - cols as u32 * fw) / 2;
        let y0 = oy + top + (span - rows as u32 * fh) / 2;
        PixelGrid { fw, fh, x0, y0, cols, rows }
    }

    /// The cell under pixel (`x`, `y`), if inside the grid.
    pub open spec fn cell_at_spec(self, x: int, y: int) -> Option<(u16, u16)> {
        let gx = x - (self.x0 as i32);
        let gy = y - (self.y0 as i32);
        if gx < 0 || gy < 0 || gx / (self.fw as int) >= self.cols || gy / (self.fh as int) >= self.rows {
            None
        } else {
            Some(((gx / (self.fw as int)) as u16, (gy / (self.fh as int)) as u16))
        }
    }

    pub fn cell_at(&self, x: i32, y: i32) -> (r: Option<(u16, u16)>)
        requires
            0 < self.fw <= i32::MAX,
            0 < self.fh <= i32::MAX,
            i32::MIN <= x - (self.x0 as i32) <= i32::MAX,
            i32::MIN <= y - (self.y0 as i32) <= i32::MAX,
        ensures
            r == self.cell_at_spec(x as int, y as int),
    {
        let gx: i64 = x as i64 - (self.x0 as i32) as i64;
        let gy: i64 = y as i64 - (self.y0 as i32) as i64;
        if gx < 0 || gy < 0 {
            return None;
        }
        let cx = gx / self.fw as i64;
        let cy = gy / self.fh as i64;
        if cx >= self.cols as i64 || cy >= self.rows as i64 {
            None
        } else {
            Some((cx as u16, cy as u16))
        }
    }

    /// The pixel rectangle of a cell rectangle: (top, left, width, height).
    pub open spec fn px_rect_spec(self, r: CellRect) -> (int, int, int, int) {
        (self.y0 + r.row * self.fh, self.x0 + r.col * self.fw, r.cols * self.fw, r.rows * self.fh)
    }

    pub fn px_rect(&self, r: CellRect) -> (p: (u32, u32, u32, u32))
        requires
            self.y0 + r.row * self.fh <= u32::MAX,
            self.x0 + r.col * self.fw <= u32::MAX,
            r.cols * self.fw <= u32::MAX,
            r.rows * self.fh <= u32::MAX,
        ensures
            (p.0 as int, p.1 as int, p.2 as int, p.3 as int) == self.px_rect_spec(r),
    {
        proof {
            assert(r.row * self.fh >= 0 && r.col * self.fw >= 0) by (nonlinear_arith);
        }
        (self.y0 + r.row as u32 * self.fh, self.x0 + r.col as u32 * self.fw, r.cols as u32 * self.fw, r.rows as u32
            * self.fh)
    }
}

/// Foreground and background grey of a cell: black on white, grey text
/// when dim, swapped when inverse.
pub open spec fn ink(cell: Cell) -> (u8, u8) {
    let fg: u8 = if cell.dim {
        0x60
    } else {
        0
    };
    if cell.inverse {
        (0xFF, fg)
    } else {
        (fg, 0xFF)
    }
}

/// The rows a cell shows: none lit for a wide character's trailing half,
/// else the glyph's, thickened by one pixel to the right when bold.
pub open spec fn cell_rows(cell: Cell, glyph: Seq<u32>, fh: u32) -> Seq<u32> {
    if cell.ch == '\0' {
        Seq::new(fh as nat, |y: int| 0u32)
    } else if cell.bold {
        Seq::new(glyph.len(), |y: int| glyph[y] | (glyph[y] >> 1u32))
    } else {
        glyph
    }
}

/// The grey of each pixel of a cell, row by row, `fw` pixels a row: lit
/// pixels, and the bottom two lines when underlined, in the foreground.
pub open spec fn cell_grey(cell: Cell, glyph: Seq<u32>, fw: u32, fh: u32) -> Seq<Seq<u8>> {
    let rows = cell_rows(cell, glyph, fh);
    Seq::new(
        rows.len(),
        |dy: int|
            Seq::new(
                fw as nat,
                |dx: int|
                    if (cell.underline && dy >= fh - 2) || pixel(rows[dy], dx as u32) {
                        ink(cell).0
                    } else {
                        ink(cell).1
                    },
            ),
    )
}

proof fn lemma_bit(bits: u32, dx: u32)
    by (bit_vector)
    requires
        dx < 32,
    ensures
        ((bits & (1u32 << ((31 - dx) as u32))) != 0u32) == ((bits >> ((31 - dx) as u32)) & 1u32 == 1u32),
{
}

/// The greys to draw a cell with, for a `fw` x `fh` font whose glyph for
/// the cell's character has rows `glyph`.
pub fn cell_pixels(cell: &Cell, glyph: &Vec<u32>, fw: u32, fh: u32) -> (g: Vec<Vec<u8>>)
    requires
        fw <= 32,
        cell.underline ==> fh >= 2,
    ensures
        g@.len() == cell_grey(*cell, glyph@, fw, fh).len(),
        forall|dy: int| 0 <= dy < g@.len() ==> #[trigger] g@[dy]@ == cell_grey(*cell, glyph@, fw, fh)[dy],
{
    let fg0: u8 = if cell.dim {
        0x60
    } else {
        0
    };
    let (fg, bg): (u8, u8) = if cell.inverse {
        (0xFF, fg0)
    } else {
        (fg0, 0xFF)
    };
    let mut rows: Vec<u32> = Vec::new();
    if cell.ch == '\0' {
        let mut i: u32 = 0;
        while i < fh
            invariant
                i <= fh,
                rows@ == Seq::new(i as nat, |y: int| 0u32),
            decreases fh - i,
        {
            rows.push(0);
            assert(rows@ =~= Seq::new((i + 1) as nat, |y: int| 0u32));
            i = i + 1;
        }
    } else {
        let mut i: usize = 0;
        while i < glyph.len()
            invariant
                i <= glyph@.len(),
                cell.ch != '\0',
                rows@ == cell_rows(*cell, glyph@, fh).take(i as int),
            decreases glyph@.len() - i,
        {
            let r = glyph[i];
            rows.push(if cell.bold {
                r | (r >> 1u32)
            } else {
                r
            });
            assert(rows@ =~= cell_rows(*cell, glyph@, fh).take(i + 1));
            i = i + 1;
        }
        assert(rows@ =~= cell_rows(*cell, glyph@, fh));
    }
    let ghost want = cell_grey(*cell, glyph@, fw, fh);
    let mut out: Vec<Vec<u8>> = Vec::new();
    let mut dy: usize = 0;
    while dy < rows.len()
        invariant
            dy <= rows@.len(),
            rows@ == cell_rows(*cell, glyph@, fh),
            want == cell_grey(*cell, glyph@, fw, fh),
            (fg, bg) == ink(*cell),
            fw <= 32,
            cell.underline ==> fh >= 2,
            out@.len() == dy,
            forall|y: int| 0 <= y < dy ==> #[trigger] out@[y]@ == want[y],
        decreases rows@.len() - dy,
    {
        let bits = rows[dy];
        let under = cell.underline && dy as u64 >= fh as u64 - 2;
        let mut line: Vec<u8> = Vec::new();
        let mut dx: u32 = 0;
        while dx < fw
            invariant
                dx <= fw <= 32,
                dy < rows@.len(),
                bits == rows@[dy as int],
                rows@ == cell_rows(*cell, glyph@, fh),
                want == cell_grey(*cell, glyph@, fw, fh),
                (fg, bg) == ink(*cell),
                under == (cell.underline && dy >= fh - 2),
                line@.len() == dx,
                forall|x: int| 0 <= x < dx ==> #[trigger] line@[x] == want[dy as int][x],
            decreases fw - dx,
        {
            proof {
                lemma_bit(bits, dx);
            }
            let on = under || bits & (1u32 << (31 - dx)) != 0;
            line.push(if on {
                fg
            } else {
                bg
            });
            dx = dx + 1;
        }
        assert(line@ =~= want[dy as int]);
        out.push(line);
        dy = dy + 1;
    }
    out
}

/// A grey level as 16-bit RGB 5:6:5.
pub fn rgb565(gray: u8) -> (v: u16)
    ensures
        v == ((gray / 8) as u16) * 2048 + ((gray / 4) as u16) * 32 + (gray / 8) as u16,
{
    let g = gray as u16;
    let v: u16 = ((g >> 3) << 11) | ((g >> 2) << 5) | (g >> 3);
    assert(v == (g / 8) * 2048 + (g / 4) * 32 + g / 8) by (bit_vector)
        requires
            g < 256,
            v == ((g >> 3) << 11) | ((g >> 2) << 5) | (g >> 3),
    ;
    v
}

/// The cell under the top-left pixel of a cell's rectangle is that cell.
pub proof fn lemma_corner_cell(g: PixelGrid, col: u16, row: u16)
    requires
        g.fw > 0,
        g.fh > 0,
        col < g.cols,
        row < g.rows,
        g.x0 <= i32::MAX,
        g.y0 <= i32::MAX,
    ensures
        g.cell_at_spec(g.px_rect_spec(CellRect { col, row, cols: 1, rows: 1 }).1, g.px_rect_spec(
            CellRect { col, row, cols: 1, rows: 1 },
        ).0) == Some((col, row)),
{
    let x = g.x0 + col * g.fw;
    let y = g.y0 + row * g.fh;
    assert((col * g.fw) / (g.fw as int) == col) by (nonlinear_arith)
        requires
            g.fw > 0,
            col >= 0,
    ;
    assert((row * g.fh) / (g.fh as int) == row) by (nonlinear_arith)
        requires
            g.fh > 0,
            row >= 0,
    ;
    assert(col * g.fw >= 0 && row * g.fh >= 0) by (nonlinear_arith);
}

} // verus!
