//! Small drawing helpers on top of `Panel::draw`: single cells, text runs,
//! filled rectangles, box-drawing frames and framed buttons. Each states the
//! exact sequence of panel requests it makes; cells outside the panel are skipped.

use vstd::prelude::*;
use crate::panel::{Cell, CellRect, Geometry, Panel, PanelOp};
use crate::text::str_chars;

verus! {

/// A cell showing `ch` with the given weight and inversion, no other attributes.
pub open spec fn styled(ch: char, bold: bool, inverse: bool) -> Cell {
    Cell { ch, bold, inverse, underline: false, dim: false, wide: false }
}

/// The requests `put` makes: one draw if the cell is on the panel, none otherwise.
pub open spec fn put_ops(g: Geometry, col: int, row: int, ch: char, bold: bool, inverse: bool) -> Seq<PanelOp> {
    if 0 <= col < g.cols && 0 <= row < g.rows {
        seq![PanelOp::Draw(col as u16, row as u16, styled(ch, bold, inverse))]
    } else {
        seq![]
    }
}

/// The requests `text` makes: one `put` per character, left to right.
pub open spec fn text_ops(g: Geometry, col: int, row: int, s: Seq<char>, bold: bool, inverse: bool) -> Seq<PanelOp>
    decreases s.len(),
{
    if s.len() == 0 {
        seq![]
    } else {
        text_ops(g, col, row, s.drop_last(), bold, inverse) + put_ops(
            g,
            col + s.len() - 1,
            row,
            s.last(),
            bold,
            inverse,
        )
    }
}

/// `n` cells of `ch` from column `col0` along row `row`.
pub open spec fn run_ops(g: Geometry, col0: int, n: nat, row: int, ch: char, inverse: bool) -> Seq<PanelOp>
    decreases n,
{
    if n == 0 {
        seq![]
    } else {
        run_ops(g, col0, (n - 1) as nat, row, ch, inverse) + put_ops(
            g,
            col0 + n - 1,
            row,
            ch,
            false,
            inverse,
        )
    }
}

/// The first `n` rows of `r` filled with `ch`, top to bottom.
pub open spec fn fill_rows_ops(g: Geometry, r: CellRect, n: nat, ch: char, inverse: bool) -> Seq<PanelOp>
    decreases n,
{
    if n == 0 {
        seq![]
    } else {
        fill_rows_ops(g, r, (n - 1) as nat, ch, inverse) + run_ops(
            g,
            r.col as int,
            r.cols as nat,
            r.row + n - 1,
            ch,
            inverse,
        )
    }
}

/// The requests `fill` makes: every cell of `r`, row by row.
pub open spec fn fill_ops(g: Geometry, r: CellRect, ch: char, inverse: bool) -> Seq<PanelOp> {
    fill_rows_ops(g, r, r.rows as nat, ch, inverse)
}

/// `fill` computes the ends of its ranges without overflow.
pub open spec fn fill_ok(r: CellRect) -> bool {
    &&& r.row + r.rows <= u16::MAX
    &&& r.rows > 0 ==> r.col + r.cols <= u16::MAX
}

/// Horizontal edges of a frame: columns `c0 .. c0 + n`, top row `r0` then bottom row `r1`.
pub open spec fn hedge_ops(g: Geometry, c0: int, n: nat, r0: int, r1: int, inverse: bool) -> Seq<PanelOp>
    decreases n,
{
    if n == 0 {
        seq![]
    } else {
        hedge_ops(g, c0, (n - 1) as nat, r0, r1, inverse) + put_ops(
            g,
            c0 + n - 1,
            r0,
            '─',
            false,
            inverse,
        ) + put_ops(g, c0 + n - 1, r1, '─', false, inverse)
    }
}

/// Vertical edges of a frame: rows `r0 .. r0 + n`, left column `c0` then right column `c1`.
pub open spec fn vedge_ops(g: Geometry, r0: int, n: nat, c0: int, c1: int, inverse: bool) -> Seq<PanelOp>
    decreases n,
{
    if n == 0 {
        seq![]
    } else {
        vedge_ops(g, r0, (n - 1) as nat, c0, c1, inverse) + put_ops(
            g,
            c0,
            r0 + n - 1,
            '│',
            false,
            inverse,
        ) + put_ops(g, c1, r0 + n - 1, '│', false, inverse)
    }
}

/// The requests `frame` makes: nothing for a rectangle narrower or shorter than
/// two cells; otherwise the four corners, the horizontal edges, the vertical edges.
pub open spec fn frame_ops(g: Geometry, r: CellRect, inverse: bool) -> Seq<PanelOp> {
    if r.cols < 2 || r.rows < 2 {
        seq![]
    } else {
        let c0 = r.col as int;
        let r0 = r.row as int;
        let c1 = r.col + r.cols - 1;
        let r1 = r.row + r.rows - 1;
        put_ops(g, c0, r0, '┌', false, inverse) + put_ops(g, c1, r0, '┐', false, inverse)
            + put_ops(g, c0, r1, '└', false, inverse) + put_ops(g, c1, r1, '┘', false, inverse)
            + hedge_ops(g, c0 + 1, (r.cols - 2) as nat, r0, r1, inverse) + vedge_ops(
            g,
            r0 + 1,
            (r.rows - 2) as nat,
            c0,
            c1,
            inverse,
        )
    }
}

/// `frame` computes its far edges without overflow.
pub open spec fn frame_ok(r: CellRect) -> bool {
    (r.cols >= 2 && r.rows >= 2) ==> r.fits()
}

/// The label a button shows: at most `cols - 2` characters of `label`.
pub open spec fn button_label(r: CellRect, label: Seq<char>) -> Seq<char> {
    let inner = if r.cols >= 2 { r.cols - 2 } else { 0 };
    if label.len() <= inner { label } else { label.take(inner) }
}

/// The requests `button` makes: the rectangle filled with spaces, its frame,
/// and the (possibly cut) label centred on the middle row.
pub open spec fn button_ops(g: Geometry, r: CellRect, label: Seq<char>, inverse: bool) -> Seq<PanelOp> {
    let inner = if r.cols >= 2 { r.cols - 2 } else { 0int };
    let shown = button_label(r, label);
    let pad = (inner - shown.len()) / 2;
    fill_ops(g, r, ' ', inverse) + frame_ops(g, r, inverse) + text_ops(
        g,
        r.col + 1 + pad,
        r.row + r.rows / 2,
        shown,
        false,
        inverse,
    )
}

/// `button` computes its edges and the label's column without overflow.
pub open spec fn button_ok(r: CellRect) -> bool {
    &&& r.fits()
    &&& r.col < u16::MAX
}

/// Requests every drawing helper asks of a panel leave it well-formed, same size,
/// with exactly `added` appended to its log.
pub open spec fn appended<P: Panel>(before: P, after: P, added: Seq<PanelOp>) -> bool {
    &&& after.inv()
    &&& after.geo() == before.geo()
    &&& after.ops() == before.ops() + added
}

pub fn put<P: Panel>(panel: &mut P, col: u16, row: u16, ch: char, bold: bool, inverse: bool)
    requires
        old(panel).inv(),
    ensures
        appended(*old(panel), *final(panel), put_ops(old(panel).geo(), col as int, row as int, ch, bold, inverse)),
{
    let g = panel.geometry();
    if col < g.cols && row < g.rows {
        let ghost before = panel.ops();
        panel.draw(
            col,
            row,
            &Cell { ch, bold, inverse, underline: false, dim: false, wide: false },
        );
        assert(panel.ops() =~= before + put_ops(g, col as int, row as int, ch, bold, inverse));
    } else {
        assert(panel.ops() =~= panel.ops() + seq![]);
    }
}

pub(crate) fn text_chars<P: Panel>(panel: &mut P, col: u16, row: u16, s: &[char], bold: bool, inverse: bool)
    requires
        old(panel).inv(),
        col + s@.len() <= u16::MAX + 1,
    ensures
        appended(*old(panel), *final(panel), text_ops(old(panel).geo(), col as int, row as int, s@, bold, inverse)),
{
    let ghost g = panel.geo();
    let ghost start = panel.ops();
    let mut i: usize = 0;
    assert(s@.take(0) =~= Seq::<char>::empty());
    assert(start =~= start + text_ops(g, col as int, row as int, s@.take(0), bold, inverse));
    while i < s.len()
        invariant
            i <= s@.len(),
            col + s@.len() <= u16::MAX + 1,
            panel.inv(),
            panel.geo() == g,
            panel.ops() == start + text_ops(g, col as int, row as int, s@.take(i as int), bold, inverse),
        decreases s@.len() - i,
    {
        put(panel, col + i as u16, row, s[i], bold, inverse);
        assert(s@.take(i + 1).drop_last() =~= s@.take(i as int));
        assert(panel.ops() =~= start + text_ops(g, col as int, row as int, s@.take(i + 1), bold, inverse));
        i = i + 1;
    }
    assert(s@.take(s@.len() as int) =~= s@);
}

pub fn text<P: Panel>(panel: &mut P, col: u16, row: u16, s: &str, bold: bool, inverse: bool)
    requires
        old(panel).inv(),
        col + s@.len() <= u16::MAX + 1,
    ensures
        appended(*old(panel), *final(panel), text_ops(old(panel).geo(), col as int, row as int, s@, bold, inverse)),
{
    let v = str_chars(s);
    text_chars(panel, col, row, v.as_slice(), bold, inverse);
}

fn run<P: Panel>(panel: &mut P, col0: u16, n: u16, row: u16, ch: char, inverse: bool)
    requires
        old(panel).inv(),
        col0 + n <= u16::MAX,
    ensures
        appended(*old(panel), *final(panel), run_ops(old(panel).geo(), col0 as int, n as nat, row as int, ch, inverse)),
{
    let ghost g = panel.geo();
    let ghost start = panel.ops();
    let mut c = col0;
    assert(start =~= start + run_ops(g, col0 as int, 0, row as int, ch, inverse));
    while c < col0 + n
        invariant
            col0 <= c <= col0 + n,
            col0 + n <= u16::MAX,
            panel.inv(),
            panel.geo() == g,
            panel.ops() == start + run_ops(g, col0 as int, (c - col0) as nat, row as int, ch, inverse),
        decreases col0 + n - c,
    {
        put(panel, c, row, ch, false, inverse);
        assert(panel.ops() =~= start + run_ops(g, col0 as int, (c + 1 - col0) as nat, row as int, ch, inverse));
        c = c + 1;
    }
}

pub fn fill<P: Panel>(panel: &mut P, r: CellRect, ch: char, inverse: bool)
    requires
        old(panel).inv(),
        fill_ok(r),
    ensures
        appended(*old(panel), *final(panel), fill_ops(old(panel).geo(), r, ch, inverse)),
{
    let ghost g = panel.geo();
    let ghost start = panel.ops();
    let mut row = r.row;
    assert(start =~= start + fill_rows_ops(g, r, 0, ch, inverse));
    while row < r.row + r.rows
        invariant
            r.row <= row <= r.row + r.rows,
            fill_ok(r),
            panel.inv(),
            panel.geo() == g,
            panel.ops() == start + fill_rows_ops(g, r, (row - r.row) as nat, ch, inverse),
        decreases r.row + r.rows - row,
    {
        run(panel, r.col, r.cols, row, ch, inverse);
        assert(panel.ops() =~= start + fill_rows_ops(g, r, (row + 1 - r.row) as nat, ch, inverse));
        row = row + 1;
    }
}

/// Box-drawing frame around `r` (inclusive), interior left untouched.
pub fn frame<P: Panel>(panel: &mut P, r: CellRect, inverse: bool)
    requires
        old(panel).inv(),
        frame_ok(r),
    ensures
        appended(*old(panel), *final(panel), frame_ops(old(panel).geo(), r, inverse)),
{
    let ghost g = panel.geo();
    let ghost start = panel.ops();
    if r.cols < 2 || r.rows < 2 {
        assert(start =~= start + seq![]);
        return ;
    }
    let c0 = r.col;
    let r0 = r.row;
    let c1 = r.col + r.cols - 1;
    let r1 = r.row + r.rows - 1;
    put(panel, c0, r0, '┌', false, inverse);
    put(panel, c1, r0, '┐', false, inverse);
    put(panel, c0, r1, '└', false, inverse);
    put(panel, c1, r1, '┘', false, inverse);
    let ghost corners = put_ops(g, c0 as int, r0 as int, '┌', false, inverse) + put_ops(
        g,
        c1 as int,
        r0 as int,
        '┐',
        false,
        inverse,
    ) + put_ops(g, c0 as int, r1 as int, '└', false, inverse) + put_ops(
        g,
        c1 as int,
        r1 as int,
        '┘',
        false,
        inverse,
    );
    assert(panel.ops() =~= start + corners);
    let mut c = c0 + 1;
    assert(panel.ops() =~= start + corners + hedge_ops(g, c0 + 1, 0, r0 as int, r1 as int, inverse));
    while c < c1
        invariant
            c0 + 1 <= c <= c1,
            c1 == r.col + r.cols - 1,
            panel.inv(),
            panel.geo() == g,
            panel.ops() == start + corners + hedge_ops(g, c0 + 1, (c - c0 - 1) as nat, r0 as int, r1 as int, inverse),
        decreases c1 - c,
    {
        put(panel, c, r0, '─', false, inverse);
        put(panel, c, r1, '─', false, inverse);
        assert(panel.ops() =~= start + corners + hedge_ops(g, c0 + 1, (c + 1 - c0 - 1) as nat, r0 as int, r1 as int, inverse));
        c = c + 1;
    }
    let ghost hedges = hedge_ops(g, c0 + 1, (r.cols - 2) as nat, r0 as int, r1 as int, inverse);
    let mut rr = r0 + 1;
    assert(panel.ops() =~= start + corners + hedges + vedge_ops(g, r0 + 1, 0, c0 as int, c1 as int, inverse));
    while rr < r1
        invariant
            r0 + 1 <= rr <= r1,
            r1 == r.row + r.rows - 1,
            panel.inv(),
            panel.geo() == g,
            panel.ops() == start + corners + hedges + vedge_ops(g, r0 + 1, (rr - r0 - 1) as nat, c0 as int, c1 as int, inverse),
        decreases r1 - rr,
    {
        put(panel, c0, rr, '│', false, inverse);
        put(panel, c1, rr, '│', false, inverse);
        assert(panel.ops() =~= start + corners + hedges + vedge_ops(g, r0 + 1, (rr + 1 - r0 - 1) as nat, c0 as int, c1 as int, inverse));
        rr = rr + 1;
    }
    assert(panel.ops() =~= start + frame_ops(g, r, inverse));
}

/// Framed box with a centred label, the whole thing optionally inverted.
pub fn button<P: Panel>(panel: &mut P, r: CellRect, label: &str, inverse: bool)
    requires
        old(panel).inv(),
        button_ok(r),
    ensures
        appended(*old(panel), *final(panel), button_ops(old(panel).geo(), r, label@, inverse)),
{
    let all = str_chars(label);
    button_chars(panel, r, all.as_slice(), inverse);
}

pub(crate) fn button_chars<P: Panel>(panel: &mut P, r: CellRect, all: &[char], inverse: bool)
    requires
        old(panel).inv(),
        button_ok(r),
    ensures
        appended(*old(panel), *final(panel), button_ops(old(panel).geo(), r, all@, inverse)),
{
    let ghost g = panel.geo();
    let ghost start = panel.ops();
    fill(panel, r, ' ', inverse);
    frame(panel, r, inverse);
    let inner: u16 = if r.cols >= 2 { r.cols - 2 } else { 0 };
    let mut shown: Vec<char> = Vec::new();
    let mut i: usize = 0;
    while i < all.len() && i < inner as usize
        invariant
            i <= all@.len(),
            i <= inner,
            shown@ == all@.take(i as int),
        decreases all@.len() - i,
    {
        shown.push(all[i]);
        assert(all@.take(i + 1) =~= all@.take(i as int).push(all@[i as int]));
        i = i + 1;
    }
    assert(shown@ =~= button_label(r, all@));
    let pad: u16 = (inner - shown.len() as u16) / 2;
    text_chars(panel, r.col + 1 + pad, r.row + r.rows / 2, shown.as_slice(), false, inverse);
    assert(panel.ops() =~= start + button_ops(g, r, all@, inverse));
}

} // verus!
