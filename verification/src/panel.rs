//! The drawing surface in cells. A panel records every `draw` and `refresh` it
//! is asked for; the contracts of everything that draws are stated as the exact
//! sequence of panel operations it issues. `FakePanel` is the host-side panel
//! that keeps a cell grid and a log of refreshes; `Offset` is a panel view
//! shifted down by some rows.

use vstd::prelude::*;
use crate::text::{chars_to_string, trim_end, trim_end_len};

verus! {

/// E-ink waveform class: Fast (no flash, leaves ghosting), Partial (greyscale,
/// mild flash), Full (flashing, clears ghosting).
#[derive(Clone, Copy, PartialEq, Eq, Debug, Hash, Structural)]
pub enum Waveform {
    Fast,
    Partial,
    Full,
}

/// Rectangle in cell coordinates.
#[derive(Clone, Copy, PartialEq, Eq, Debug, Default, Hash, Structural)]
pub struct CellRect {
    pub col: u16,
    pub row: u16,
    pub cols: u16,
    pub rows: u16,
}

impl CellRect {
    /// The cell `(col, row)` lies in the rectangle.
    pub open spec fn has(self, col: int, row: int) -> bool {
        &&& self.col <= col < self.col + self.cols
        &&& self.row <= row < self.row + self.rows
    }

    /// The far edges are representable as `u16`.
    pub open spec fn fits(self) -> bool {
        &&& self.col + self.cols <= u16::MAX
        &&& self.row + self.rows <= u16::MAX
    }

    /// The inputs on which `contains` computes its edges without overflow.
    pub open spec fn contains_ok(self, col: int, row: int) -> bool {
        &&& col >= self.col ==> self.col + self.cols <= u16::MAX
        &&& (col >= self.col && col < self.col + self.cols && row >= self.row) ==> self.row
            + self.rows <= u16::MAX
    }

    pub fn area(&self) -> (a: u32)
        ensures
            a == self.cols * self.rows,
    {
        assert(self.cols * self.rows <= 0xffff * 0xffff) by (nonlinear_arith)
            requires
                self.cols <= 0xffff,
                self.rows <= 0xffff,
        ;
        self.cols as u32 * self.rows as u32
    }

    /// `contains` computed in wider integers: never overflows.
    pub fn holds(&self, col: u16, row: u16) -> (b: bool)
        ensures
            b == self.has(col as int, row as int),
    {
        (col as u32) >= (self.col as u32) && (col as u32) < (self.col as u32) + (self.cols as u32)
            && (row as u32) >= (self.row as u32) && (row as u32) < (self.row as u32)
            + (self.rows as u32)
    }

    pub fn contains(&self, col: u16, row: u16) -> (b: bool)
        requires
            self.contains_ok(col as int, row as int),
        ensures
            b == self.has(col as int, row as int),
    {
        col >= self.col && col < self.col + self.cols && row >= self.row && row < self.row
            + self.rows
    }
}

/// One character cell. `'\0'` marks the trailing half of a wide character.
#[derive(Clone, Copy, PartialEq, Eq, Debug, Hash, Structural)]
pub struct Cell {
    pub ch: char,
    pub bold: bool,
    pub inverse: bool,
    pub underline: bool,
    pub dim: bool,
    pub wide: bool,
}

/// A space with no attributes.
pub open spec fn blank_cell() -> Cell {
    Cell { ch: ' ', bold: false, inverse: false, underline: false, dim: false, wide: false }
}

impl Cell {
    /// A space with no attributes.
    pub fn blank() -> (c: Cell)
        ensures
            c == blank_cell(),
    {
        Cell { ch: ' ', bold: false, inverse: false, underline: false, dim: false, wide: false }
    }
}

impl Default for Cell {
    fn default() -> (c: Cell)
        ensures
            c == blank_cell(),
    {
        Cell::blank()
    }
}

#[derive(Clone, Copy, PartialEq, Eq, Debug, Structural)]
pub struct Geometry {
    pub cols: u16,
    pub rows: u16,
}

/// One request made of a panel.
#[derive(Clone, Copy, PartialEq, Eq, Debug)]
pub enum PanelOp {
    Draw(u16, u16, Cell),
    Refresh(CellRect, Waveform),
}

/// `rect` is a non-empty rectangle inside a `g`-sized grid.
pub open spec fn rect_in(rect: CellRect, g: Geometry) -> bool {
    &&& rect.cols > 0
    &&& rect.rows > 0
    &&& rect.col + rect.cols <= g.cols
    &&& rect.row + rect.rows <= g.rows
}

/// Drawing surface. `draw` updates the backing store; `refresh` pushes a
/// rectangle to the glass. `ops` is every request made so far, in order.
pub trait Panel {
    /// The grid size.
    open spec fn geo(&self) -> Geometry {
        Geometry { cols: 0, rows: 0 }
    }

    /// Every request made so far, in order.
    open spec fn ops(&self) -> Seq<PanelOp> {
        Seq::empty()
    }

    /// What the panel keeps true between requests.
    open spec fn inv(&self) -> bool {
        false
    }

    fn geometry(&self) -> (g: Geometry)
        requires
            self.inv(),
        ensures
            g == self.geo(),
    ;

    fn draw(&mut self, col: u16, row: u16, cell: &Cell)
        requires
            old(self).inv(),
            col < old(self).geo().cols,
            row < old(self).geo().rows,
        ensures
            final(self).inv(),
            final(self).geo() == old(self).geo(),
            final(self).ops() == old(self).ops().push(PanelOp::Draw(col, row, *cell)),
    ;

    fn refresh(&mut self, rect: CellRect, wf: Waveform)
        requires
            old(self).inv(),
            rect_in(rect, old(self).geo()),
        ensures
            final(self).inv(),
            final(self).geo() == old(self).geo(),
            final(self).ops() == old(self).ops().push(PanelOp::Refresh(rect, wf)),
    ;
}

/// The cells of a `cols`-wide grid after applying the draws in `ops`, in order.
pub open spec fn paint(start: Seq<Cell>, cols: int, ops: Seq<PanelOp>) -> Seq<Cell>
    decreases ops.len(),
{
    if ops.len() == 0 {
        start
    } else {
        let before = paint(start, cols, ops.drop_last());
        match ops.last() {
            PanelOp::Draw(c, r, cell) => {
                let i = r * cols + c;
                if 0 <= i < before.len() {
                    before.update(i, cell)
                } else {
                    before
                }
            },
            PanelOp::Refresh(_, _) => before,
        }
    }
}

/// The cell of the most recent draw at `(c, r)` among `ops`, if any.
pub open spec fn last_draw(ops: Seq<PanelOp>, c: u16, r: u16) -> Option<Cell>
    decreases ops.len(),
{
    if ops.len() == 0 {
        None
    } else {
        match ops.last() {
            PanelOp::Draw(c2, r2, cell) => if c2 == c && r2 == r {
                Some(cell)
            } else {
                last_draw(ops.drop_last(), c, r)
            },
            PanelOp::Refresh(_, _) => last_draw(ops.drop_last(), c, r),
        }
    }
}

/// Every draw among `ops` lies inside a `g`-sized grid.
pub open spec fn draws_in(ops: Seq<PanelOp>, g: Geometry) -> bool {
    forall|i: int| 0 <= i < ops.len() ==> match #[trigger] ops[i] {
        PanelOp::Draw(c, r, _) => c < g.cols && r < g.rows,
        PanelOp::Refresh(_, _) => true,
    }
}

/// Law: after draws that all lie inside the grid, the cell at `(c, r)` is the
/// one most recently drawn there, or a blank if none was; draws elsewhere
/// and refreshes leave it alone.
pub proof fn lemma_paint_cell(ops: Seq<PanelOp>, g: Geometry, c: u16, r: u16)
    requires
        draws_in(ops, g),
        c < g.cols,
        r < g.rows,
    ensures
        paint(blanks((g.cols * g.rows) as nat), g.cols as int, ops).len() == g.cols * g.rows,
        paint(blanks((g.cols * g.rows) as nat), g.cols as int, ops)[r * g.cols + c] == match last_draw(ops, c, r) {
            Some(x) => x,
            None => blank_cell(),
        },
    decreases ops.len(),
{
    let n = (g.cols * g.rows) as nat;
    let cols = g.cols as int;
    lemma_grid_index(c as int, r as int, cols, g.rows as int);
    if ops.len() > 0 {
        let pre = ops.drop_last();
        assert forall|i: int| 0 <= i < pre.len() implies match #[trigger] pre[i] {
            PanelOp::Draw(c1, r1, _) => c1 < g.cols && r1 < g.rows,
            PanelOp::Refresh(_, _) => true,
        } by {
            assert(pre[i] == ops[i]);
        }
        lemma_paint_cell(pre, g, c, r);
        let k = ops.len() - 1;
        assert(ops[k] == ops.last());
        match ops.last() {
            PanelOp::Draw(c2, r2, cell) => {
                lemma_grid_index(c2 as int, r2 as int, cols, g.rows as int);
                if !(c2 == c && r2 == r) {
                    let i = r * cols + c;
                    let i2 = r2 * cols + c2;
                    if i == i2 {
                        vstd::arithmetic::div_mod::lemma_fundamental_div_mod_converse(i, cols, r as int, c as int);
                        vstd::arithmetic::div_mod::lemma_fundamental_div_mod_converse(i2, cols, r2 as int, c2 as int);
                    }
                }
            },
            PanelOp::Refresh(_, _) => {},
        }
    }
}

/// The refresh requests among `ops`, in order.
pub open spec fn refresh_log(ops: Seq<PanelOp>) -> Seq<(CellRect, Waveform)>
    decreases ops.len(),
{
    if ops.len() == 0 {
        seq![]
    } else {
        match ops.last() {
            PanelOp::Draw(_, _, _) => refresh_log(ops.drop_last()),
            PanelOp::Refresh(r, w) => refresh_log(ops.drop_last()).push((r, w)),
        }
    }
}

/// `n` blank cells.
pub open spec fn blanks(n: nat) -> Seq<Cell> {
    Seq::new(n, |i: int| blank_cell())
}

/// The characters of `cells`, skipping wide-character trailing halves.
pub open spec fn visible_chars(cells: Seq<Cell>) -> Seq<char>
    decreases cells.len(),
{
    if cells.len() == 0 {
        seq![]
    } else if cells.last().ch == '\0' {
        visible_chars(cells.drop_last())
    } else {
        visible_chars(cells.drop_last()).push(cells.last().ch)
    }
}

/// Text of a row of cells: visible characters with trailing whitespace removed.
pub open spec fn row_text_of(cells: Seq<Cell>) -> Seq<char> {
    trim_end(visible_chars(cells))
}

/// Number of refreshes in `log` with waveform `wf`.
pub open spec fn count_wave(log: Seq<(CellRect, Waveform)>, wf: Waveform) -> nat
    decreases log.len(),
{
    if log.len() == 0 {
        0
    } else {
        count_wave(log.drop_last(), wf) + if log.last().1 == wf {
            1nat
        } else {
            0nat
        }
    }
}

/// Row `row` of a grid stored row-major with `cols` columns.
pub open spec fn grid_row(cells: Seq<Cell>, cols: int, row: int) -> Seq<Cell> {
    cells.subrange(row * cols, row * cols + cols)
}

/// Row-major index arithmetic for a `cols` x `rows` grid.
pub proof fn lemma_grid_index(col: int, row: int, cols: int, rows: int)
    requires
        0 <= col < cols,
        0 <= row < rows,
    ensures
        0 <= row * cols,
        row * cols + col < rows * cols,
        row * cols + col < cols * rows,
        row * cols + cols <= cols * rows,
        rows * cols == cols * rows,
{
    assert(row * cols + cols <= rows * cols) by (nonlinear_arith)
        requires
            0 <= col < cols,
            0 <= row < rows,
    ;
    assert(0 <= row * cols) by (nonlinear_arith)
        requires
            0 <= row,
            0 <= cols,
    ;
    assert(rows * cols == cols * rows) by (nonlinear_arith);
}

pub(crate) fn row_text_from(cells: &Vec<Cell>, start: usize, n: usize) -> (s: String)
    requires
        start + n <= cells@.len(),
    ensures
        s@ == row_text_of(cells@.subrange(start as int, start + n)),
{
    let len = cells.len();
    let mut v: Vec<char> = Vec::new();
    let mut i: usize = 0;
    while i < n
        invariant
            i <= n,
            len == cells@.len(),
            start + n <= cells@.len(),
            v@ == visible_chars(cells@.subrange(start as int, start + i)),
        decreases n - i,
    {
        let c = cells[start + i].ch;
        assert(cells@.subrange(start as int, start + i + 1).drop_last() =~= cells@.subrange(
            start as int,
            start + i,
        ));
        if c != '\0' {
            v.push(c);
        }
        i = i + 1;
    }
    let k = trim_end_len(v.as_slice());
    let mut w: Vec<char> = Vec::new();
    let mut j: usize = 0;
    while j < k
        invariant
            j <= k <= v@.len(),
            w@ == v@.take(j as int),
        decreases k - j,
    {
        w.push(v[j]);
        assert(v@.take(j + 1) =~= v@.take(j as int).push(v@[j as int]));
        j = j + 1;
    }
    chars_to_string(w.as_slice())
}

/// Host-side panel: keeps the cell grid and a log of every refresh.
pub struct FakePanel {
    geo: Geometry,
    cells: Vec<Cell>,
    pub refreshes: Vec<(CellRect, Waveform)>,
    log: Ghost<Seq<PanelOp>>,
}

impl FakePanel {
    /// The cells currently in the backing store, row-major.
    pub closed spec fn screen(&self) -> Seq<Cell> {
        self.cells@
    }

    /// The refreshes recorded so far, in order.
    pub closed spec fn refresh_list(&self) -> Seq<(CellRect, Waveform)> {
        self.refreshes@
    }

    /// Law: the cell at `(c, r)` is the one most recently drawn there, or a
    /// blank if none was.
    pub proof fn lemma_cell_is_last_draw(&self, c: u16, r: u16)
        requires
            self.inv(),
            c < self.geo().cols,
            r < self.geo().rows,
        ensures
            self.screen()[r * self.geo().cols + c] == match last_draw(self.ops(), c, r) {
                Some(x) => x,
                None => blank_cell(),
            },
    {
        lemma_paint_cell(self.log@, self.geo, c, r);
    }

    /// What a well-formed fake panel shows and has logged follows from the
    /// requests made of it.
    pub proof fn lemma_state(&self)
        requires
            self.inv(),
        ensures
            self.screen().len() == self.geo().cols * self.geo().rows,
            self.screen() == paint(
                blanks((self.geo().cols * self.geo().rows) as nat),
                self.geo().cols as int,
                self.ops(),
            ),
            self.refresh_list() == refresh_log(self.ops()),
    {
    }

    pub fn new(cols: u16, rows: u16) -> (p: FakePanel)
        requires
            cols * rows <= usize::MAX,
        ensures
            p.inv(),
            p.geo() == (Geometry { cols, rows }),
            p.ops() == Seq::<PanelOp>::empty(),
            p.screen() == blanks((cols * rows) as nat),
            p.refresh_list() == Seq::<(CellRect, Waveform)>::empty(),
    {
        let n = cols as usize * rows as usize;
        let mut cells: Vec<Cell> = Vec::new();
        let mut i: usize = 0;
        while i < n
            invariant
                i <= n,
                cells@ == blanks(i as nat),
            decreases n - i,
        {
            cells.push(Cell::blank());
            assert(cells@ =~= blanks((i + 1) as nat));
            i = i + 1;
        }
        FakePanel {
            geo: Geometry { cols, rows },
            cells,
            refreshes: Vec::new(),
            log: Ghost(Seq::empty()),
        }
    }

    pub fn cell(&self, col: u16, row: u16) -> (c: &Cell)
        requires
            self.inv(),
            row * self.geo().cols + col < self.geo().cols * self.geo().rows,
        ensures
            *c == self.screen()[row * self.geo().cols + col],
    {
        assert(0 <= row * self.geo.cols) by (nonlinear_arith);
        let _len = self.cells.len();
        &self.cells[row as usize * self.geo.cols as usize + col as usize]
    }

    /// Text of one row, trailing blanks trimmed. Wide-char trailing halves are skipped.
    pub fn row_text(&self, row: u16) -> (s: String)
        requires
            self.inv(),
            row < self.geo().rows,
        ensures
            s@ == row_text_of(grid_row(self.screen(), self.geo().cols as int, row as int)),
    {
        let cols = self.geo.cols as usize;
        let _len = self.cells.len();
        if cols == 0 {
            assert((row as int) * 0 == 0) by (nonlinear_arith);
            assert(self.geo().cols == 0);
            assert(grid_row(self.screen(), self.geo().cols as int, row as int) =~= Seq::<Cell>::empty());
            assert(visible_chars(Seq::<Cell>::empty()) =~= Seq::<char>::empty());
            return String::new();
        }
        proof {
            lemma_grid_index(0, row as int, cols as int, self.geo.rows as int);
        }
        row_text_from(&self.cells, row as usize * cols, cols)
    }

    pub fn count(&self, wf: Waveform) -> (n: usize)
        ensures
            n == count_wave(self.refresh_list(), wf),
    {
        let mut n: usize = 0;
        let mut i: usize = 0;
        while i < self.refreshes.len()
            invariant
                i <= self.refreshes@.len(),
                n == count_wave(self.refreshes@.take(i as int), wf),
                n <= i,
            decreases self.refreshes@.len() - i,
        {
            assert(self.refreshes@.take(i + 1).drop_last() =~= self.refreshes@.take(i as int));
            if self.refreshes[i].1 == wf {
                n = n + 1;
            }
            i = i + 1;
        }
        assert(self.refreshes@.take(i as int) =~= self.refreshes@);
        n
    }

    pub fn total_refreshes(&self) -> (n: usize)
        ensures
            n == self.refresh_list().len(),
    {
        self.refreshes.len()
    }
}

impl Panel for FakePanel {
    closed spec fn geo(&self) -> Geometry {
        self.geo
    }

    closed spec fn ops(&self) -> Seq<PanelOp> {
        self.log@
    }

    closed spec fn inv(&self) -> bool {
        &&& self.cells@.len() == self.geo.cols * self.geo.rows
        &&& self.cells@ == paint(
            blanks((self.geo.cols * self.geo.rows) as nat),
            self.geo.cols as int,
            self.log@,
        )
        &&& self.refreshes@ == refresh_log(self.log@)
        &&& draws_in(self.log@, self.geo)
    }

    fn geometry(&self) -> (g: Geometry) {
        self.geo
    }

    fn draw(&mut self, col: u16, row: u16, cell: &Cell) {
        let cols = self.geo.cols;
        let _len = self.cells.len();
        proof {
            lemma_grid_index(col as int, row as int, cols as int, self.geo.rows as int);
        }
        let i = row as usize * cols as usize + col as usize;
        self.cells.set(i, *cell);
        let ghost before = self.log@;
        self.log = Ghost(self.log@.push(PanelOp::Draw(col, row, *cell)));
        assert(self.log@.drop_last() =~= before);
    }

    fn refresh(&mut self, rect: CellRect, wf: Waveform) {
        self.refreshes.push((rect, wf));
        let ghost before = self.log@;
        self.log = Ghost(self.log@.push(PanelOp::Refresh(rect, wf)));
        assert(self.log@.drop_last() =~= before);
    }
}

/// A request as the panel below an offset view receives it: moved down by
/// `row0` rows.
pub open spec fn shift_op(op: PanelOp, row0: u16) -> PanelOp {
    match op {
        PanelOp::Draw(c, r, cell) => PanelOp::Draw(c, (r + row0) as u16, cell),
        PanelOp::Refresh(rect, wf) => PanelOp::Refresh(CellRect { row: (rect.row + row0) as u16, ..rect }, wf),
    }
}

pub open spec fn shift_ops(ops: Seq<PanelOp>, row0: u16) -> Seq<PanelOp> {
    Seq::new(ops.len(), |i: int| shift_op(ops[i], row0))
}

/// A panel view shifted down by `row0` rows and limited to `rows` rows, so a
/// renderer can own a band of the screen (e.g. below a top bar). It owns the
/// panel below while in use; `into_inner` hands it back.
pub struct Offset<P: Panel> {
    inner: P,
    row0: u16,
    rows: u16,
    /// The panel's requests before the view was made.
    base: Ghost<Seq<PanelOp>>,
    /// The requests made of the view.
    log: Ghost<Seq<PanelOp>>,
}

impl<P: Panel> Offset<P> {
    /// Requests made of the panel below before the view was made.
    pub closed spec fn base(&self) -> Seq<PanelOp> {
        self.base@
    }

    pub closed spec fn row0(&self) -> u16 {
        self.row0
    }

    pub closed spec fn inner_geo(&self) -> Geometry {
        self.inner.geo()
    }

    pub fn new(inner: P, row0: u16, rows: u16) -> (o: Offset<P>)
        requires
            inner.inv(),
            row0 + rows <= inner.geo().rows,
        ensures
            o.inv(),
            o.geo() == (Geometry { cols: inner.geo().cols, rows }),
            o.ops() == Seq::<PanelOp>::empty(),
            o.base() == inner.ops(),
            o.row0() == row0,
            o.inner_geo() == inner.geo(),
    {
        let ghost base = inner.ops();
        Offset { inner, row0, rows, base: Ghost(base), log: Ghost(Seq::empty()) }
    }

    /// The panel below: it has received, after what it had before, exactly
    /// the view's requests moved down by `row0` rows.
    pub fn into_inner(self) -> (p: P)
        requires
            self.inv(),
        ensures
            p.inv(),
            p.geo() == self.inner_geo(),
            p.ops() == self.base() + shift_ops(self.ops(), self.row0()),
    {
        self.inner
    }

    /// Draws a cell of the band; a cell below the band is ignored.
    pub fn draw_in_band(&mut self, col: u16, row: u16, cell: &Cell)
        requires
            old(self).inv(),
            col < old(self).geo().cols,
        ensures
            final(self).inv(),
            final(self).geo() == old(self).geo(),
            final(self).base() == old(self).base(),
            final(self).row0() == old(self).row0(),
            final(self).inner_geo() == old(self).inner_geo(),
            final(self).ops() == if row < old(self).geo().rows {
                old(self).ops().push(PanelOp::Draw(col, row, *cell))
            } else {
                old(self).ops()
            },
    {
        if row < self.rows {
            let ghost before = self.log@;
            self.inner.draw(col, row + self.row0, cell);
            self.log = Ghost(self.log@.push(PanelOp::Draw(col, row, *cell)));
            assert(shift_ops(self.log@, self.row0) =~= shift_ops(before, self.row0).push(
                PanelOp::Draw(col, (row + self.row0) as u16, *cell),
            ));
        }
    }

    /// Refreshes the part of `rect` that lies in the band: its rows clipped
    /// to the band's, nothing when none is left.
    pub fn refresh_in_band(&mut self, rect: CellRect, wf: Waveform)
        requires
            old(self).inv(),
            rect.cols > 0,
            rect.col + rect.cols <= old(self).geo().cols,
        ensures
            final(self).inv(),
            final(self).geo() == old(self).geo(),
            final(self).base() == old(self).base(),
            final(self).row0() == old(self).row0(),
            final(self).inner_geo() == old(self).inner_geo(),
            final(self).ops() == if clipped_rows(rect, old(self).geo().rows) > 0 {
                old(self).ops().push(PanelOp::Refresh(CellRect { rows: clipped_rows(rect, old(self).geo().rows) as u16, ..rect }, wf))
            } else {
                old(self).ops()
            },
    {
        let rows = if rect.rows < self.rows.saturating_sub(rect.row) {
            rect.rows
        } else {
            self.rows.saturating_sub(rect.row)
        };
        if rows > 0 {
            let ghost before = self.log@;
            let clipped = CellRect { rows, ..rect };
            let moved = CellRect { row: rect.row + self.row0, rows, ..rect };
            self.inner.refresh(moved, wf);
            self.log = Ghost(self.log@.push(PanelOp::Refresh(clipped, wf)));
            assert(shift_ops(self.log@, self.row0) =~= shift_ops(before, self.row0).push(PanelOp::Refresh(moved, wf)));
        }
    }
}

/// How many of `rect`'s rows lie in a band of `rows` rows.
pub open spec fn clipped_rows(rect: CellRect, rows: u16) -> int {
    let room = if rect.row < rows { rows - rect.row } else { 0 };
    if rect.rows < room { rect.rows as int } else { room }
}

impl<P: Panel> Panel for Offset<P> {
    closed spec fn geo(&self) -> Geometry {
        Geometry { cols: self.inner.geo().cols, rows: self.rows }
    }

    closed spec fn ops(&self) -> Seq<PanelOp> {
        self.log@
    }

    closed spec fn inv(&self) -> bool {
        &&& self.inner.inv()
        &&& self.row0 + self.rows <= self.inner.geo().rows
        &&& self.inner.ops() == self.base@ + shift_ops(self.log@, self.row0)
    }

    fn geometry(&self) -> (g: Geometry) {
        let g = self.inner.geometry();
        Geometry { cols: g.cols, rows: self.rows }
    }

    fn draw(&mut self, col: u16, row: u16, cell: &Cell) {
        self.draw_in_band(col, row, cell);
    }

    fn refresh(&mut self, rect: CellRect, wf: Waveform) {
        self.refresh_in_band(rect, wf);
        assert(CellRect { rows: clipped_rows(rect, self.rows) as u16, ..rect } == rect);
    }
}

} // verus!
