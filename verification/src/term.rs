//! Terminal model: bytes in, cell grid out. The escape-sequence interpreter is
//! `vt100`; this module reduces its cells to what the panel can show.

use vstd::prelude::*;
use crate::panel::{blank_cell, blanks, grid_row, last_draw, lemma_grid_index, row_text_from, row_text_of, Cell, FakePanel, Geometry, Panel};
use crate::text::str_chars;

verus! {

/// The abstract value of a grid: its size, its cells row-major, and the cursor.
#[verifier::ext_equal]
pub struct GridView {
    pub cols: u16,
    pub rows: u16,
    pub cells: Seq<Cell>,
    pub cursor: Option<(u16, u16)>,
}

/// A full snapshot of the visible screen. Cheap to build (a few thousand cells)
/// and cheap to compare, which is what the renderer does every tick.
#[derive(Clone, PartialEq, Eq, Debug)]
pub struct Grid {
    pub cols: u16,
    pub rows: u16,
    pub cells: Vec<Cell>,
    /// `(col, row)` of the cursor, or `None` if hidden.
    pub cursor: Option<(u16, u16)>,
}

impl View for Grid {
    type V = GridView;

    open spec fn view(&self) -> GridView {
        GridView { cols: self.cols, rows: self.rows, cells: self.cells@, cursor: self.cursor }
    }
}

impl GridView {
    /// One cell per position.
    pub open spec fn wf(self) -> bool {
        self.cells.len() == self.cols * self.rows
    }

    /// Cell at `(col, row)`.
    pub open spec fn at(self, col: int, row: int) -> Cell {
        self.cells[row * self.cols + col]
    }
}

/// A `cols` x `rows` grid of blanks with the cursor hidden.
pub open spec fn blank_grid(cols: u16, rows: u16) -> GridView {
    GridView { cols, rows, cells: blanks((cols * rows) as nat), cursor: None }
}

impl Grid {
    pub fn blank(cols: u16, rows: u16) -> (g: Grid)
        requires
            cols * rows <= usize::MAX,
        ensures
            g@ == blank_grid(cols, rows),
            g@.wf(),
    {
        let n = cols as usize * rows as usize;
        let mut cells: Vec<Cell> = Vec::new();
        let mut i: usize = 0;
        while i < n
            invariant
                i <= n,
                cells@ == blanks(i as nat),
            decreases n - i,
        {
            cells.push(Cell::blank());
            assert(cells@ =~= blanks((i + 1) as nat));
            i = i + 1;
        }
        Grid { cols, rows, cells, cursor: None }
    }

    pub fn cell(&self, col: u16, row: u16) -> (c: &Cell)
        requires
            self@.wf(),
            col < self.cols,
            row < self.rows,
        ensures
            *c == self@.at(col as int, row as int),
    {
        proof {
            lemma_grid_index(col as int, row as int, self.cols as int, self.rows as int);
        }
        let _n = self.cells.len();
        &self.cells[row as usize * self.cols as usize + col as usize]
    }

    pub fn cell_mut(&mut self, col: u16, row: u16) -> (c: &mut Cell)
        requires
            old(self)@.wf(),
            col < old(self).cols,
            row < old(self).rows,
        ensures
            *c == old(self)@.at(col as int, row as int),
            final(self)@ == (GridView {
                cells: old(self)@.cells.update(row * old(self).cols + col, *final(c)),
                ..old(self)@
            }),
    {
        proof {
            lemma_grid_index(col as int, row as int, self.cols as int, self.rows as int);
        }
        let _n = self.cells.len();
        &mut self.cells[row as usize * self.cols as usize + col as usize]
    }

    /// Text of one row: wide-character trailing halves skipped, trailing
    /// whitespace removed.
    pub fn row_text(&self, row: u16) -> (s: String)
        requires
            self@.wf(),
            row < self.rows,
        ensures
            s@ == row_text_of(grid_row(self@.cells, self.cols as int, row as int)),
    {
        let cols = self.cols as usize;
        let _n = self.cells.len();
        if cols == 0 {
            proof {
                assert(row * 0 == 0) by (nonlinear_arith);
                assert(grid_row(self@.cells, 0, row as int) =~= self@.cells.subrange(0, 0));
            }
            return row_text_from(&self.cells, 0, 0);
        }
        proof {
            lemma_grid_index(0, row as int, cols as int, self.rows as int);
        }
        row_text_from(&self.cells, row as usize * cols, cols)
    }

    /// A copy with the same size, cells and cursor.
    pub(crate) fn duplicate(&self) -> (g: Grid)
        ensures
            g@ == self@,
    {
        let mut cells: Vec<Cell> = Vec::new();
        let mut i: usize = 0;
        while i < self.cells.len()
            invariant
                i <= self.cells@.len(),
                cells@ == self.cells@.take(i as int),
            decreases self.cells@.len() - i,
        {
            cells.push(self.cells[i]);
            assert(self.cells@.take(i + 1) =~= self.cells@.take(i as int).push(self.cells@[i as int]));
            i = i + 1;
        }
        assert(self.cells@.take(i as int) =~= self.cells@);
        Grid { cols: self.cols, rows: self.rows, cells, cursor: self.cursor }
    }

    /// Whether two grids have the same size, cells and cursor.
    pub fn same_as(&self, other: &Grid) -> (b: bool)
        ensures
            b == (self@ == other@),
    {
        if self.cols != other.cols || self.rows != other.rows || self.cells.len() != other.cells.len() {
            return false;
        }
        match (self.cursor, other.cursor) {
            (Some(a), Some(b)) => {
                if a.0 != b.0 || a.1 != b.1 {
                    return false;
                }
            },
            (None, None) => {},
            _ => {
                return false;
            },
        }
        let mut i: usize = 0;
        while i < self.cells.len()
            invariant
                i <= self.cells@.len(),
                self.cells@.len() == other.cells@.len(),
                forall|j: int| 0 <= j < i ==> self.cells@[j] == other.cells@[j],
            decreases self.cells@.len() - i,
        {
            if self.cells[i] != other.cells[i] {
                return false;
            }
            i = i + 1;
        }
        assert(self.cells@ =~= other.cells@);
        true
    }
}

/// What `vt100` reports of one screen cell, as plain values.
#[derive(Clone, Debug, PartialEq, Eq)]
pub struct VtCell {
    pub contents: String,
    pub bold: bool,
    pub inverse: bool,
    pub underline: bool,
    pub wide: bool,
    pub wide_continuation: bool,
}

/// A `VtCell` as plain values: the contents as characters.
pub struct VtCellView {
    pub contents: Seq<char>,
    pub bold: bool,
    pub inverse: bool,
    pub underline: bool,
    pub wide: bool,
    pub wide_continuation: bool,
}

impl View for VtCell {
    type V = VtCellView;

    open spec fn view(&self) -> VtCellView {
        VtCellView {
            contents: self.contents@,
            bold: self.bold,
            inverse: self.inverse,
            underline: self.underline,
            wide: self.wide,
            wide_continuation: self.wide_continuation,
        }
    }
}

/// The view of what was read at a position, if anything.
pub open spec fn opt_view(vc: Option<VtCell>) -> Option<VtCellView> {
    match vc {
        None => None,
        Some(v) => Some(v@),
    }
}

/// The panel cell shown for what `vt100` reports at a position. A missing
/// cell stays blank; the trailing half of a wide character is `'\0'`; otherwise
/// the first scalar of the contents (combining marks dropped), or a space.
pub open spec fn view_cell(vc: Option<VtCellView>) -> Cell {
    match vc {
        None => blank_cell(),
        Some(v) => if v.wide_continuation {
            Cell { ch: '\0', ..blank_cell() }
        } else {
            Cell {
                ch: if v.contents.len() > 0 { v.contents[0] } else { ' ' },
                bold: v.bold,
                inverse: v.inverse,
                underline: v.underline,
                dim: false,
                wide: v.wide,
            }
        },
    }
}

/// `view_cell` of a cell as read.
pub open spec fn screen_cell(vc: Option<VtCell>) -> Cell {
    view_cell(opt_view(vc))
}

/// What a screen holds at `(row, col)`, if it holds a cell there.
pub open spec fn vt_at(m: Map<(u16, u16), VtCellView>, row: int, col: int) -> Option<VtCellView> {
    if m.dom().contains((row as u16, col as u16)) {
        Some(m[(row as u16, col as u16)])
    } else {
        None
    }
}

/// The panel cells, row-major, of a `rows` x `cols` screen holding `m`.
pub open spec fn screen_cells(m: Map<(u16, u16), VtCellView>, rows: u16, cols: u16) -> Seq<Cell> {
    Seq::new((rows * cols) as nat, |i: int| view_cell(vt_at(m, i / (cols as int), i % (cols as int))))
}

/// A screen of `rows` x `cols` empty cells with no attributes, and nothing
/// elsewhere.
pub open spec fn fresh_screen(m: Map<(u16, u16), VtCellView>, rows: u16, cols: u16) -> bool {
    &&& forall|r: u16, c: u16| #[trigger] m.dom().contains((r, c)) <==> (r < rows && c < cols)
    &&& forall|r: u16, c: u16| r < rows && c < cols ==> {
        let v = #[trigger] m[(r, c)];
        &&& v.contents.len() == 0
        &&& !v.bold && !v.inverse && !v.underline
        &&& !v.wide && !v.wide_continuation
    }
}

/// The grid for a `rows` x `cols` screen whose cells, row-major, are `raw`;
/// `pos` is vt100's `(row, col)` cursor position.
pub open spec fn screen_grid(rows: u16, cols: u16, raw: Seq<Option<VtCell>>, hidden: bool, pos: (u16, u16)) -> GridView {
    GridView {
        cols,
        rows,
        cells: Seq::new(raw.len(), |i: int| screen_cell(raw[i])),
        cursor: if hidden { None } else { Some((pos.1, pos.0)) },
    }
}

pub fn cell_from_vt(vc: &Option<VtCell>) -> (c: Cell)
    ensures
        c == screen_cell(*vc),
{
    match vc {
        None => Cell::blank(),
        Some(v) => {
            if v.wide_continuation {
                let mut c = Cell::blank();
                c.ch = '\0';
                c
            } else {
                let chars = str_chars(v.contents.as_str());
                let ch = if chars.len() > 0 { chars[0] } else { ' ' };
                Cell { ch, bold: v.bold, inverse: v.inverse, underline: v.underline, dim: false, wide: v.wide }
            }
        },
    }
}

impl Grid {
    /// The grid for a screen as `vt100` reports it: `raw` holds its cells row
    /// by row, `pos` the cursor as `(row, col)`.
    pub fn from_screen(rows: u16, cols: u16, raw: &[Option<VtCell>], hidden: bool, pos: (u16, u16)) -> (g: Grid)
        requires
            raw@.len() == rows * cols,
        ensures
            g@ == screen_grid(rows, cols, raw@, hidden, pos),
            g@.wf(),
    {
        let mut cells: Vec<Cell> = Vec::new();
        let mut i: usize = 0;
        while i < raw.len()
            invariant
                i <= raw@.len(),
                cells@ == Seq::new(i as nat, |j: int| screen_cell(raw@[j])),
            decreases raw@.len() - i,
        {
            let c = cell_from_vt(&raw[i]);
            cells.push(c);
            assert(cells@ =~= Seq::new((i + 1) as nat, |j: int| screen_cell(raw@[j])));
            i = i + 1;
        }
        let cursor = if hidden { None } else { Some((pos.1, pos.0)) };
        proof {
            assert(rows * cols == cols * rows) by (nonlinear_arith);
        }
        Grid { cols, rows, cells, cursor }
    }
}

#[verifier::external_type_specification]
#[verifier::external_body]
pub struct ExParser(vt100::Parser);

/// The size a parser's screen was made or last resized with, as
/// `(rows, cols)`.
pub uninterp spec fn vt_dims(p: vt100::Parser) -> (u16, u16);

/// What a parser's visible screen holds: the cell at each `(row, col)` where
/// `Screen::cell` finds one.
pub uninterp spec fn vt_screen(p: vt100::Parser) -> Map<(u16, u16), VtCellView>;

/// What a terminal screen shows: the cells, the window title, and whether
/// and where the cursor is shown, as `(row, col)`.
pub struct VtState {
    pub screen: Map<(u16, u16), VtCellView>,
    pub title: Seq<char>,
    pub cursor_hidden: bool,
    pub cursor: (u16, u16),
}

/// What the parser `p` shows.
pub open spec fn vt_state(p: vt100::Parser) -> VtState {
    VtState { screen: vt_screen(p), title: vt_title_of(p), cursor_hidden: vt_cursor_hidden(p), cursor: vt_cursor_at(p) }
}

/// What the parser `p` shows once `Parser::process` has read `bytes` into it:
/// a function of the parser's state and the bytes alone.
pub uninterp spec fn vt_fed(p: vt100::Parser, bytes: Seq<u8>) -> VtState;

/// The window title a parser's screen holds (`Screen::title`).
pub uninterp spec fn vt_title_of(p: vt100::Parser) -> Seq<char>;

/// Whether the parser's screen hides the cursor (`Screen::hide_cursor`).
pub uninterp spec fn vt_cursor_hidden(p: vt100::Parser) -> bool;

/// The cursor's `(row, col)` on the parser's screen
/// (`Screen::cursor_position`).
pub uninterp spec fn vt_cursor_at(p: vt100::Parser) -> (u16, u16);

/// What the visible screen holds once `Parser::set_size(rows, cols)` has
/// resized the parser `p`: a function of the parser's state and the size.
pub uninterp spec fn vt_resized(p: vt100::Parser, rows: u16, cols: u16) -> Map<(u16, u16), VtCellView>;

/// The cursor `(row, col)` moved into a `rows` x `cols` screen.
pub open spec fn clamp_cursor(pos: (u16, u16), rows: u16, cols: u16) -> (u16, u16) {
    (
        if pos.0 > rows - 1 { (rows - 1) as u16 } else { pos.0 },
        if pos.1 > cols - 1 { (cols - 1) as u16 } else { pos.1 },
    )
}

/// Whether, in both of the parser's grids (the one shown and the one switched
/// out), every wide character has its second half in the next column of its
/// row and every second half follows a first half. `Screen::text` unwraps the
/// neighbouring cell on the strength of this (screen.rs: "it must have the
/// first half of the wide character before it", "... the second half of the
/// wide character after it"); the grid operations that `process` reaches
/// (`Row::remove`, `erase`, `truncate`, `clear_wide`) keep it. Narrowing the
/// screen can cut a pair in two (`Row::resize` drops the cells past the new
/// width), after which a later character written there panics.
pub uninterp spec fn vt_intact(p: vt100::Parser) -> bool;

/// `vt100::Parser::new(rows, cols, scrollback)`. vt100 subtracts one from the
/// row count (`Grid::new`), so there must be a row. The new
/// screen has the given size and holds `rows` x `cols` default cells (no
/// contents, no attributes, so no wide pair to break), as `Grid::new`,
/// `allocate_rows` and `Row::new` show; no mode is set, so the cursor shows,
/// at the origin (`Pos::default()`), and the title is empty.
#[verifier::external_body]
fn vt_new(rows: u16, cols: u16, scrollback: usize) -> (p: vt100::Parser)
    requires
        rows >= 1,
    ensures
        vt_intact(p),
        vt_dims(p) == (rows, cols),
        fresh_screen(vt_screen(p), rows, cols),
        vt_title_of(p) == Seq::<char>::empty(),
        !vt_cursor_hidden(p),
        vt_cursor_at(p) == (0u16, 0u16),
{
    vt100::Parser::new(rows, cols, scrollback)
}

/// `Parser::process`: interprets the bytes. Only `Parser::set_size` changes a
/// screen's size, so the size stays; what the parser then shows (cells,
/// title, cursor) is named `vt_fed` of the parser before the call and the
/// bytes. `Screen::text` subtracts a character's width (up to two) from the
/// column count, so it returns only on a screen of two columns or more whose
/// wide pairs are whole (`vt_intact`), and leaves them whole.
#[verifier::external_body]
fn vt_process(p: &mut vt100::Parser, bytes: &[u8])
    requires
        vt_dims(*old(p)).1 >= 2,
        vt_intact(*old(p)),
    ensures
        vt_intact(*final(p)),
        vt_dims(*final(p)) == vt_dims(*old(p)),
        vt_state(*final(p)) == vt_fed(*old(p), bytes@),
{
    p.process(bytes)
}

/// `Parser::set_size(rows, cols)`; vt100 subtracts one from both. Both grids
/// take the new size; the title and the modes (so whether the cursor is
/// hidden) stay, and `Grid::set_size` clamps the cursor into the new size
/// (`row_clamp_bottom`, `col_clamp`). What the screen then holds is named
/// `vt_resized` of the parser before the call and the size. When the
/// screen does not get narrower, every row keeps its
/// cells and is padded with default ones, so whole wide pairs stay whole.
#[verifier::external_body]
fn vt_set_size(p: &mut vt100::Parser, rows: u16, cols: u16)
    requires
        rows >= 1,
        cols >= 1,
    ensures
        vt_intact(*old(p)) && cols >= vt_dims(*old(p)).1 ==> vt_intact(*final(p)),
        vt_dims(*final(p)) == (rows, cols),
        vt_title_of(*final(p)) == vt_title_of(*old(p)),
        vt_screen(*final(p)) == vt_resized(*old(p), rows, cols),
        vt_cursor_hidden(*final(p)) == vt_cursor_hidden(*old(p)),
        vt_cursor_at(*final(p)) == clamp_cursor(vt_cursor_at(*old(p)), rows, cols),
{
    p.set_size(rows, cols)
}

/// `Screen::size()`: `(rows, cols)` of the parser's screen.
#[verifier::external_body]
fn vt_size(p: &vt100::Parser) -> (s: (u16, u16))
    ensures
        s == vt_dims(*p),
{
    p.screen().size()
}

/// `Screen::title()`: the title the screen holds.
#[verifier::external_body]
fn vt_title(p: &vt100::Parser) -> (t: &str)
    ensures
        t@ == vt_title_of(*p),
{
    p.screen().title()
}

/// `Screen::cell(row, col)` with its contents and attributes read out as
/// plain values (`Cell::contents`, `bold`, `inverse`, `underline`, `is_wide`,
/// `is_wide_continuation`): the cell the screen holds there, if any.
#[verifier::external_body]
fn vt_cell(p: &vt100::Parser, row: u16, col: u16) -> (c: Option<VtCell>)
    ensures
        opt_view(c) == vt_at(vt_screen(*p), row as int, col as int),
{
    match p.screen().cell(row, col) {
        Some(c) => Some(VtCell {
            contents: c.contents(),
            bold: c.bold(),
            inverse: c.inverse(),
            underline: c.underline(),
            wide: c.is_wide(),
            wide_continuation: c.is_wide_continuation(),
        }),
        None => None,
    }
}

/// `Screen::hide_cursor()`.
#[verifier::external_body]
fn vt_hide_cursor(p: &vt100::Parser) -> (b: bool)
    ensures
        b == vt_cursor_hidden(*p),
{
    p.screen().hide_cursor()
}

/// `Screen::cursor_position()`: `(row, col)`.
#[verifier::external_body]
fn vt_cursor_position(p: &vt100::Parser) -> (pos: (u16, u16))
    ensures
        pos == vt_cursor_at(*p),
{
    p.screen().cursor_position()
}

pub struct Terminal {
    parser: vt100::Parser,
}

impl Terminal {
    /// `(rows, cols)` of the screen.
    pub closed spec fn dims(&self) -> (u16, u16) {
        vt_dims(self.parser)
    }

    /// What the screen holds at each `(row, col)`.
    pub closed spec fn screen(&self) -> Map<(u16, u16), VtCellView> {
        vt_screen(self.parser)
    }

    /// Whether the screen can take more output: at least two columns, and
    /// every wide character whole (see `vt_intact`).
    pub closed spec fn intact(&self) -> bool {
        vt_dims(self.parser).1 >= 2 && vt_intact(self.parser)
    }

    /// The window title the screen holds.
    pub closed spec fn title_text(&self) -> Seq<char> {
        vt_title_of(self.parser)
    }

    /// Whether the screen hides the cursor.
    pub closed spec fn cursor_hidden(&self) -> bool {
        vt_cursor_hidden(self.parser)
    }

    /// The cursor's `(row, col)`.
    pub closed spec fn cursor_at(&self) -> (u16, u16) {
        vt_cursor_at(self.parser)
    }

    /// What the screen holds once resized to `rows` x `cols`.
    pub closed spec fn after_resize(&self, rows: u16, cols: u16) -> Map<(u16, u16), VtCellView> {
        vt_resized(self.parser, rows, cols)
    }

    /// What the terminal shows: cells, title and cursor.
    pub closed spec fn state(&self) -> VtState {
        vt_state(self.parser)
    }

    /// What the terminal shows once `bytes` have been read.
    pub closed spec fn after_feed(&self, bytes: Seq<u8>) -> VtState {
        vt_fed(self.parser, bytes)
    }

    /// A `cols` x `rows` terminal with an empty screen and no title.
    pub fn new(cols: u16, rows: u16, scrollback: usize) -> (t: Terminal)
        requires
            rows >= 1,
        ensures
            cols >= 2 ==> t.intact(),
            t.dims() == (rows, cols),
            fresh_screen(t.screen(), rows, cols),
            t.title_text() == Seq::<char>::empty(),
            !t.cursor_hidden(),
            t.cursor_at() == (0u16, 0u16),
    {
        Terminal { parser: vt_new(rows, cols, scrollback) }
    }

    /// Interprets output of the program: the terminal then shows what vt100
    /// makes of `bytes` from the state before (cells, title, cursor); the
    /// size stays.
    pub fn feed(&mut self, bytes: &[u8])
        requires
            old(self).intact(),
        ensures
            final(self).intact(),
            final(self).dims() == old(self).dims(),
            final(self).state() == old(self).after_feed(bytes@),
            final(self).screen() == old(self).after_feed(bytes@).screen,
            final(self).title_text() == old(self).after_feed(bytes@).title,
            final(self).cursor_hidden() == old(self).after_feed(bytes@).cursor_hidden,
            final(self).cursor_at() == old(self).after_feed(bytes@).cursor,
    {
        vt_process(&mut self.parser, bytes);
    }

    /// A screen that does not get narrower can take more output as before;
    /// after narrowing, a wide character cut at the new edge makes vt100 panic
    /// on later output, so this is not promised.
    pub fn resize(&mut self, cols: u16, rows: u16)
        requires
            rows >= 1,
            cols >= 1,
        ensures
            old(self).intact() && cols >= old(self).dims().1 ==> final(self).intact(),
            final(self).dims() == (rows, cols),
            final(self).title_text() == old(self).title_text(),
            final(self).screen() == old(self).after_resize(rows, cols),
            final(self).cursor_hidden() == old(self).cursor_hidden(),
            final(self).cursor_at() == clamp_cursor(old(self).cursor_at(), rows, cols),
    {
        vt_set_size(&mut self.parser, rows, cols);
    }

    pub fn cols(&self) -> (c: u16)
        ensures
            c == self.dims().1,
    {
        vt_size(&self.parser).1
    }

    pub fn rows(&self) -> (r: u16)
        ensures
            r == self.dims().0,
    {
        vt_size(&self.parser).0
    }

    /// Title set by the application via OSC 0/2, if any.
    pub fn title(&self) -> (t: &str)
        ensures
            t@ == self.title_text(),
    {
        vt_title(&self.parser)
    }

    /// The visible screen as a grid: every cell the screen holds, mapped by
    /// `view_cell`, and the cursor as vt100 reports it unless hidden.
    pub fn snapshot(&self) -> (g: Grid)
        ensures
            g@.wf(),
            g.rows == self.dims().0,
            g.cols == self.dims().1,
            g@.cells == screen_cells(self.screen(), g.rows, g.cols),
            g.cursor == (if self.cursor_hidden() {
                None
            } else {
                Some((self.cursor_at().1, self.cursor_at().0))
            }),
    {
        let (rows, cols) = vt_size(&self.parser);
        let ghost m = vt_screen(self.parser);
        let mut raw: Vec<Option<VtCell>> = Vec::new();
        let mut row: u16 = 0;
        while row < rows
            invariant
                m == vt_screen(self.parser),
                row <= rows,
                raw@.len() == row * cols,
                forall|j: int| 0 <= j < raw@.len() ==>
                    #[trigger] opt_view(raw@[j]) == vt_at(m, j / (cols as int), j % (cols as int)),
            decreases rows - row,
        {
            let mut col: u16 = 0;
            while col < cols
                invariant
                    m == vt_screen(self.parser),
                    row < rows,
                    col <= cols,
                    raw@.len() == row * cols + col,
                    forall|j: int| 0 <= j < raw@.len() ==>
                        #[trigger] opt_view(raw@[j]) == vt_at(m, j / (cols as int), j % (cols as int)),
                decreases cols - col,
            {
                proof {
                    lemma_grid_index(col as int, row as int, cols as int, rows as int);
                    vstd::arithmetic::div_mod::lemma_fundamental_div_mod_converse(
                        row * cols + col, cols as int, row as int, col as int);
                }
                let c = vt_cell(&self.parser, row, col);
                raw.push(c);
                col = col + 1;
            }
            proof {
                assert(row * cols + cols == (row + 1) * cols) by (nonlinear_arith);
            }
            row = row + 1;
        }
        let hidden = vt_hide_cursor(&self.parser);
        let pos = vt_cursor_position(&self.parser);
        let g = Grid::from_screen(rows, cols, raw.as_slice(), hidden, pos);
        assert(g@.cells =~= screen_cells(m, rows, cols)) by {
            assert forall|j: int| 0 <= j < g@.cells.len() implies
                #[trigger] g@.cells[j] == screen_cells(m, rows, cols)[j] by {
                assert(opt_view(raw@[j]) == vt_at(m, j / (cols as int), j % (cols as int)));
            }
        }
        g
    }
}

/// A new terminal shows a blank screen: every cell of its snapshot is a space
/// with no attributes.
pub proof fn lemma_fresh_screen_is_blank(m: Map<(u16, u16), VtCellView>, rows: u16, cols: u16)
    requires
        fresh_screen(m, rows, cols),
    ensures
        screen_cells(m, rows, cols) == blanks((rows * cols) as nat),
{
    assert forall|i: int| 0 <= i < rows * cols implies
        #[trigger] screen_cells(m, rows, cols)[i] == blank_cell() by {
        assert(cols > 0) by (nonlinear_arith)
            requires
                0 <= i < rows * cols,
                rows >= 0,
        ;
        vstd::arithmetic::div_mod::lemma_fundamental_div_mod(i, cols as int);
        assert(0 <= i / (cols as int) < rows) by (nonlinear_arith)
            requires
                0 <= i < rows * cols,
                cols > 0,
        ;
        assert(m.dom().contains(((i / (cols as int)) as u16, (i % (cols as int)) as u16)));
    }
    assert(screen_cells(m, rows, cols) =~= blanks((rows * cols) as nat));
}

/// Law: a fake panel of a grid's size on which every cell of the grid was
/// the last thing drawn at its place shows exactly the grid's cells, so the
/// two give the same text for every row.
pub proof fn lemma_panel_shows_grid(p: &FakePanel, g: GridView)
    requires
        p.inv(),
        g.wf(),
        p.geo() == (Geometry { cols: g.cols, rows: g.rows }),
        forall|c: u16, r: u16| c < g.cols && r < g.rows ==> last_draw(p.ops(), c, r) == Some(#[trigger] g.at(c as int, r as int)),
    ensures
        p.screen() == g.cells,
        forall|r: int| 0 <= r < g.rows ==>
            row_text_of(grid_row(p.screen(), g.cols as int, r)) == row_text_of(#[trigger] grid_row(g.cells, g.cols as int, r)),
{
    p.lemma_state();
    let cols = g.cols as int;
    assert forall|i: int| 0 <= i < g.cells.len() implies p.screen()[i] == g.cells[i] by {
        let rows = g.rows as int;
        assert(0 <= i < cols * rows);
        assert(cols > 0) by (nonlinear_arith)
            requires
                0 <= i < cols * rows,
                rows >= 0,
                cols >= 0,
        ;
        vstd::arithmetic::div_mod::lemma_fundamental_div_mod(i, cols);
        let r = i / cols;
        let c = i % cols;
        assert(0 <= r < rows) by (nonlinear_arith)
            requires
                0 <= i < cols * rows,
                cols > 0,
                r == i / cols,
        ;
        assert(i == r * cols + c) by (nonlinear_arith)
            requires
                i == cols * (i / cols) + i % cols,
                r == i / cols,
                c == i % cols,
        ;
        assert(last_draw(p.ops(), c as u16, r as u16) == Some(g.at(c, r)));
        p.lemma_cell_is_last_draw(c as u16, r as u16);
    }
    assert(p.screen() =~= g.cells);
}

} // verus!
