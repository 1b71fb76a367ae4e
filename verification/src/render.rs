//! Renderer: decides *when* and *what* to push to the e-ink panel.
//!
//! Every tick it compares the wanted grid (terminal snapshot + cursor) with the
//! shadow grid (what is on the glass). Nothing is refreshed until the wanted
//! grid has been quiet for `quiet_ms`, or `max_latency_ms` has elapsed since the
//! first unflushed change. That gives a single keystroke a fast echo and caps
//! streaming output at roughly `1000 / max_latency_ms` refreshes per second no
//! matter how fast bytes arrive.
//!
//! Dirty cells are grouped into row bands, one refresh per band. If more than
//! `full_threshold` thousandths of the screen rows are dirty, one whole-screen
//! Fast refresh is issued instead. After `ghost_budget` partial refreshes, or
//! when the screen goes idle with enough partials accumulated, a Full refresh
//! clears ghosting.

use vstd::prelude::*;
use crate::panel::{lemma_grid_index, paint, rect_in, refresh_log, Cell, CellRect, Geometry, Panel, PanelOp, Waveform};
use crate::term::{Grid, GridView};
use crate::ui::draw::appended;

verus! {

#[derive(Clone, Copy, Debug, PartialEq, Eq, Structural)]
pub struct Config {
    /// Flush once the wanted grid has not changed for this long.
    pub quiet_ms: u64,
    /// Flush anyway once the oldest unflushed change is this old.
    pub max_latency_ms: u64,
    /// Thousandths of the screen rows dirty above which a whole-screen refresh is used.
    pub full_threshold: u32,
    /// Force a Full refresh after this many partial refreshes.
    pub ghost_budget: u32,
    /// When idle this long with at least `ghost_idle_min_partials`, do a Full refresh.
    pub ghost_idle_ms: u64,
    pub ghost_idle_min_partials: u32,
    /// Re-push the whole grid with a Fast refresh if nothing was refreshed for
    /// this long. Cheap on e-ink (unchanged pixels do not move) and guarantees
    /// the glass never lags the model by more than this. 0 disables.
    pub heartbeat_ms: u64,
}

pub open spec fn default_config() -> Config {
    Config {
        quiet_ms: 50,
        max_latency_ms: 250,
        full_threshold: 500,
        ghost_budget: 40,
        ghost_idle_ms: 4000,
        ghost_idle_min_partials: 6,
        heartbeat_ms: 1000,
    }
}

impl Default for Config {
    fn default() -> (c: Config)
        ensures
            c == default_config(),
    {
        Config {
            quiet_ms: 50,
            max_latency_ms: 250,
            full_threshold: 500,
            ghost_budget: 40,
            ghost_idle_ms: 4000,
            ghost_idle_min_partials: 6,
            heartbeat_ms: 1000,
        }
    }
}

#[derive(Clone, Copy, PartialEq, Eq, Debug, Structural)]
pub enum Flushed {
    Nothing,
    Partial(u32),
    Full,
}

/// Everything a renderer remembers.
pub struct RenderState {
    pub cfg: Config,
    /// What is on the glass.
    pub shadow: GridView,
    /// The wanted grid of the latest tick.
    pub last_wanted: GridView,
    /// Time of the first change not yet flushed.
    pub pending_since: Option<u64>,
    /// Time of the latest change.
    pub last_change: u64,
    pub partials: u32,
    /// Time of the latest refresh.
    pub last_flush: u64,
}

pub struct Renderer {
    cfg: Config,
    shadow: Grid,
    last_wanted: Grid,
    pending_since: Option<u64>,
    last_change: u64,
    partials_since_full: u32,
    last_flush: u64,
}

/// `a - b`, or 0 when `b` is later.
pub open spec fn since(a: u64, b: u64) -> int {
    if a >= b {
        a - b
    } else {
        0
    }
}

/// The whole `cols` x `rows` screen.
pub open spec fn whole(cols: u16, rows: u16) -> CellRect {
    CellRect { col: 0, row: 0, cols, rows }
}

/// The grid with the cursor cell shown inverted, so it is diffed like any other change.
pub open spec fn with_cursor(g: GridView) -> GridView {
    match g.cursor {
        Some((c, r)) => if c < g.cols && r < g.rows {
            let i = r * g.cols + c;
            GridView { cells: g.cells.update(i, Cell { inverse: !g.cells[i].inverse, ..g.cells[i] }), ..g }
        } else {
            g
        },
        None => g,
    }
}

/// Draw requests for columns `0..k` of row `r` where `want` differs from `have`.
pub open spec fn row_draws(have: Seq<Cell>, want: Seq<Cell>, cols: int, r: int, k: int) -> Seq<PanelOp>
    decreases k,
{
    if k <= 0 {
        seq![]
    } else {
        let i = r * cols + (k - 1);
        row_draws(have, want, cols, r, k - 1) + if want[i] != have[i] {
            seq![PanelOp::Draw((k - 1) as u16, r as u16, want[i])]
        } else {
            seq![]
        }
    }
}

/// Draw requests, row by row, for every cell of rows `0..n` where `want` differs from `have`.
pub open spec fn grid_draws(have: Seq<Cell>, want: Seq<Cell>, cols: int, n: int) -> Seq<PanelOp>
    decreases n,
{
    if n <= 0 {
        seq![]
    } else {
        grid_draws(have, want, cols, n - 1) + row_draws(have, want, cols, n - 1, cols)
    }
}

/// Draw requests for columns `0..k` of row `r`, every cell.
pub open spec fn row_all(cells: Seq<Cell>, cols: int, r: int, k: int) -> Seq<PanelOp>
    decreases k,
{
    if k <= 0 {
        seq![]
    } else {
        row_all(cells, cols, r, k - 1).push(PanelOp::Draw((k - 1) as u16, r as u16, cells[r * cols + (k - 1)]))
    }
}

/// Draw requests for every cell of rows `0..n`.
pub open spec fn grid_all(cells: Seq<Cell>, cols: int, n: int) -> Seq<PanelOp>
    decreases n,
{
    if n <= 0 {
        seq![]
    } else {
        grid_all(cells, cols, n - 1) + row_all(cells, cols, n - 1, cols)
    }
}

/// Leftmost and rightmost dirty column among columns `0..k` of row `r`.
pub open spec fn row_span(have: Seq<Cell>, want: Seq<Cell>, cols: int, r: int, k: int) -> Option<(u16, u16)>
    decreases k,
{
    if k <= 0 {
        None
    } else {
        let prev = row_span(have, want, cols, r, k - 1);
        let i = r * cols + (k - 1);
        if want[i] != have[i] {
            match prev {
                None => Some(((k - 1) as u16, (k - 1) as u16)),
                Some((lo, _)) => Some((lo, (k - 1) as u16)),
            }
        } else {
            prev
        }
    }
}

/// The dirty span of every row.
pub open spec fn spans_of(have: Seq<Cell>, want: Seq<Cell>, cols: int, rows: int) -> Seq<Option<(u16, u16)>> {
    Seq::new(rows as nat, |r: int| row_span(have, want, cols, r, cols))
}

/// Number of dirty rows among the first `k`.
pub open spec fn dirty_count(spans: Seq<Option<(u16, u16)>>, k: int) -> nat
    decreases k,
{
    if k <= 0 {
        0
    } else {
        dirty_count(spans, k - 1) + if spans[k - 1] is Some {
            1nat
        } else {
            0nat
        }
    }
}

pub open spec fn min16(a: u16, b: u16) -> u16 {
    if a <= b {
        a
    } else {
        b
    }
}

pub open spec fn max16(a: u16, b: u16) -> u16 {
    if a >= b {
        a
    } else {
        b
    }
}

/// The rectangle of a band: rows `r0..=r1`, columns `lo..=hi`.
pub open spec fn band_rect(b: (u16, u16, u16, u16)) -> CellRect {
    CellRect { col: b.2, row: b.0, cols: (b.3 - b.2 + 1) as u16, rows: (b.1 - b.0 + 1) as u16 }
}

/// Runs of consecutive dirty rows among the first `k`: the bands already
/// closed, and the band still open `(first row, last row, lo, hi)`.
pub open spec fn band_scan(spans: Seq<Option<(u16, u16)>>, k: int) -> (Seq<CellRect>, Option<(u16, u16, u16, u16)>)
    decreases k,
{
    if k <= 0 {
        (seq![], None)
    } else {
        let (bs, cur) = band_scan(spans, k - 1);
        let r = k - 1;
        match spans[r] {
            None => (bs, cur),
            Some((lo, hi)) => match cur {
                Some((r0, r1, blo, bhi)) => if r1 + 1 == r {
                    (bs, Some((r0, r as u16, min16(blo, lo), max16(bhi, hi))))
                } else {
                    (bs.push(band_rect((r0, r1, blo, bhi))), Some((r as u16, r as u16, lo, hi)))
                },
                None => (bs, Some((r as u16, r as u16, lo, hi))),
            },
        }
    }
}

/// One rectangle per run of consecutive dirty rows, spanning the run's dirty columns.
pub open spec fn bands_of(spans: Seq<Option<(u16, u16)>>) -> Seq<CellRect> {
    let (bs, cur) = band_scan(spans, spans.len() as int);
    match cur {
        Some(b) => bs.push(band_rect(b)),
        None => bs,
    }
}

/// A Fast refresh of each rectangle, in order.
pub open spec fn fast_refreshes(bs: Seq<CellRect>) -> Seq<PanelOp> {
    Seq::new(bs.len(), |i: int| PanelOp::Refresh(bs[i], Waveform::Fast))
}

/// Flush the wanted grid: draw every changed cell, then refresh. The whole
/// screen with Full once `ghost_budget` partials have accumulated; the whole
/// screen with Fast when more than `full_threshold` thousandths of the rows are
/// dirty; otherwise one Fast refresh per band.
pub open spec fn flush_spec(st: RenderState, now: u64) -> (RenderState, Seq<PanelOp>, Flushed) {
    let w = st.last_wanted;
    let draws = grid_draws(st.shadow.cells, w.cells, w.cols as int, w.rows as int);
    let spans = spans_of(st.shadow.cells, w.cells, w.cols as int, w.rows as int);
    let n = dirty_count(spans, w.rows as int);
    let st1 = RenderState { shadow: w, pending_since: None, last_flush: now, ..st };
    if n == 0 {
        (st1, draws, Flushed::Nothing)
    } else if st.partials >= st.cfg.ghost_budget {
        (RenderState { partials: 0, ..st1 }, draws.push(PanelOp::Refresh(whole(w.cols, w.rows), Waveform::Full)), Flushed::Full)
    } else if n * 1000 > st.cfg.full_threshold * w.rows {
        (
            RenderState { partials: (st.partials + 1) as u32, ..st1 },
            draws.push(PanelOp::Refresh(whole(w.cols, w.rows), Waveform::Fast)),
            Flushed::Partial(1),
        )
    } else {
        let bs = bands_of(spans);
        (
            RenderState { partials: (st.partials + bs.len()) as u32, ..st1 },
            draws + fast_refreshes(bs),
            Flushed::Partial(bs.len() as u32),
        )
    }
}

/// Nothing pending: a Full refresh after `ghost_idle_ms` of quiet when enough
/// partials accumulated, else a heartbeat Fast refresh of the whole screen
/// every `heartbeat_ms` (unless 0), else nothing.
pub open spec fn idle_spec(st: RenderState, now: u64) -> (RenderState, Seq<PanelOp>, Flushed) {
    let s = st.shadow;
    if st.partials >= st.cfg.ghost_idle_min_partials && since(now, st.last_flush) >= st.cfg.ghost_idle_ms {
        (
            RenderState { partials: 0, last_flush: now, ..st },
            grid_all(s.cells, s.cols as int, s.rows as int).push(PanelOp::Refresh(whole(s.cols, s.rows), Waveform::Full)),
            Flushed::Full,
        )
    } else if st.cfg.heartbeat_ms > 0 && since(now, st.last_flush) >= st.cfg.heartbeat_ms {
        (RenderState { last_flush: now, ..st }, seq![PanelOp::Refresh(whole(s.cols, s.rows), Waveform::Fast)], Flushed::Partial(1))
    } else {
        (st, seq![], Flushed::Nothing)
    }
}

/// The state after noting the wanted grid `w` at `now`.
pub open spec fn note_wanted(st: RenderState, now: u64, w: GridView) -> RenderState {
    if w != st.last_wanted {
        RenderState {
            last_change: now,
            pending_since: if st.pending_since is None { Some(now) } else { st.pending_since },
            last_wanted: w,
            ..st
        }
    } else {
        st
    }
}

/// One tick at `now` with terminal grid `g`: the new state, the panel requests, the result.
pub open spec fn tick_spec(st: RenderState, now: u64, g: GridView) -> (RenderState, Seq<PanelOp>, Flushed) {
    let st1 = note_wanted(st, now, with_cursor(g));
    match st1.pending_since {
        None => idle_spec(st1, now),
        Some(first) => if since(now, st1.last_change) >= st1.cfg.quiet_ms || since(now, first) >= st1.cfg.max_latency_ms {
            flush_spec(st1, now)
        } else {
            (st1, seq![], Flushed::Nothing)
        },
    }
}

/// Redraw everything of `g` (cursor shown) and push one Full refresh.
pub open spec fn redraw_spec(st: RenderState, now: u64, g: GridView) -> (RenderState, Seq<PanelOp>) {
    let w = with_cursor(g);
    (
        RenderState { shadow: w, last_wanted: w, pending_since: None, partials: 0, last_flush: now, ..st },
        grid_all(w.cells, w.cols as int, w.rows as int).push(PanelOp::Refresh(whole(w.cols, w.rows), Waveform::Full)),
    )
}

/// A renderer's state is consistent: both grids well formed, of one size of
/// at least one cell, and the partial count bounded so it cannot overflow.
pub open spec fn render_inv(st: RenderState) -> bool {
    &&& st.shadow.wf()
    &&& st.last_wanted.wf()
    &&& st.shadow.cols == st.last_wanted.cols
    &&& st.shadow.rows == st.last_wanted.rows
    &&& st.shadow.cols >= 1
    &&& st.shadow.rows >= 1
    &&& st.partials <= st.cfg.ghost_budget + st.shadow.rows
    &&& st.cfg.ghost_budget + st.shadow.rows <= u32::MAX
}

/// The panel and the grid fed to a renderer have the renderer's size.
pub open spec fn fits(st: RenderState, g: GridView, geo: Geometry) -> bool {
    &&& g.wf()
    &&& g.cols == st.shadow.cols
    &&& g.rows == st.shadow.rows
    &&& geo == (Geometry { cols: st.shadow.cols, rows: st.shadow.rows })
}


/// Dirty spans run left to right inside the row.
pub proof fn lemma_row_span(have: Seq<Cell>, want: Seq<Cell>, cols: int, r: int, k: int)
    requires
        0 <= k <= cols <= u16::MAX,
    ensures
        row_span(have, want, cols, r, k) matches Some((lo, hi)) ==> lo <= hi < k,
    decreases k,
{
    if k > 0 {
        lemma_row_span(have, want, cols, r, k - 1);
    }
}

/// At most `k` of the first `k` rows are dirty.
pub proof fn lemma_dirty_count(spans: Seq<Option<(u16, u16)>>, k: int)
    requires
        0 <= k,
    ensures
        dirty_count(spans, k) <= k,
    decreases k,
{
    if k > 0 {
        lemma_dirty_count(spans, k - 1);
    }
}

/// Spans whose columns lie inside a `cols`-wide row.
pub open spec fn spans_ok(spans: Seq<Option<(u16, u16)>>, cols: int) -> bool {
    forall|i: int| 0 <= i < spans.len() ==> (#[trigger] spans[i] matches Some((lo, hi)) ==> lo <= hi < cols)
}

/// Every band lies on a `cols` x `rows` screen, and there are no more bands
/// than dirty rows.
pub proof fn lemma_band_scan(spans: Seq<Option<(u16, u16)>>, k: int, cols: int, rows: int)
    requires
        0 <= k <= spans.len() <= rows <= u16::MAX,
        cols <= u16::MAX,
        spans_ok(spans, cols),
    ensures
        ({
            let (bs, cur) = band_scan(spans, k);
            &&& forall|j: int| 0 <= j < bs.len() ==> rect_in(#[trigger] bs[j], Geometry { cols: cols as u16, rows: rows as u16 })
            &&& (cur matches Some((r0, r1, lo, hi)) ==> r0 <= r1 < k && lo <= hi < cols)
            &&& bs.len() + (if cur is Some { 1int } else { 0int }) <= dirty_count(spans, k)
        }),
    decreases k,
{
    if k > 0 {
        lemma_band_scan(spans, k - 1, cols, rows);
        let r = k - 1;
        assert(spans[r] matches Some((lo, hi)) ==> lo <= hi < cols);
    }
}

/// Bands as `band_scan` closes them, checked to lie on the screen.
fn make_bands(spans: &Vec<Option<(u16, u16)>>, cols: u16, rows: u16) -> (bands: Vec<CellRect>)
    requires
        spans@.len() == rows,
        spans_ok(spans@, cols as int),
    ensures
        bands@ == bands_of(spans@),
        forall|j: int| 0 <= j < bands@.len() ==> rect_in(#[trigger] bands@[j], Geometry { cols, rows }),
        bands@.len() <= dirty_count(spans@, rows as int),
{
    let mut bands: Vec<CellRect> = Vec::new();
    let mut cur: Option<(u16, u16, u16, u16)> = None;
    let mut i: usize = 0;
    while i < spans.len()
        invariant
            i <= spans@.len(),
            spans@.len() == rows,
            spans_ok(spans@, cols as int),
            (bands@, cur) == band_scan(spans@, i as int),
        decreases spans@.len() - i,
    {
        proof {
            lemma_band_scan(spans@, i as int, cols as int, rows as int);
        }
        match spans[i] {
            Some((lo, hi)) => {
                match cur {
                    Some((r0, r1, blo, bhi)) => {
                        if r1 as usize + 1 == i {
                            let nlo = if blo <= lo { blo } else { lo };
                            let nhi = if bhi >= hi { bhi } else { hi };
                            cur = Some((r0, i as u16, nlo, nhi));
                        } else {
                            bands.push(CellRect { col: blo, row: r0, cols: bhi - blo + 1, rows: r1 - r0 + 1 });
                            cur = Some((i as u16, i as u16, lo, hi));
                        }
                    },
                    None => {
                        cur = Some((i as u16, i as u16, lo, hi));
                    },
                }
            },
            None => {},
        }
        i = i + 1;
    }
    proof {
        lemma_band_scan(spans@, i as int, cols as int, rows as int);
    }
    if let Some((r0, r1, lo, hi)) = cur {
        bands.push(CellRect { col: lo, row: r0, cols: hi - lo + 1, rows: r1 - r0 + 1 });
    }
    bands
}

/// Number of dirty rows.
fn count_dirty(spans: &Vec<Option<(u16, u16)>>) -> (n: usize)
    ensures
        n == dirty_count(spans@, spans@.len() as int),
{
    let mut n: usize = 0;
    let mut i: usize = 0;
    while i < spans.len()
        invariant
            i <= spans@.len(),
            n == dirty_count(spans@, i as int),
        decreases spans@.len() - i,
    {
        proof {
            lemma_dirty_count(spans@, i as int);
        }
        if spans[i].is_some() {
            n = n + 1;
        }
        i = i + 1;
    }
    n
}

/// A Fast refresh of each band, in order.
fn refresh_all<P: Panel>(panel: &mut P, bands: &Vec<CellRect>)
    requires
        old(panel).inv(),
        forall|j: int| 0 <= j < bands@.len() ==> rect_in(#[trigger] bands@[j], old(panel).geo()),
    ensures
        appended(*old(panel), *final(panel), fast_refreshes(bands@)),
{
    let ghost start = panel.ops();
    let mut i: usize = 0;
    while i < bands.len()
        invariant
            i <= bands@.len(),
            panel.inv(),
            panel.geo() == old(panel).geo(),
            forall|j: int| 0 <= j < bands@.len() ==> rect_in(#[trigger] bands@[j], old(panel).geo()),
            panel.ops() == start + fast_refreshes(bands@.take(i as int)),
        decreases bands@.len() - i,
    {
        panel.refresh(bands[i], Waveform::Fast);
        assert(fast_refreshes(bands@.take(i + 1)) =~= fast_refreshes(bands@.take(i as int)).push(
            PanelOp::Refresh(bands@[i as int], Waveform::Fast),
        ));
        i = i + 1;
    }
    assert(bands@.take(i as int) =~= bands@);
}

/// Draw every cell of `g`, row by row.
fn draw_all<P: Panel>(panel: &mut P, g: &Grid)
    requires
        old(panel).inv(),
        g@.wf(),
        old(panel).geo() == (Geometry { cols: g.cols, rows: g.rows }),
    ensures
        appended(*old(panel), *final(panel), grid_all(g@.cells, g.cols as int, g.rows as int)),
{
    let ghost start = panel.ops();
    let cols = g.cols;
    let rows = g.rows;
    let mut r: u16 = 0;
    while r < rows
        invariant
            r <= rows,
            cols == g.cols,
            rows == g.rows,
            g@.wf(),
            panel.inv(),
            panel.geo() == old(panel).geo(),
            old(panel).geo() == (Geometry { cols: g.cols, rows: g.rows }),
            panel.ops() == start + grid_all(g@.cells, cols as int, r as int),
        decreases rows - r,
    {
        let mut c: u16 = 0;
        while c < cols
            invariant
                c <= cols,
                r < rows,
                cols == g.cols,
                rows == g.rows,
                g@.wf(),
                panel.inv(),
                panel.geo() == old(panel).geo(),
                old(panel).geo() == (Geometry { cols: g.cols, rows: g.rows }),
                panel.ops() == start + grid_all(g@.cells, cols as int, r as int) + row_all(g@.cells, cols as int, r as int, c as int),
            decreases cols - c,
        {
            let cell = g.cell(c, r);
            panel.draw(c, r, cell);
            assert(start + grid_all(g@.cells, cols as int, r as int) + row_all(g@.cells, cols as int, r as int, c + 1) =~= start
                + grid_all(g@.cells, cols as int, r as int) + row_all(g@.cells, cols as int, r as int, c as int) + seq![
                PanelOp::Draw(c, r, *cell),
            ]);
            c = c + 1;
        }
        assert(start + grid_all(g@.cells, cols as int, r + 1) =~= start + grid_all(g@.cells, cols as int, r as int) + row_all(
            g@.cells,
            cols as int,
            r as int,
            cols as int,
        ));
        r = r + 1;
    }
}

/// Draw the cells where `want` differs from `have`, row by row, and report
/// each row's dirty span.
fn draw_diff<P: Panel>(panel: &mut P, have: &Grid, want: &Grid) -> (spans: Vec<Option<(u16, u16)>>)
    requires
        old(panel).inv(),
        have@.wf(),
        want@.wf(),
        have.cols == want.cols,
        have.rows == want.rows,
        old(panel).geo() == (Geometry { cols: want.cols, rows: want.rows }),
    ensures
        appended(*old(panel), *final(panel), grid_draws(have@.cells, want@.cells, want.cols as int, want.rows as int)),
        spans@ == spans_of(have@.cells, want@.cells, want.cols as int, want.rows as int),
        spans_ok(spans@, want.cols as int),
{
    let ghost start = panel.ops();
    let ghost hv = have@.cells;
    let ghost wv = want@.cells;
    let cols = want.cols;
    let rows = want.rows;
    let mut spans: Vec<Option<(u16, u16)>> = Vec::new();
    let mut r: u16 = 0;
    while r < rows
        invariant
            r <= rows,
            cols == want.cols,
            rows == want.rows,
            have@.wf(),
            want@.wf(),
            have.cols == want.cols,
            have.rows == want.rows,
            hv == have@.cells,
            wv == want@.cells,
            panel.inv(),
            panel.geo() == old(panel).geo(),
            old(panel).geo() == (Geometry { cols: want.cols, rows: want.rows }),
            panel.ops() == start + grid_draws(hv, wv, cols as int, r as int),
            spans@ == Seq::new(r as nat, |k: int| row_span(hv, wv, cols as int, k, cols as int)),
            spans_ok(spans@, cols as int),
        decreases rows - r,
    {
        let mut span: Option<(u16, u16)> = None;
        let mut c: u16 = 0;
        while c < cols
            invariant
                c <= cols,
                r < rows,
                cols == want.cols,
                rows == want.rows,
                have@.wf(),
                want@.wf(),
                have.cols == want.cols,
                have.rows == want.rows,
                hv == have@.cells,
                wv == want@.cells,
                panel.inv(),
                panel.geo() == old(panel).geo(),
                old(panel).geo() == (Geometry { cols: want.cols, rows: want.rows }),
                panel.ops() == start + grid_draws(hv, wv, cols as int, r as int) + row_draws(hv, wv, cols as int, r as int, c as int),
                span == row_span(hv, wv, cols as int, r as int, c as int),
            decreases cols - c,
        {
            proof {
                lemma_row_span(hv, wv, cols as int, r as int, c as int);
            }
            let w = want.cell(c, r);
            let h = have.cell(c, r);
            let ghost before = panel.ops();
            if *w != *h {
                panel.draw(c, r, w);
                span = Some(
                    match span {
                        None => (c, c),
                        Some((lo, _)) => (lo, c),
                    },
                );
                assert(panel.ops() =~= start + grid_draws(hv, wv, cols as int, r as int) + row_draws(hv, wv, cols as int, r as int, c + 1));
            } else {
                assert(row_draws(hv, wv, cols as int, r as int, c + 1) =~= row_draws(hv, wv, cols as int, r as int, c as int));
            }
            c = c + 1;
        }
        proof {
            lemma_row_span(hv, wv, cols as int, r as int, cols as int);
        }
        spans.push(span);
        assert(spans@ =~= Seq::new((r + 1) as nat, |k: int| row_span(hv, wv, cols as int, k, cols as int)));
        assert(start + grid_draws(hv, wv, cols as int, r + 1) =~= start + grid_draws(hv, wv, cols as int, r as int) + row_draws(
            hv,
            wv,
            cols as int,
            r as int,
            cols as int,
        ));
        r = r + 1;
    }
    spans
}

impl Renderer {
    pub closed spec fn state(&self) -> RenderState {
        RenderState {
            cfg: self.cfg,
            shadow: self.shadow@,
            last_wanted: self.last_wanted@,
            pending_since: self.pending_since,
            last_change: self.last_change,
            partials: self.partials_since_full,
            last_flush: self.last_flush,
        }
    }

    pub open spec fn inv(&self) -> bool {
        render_inv(self.state())
    }

    pub fn new(cfg: Config, cols: u16, rows: u16) -> (r: Renderer)
        requires
            cols >= 1,
            rows >= 1,
            cols * rows <= usize::MAX,
            cfg.ghost_budget + rows <= u32::MAX,
        ensures
            r.inv(),
            r.state() == (RenderState {
                cfg,
                shadow: crate::term::blank_grid(cols, rows),
                last_wanted: crate::term::blank_grid(cols, rows),
                pending_since: None,
                last_change: 0,
                partials: 0,
                last_flush: 0,
            }),
    {
        Renderer {
            cfg,
            shadow: Grid::blank(cols, rows),
            last_wanted: Grid::blank(cols, rows),
            pending_since: None,
            last_change: 0,
            partials_since_full: 0,
            last_flush: 0,
        }
    }

    pub fn partials_since_full(&self) -> (n: u32)
        ensures
            n == self.state().partials,
    {
        self.partials_since_full
    }

    /// The grid with the cursor cell inverted.
    fn wanted(grid: &Grid) -> (w: Grid)
        requires
            grid@.wf(),
        ensures
            w@ == with_cursor(grid@),
            w@.wf(),
    {
        let mut w = grid.duplicate();
        if let Some((c, r)) = grid.cursor {
            if c < w.cols && r < w.rows {
                proof {
                    lemma_grid_index(c as int, r as int, w.cols as int, w.rows as int);
                }
                let mut nc = *w.cell(c, r);
                nc.inverse = !nc.inverse;
                *w.cell_mut(c, r) = nc;
            }
        }
        w
    }

    /// Call frequently (every 5 to 20 ms) with a monotonic clock in ms.
    pub fn tick<P: Panel>(&mut self, now: u64, grid: &Grid, panel: &mut P) -> (r: Flushed)
        requires
            old(self).inv(),
            old(panel).inv(),
            fits(old(self).state(), grid@, old(panel).geo()),
        ensures
            final(self).inv(),
            final(self).state() == tick_spec(old(self).state(), now, grid@).0,
            appended(*old(panel), *final(panel), tick_spec(old(self).state(), now, grid@).1),
            r == tick_spec(old(self).state(), now, grid@).2,
    {
        let ghost st0 = self.state();
        let wanted = Self::wanted(grid);
        if !wanted.same_as(&self.last_wanted) {
            self.last_change = now;
            if self.pending_since.is_none() {
                self.pending_since = Some(now);
            }
            self.last_wanted = wanted;
        }
        assert(self.state() == note_wanted(st0, now, with_cursor(grid@)));
        match self.pending_since {
            None => self.maybe_idle_full(now, panel),
            Some(first) => {
                let quiet = now.saturating_sub(self.last_change) >= self.cfg.quiet_ms;
                let overdue = now.saturating_sub(first) >= self.cfg.max_latency_ms;
                if !(quiet || overdue) {
                    return Flushed::Nothing;
                }
                self.flush(now, panel)
            },
        }
    }

    fn maybe_idle_full<P: Panel>(&mut self, now: u64, panel: &mut P) -> (r: Flushed)
        requires
            old(self).inv(),
            old(panel).inv(),
            old(panel).geo() == (Geometry { cols: old(self).state().shadow.cols, rows: old(self).state().shadow.rows }),
        ensures
            final(self).inv(),
            final(self).state() == idle_spec(old(self).state(), now).0,
            appended(*old(panel), *final(panel), idle_spec(old(self).state(), now).1),
            r == idle_spec(old(self).state(), now).2,
    {
        if self.partials_since_full >= self.cfg.ghost_idle_min_partials && now.saturating_sub(self.last_flush)
            >= self.cfg.ghost_idle_ms {
            self.full(now, panel);
            return Flushed::Full;
        }
        if self.cfg.heartbeat_ms > 0 && now.saturating_sub(self.last_flush) >= self.cfg.heartbeat_ms {
            let cols = self.shadow.cols;
            let rows = self.shadow.rows;
            let ghost before = panel.ops();
            panel.refresh(CellRect { col: 0, row: 0, cols, rows }, Waveform::Fast);
            assert(panel.ops() =~= before + seq![PanelOp::Refresh(whole(cols, rows), Waveform::Fast)]);
            self.last_flush = now;
            return Flushed::Partial(1);
        }
        Flushed::Nothing
    }

    /// Draw every cell of `grid` and push one flashing Full refresh. Use after
    /// the layout changed underneath (keyboard shown/hidden).
    pub fn redraw_full<P: Panel>(&mut self, now: u64, grid: &Grid, panel: &mut P)
        requires
            old(self).inv(),
            old(panel).inv(),
            fits(old(self).state(), grid@, old(panel).geo()),
        ensures
            final(self).inv(),
            final(self).state() == redraw_spec(old(self).state(), now, grid@).0,
            appended(*old(panel), *final(panel), redraw_spec(old(self).state(), now, grid@).1),
    {
        let wanted = Self::wanted(grid);
        draw_all(panel, &wanted);
        panel.refresh(CellRect { col: 0, row: 0, cols: wanted.cols, rows: wanted.rows }, Waveform::Full);
        self.shadow = wanted.duplicate();
        self.last_wanted = wanted;
        self.pending_since = None;
        self.partials_since_full = 0;
        self.last_flush = now;
    }

    fn full<P: Panel>(&mut self, now: u64, panel: &mut P)
        requires
            old(self).inv(),
            old(panel).inv(),
            old(panel).geo() == (Geometry { cols: old(self).state().shadow.cols, rows: old(self).state().shadow.rows }),
        ensures
            final(self).inv(),
            final(self).state() == (RenderState { partials: 0, last_flush: now, ..old(self).state() }),
            appended(
                *old(panel),
                *final(panel),
                grid_all(old(self).state().shadow.cells, old(self).state().shadow.cols as int, old(self).state().shadow.rows as int).push(
                    PanelOp::Refresh(whole(old(self).state().shadow.cols, old(self).state().shadow.rows), Waveform::Full),
                ),
            ),
    {
        draw_all(panel, &self.shadow);
        let cols = self.shadow.cols;
        let rows = self.shadow.rows;
        panel.refresh(CellRect { col: 0, row: 0, cols, rows }, Waveform::Full);
        self.partials_since_full = 0;
        self.last_flush = now;
    }

    fn flush<P: Panel>(&mut self, now: u64, panel: &mut P) -> (r: Flushed)
        requires
            old(self).inv(),
            old(panel).inv(),
            old(panel).geo() == (Geometry { cols: old(self).state().shadow.cols, rows: old(self).state().shadow.rows }),
        ensures
            final(self).inv(),
            final(self).state() == flush_spec(old(self).state(), now).0,
            appended(*old(panel), *final(panel), flush_spec(old(self).state(), now).1),
            r == flush_spec(old(self).state(), now).2,
    {
        let ghost start = panel.ops();
        let wanted = self.last_wanted.duplicate();
        let cols = wanted.cols;
        let rows = wanted.rows;
        let spans = draw_diff(panel, &self.shadow, &wanted);
        self.shadow = wanted;
        self.pending_since = None;
        self.last_flush = now;
        let n = count_dirty(&spans);
        proof {
            lemma_dirty_count(spans@, rows as int);
        }
        if n == 0 {
            return Flushed::Nothing;
        }
        let whole_screen = CellRect { col: 0, row: 0, cols, rows };
        if self.partials_since_full >= self.cfg.ghost_budget {
            panel.refresh(whole_screen, Waveform::Full);
            self.partials_since_full = 0;
            return Flushed::Full;
        }
        let thr = self.cfg.full_threshold as u64;
        proof {
            assert(thr * (rows as u64) <= 0xffff_ffff * 0xffff) by (nonlinear_arith)
                requires
                    thr <= 0xffff_ffff,
                    rows <= 0xffff,
            ;
        }
        if (n as u64) * 1000 > thr * (rows as u64) {
            panel.refresh(whole_screen, Waveform::Fast);
            self.partials_since_full = self.partials_since_full + 1;
            return Flushed::Partial(1);
        }
        let bands = make_bands(&spans, cols, rows);
        let nb = bands.len() as u32;
        let ghost mid = panel.ops();
        refresh_all(panel, &bands);
        assert(panel.ops() =~= start + (grid_draws(old(self).state().shadow.cells, wanted@.cells, cols as int, rows as int)
            + fast_refreshes(bands@)));
        self.partials_since_full = self.partials_since_full + nb;
        Flushed::Partial(nb)
    }
}

/// `want` on the first `n` cells, `have` on the rest.
pub open spec fn mix(have: Seq<Cell>, want: Seq<Cell>, n: int) -> Seq<Cell> {
    Seq::new(have.len(), |i: int| if i < n { want[i] } else { have[i] })
}

/// Painting a concatenation paints one part after the other.
pub proof fn lemma_paint_append(start: Seq<Cell>, cols: int, a: Seq<PanelOp>, b: Seq<PanelOp>)
    ensures
        paint(start, cols, a + b) == paint(paint(start, cols, a), cols, b),
    decreases b.len(),
{
    if b.len() == 0 {
        assert(a + b =~= a);
    } else {
        lemma_paint_append(start, cols, a, b.drop_last());
        assert((a + b).drop_last() =~= a + b.drop_last());
    }
}

/// Refresh requests leave the painted cells alone.
pub proof fn lemma_paint_refreshes(start: Seq<Cell>, cols: int, bs: Seq<CellRect>)
    ensures
        paint(start, cols, fast_refreshes(bs)) == start,
    decreases bs.len(),
{
    if bs.len() > 0 {
        lemma_paint_refreshes(start, cols, bs.drop_last());
        assert(fast_refreshes(bs).drop_last() =~= fast_refreshes(bs.drop_last()));
    }
}

proof fn lemma_paint_push_refresh(start: Seq<Cell>, cols: int, ops: Seq<PanelOp>, rect: CellRect, wf: Waveform)
    ensures
        paint(start, cols, ops.push(PanelOp::Refresh(rect, wf))) == paint(start, cols, ops),
{
    assert(ops.push(PanelOp::Refresh(rect, wf)).drop_last() =~= ops);
}

proof fn lemma_paint_one_draw(start: Seq<Cell>, cols: int, c: u16, r: u16, cell: Cell)
    requires
        0 <= r * cols + c < start.len(),
    ensures
        paint(start, cols, seq![PanelOp::Draw(c, r, cell)]) == start.update(r * cols + c, cell),
{
    assert(seq![PanelOp::Draw(c, r, cell)].drop_last() =~= Seq::<PanelOp>::empty());
    assert(paint(start, cols, Seq::<PanelOp>::empty()) == start);
}

proof fn lemma_paint_row_draws(have: Seq<Cell>, want: Seq<Cell>, cols: int, rows: int, r: int, k: int)
    requires
        have.len() == cols * rows,
        want.len() == cols * rows,
        0 <= r < rows <= u16::MAX,
        0 <= k <= cols <= u16::MAX,
    ensures
        paint(mix(have, want, r * cols), cols, row_draws(have, want, cols, r, k)) == mix(have, want, r * cols + k),
    decreases k,
{
    if k == 0 {
        assert(mix(have, want, r * cols) =~= mix(have, want, r * cols + 0));
        assert(paint(mix(have, want, r * cols), cols, Seq::<PanelOp>::empty()) == mix(have, want, r * cols));
    } else {
        lemma_paint_row_draws(have, want, cols, rows, r, k - 1);
        lemma_grid_index(k - 1, r, cols, rows);
        let i = r * cols + (k - 1);
        let prev = row_draws(have, want, cols, r, k - 1);
        let before = mix(have, want, r * cols + k - 1);
        let d = if want[i] != have[i] {
            seq![PanelOp::Draw((k - 1) as u16, r as u16, want[i])]
        } else {
            seq![]
        };
        assert(row_draws(have, want, cols, r, k) == prev + d);
        lemma_paint_append(mix(have, want, r * cols), cols, prev, d);
        if want[i] != have[i] {
            lemma_paint_one_draw(before, cols, (k - 1) as u16, r as u16, want[i]);
            assert(before.update(i, want[i]) =~= mix(have, want, r * cols + k));
        } else {
            assert(paint(before, cols, d) == before);
            assert(before =~= mix(have, want, r * cols + k));
        }
    }
}

proof fn lemma_paint_grid_draws(have: Seq<Cell>, want: Seq<Cell>, cols: int, rows: int, n: int)
    requires
        have.len() == cols * rows,
        want.len() == cols * rows,
        0 <= n <= rows <= u16::MAX,
        0 <= cols <= u16::MAX,
    ensures
        paint(have, cols, grid_draws(have, want, cols, n)) == mix(have, want, n * cols),
    decreases n,
{
    if n == 0 {
        assert(have =~= mix(have, want, 0 * cols));
    } else {
        lemma_paint_grid_draws(have, want, cols, rows, n - 1);
        lemma_paint_row_draws(have, want, cols, rows, n - 1, cols);
        lemma_paint_append(have, cols, grid_draws(have, want, cols, n - 1), row_draws(have, want, cols, n - 1, cols));
        assert((n - 1) * cols + cols == n * cols) by (nonlinear_arith);
    }
}

proof fn lemma_paint_row_all(start: Seq<Cell>, cells: Seq<Cell>, cols: int, rows: int, r: int, k: int)
    requires
        start.len() == cols * rows,
        cells.len() == cols * rows,
        0 <= r < rows <= u16::MAX,
        0 <= k <= cols <= u16::MAX,
    ensures
        paint(mix(start, cells, r * cols), cols, row_all(cells, cols, r, k)) == mix(start, cells, r * cols + k),
    decreases k,
{
    if k == 0 {
        assert(mix(start, cells, r * cols) =~= mix(start, cells, r * cols + 0));
        assert(paint(mix(start, cells, r * cols), cols, Seq::<PanelOp>::empty()) == mix(start, cells, r * cols));
    } else {
        lemma_paint_row_all(start, cells, cols, rows, r, k - 1);
        lemma_grid_index(k - 1, r, cols, rows);
        let i = r * cols + (k - 1);
        let prev = row_all(cells, cols, r, k - 1);
        let d = PanelOp::Draw((k - 1) as u16, r as u16, cells[i]);
        assert(prev.push(d).drop_last() =~= prev);
        assert(mix(start, cells, r * cols + k - 1).update(i, cells[i]) =~= mix(start, cells, r * cols + k));
    }
}

proof fn lemma_paint_grid_all(start: Seq<Cell>, cells: Seq<Cell>, cols: int, rows: int, n: int)
    requires
        start.len() == cols * rows,
        cells.len() == cols * rows,
        0 <= n <= rows <= u16::MAX,
        0 <= cols <= u16::MAX,
    ensures
        paint(start, cols, grid_all(cells, cols, n)) == mix(start, cells, n * cols),
    decreases n,
{
    if n == 0 {
        assert(start =~= mix(start, cells, 0 * cols));
    } else {
        lemma_paint_grid_all(start, cells, cols, rows, n - 1);
        lemma_paint_row_all(start, cells, cols, rows, n - 1, cols);
        lemma_paint_append(start, cols, grid_all(cells, cols, n - 1), row_all(cells, cols, n - 1, cols));
        assert((n - 1) * cols + cols == n * cols) by (nonlinear_arith);
    }
}

/// Law: drawing the changed cells of `want` over `have` yields `want`.
pub proof fn lemma_diff_paints_wanted(have: Seq<Cell>, want: Seq<Cell>, cols: int, rows: int)
    requires
        have.len() == cols * rows,
        want.len() == cols * rows,
        0 <= rows <= u16::MAX,
        0 <= cols <= u16::MAX,
    ensures
        paint(have, cols, grid_draws(have, want, cols, rows)) == want,
{
    lemma_paint_grid_draws(have, want, cols, rows, rows);
    assert(rows * cols == cols * rows) by (nonlinear_arith);
    assert(mix(have, want, rows * cols) =~= want);
}

/// Law: drawing every cell of `cells` over any screen of the same size yields `cells`.
pub proof fn lemma_redraw_paints_all(start: Seq<Cell>, cells: Seq<Cell>, cols: int, rows: int)
    requires
        start.len() == cols * rows,
        cells.len() == cols * rows,
        0 <= rows <= u16::MAX,
        0 <= cols <= u16::MAX,
    ensures
        paint(start, cols, grid_all(cells, cols, rows)) == cells,
{
    lemma_paint_grid_all(start, cells, cols, rows, rows);
    assert(rows * cols == cols * rows) by (nonlinear_arith);
    assert(mix(start, cells, rows * cols) =~= cells);
}

/// Law: the shadow grid is what is on the glass. Whatever a tick decides,
/// painting its requests over the old shadow gives the new shadow, so a panel
/// that held the shadow before the tick holds the new one after it.
pub proof fn lemma_tick_keeps_glass(st: RenderState, now: u64, g: GridView)
    requires
        render_inv(st),
        g.wf(),
        g.cols == st.shadow.cols,
        g.rows == st.shadow.rows,
    ensures
        paint(st.shadow.cells, st.shadow.cols as int, tick_spec(st, now, g).1) == tick_spec(st, now, g).0.shadow.cells,
{
    let cols = st.shadow.cols as int;
    let rows = st.shadow.rows as int;
    lemma_cursor_keeps_size(g);
    let st1 = note_wanted(st, now, with_cursor(g));
    let s = st.shadow.cells;
    let whole_rect = whole(st.shadow.cols, st.shadow.rows);
    assert(paint(s, cols, Seq::<PanelOp>::empty()) == s);
    match st1.pending_since {
        None => {
            if st1.partials >= st1.cfg.ghost_idle_min_partials && since(now, st1.last_flush) >= st1.cfg.ghost_idle_ms {
                lemma_redraw_paints_all(s, s, cols, rows);
                lemma_paint_push_refresh(s, cols, grid_all(s, cols, rows), whole_rect, Waveform::Full);
            } else {
                lemma_paint_push_refresh(s, cols, Seq::<PanelOp>::empty(), whole_rect, Waveform::Fast);
                assert(Seq::<PanelOp>::empty().push(PanelOp::Refresh(whole_rect, Waveform::Fast)) =~= seq![
                    PanelOp::Refresh(whole_rect, Waveform::Fast),
                ]);
            }
        },
        Some(first) => {
            if since(now, st1.last_change) >= st1.cfg.quiet_ms || since(now, first) >= st1.cfg.max_latency_ms {
                let w = st1.last_wanted;
                lemma_diff_paints_wanted(s, w.cells, cols, rows);
                let draws = grid_draws(s, w.cells, cols, rows);
                let spans = spans_of(s, w.cells, cols, rows);
                lemma_paint_refreshes(w.cells, cols, bands_of(spans));
                lemma_paint_append(s, cols, draws, fast_refreshes(bands_of(spans)));
                lemma_paint_push_refresh(s, cols, draws, whole_rect, Waveform::Full);
                lemma_paint_push_refresh(s, cols, draws, whole_rect, Waveform::Fast);
            }
        },
    }
}

/// Showing the cursor changes one cell at most, never the grid's size.
pub proof fn lemma_cursor_keeps_size(g: GridView)
    requires
        g.wf(),
    ensures
        with_cursor(g).wf(),
        with_cursor(g).cols == g.cols,
        with_cursor(g).rows == g.rows,
{
    match g.cursor {
        Some((c, r)) => if c < g.cols && r < g.rows {
            lemma_grid_index(c as int, r as int, g.cols as int, g.rows as int);
        },
        None => {},
    }
}

/// Law: a full redraw leaves on the glass exactly the grid it was given
/// (cursor shown), whatever the glass held before.
pub proof fn lemma_redraw_shows_grid(st: RenderState, now: u64, g: GridView, glass: Seq<Cell>)
    requires
        g.wf(),
        glass.len() == g.cells.len(),
    ensures
        paint(glass, g.cols as int, redraw_spec(st, now, g).1) == with_cursor(g).cells,
        redraw_spec(st, now, g).0.shadow == with_cursor(g),
{
    let w = with_cursor(g);
    lemma_cursor_keeps_size(g);
    lemma_redraw_paints_all(glass, w.cells, g.cols as int, g.rows as int);
    lemma_paint_push_refresh(glass, g.cols as int, grid_all(w.cells, g.cols as int, g.rows as int), whole(g.cols, g.rows), Waveform::Full);
}

/// A dirty cell lies inside its row's dirty span.
proof fn lemma_row_span_covers(have: Seq<Cell>, want: Seq<Cell>, cols: int, r: int, k: int, c: int)
    requires
        0 <= c < k <= cols <= u16::MAX,
        want[r * cols + c] != have[r * cols + c],
    ensures
        row_span(have, want, cols, r, k) matches Some((lo, hi)) && lo <= c <= hi,
    decreases k,
{
    lemma_row_span(have, want, cols, r, k);
    if c < k - 1 {
        lemma_row_span_covers(have, want, cols, r, k - 1, c);
    }
}

/// The open band `b` spans row `r` and column `c`.
pub open spec fn band_covers(b: (u16, u16, u16, u16), c: int, r: int) -> bool {
    b.0 <= r <= b.1 && b.2 <= c <= b.3
}

proof fn lemma_band_scan_covers(spans: Seq<Option<(u16, u16)>>, k: int, cols: int, rows: int, r: int, c: int)
    requires
        0 <= k <= spans.len() <= rows <= u16::MAX,
        cols <= u16::MAX,
        spans_ok(spans, cols),
        0 <= r < k,
        spans[r] matches Some((lo, hi)) && lo <= c <= hi,
    ensures
        ({
            let (bs, cur) = band_scan(spans, k);
            (exists|j: int| 0 <= j < bs.len() && (#[trigger] bs[j]).has(c, r)) || (cur matches Some(b) && band_covers(b, c, r))
        }),
    decreases k,
{
    lemma_band_scan(spans, k - 1, cols, rows);
    let (bs0, cur0) = band_scan(spans, k - 1);
    assert(spans[k - 1] matches Some((lo, hi)) ==> lo <= hi < cols);
    if r < k - 1 {
        lemma_band_scan_covers(spans, k - 1, cols, rows, r, c);
        let (bs, cur) = band_scan(spans, k);
        if exists|j: int| 0 <= j < bs0.len() && (#[trigger] bs0[j]).has(c, r) {
            let j = choose|j: int| 0 <= j < bs0.len() && (#[trigger] bs0[j]).has(c, r);
            assert(bs[j] == bs0[j]);
        } else {
            match spans[k - 1] {
                Some((lo, hi)) => match cur0 {
                    Some((r0, r1, blo, bhi)) => if r1 + 1 != k - 1 {
                        let j = bs0.len() as int;
                        assert(bs[j] == band_rect((r0, r1, blo, bhi)));
                        assert(bs[j].has(c, r));
                    },
                    None => {},
                },
                None => {},
            }
        }
    }
}

/// Law: every changed cell is inside one of the bands that get refreshed.
pub proof fn lemma_bands_cover_dirty(have: Seq<Cell>, want: Seq<Cell>, cols: int, rows: int, c: int, r: int)
    requires
        have.len() == cols * rows,
        want.len() == cols * rows,
        1 <= cols <= u16::MAX,
        1 <= rows <= u16::MAX,
        0 <= c < cols,
        0 <= r < rows,
        want[r * cols + c] != have[r * cols + c],
    ensures
        exists|j: int|
            0 <= j < bands_of(spans_of(have, want, cols, rows)).len() && (#[trigger] bands_of(
                spans_of(have, want, cols, rows),
            )[j]).has(c, r),
{
    let spans = spans_of(have, want, cols, rows);
    assert forall|i: int| 0 <= i < spans.len() implies (#[trigger] spans[i] matches Some((lo, hi)) ==> lo <= hi < cols) by {
        lemma_row_span(have, want, cols, i, cols);
    }
    lemma_row_span_covers(have, want, cols, r, cols, c);
    lemma_band_scan(spans, rows, cols, rows);
    lemma_band_scan_covers(spans, rows, cols, rows, r, c);
    let (bs, cur) = band_scan(spans, rows);
    let all = bands_of(spans);
    if exists|j: int| 0 <= j < bs.len() && (#[trigger] bs[j]).has(c, r) {
        let j = choose|j: int| 0 <= j < bs.len() && (#[trigger] bs[j]).has(c, r);
        assert(all[j] == bs[j]);
    } else {
        let j = bs.len() as int;
        assert(all[j].has(c, r));
    }
}

/// Law: nothing reaches the glass while the wanted grid is still changing,
/// unless the first unflushed change is already `max_latency_ms` old.
pub proof fn lemma_no_early_flush(st: RenderState, now: u64, g: GridView)
    requires
        ({
            let st1 = note_wanted(st, now, with_cursor(g));
            &&& st1.pending_since matches Some(first)
            &&& since(now, st1.last_change) < st1.cfg.quiet_ms
            &&& since(now, first) < st1.cfg.max_latency_ms
        }),
    ensures
        tick_spec(st, now, g).1.len() == 0,
        tick_spec(st, now, g).2 == Flushed::Nothing,
{
}

/// Law: an idle Full refresh is not repeated. Once the idle path has cleared
/// ghosting, later ticks on the same grid issue no further Full refresh.
pub proof fn lemma_idle_full_once(st: RenderState, now: u64, later: u64, g: GridView)
    requires
        st.cfg.ghost_idle_min_partials > 0,
        note_wanted(st, now, with_cursor(g)).pending_since is None,
        tick_spec(st, now, g).2 == Flushed::Full,
    ensures
        tick_spec(tick_spec(st, now, g).0, later, g).2 != Flushed::Full,
{
}

/// Law: a flush that finds `ghost_budget` partials accumulated clears the
/// ghosting with one Full refresh of the whole screen and starts counting anew.
pub proof fn lemma_ghost_budget(st: RenderState, now: u64)
    requires
        render_inv(st),
        st.partials >= st.cfg.ghost_budget,
        dirty_count(spans_of(st.shadow.cells, st.last_wanted.cells, st.last_wanted.cols as int, st.last_wanted.rows as int), st.last_wanted.rows as int) > 0,
    ensures
        flush_spec(st, now).2 == Flushed::Full,
        flush_spec(st, now).0.partials == 0,
        flush_spec(st, now).1.last() == PanelOp::Refresh(whole(st.shadow.cols, st.shadow.rows), Waveform::Full),
{
}

/// The state after ticks at the times and with the grids of `steps`, in
/// order.
pub open spec fn run_ticks(st: RenderState, steps: Seq<(u64, GridView)>) -> RenderState
    decreases steps.len(),
{
    if steps.len() == 0 {
        st
    } else {
        let before = run_ticks(st, steps.drop_last());
        tick_spec(before, steps.last().0, steps.last().1).0
    }
}

/// One tick keeps a renderer consistent, the partial count bounded.
pub proof fn lemma_tick_keeps_inv(st: RenderState, now: u64, g: GridView)
    requires
        render_inv(st),
        g.wf(),
        g.cols == st.shadow.cols,
        g.rows == st.shadow.rows,
    ensures
        render_inv(tick_spec(st, now, g).0),
        tick_spec(st, now, g).0.shadow.cols == st.shadow.cols,
        tick_spec(st, now, g).0.shadow.rows == st.shadow.rows,
        tick_spec(st, now, g).0.cfg == st.cfg,
{
    let w = with_cursor(g);
    if let Some((c, r)) = g.cursor {
        if c < g.cols && r < g.rows {
            lemma_grid_index(c as int, r as int, g.cols as int, g.rows as int);
        }
    }
    assert(w.wf() && w.cols == g.cols && w.rows == g.rows);
    let st1 = note_wanted(st, now, w);
    assert(render_inv(st1));
    let lw = st1.last_wanted;
    let spans = spans_of(st1.shadow.cells, lw.cells, lw.cols as int, lw.rows as int);
    assert forall|r: int| 0 <= r < spans.len() implies (#[trigger] spans[r] matches Some((lo, hi)) ==> lo <= hi < lw.cols) by {
        lemma_row_span(st1.shadow.cells, lw.cells, lw.cols as int, r, lw.cols as int);
    }
    lemma_band_scan(spans, spans.len() as int, lw.cols as int, lw.rows as int);
    lemma_dirty_count(spans, lw.rows as int);
}

/// Law: however the screen changes and the ticks fall, a renderer that
/// starts consistent stays so: the partial refreshes counted since the last
/// Full never exceed `ghost_budget` plus the screen's rows, and (by
/// `lemma_ghost_budget`) the first flush that finds `ghost_budget` of them
/// clears the ghosting with a Full refresh.
pub proof fn lemma_ghosting_bounded(st: RenderState, steps: Seq<(u64, GridView)>)
    requires
        render_inv(st),
        forall|i: int| 0 <= i < steps.len() ==> {
            let g = #[trigger] steps[i].1;
            &&& g.wf()
            &&& g.cols == st.shadow.cols
            &&& g.rows == st.shadow.rows
        },
    ensures
        render_inv(run_ticks(st, steps)),
        run_ticks(st, steps).shadow.cols == st.shadow.cols,
        run_ticks(st, steps).shadow.rows == st.shadow.rows,
        run_ticks(st, steps).cfg == st.cfg,
        run_ticks(st, steps).partials <= st.cfg.ghost_budget + st.shadow.rows,
    decreases steps.len(),
{
    if steps.len() > 0 {
        let pre = steps.drop_last();
        assert forall|i: int| 0 <= i < pre.len() implies {
            let g = #[trigger] pre[i].1;
            &&& g.wf()
            &&& g.cols == st.shadow.cols
            &&& g.rows == st.shadow.rows
        } by {
            assert(pre[i] == steps[i]);
        }
        lemma_ghosting_bounded(st, pre);
        let k = steps.len() - 1;
        assert(steps.last() == steps[k]);
        lemma_tick_keeps_inv(run_ticks(st, pre), steps.last().0, steps.last().1);
    }
}

proof fn lemma_refresh_log_append(a: Seq<PanelOp>, b: Seq<PanelOp>)
    ensures
        refresh_log(a + b) == refresh_log(a) + refresh_log(b),
    decreases b.len(),
{
    if b.len() == 0 {
        assert(a + b =~= a);
        assert(refresh_log(a) + refresh_log(b) =~= refresh_log(a));
    } else {
        lemma_refresh_log_append(a, b.drop_last());
        assert((a + b).drop_last() =~= a + b.drop_last());
        assert((a + b).last() == b.last());
        match b.last() {
            PanelOp::Refresh(r, w) => {
                assert(refresh_log(a) + refresh_log(b) =~= (refresh_log(a) + refresh_log(b.drop_last())).push((r, w)));
            },
            _ => {},
        }
    }
}

proof fn lemma_draws_refresh_nothing(have: Seq<Cell>, want: Seq<Cell>, cols: int, n: int)
    ensures
        refresh_log(grid_draws(have, want, cols, n)).len() == 0,
        refresh_log(grid_all(want, cols, n)).len() == 0,
    decreases n,
{
    if n > 0 {
        lemma_draws_refresh_nothing(have, want, cols, n - 1);
        lemma_row_refresh_nothing(have, want, cols, n - 1, cols);
        lemma_refresh_log_append(grid_draws(have, want, cols, n - 1), row_draws(have, want, cols, n - 1, cols));
        lemma_refresh_log_append(grid_all(want, cols, n - 1), row_all(want, cols, n - 1, cols));
    }
}

proof fn lemma_row_refresh_nothing(have: Seq<Cell>, want: Seq<Cell>, cols: int, r: int, k: int)
    ensures
        refresh_log(row_draws(have, want, cols, r, k)).len() == 0,
        refresh_log(row_all(want, cols, r, k)).len() == 0,
        row_span(have, want, cols, r, k) is None ==> row_draws(have, want, cols, r, k).len() == 0,
    decreases k,
{
    if k > 0 {
        lemma_row_refresh_nothing(have, want, cols, r, k - 1);
        let i = r * cols + (k - 1);
        let tail = if want[i] != have[i] {
            seq![PanelOp::Draw((k - 1) as u16, r as u16, want[i])]
        } else {
            seq![]
        };
        lemma_refresh_log_append(row_draws(have, want, cols, r, k - 1), tail);
        if want[i] != have[i] {
            reveal_with_fuel(refresh_log, 2);
            assert(tail.drop_last() =~= Seq::<PanelOp>::empty());
        } else {
            assert(refresh_log(tail) =~= Seq::<(CellRect, Waveform)>::empty());
        }
        let pre = row_all(want, cols, r, k - 1);
        assert(row_all(want, cols, r, k).drop_last() == pre);
    }
}

proof fn lemma_clean_draws_nothing(have: Seq<Cell>, want: Seq<Cell>, cols: int, rows: int, n: int)
    requires
        0 <= n <= rows,
        dirty_count(spans_of(have, want, cols, rows), n) == 0,
    ensures
        grid_draws(have, want, cols, n).len() == 0,
    decreases n,
{
    if n > 0 {
        lemma_clean_draws_nothing(have, want, cols, rows, n - 1);
        lemma_row_refresh_nothing(have, want, cols, n - 1, cols);
        assert(spans_of(have, want, cols, rows)[n - 1] == row_span(have, want, cols, n - 1, cols));
    }
}

proof fn lemma_fast_log(bs: Seq<CellRect>)
    ensures
        refresh_log(fast_refreshes(bs)).len() == bs.len(),
        forall|k: int| 0 <= k < bs.len() ==> (#[trigger] refresh_log(fast_refreshes(bs))[k]).1 == Waveform::Fast,
    decreases bs.len(),
{
    if bs.len() > 0 {
        lemma_fast_log(bs.drop_last());
        assert(fast_refreshes(bs).drop_last() =~= fast_refreshes(bs.drop_last()));
        assert(fast_refreshes(bs).last() == PanelOp::Refresh(bs.last(), Waveform::Fast));
    } else {
        assert(fast_refreshes(bs) =~= Seq::<PanelOp>::empty());
    }
}

/// Law: what a tick reports is what it sent to the glass. `Nothing`: no
/// request at all; `Partial(n)`: exactly `n` refreshes, every one Fast;
/// `Full`: exactly one refresh, of the whole screen, with Full.
pub proof fn lemma_tick_result_matches_glass(st: RenderState, now: u64, g: GridView)
    requires
        render_inv(st),
        g.wf(),
        g.cols == st.shadow.cols,
        g.rows == st.shadow.rows,
    ensures
        ({
            let (st2, ops, r) = tick_spec(st, now, g);
            let log = refresh_log(ops);
            &&& r == Flushed::Nothing ==> ops.len() == 0
            &&& r matches Flushed::Partial(n) ==> log.len() == n && forall|k: int| 0 <= k < log.len() ==> (#[trigger] log[k]).1 == Waveform::Fast
            &&& r == Flushed::Full ==> log == seq![(whole(st.shadow.cols, st.shadow.rows), Waveform::Full)]
        }),
{
    let w = with_cursor(g);
    if let Some((c, r)) = g.cursor {
        if c < g.cols && r < g.rows {
            lemma_grid_index(c as int, r as int, g.cols as int, g.rows as int);
        }
    }
    let st1 = note_wanted(st, now, w);
    let lw = st1.last_wanted;
    let cols = lw.cols as int;
    let rows = lw.rows as int;
    let draws = grid_draws(st1.shadow.cells, lw.cells, cols, rows);
    let spans = spans_of(st1.shadow.cells, lw.cells, cols, rows);
    lemma_draws_refresh_nothing(st1.shadow.cells, lw.cells, cols, rows);
    lemma_draws_refresh_nothing(st1.shadow.cells, st1.shadow.cells, st1.shadow.cols as int, st1.shadow.rows as int);
    if dirty_count(spans, rows) == 0 {
        lemma_clean_draws_nothing(st1.shadow.cells, lw.cells, cols, rows, rows);
    }
    let wf = PanelOp::Refresh(whole(lw.cols, lw.rows), Waveform::Full);
    let wfast = PanelOp::Refresh(whole(lw.cols, lw.rows), Waveform::Fast);
    lemma_refresh_log_append(draws, seq![wf]);
    lemma_refresh_log_append(draws, seq![wfast]);
    let ga = grid_all(st1.shadow.cells, st1.shadow.cols as int, st1.shadow.rows as int);
    lemma_refresh_log_append(ga, seq![wf]);
    reveal_with_fuel(refresh_log, 2);
    assert(seq![wf].drop_last() =~= Seq::<PanelOp>::empty());
    assert(seq![wfast].drop_last() =~= Seq::<PanelOp>::empty());
    assert(draws.push(wf) =~= draws + seq![wf]);
    assert(draws.push(wfast) =~= draws + seq![wfast]);
    assert(ga.push(wf) =~= ga + seq![wf]);
    let bs = bands_of(spans);
    lemma_fast_log(bs);
    lemma_refresh_log_append(draws, fast_refreshes(bs));
    assert(refresh_log(draws) + refresh_log(fast_refreshes(bs)) =~= refresh_log(fast_refreshes(bs)));
    assert(refresh_log(draws) + refresh_log(seq![wf]) =~= seq![(whole(lw.cols, lw.rows), Waveform::Full)]);
    assert(refresh_log(ga) + refresh_log(seq![wf]) =~= seq![(whole(lw.cols, lw.rows), Waveform::Full)]);
    assert(refresh_log(draws) + refresh_log(seq![wfast]) =~= seq![(whole(lw.cols, lw.rows), Waveform::Fast)]);
    lemma_dirty_count(spans, rows);
    assert forall|r: int| 0 <= r < spans.len() implies (#[trigger] spans[r] matches Some((lo, hi)) ==> lo <= hi < lw.cols) by {
        lemma_row_span(st1.shadow.cells, lw.cells, cols, r, cols);
    }
    lemma_band_scan(spans, spans.len() as int, cols, rows);
}

} // verus!
