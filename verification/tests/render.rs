use koboterm::panel::{CellRect, FakePanel, Waveform};
use koboterm::render::{Config, Flushed, Renderer};
use koboterm::term::Terminal;

struct Sim {
    term: Terminal,
    panel: FakePanel,
    r: Renderer,
    now: u64,
}

impl Sim {
    fn new(cols: u16, rows: u16, cfg: Config) -> Self {
        let cfg = Config { heartbeat_ms: 0, ..cfg };
        Sim { term: Terminal::new(cols, rows, 0), panel: FakePanel::new(cols, rows), r: Renderer::new(cfg, cols, rows), now: 0 }
    }
    fn feed(&mut self, b: &[u8]) {
        self.term.feed(b);
    }
    /// Advance `ms`, ticking every 5 ms.
    fn run(&mut self, ms: u64) {
        let end = self.now + ms;
        while self.now < end {
            self.now += 5;
            let g = self.term.snapshot();
            self.r.tick(self.now, &g, &mut self.panel);
        }
    }
}

#[test]
fn keystroke_echo_flushes_after_quiet_period_with_a_tiny_rect() {
    let mut s = Sim::new(60, 20, Config::default());
    s.run(100); // startup: the cursor itself is drawn once, then nothing
    assert_eq!(s.panel.total_refreshes(), 1);
    s.run(1000);
    assert_eq!(s.panel.total_refreshes(), 1, "idle screen must not refresh");
    s.feed(b"a");
    s.run(40);
    assert_eq!(s.panel.total_refreshes(), 1, "must not flush before quiet_ms");
    s.run(30);
    assert_eq!(s.panel.total_refreshes(), 2);
    let (rect, wf) = s.panel.refreshes[1];
    assert_eq!(wf, Waveform::Fast);
    assert_eq!(rect.rows, 1);
    assert!(rect.cols <= 2, "cell plus cursor only, got {rect:?}");
    assert_eq!(s.panel.row_text(0), "a");
}

/// The first-class metric: refreshes per second of streaming output.
#[test]
fn streaming_output_is_capped_by_max_latency() {
    let cfg = Config::default();
    let mut s = Sim::new(60, 20, cfg);
    let seconds = 5;
    // 50 lines per second, far more than e-ink can show.
    for i in 0..(seconds * 50) {
        s.feed(format!("line {i} lorem ipsum dolor sit amet\r\n").as_bytes());
        s.run(20);
    }
    let per_sec = s.panel.total_refreshes() as f32 / seconds as f32;
    let cap = 1000.0 / cfg.max_latency_ms as f32;
    assert!(per_sec <= cap + 0.5, "{per_sec} refreshes/s exceeds cap {cap}");
    assert!(per_sec >= 2.0, "{per_sec} refreshes/s: output is not visibly progressing");
    // Scrolling dirties every row, so these should all be single whole-screen refreshes.
    let whole = s.panel.refreshes.iter().filter(|(r, _)| r.rows == 20).count();
    assert_eq!(whole, s.panel.total_refreshes());
    // Let the tail flush, then check the glass shows the final state.
    s.run(300);
    assert_eq!(s.panel.row_text(18), format!("line {} lorem ipsum dolor sit amet", seconds * 50 - 1));
}

#[test]
fn spinner_in_one_cell_stays_a_one_row_refresh() {
    let mut s = Sim::new(60, 20, Config::default());
    s.feed(b"working ");
    s.run(100);
    let before = s.panel.total_refreshes();
    for _ in 0..25 {
        for f in [b"\x08|", b"\x08/", b"\x08-", b"\x08\\"] {
            s.feed(f);
            s.run(10);
        }
    }
    let spins = &s.panel.refreshes[before..];
    assert!(spins.len() <= 5, "spinner caused {} refreshes in 1 s", spins.len());
    assert!(spins.iter().all(|(r, _)| r.rows == 1 && r.cols <= 3), "{spins:?}");
}

#[test]
fn ghost_budget_forces_a_full_refresh() {
    let cfg = Config { ghost_budget: 10, ghost_idle_ms: 1_000_000, ..Config::default() };
    let mut s = Sim::new(60, 20, cfg);
    for i in 0..15 {
        s.feed(format!("{}", i % 10).as_bytes());
        s.run(100);
    }
    assert_eq!(s.panel.count(Waveform::Full), 1);
    assert!(s.r.partials_since_full() < 10);
}

#[test]
fn idle_screen_with_ghosting_gets_one_full_refresh_then_rests() {
    let cfg = Config { ghost_idle_ms: 500, ghost_idle_min_partials: 3, ..Config::default() };
    let mut s = Sim::new(60, 20, cfg);
    for _ in 0..4 {
        s.feed(b"x");
        s.run(100);
    }
    assert_eq!(s.panel.count(Waveform::Full), 0);
    s.run(600);
    assert_eq!(s.panel.count(Waveform::Full), 1);
    s.run(5000);
    assert_eq!(s.panel.count(Waveform::Full), 1, "idle full refresh must not repeat");
    assert_eq!(s.panel.row_text(0), "xxxx");
}

#[test]
fn heartbeat_repushes_the_grid_once_a_second_when_idle() {
    let mut s = Sim::new(60, 20, Config::default());
    s.r = Renderer::new(Config { heartbeat_ms: 1000, ghost_idle_ms: 1_000_000, ..Config::default() }, 60, 20);
    s.feed(b"x");
    s.run(100);
    let before = s.panel.total_refreshes();
    s.run(3050);
    let hb = s.panel.total_refreshes() - before;
    assert_eq!(hb, 3, "expected one heartbeat per idle second");
    assert!(s.panel.refreshes[before..].iter().all(|(r, w)| *w == Waveform::Fast && r.rows == 20));
}

#[test]
fn two_separate_dirty_rows_become_two_bands() {
    let mut s = Sim::new(60, 20, Config::default());
    s.feed(b"\x1b[?25l"); // hide cursor to keep the diff exact
    s.run(100);
    s.feed(b"\x1b[1;1Ha\x1b[10;1Hb");
    s.run(100);
    let fast: Vec<_> = s.panel.refreshes.iter().filter(|(_, w)| *w == Waveform::Fast).collect();
    assert_eq!(fast.len(), 2, "{fast:?}");
    assert_eq!(fast[0].0, CellRect { col: 0, row: 0, cols: 1, rows: 1 });
    assert_eq!(fast[1].0, CellRect { col: 0, row: 9, cols: 1, rows: 1 });
}

#[test]
fn adjacent_dirty_rows_merge_into_one_band() {
    let mut s = Sim::new(60, 20, Config::default());
    s.feed(b"\x1b[?25l");
    s.run(100);
    s.feed(b"\x1b[3;5Hab\x1b[4;2Hc");
    s.run(100);
    let fast: Vec<_> = s.panel.refreshes.iter().filter(|(_, w)| *w == Waveform::Fast).collect();
    assert_eq!(fast.len(), 1, "{fast:?}");
    assert_eq!(fast[0].0, CellRect { col: 1, row: 2, cols: 5, rows: 2 });
}

#[test]
fn redraw_full_draws_everything_with_one_flash() {
    let mut term = Terminal::new(10, 3, 0);
    term.feed(b"\x1b[?25lhi");
    let mut panel = FakePanel::new(10, 3);
    let mut r = Renderer::new(Config::default(), 10, 3);
    r.redraw_full(0, &term.snapshot(), &mut panel);
    assert_eq!(panel.count(Waveform::Full), 1);
    assert_eq!(panel.row_text(0), "hi");
    // Nothing changed since: the next tick has nothing to flush.
    assert_eq!(r.tick(5, &term.snapshot(), &mut panel), Flushed::Nothing);
    assert_eq!(r.partials_since_full(), 0);
}
