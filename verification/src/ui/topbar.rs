//! Reader-style top bar in the cell grid: a status line (clock, machine,
//! brightness, battery) and a row of touch buttons.

use vstd::prelude::*;
use crate::panel::{CellRect, Geometry, Panel, PanelOp, Waveform, rect_in};
use crate::text::{chars_to_string, decimal, int_to_string, str_chars, string_push};
use crate::ui::draw::{appended, fill, fill_ok, fill_ops, text_chars, text_ops};

verus! {

pub const TOPBAR_ROWS: u16 = 3;

#[derive(Clone, Copy, Debug, PartialEq, Eq, Structural)]
pub enum TopAction {
    Home,
    BrightnessDown,
    BrightnessUp,
    TextSize,
    Keyboard,
    Nothing,
}

#[derive(Clone, Debug, Default, PartialEq, Eq)]
pub struct Status {
    pub clock: String,
    pub name: String,
    pub battery_pct: Option<u8>,
    pub charging: bool,
    pub brightness_pct: Option<u8>,
}

pub struct TopBar {
    pub cols: u16,
    pub buttons: Vec<(TopAction, CellRect, &'static str)>,
}

/// The label of each button.
pub open spec fn top_label(a: TopAction) -> Seq<char> {
    match a {
        TopAction::BrightnessDown => seq!['☼', '-'],
        TopAction::BrightnessUp => seq!['☼', '+'],
        TopAction::TextSize => seq!['A', 'a'],
        TopAction::Keyboard => seq!['⌨'],
        TopAction::Home => seq!['←', ' ', 'H', 'o', 'm', 'e'],
        TopAction::Nothing => seq![],
    }
}

/// The buttons of a bar `cols` wide: four right-aligned 6x2 buttons with a gap
/// column after each, then Home at the left, at most 8 wide.
pub open spec fn top_buttons(cols: int) -> Seq<(TopAction, CellRect)> {
    let c0 = if cols >= 28 { cols - 28 } else { 0 };
    let home_w = if cols / 3 < 8 { cols / 3 } else { 8 };
    seq![
        (TopAction::BrightnessDown, CellRect { col: c0 as u16, row: 1, cols: 6, rows: 2 }),
        (TopAction::BrightnessUp, CellRect { col: (c0 + 7) as u16, row: 1, cols: 6, rows: 2 }),
        (TopAction::TextSize, CellRect { col: (c0 + 14) as u16, row: 1, cols: 6, rows: 2 }),
        (TopAction::Keyboard, CellRect { col: (c0 + 21) as u16, row: 1, cols: 6, rows: 2 }),
        (TopAction::Home, CellRect { col: 0, row: 1, cols: home_w as u16, rows: 2 }),
    ]
}

/// Filled bars out of four for a battery percentage (rounded to quarters).
pub open spec fn battery_bars(p: int) -> int {
    if (p + 12) / 25 < 4 { (p + 12) / 25 } else { 4 }
}

/// `n` copies of `c`.
pub open spec fn repeat_char(c: char, n: nat) -> Seq<char> {
    Seq::new(n, |i: int| c)
}

/// Left half of the status line: the clock, then two spaces and the machine name if any.
pub open spec fn status_left(st: Status) -> Seq<char> {
    if st.name@.len() == 0 {
        st.clock@
    } else {
        st.clock@ + seq![' ', ' '] + st.name@
    }
}

/// Right half of the status line: brightness if known, then the battery gauge.
pub open spec fn status_right(st: Status) -> Seq<char> {
    let bright = match st.brightness_pct {
        Some(b) => seq!['☼'] + decimal(b as nat) + seq!['%', ' ', ' '],
        None => seq![],
    };
    let batt = match st.battery_pct {
        Some(p) => repeat_char('▰', battery_bars(p as int) as nat) + repeat_char('▱', (4 - battery_bars(p as int)) as nat)
            + seq![' '] + decimal(p as nat) + seq!['%'] + if st.charging { seq!['⚡'] } else { seq![] },
        None => seq!['b', 'a', 't', 't', 'e', 'r', 'y', ' ', '?'],
    };
    bright + batt
}

fn push_all(s: &mut String, v: &[char])
    ensures
        final(s)@ == old(s)@ + v@,
{
    let mut i: usize = 0;
    let ghost pre = s@;
    while i < v.len()
        invariant
            i <= v@.len(),
            s@ == pre + v@.take(i as int),
        decreases v@.len() - i,
    {
        string_push(s, v[i]);
        assert(v@.take(i + 1) =~= v@.take(i as int).push(v@[i as int]));
        i = i + 1;
    }
    assert(v@.take(v@.len() as int) =~= v@);
}

impl TopBar {
    pub fn new(cols: u16) -> (t: TopBar)
        ensures
            t.cols == cols,
            t.wf(),
            t.buttons@.len() == 5,
            forall|i: int| 0 <= i < 5 ==> #[trigger] t.buttons@[i].0 == top_buttons(cols as int)[i].0
                && t.buttons@[i].1 == top_buttons(cols as int)[i].1
                && t.buttons@[i].2@ == top_label(t.buttons@[i].0),
    {
        let w: u16 = 6;
        let mut col: u16 = if cols >= 28 { cols - 28 } else { 0 };
        let mut buttons: Vec<(TopAction, CellRect, &'static str)> = Vec::new();
        proof {
            reveal_strlit("☼-");
            reveal_strlit("☼+");
            reveal_strlit("Aa");
            reveal_strlit("⌨");
            reveal_strlit("← Home");
        }
        buttons.push((TopAction::BrightnessDown, CellRect { col, row: 1, cols: w, rows: 2 }, "☼-"));
        col = col + w + 1;
        buttons.push((TopAction::BrightnessUp, CellRect { col, row: 1, cols: w, rows: 2 }, "☼+"));
        col = col + w + 1;
        buttons.push((TopAction::TextSize, CellRect { col, row: 1, cols: w, rows: 2 }, "Aa"));
        col = col + w + 1;
        buttons.push((TopAction::Keyboard, CellRect { col, row: 1, cols: w, rows: 2 }, "⌨"));
        let home_w: u16 = if cols / 3 < 8 { cols / 3 } else { 8 };
        buttons.push((TopAction::Home, CellRect { col: 0, row: 1, cols: home_w, rows: 2 }, "← Home"));
        let t = TopBar { cols, buttons };
        assert(forall|i: int| 0 <= i < 5 ==> #[trigger] t.buttons@[i].0 == top_buttons(cols as int)[i].0
                && t.buttons@[i].1 == top_buttons(cols as int)[i].1
                && t.buttons@[i].2@ == top_label(t.buttons@[i].0)) by {
            assert forall|i: int| 0 <= i < 5 implies #[trigger] t.buttons@[i].0 == top_buttons(cols as int)[i].0
                && t.buttons@[i].1 == top_buttons(cols as int)[i].1
                && t.buttons@[i].2@ == top_label(t.buttons@[i].0) by {
                if i == 0 {} else if i == 1 {} else if i == 2 {} else if i == 3 {} else {}
            }
        }
        t
    }

    /// The buttons are the layout `new` makes for this width.
    pub open spec fn wf(&self) -> bool {
        &&& self.buttons@.len() == 5
        &&& forall|i: int| 0 <= i < 5 ==> #[trigger] self.buttons@[i].0 == top_buttons(self.cols as int)[i].0
            && self.buttons@[i].1 == top_buttons(self.cols as int)[i].1
            && self.buttons@[i].2@ == top_label(self.buttons@[i].0)
    }

    pub fn area(&self) -> (r: CellRect)
        ensures
            r == (CellRect { col: 0, row: 0, cols: self.cols, rows: TOPBAR_ROWS }),
    {
        CellRect { col: 0, row: 0, cols: self.cols, rows: TOPBAR_ROWS }
    }

    fn status_line(&self, st: &Status) -> (r: (String, String))
        ensures
            r.0@ == status_left(*st),
            r.1@ == status_right(*st),
    {
        let mut left = String::new();
        let clock = str_chars(st.clock.as_str());
        push_all(&mut left, clock.as_slice());
        let name = str_chars(st.name.as_str());
        if name.len() > 0 {
            push_all(&mut left, &[' ', ' ']);
            push_all(&mut left, name.as_slice());
        }
        let mut right = String::new();
        match st.brightness_pct {
            Some(b) => {
                string_push(&mut right, '☼');
                crate::text::push_decimal(&mut right, b as u64);
                push_all(&mut right, &['%', ' ', ' ']);
            },
            None => {},
        }
        match st.battery_pct {
            Some(p) => {
                let q: u16 = (p as u16 + 12) / 25;
                let bars: u16 = if q < 4 { q } else { 4 };
                let mut i: u16 = 0;
                let ghost pre = right@;
                while i < bars
                    invariant
                        i <= bars <= 4,
                        right@ == pre + repeat_char('▰', i as nat),
                    decreases bars - i,
                {
                    string_push(&mut right, '▰');
                    assert(repeat_char('▰', (i + 1) as nat) =~= repeat_char('▰', i as nat).push('▰'));
                    i = i + 1;
                }
                let ghost pre2 = right@;
                let mut j: u16 = 0;
                while j < 4 - bars
                    invariant
                        bars <= 4,
                        j <= 4 - bars,
                        right@ == pre2 + repeat_char('▱', j as nat),
                    decreases 4 - bars - j,
                {
                    string_push(&mut right, '▱');
                    assert(repeat_char('▱', (j + 1) as nat) =~= repeat_char('▱', j as nat).push('▱'));
                    j = j + 1;
                }
                string_push(&mut right, ' ');
                crate::text::push_decimal(&mut right, p as u64);
                string_push(&mut right, '%');
                if st.charging {
                    string_push(&mut right, '⚡');
                }
            },
            None => {
                push_all(&mut right, &['b', 'a', 't', 't', 'e', 'r', 'y', ' ', '?']);
            },
        }
        assert(right@ =~= status_right(*st));
        assert(left@ =~= status_left(*st));
        (left, right)
    }
}


/// Column where the right half of the status line starts.
pub open spec fn right_col(cols: int, right: Seq<char>) -> int {
    if cols >= right.len() + 1 { cols - right.len() - 1 } else { 0 }
}

/// The requests drawing the status line makes.
pub open spec fn status_ops(g: Geometry, cols: u16, st: Status) -> Seq<PanelOp> {
    fill_ops(g, CellRect { col: 0, row: 0, cols, rows: 1 }, ' ', false) + text_ops(g, 1, 0, status_left(st), false, false)
        + text_ops(g, right_col(cols as int, status_right(st)), 0, status_right(st), false, false)
}

/// The inverted interior of a button: one column narrower, at least one wide.
pub open spec fn button_inner(r: CellRect) -> CellRect {
    CellRect { cols: if r.cols >= 2 { (r.cols - 1) as u16 } else { 1 }, ..r }
}

/// The requests drawing buttons `0 .. n` makes.
pub open spec fn top_buttons_ops(g: Geometry, b: Seq<(TopAction, CellRect, &'static str)>, n: int) -> Seq<PanelOp>
    decreases n,
{
    if n <= 0 {
        seq![]
    } else {
        let r = button_inner(b[n - 1].1);
        let label = b[n - 1].2@;
        let pad = if r.cols >= label.len() { (r.cols - label.len()) / 2 } else { 0 };
        top_buttons_ops(g, b, n - 1) + fill_ops(g, r, ' ', true) + text_ops(g, r.col + pad, r.row + r.rows / 2, label, false, true)
    }
}

/// The first of the first `n` buttons under `(col, row)`.
pub open spec fn top_hit(b: Seq<(TopAction, CellRect, &'static str)>, n: int, col: int, row: int) -> TopAction
    decreases n,
{
    if n <= 0 {
        TopAction::Nothing
    } else {
        let prev = top_hit(b, n - 1, col, row);
        if prev != TopAction::Nothing {
            prev
        } else if b[n - 1].1.has(col, row) {
            b[n - 1].0
        } else {
            TopAction::Nothing
        }
    }
}

/// The status texts fit in a row of the grid.
pub open spec fn status_ok(st: Status) -> bool {
    &&& status_left(st).len() <= u16::MAX
    &&& status_right(st).len() <= u16::MAX
}

impl TopBar {
    fn draw_status<P: Panel>(&self, panel: &mut P, st: &Status)
        requires
            old(panel).inv(),
            status_ok(*st),
        ensures
            appended(*old(panel), *final(panel), status_ops(old(panel).geo(), self.cols, *st)),
    {
        let ghost g = panel.geo();
        let ghost start = panel.ops();
        let (left, right) = self.status_line(st);
        fill(panel, CellRect { col: 0, row: 0, cols: self.cols, rows: 1 }, ' ', false);
        let lv = str_chars(left.as_str());
        text_chars(panel, 1, 0, lv.as_slice(), false, false);
        let rv = str_chars(right.as_str());
        let rc: u16 = if self.cols as usize >= rv.len() + 1 { (self.cols as usize - rv.len() - 1) as u16 } else { 0 };
        text_chars(panel, rc, 0, rv.as_slice(), false, false);
        assert(panel.ops() =~= start + status_ops(g, self.cols, *st));
    }

    pub fn draw<P: Panel>(&self, panel: &mut P, st: &Status)
        requires
            self.wf(),
            old(panel).inv(),
            rect_in(CellRect { col: 0, row: 0, cols: self.cols, rows: TOPBAR_ROWS }, old(panel).geo()),
            status_ok(*st),
        ensures
            appended(
                *old(panel),
                *final(panel),
                fill_ops(old(panel).geo(), CellRect { col: 0, row: 0, cols: self.cols, rows: TOPBAR_ROWS }, ' ', false)
                    + status_ops(old(panel).geo(), self.cols, *st)
                    + top_buttons_ops(old(panel).geo(), self.buttons@, 5)
                    + seq![PanelOp::Refresh(CellRect { col: 0, row: 0, cols: self.cols, rows: TOPBAR_ROWS }, Waveform::Partial)],
            ),
    {
        let ghost g = panel.geo();
        let ghost start = panel.ops();
        let area = self.area();
        fill(panel, area, ' ', false);
        self.draw_status(panel, st);
        let ghost head = panel.ops();
        let mut i: usize = 0;
        assert(head =~= head + top_buttons_ops(g, self.buttons@, 0));
        while i < self.buttons.len()
            invariant
                self.wf(),
                i <= 5,
                panel.inv(),
                panel.geo() == g,
                panel.ops() == head + top_buttons_ops(g, self.buttons@, i as int),
            decreases 5 - i,
        {
            proof {
                lemma_top_buttons_fit(self.cols as int);
                assert(self.buttons@[i as int].0 == top_buttons(self.cols as int)[i as int].0);
                assert(self.buttons@[i as int].1 == top_buttons(self.cols as int)[i as int].1);
            }
            let (_, r, label) = self.buttons[i];
            let inner = CellRect { cols: if r.cols >= 2 { r.cols - 1 } else { 1 }, ..r };
            assert(inner == button_inner(self.buttons@[i as int].1));
            fill(panel, inner, ' ', true);
            let lv = str_chars(label);
            let pad: u16 = if inner.cols as usize >= lv.len() { (inner.cols - lv.len() as u16) / 2 } else { 0 };
            text_chars(panel, inner.col + pad, inner.row + inner.rows / 2, lv.as_slice(), false, true);
            assert(panel.ops() =~= head + top_buttons_ops(g, self.buttons@, i + 1));
            i = i + 1;
        }
        panel.refresh(area, Waveform::Partial);
        assert(panel.ops() =~= start + (fill_ops(g, area, ' ', false) + status_ops(g, self.cols, *st)
            + top_buttons_ops(g, self.buttons@, 5) + seq![PanelOp::Refresh(area, Waveform::Partial)]));
    }

    /// Redraw only the status line (clock/battery ticks).
    pub fn update_status<P: Panel>(&self, panel: &mut P, st: &Status)
        requires
            old(panel).inv(),
            rect_in(CellRect { col: 0, row: 0, cols: self.cols, rows: 1 }, old(panel).geo()),
            status_ok(*st),
        ensures
            appended(
                *old(panel),
                *final(panel),
                status_ops(old(panel).geo(), self.cols, *st)
                    + seq![PanelOp::Refresh(CellRect { col: 0, row: 0, cols: self.cols, rows: 1 }, Waveform::Fast)],
            ),
    {
        let ghost start = panel.ops();
        self.draw_status(panel, st);
        panel.refresh(CellRect { col: 0, row: 0, cols: self.cols, rows: 1 }, Waveform::Fast);
        assert(panel.ops() =~= start + (status_ops(panel.geo(), self.cols, *st)
            + seq![PanelOp::Refresh(CellRect { col: 0, row: 0, cols: self.cols, rows: 1 }, Waveform::Fast)]));
    }

    pub fn hit(&self, col: u16, row: u16) -> (a: TopAction)
        ensures
            a == top_hit(self.buttons@, self.buttons@.len() as int, col as int, row as int),
    {
        let mut i: usize = 0;
        while i < self.buttons.len()
            invariant
                i <= self.buttons@.len(),
                top_hit(self.buttons@, i as int, col as int, row as int) == TopAction::Nothing,
            decreases self.buttons@.len() - i,
        {
            if self.buttons[i].1.holds(col, row) {
                let a = self.buttons[i].0;
                if a != TopAction::Nothing {
                    proof {
                        lemma_top_hit_found(self.buttons@, i + 1, self.buttons@.len() as int, col as int, row as int);
                    }
                    return a;
                }
            }
            i = i + 1;
        }
        TopAction::Nothing
    }
}

/// Every button of the layout keeps its far edges representable.
proof fn lemma_top_buttons_fit(cols: int)
    requires
        0 <= cols <= u16::MAX,
    ensures
        forall|i: int| 0 <= i < 5 ==> (#[trigger] top_buttons(cols)[i]).1.col + top_buttons(cols)[i].1.cols <= u16::MAX
            && top_buttons(cols)[i].1.cols <= 8 && top_buttons(cols)[i].1.col + 6 <= u16::MAX && top_label(top_buttons(cols)[i].0).len() <= 6 && top_buttons(cols)[i].1.row == 1 && top_buttons(cols)[i].1.rows == 2,
{
    assert forall|i: int| 0 <= i < 5 implies (#[trigger] top_buttons(cols)[i]).1.col + top_buttons(cols)[i].1.cols <= u16::MAX
        && top_buttons(cols)[i].1.cols <= 8 && top_buttons(cols)[i].1.col + 6 <= u16::MAX && top_label(top_buttons(cols)[i].0).len() <= 6 && top_buttons(cols)[i].1.row == 1 && top_buttons(cols)[i].1.rows == 2 by {
        if i == 0 {} else if i == 1 {} else if i == 2 {} else if i == 3 {} else {}
    }
}

proof fn lemma_top_hit_found(b: Seq<(TopAction, CellRect, &'static str)>, k: int, n: int, col: int, row: int)
    requires
        0 <= k <= n,
        top_hit(b, k, col, row) != TopAction::Nothing,
    ensures
        top_hit(b, n, col, row) == top_hit(b, k, col, row),
    decreases n - k,
{
    if n > k {
        lemma_top_hit_found(b, k, n - 1, col, row);
    }
}

} // verus!
