//! Reader-style popups in the cell grid: a framed panel with a title, sliders
//! and segmented choices. Sliders are tapped on their ends or dragged along
//! their track.

use vstd::prelude::*;
use crate::fmt::{ValueFormat, format_value, value_text};
use crate::panel::{CellRect, Geometry, Panel, PanelOp, Waveform, rect_in};
use crate::text::str_chars;
use crate::ui::draw::{appended, fill, fill_ok, fill_ops, frame, frame_ok, frame_ops, put, put_ops, text_chars, text_ops};

verus! {

pub struct Slider {
    pub label: String,
    pub min: i32,
    pub max: i32,
    pub value: i32,
    pub step: i32,
    pub left_icon: &'static str,
    pub right_icon: &'static str,
    /// How the value is shown next to the label, e.g. "52%".
    pub fmt: ValueFormat,
    pub row: u16,
    pub track: CellRect,
    pub minus: CellRect,
    pub plus: CellRect,
}

/// `x` limited to `lo ..= hi`.
pub open spec fn clampi(x: int, lo: int, hi: int) -> int {
    if x < lo {
        lo
    } else if x > hi {
        hi
    } else {
        x
    }
}

/// Cells between the first and last track cell, at least one.
pub open spec fn track_span(t: CellRect) -> int {
    if t.cols >= 2 { t.cols - 1 } else { 1 }
}

impl Slider {
    pub open spec fn wf(&self) -> bool {
        &&& self.min <= self.max
        &&& 1 <= self.step
        &&& self.min <= self.value <= self.max
    }

    /// The value for a finger at `col`: the track position scaled to the range,
    /// rounded to the nearest value, then down to a multiple of `step` above `min`.
    pub open spec fn value_at_spec(&self, col: int) -> int {
        let span = track_span(self.track);
        let pos = clampi(col - self.track.col, 0, span);
        let v = self.min + (pos * (self.max - self.min) + span / 2) / span;
        clampi((v - self.min) / (self.step as int) * self.step + self.min, self.min as int, self.max as int)
    }

    /// The track column of the knob.
    pub open spec fn knob_spec(&self) -> int {
        let span = track_span(self.track);
        let range = if self.max - self.min >= 1 { self.max - self.min } else { 1 };
        self.track.col + (self.value - self.min) * span / range
    }

    pub fn value_at(&self, col: u16) -> (v: i32)
        requires
            self.wf(),
        ensures
            v == self.value_at_spec(col as int),
    {
        let t = self.track;
        let span: i64 = if t.cols >= 2 { t.cols as i64 - 1 } else { 1 };
        let d: i64 = col as i64 - t.col as i64;
        let pos: i64 = if d < 0 { 0 } else if d > span { span } else { d };
        let range: i64 = self.max as i64 - self.min as i64;
        assert(0 <= pos * range <= 65535 * 0x1_0000_0000) by (nonlinear_arith)
            requires
                0 <= pos <= 65535,
                0 <= range <= 0x1_0000_0000,
        ;
        let q: i64 = (pos * range + span / 2) / span;
        assert(q <= range) by (nonlinear_arith)
            requires
                q == (pos * range + span / 2) / (span as int),
                0 <= pos <= span,
                span >= 1,
                0 <= range,
        {
            assert(pos * range + span / 2 < (range + 1) * span) by (nonlinear_arith)
                requires
                    0 <= pos <= span,
                    span >= 1,
                    0 <= range,
            ;
        }
        let v: i64 = self.min as i64 + q;
        let d: i64 = v - self.min as i64;
        let qq: i64 = d / self.step as i64;
        assert(0 <= qq * self.step <= d) by (nonlinear_arith)
            requires
                qq == (d as int) / (self.step as int),
                d >= 0,
                self.step >= 1,
        ;
        let k: i64 = qq * self.step as i64;
        let w: i64 = k + self.min as i64;
        let r: i64 = if w < self.min as i64 { self.min as i64 } else if w > self.max as i64 { self.max as i64 } else { w };
        r as i32
    }

    fn knob_col(&self) -> (c: u16)
        requires
            self.wf(),
            self.track.col + track_span(self.track) <= u16::MAX,
        ensures
            c == self.knob_spec(),
    {
        let t = self.track;
        let span: i64 = if t.cols >= 2 { t.cols as i64 - 1 } else { 1 };
        let range: i64 = if self.max as i64 - self.min as i64 >= 1 { self.max as i64 - self.min as i64 } else { 1 };
        let dv: i64 = self.value as i64 - self.min as i64;
        assert(0 <= dv * span <= 0x1_0000_0000 * 65535) by (nonlinear_arith)
            requires
                0 <= dv <= 0x1_0000_0000,
                1 <= span <= 65535,
        ;
        let off: i64 = dv * span / range;
        assert(off <= span) by (nonlinear_arith)
            requires
                off == dv * span / (range as int),
                0 <= dv <= range,
                range >= 1,
                span >= 1,
        {
            assert(dv * span <= range * span) by (nonlinear_arith)
                requires
                    0 <= dv <= range,
                    span >= 1,
            ;
        }
        assert(off >= 0) by (nonlinear_arith)
            requires
                off == dv * span / (range as int),
                0 <= dv,
                range >= 1,
                span >= 1,
        ;
        t.col + off as u16
    }
}

pub struct Choice {
    pub label: String,
    pub options: Vec<String>,
    pub selected: usize,
    pub row: u16,
    pub rects: Vec<CellRect>,
}

#[derive(Clone, Copy, Debug, PartialEq, Eq, Structural)]
pub enum PopupHit {
    /// Tap on the close button or outside the panel.
    Close,
    /// Slider `i` is now `value` (tap on the track or on -/+).
    Slider(usize, i32),
    /// Choice `c` selected option `o`.
    Choice(usize, usize),
    Nothing,
}

pub struct Popup {
    pub area: CellRect,
    pub title: String,
    pub sliders: Vec<Slider>,
    pub choices: Vec<Choice>,
    pub close: CellRect,
}

/// The first of the first `n` sliders that a tap at `(col, row)` changes, and its new value.
pub open spec fn slider_hit(sl: Seq<Slider>, n: int, col: int, row: int) -> Option<PopupHit>
    decreases n,
{
    if n <= 0 {
        None
    } else {
        match slider_hit(sl, n - 1, col, row) {
            Some(h) => Some(h),
            None => {
                let s = sl[n - 1];
                let i = (n - 1) as usize;
                if s.minus.has(col, row) {
                    Some(PopupHit::Slider(i, if s.value - s.step > s.min { (s.value - s.step) as i32 } else { s.min }))
                } else if s.plus.has(col, row) {
                    Some(PopupHit::Slider(i, if s.value + s.step < s.max { (s.value + s.step) as i32 } else { s.max }))
                } else if row == s.track.row && s.track.col <= col < s.track.col + s.track.cols {
                    Some(PopupHit::Slider(i, s.value_at_spec(col) as i32))
                } else {
                    None
                }
            },
        }
    }
}

/// The first option rectangle among the first `n` of `rects` under `(col, row)`.
pub open spec fn rect_hit(rects: Seq<CellRect>, n: int, col: int, row: int) -> Option<usize>
    decreases n,
{
    if n <= 0 {
        None
    } else {
        match rect_hit(rects, n - 1, col, row) {
            Some(k) => Some(k),
            None => if rects[n - 1].has(col, row) { Some((n - 1) as usize) } else { None },
        }
    }
}

/// The first option among the first `n` choices under `(col, row)`.
pub open spec fn choice_hit(ch: Seq<Choice>, n: int, col: int, row: int) -> Option<PopupHit>
    decreases n,
{
    if n <= 0 {
        None
    } else {
        match choice_hit(ch, n - 1, col, row) {
            Some(h) => Some(h),
            None => match rect_hit(ch[n - 1].rects@, ch[n - 1].rects@.len() as int, col, row) {
                Some(k) => Some(PopupHit::Choice((n - 1) as usize, k)),
                None => None,
            },
        }
    }
}

/// The first of the first `n` sliders whose track row holds `(col, row)`, give or take two columns.
pub open spec fn slider_at_spec(sl: Seq<Slider>, n: int, col: int, row: int) -> Option<usize>
    decreases n,
{
    if n <= 0 {
        None
    } else {
        match slider_at_spec(sl, n - 1, col, row) {
            Some(i) => Some(i),
            None => {
                let t = sl[n - 1].track;
                if row == t.row && col + 2 >= t.col && col <= t.col + t.cols + 1 {
                    Some((n - 1) as usize)
                } else {
                    None
                }
            },
        }
    }
}

/// The character of track cell `c` given the knob column.
pub open spec fn track_char(c: int, knob: int) -> char {
    if c == knob {
        '●'
    } else if c < knob {
        '━'
    } else {
        '─'
    }
}

/// The first `n` cells of a slider track.
pub open spec fn track_ops(g: Geometry, t: CellRect, knob: int, n: int) -> Seq<PanelOp>
    decreases n,
{
    if n <= 0 {
        seq![]
    } else {
        track_ops(g, t, knob, n - 1) + put_ops(g, t.col + n - 1, t.row as int, track_char(t.col + n - 1, knob), false, false)
    }
}

impl Popup {
    pub open spec fn sliders_wf(&self) -> bool {
        forall|i: int| 0 <= i < self.sliders@.len() ==> (#[trigger] self.sliders@[i]).wf()
    }

    /// What `hit` answers for a tap at `(col, row)`.
    pub open spec fn hit_spec(&self, col: int, row: int) -> PopupHit {
        let c = self.close;
        if c.has(col, row) || (row == c.row + 1 && c.col <= col < c.col + 3) {
            PopupHit::Close
        } else if !self.area.has(col, row) {
            PopupHit::Close
        } else {
            match slider_hit(self.sliders@, self.sliders@.len() as int, col, row) {
                Some(h) => h,
                None => match choice_hit(self.choices@, self.choices@.len() as int, col, row) {
                    Some(h) => h,
                    None => PopupHit::Nothing,
                },
            }
        }
    }

    /// The requests `draw_slider(i)` makes.
    pub open spec fn slider_ops(&self, g: Geometry, i: int) -> Seq<PanelOp> {
        let s = self.sliders@[i];
        let a = self.area;
        let v = value_text(s.fmt, s.value as int);
        fill_ops(g, CellRect { col: (a.col + 1) as u16, row: s.row, cols: (a.cols - 2) as u16, rows: 2 }, ' ', false)
            + text_ops(g, a.col + 2, s.row as int, s.label@, false, false)
            + text_ops(g, a.col + a.cols - 2 - v.len(), s.row as int, v, true, false)
            + text_ops(g, s.minus.col as int, s.minus.row as int, s.left_icon@ + seq![' '], false, false)
            + text_ops(g, s.plus.col as int, s.plus.row as int, seq![' '] + s.right_icon@, false, false)
            + track_ops(g, s.track, s.knob_spec(), s.track.cols as int)
    }

    /// `draw_slider(i)` stays free of overflow.
    pub open spec fn slider_draw_ok(&self, i: int) -> bool {
        let s = self.sliders@[i];
        let a = self.area;
        let v = value_text(s.fmt, s.value as int);
        &&& s.wf()
        &&& a.cols >= 2
        &&& a.col + a.cols <= u16::MAX
        &&& s.row + 2 <= u16::MAX
        &&& a.col + 2 + s.label@.len() <= u16::MAX + 1
        &&& v.len() + 2 <= a.col + a.cols
        &&& a.col + a.cols - 2 <= u16::MAX + 1
        &&& s.minus.col + s.left_icon@.len() + 1 <= u16::MAX + 1
        &&& s.plus.col + s.right_icon@.len() + 1 <= u16::MAX + 1
        &&& s.track.fits()
        &&& s.track.col + track_span(s.track) <= u16::MAX
    }

    /// The requests drawing option rectangles `0 .. n` of choice `c` makes.
    pub open spec fn options_ops(&self, g: Geometry, c: Choice, n: int) -> Seq<PanelOp>
        decreases n,
    {
        if n <= 0 {
            seq![]
        } else {
            let k = n - 1;
            let r = c.rects@[k];
            let opt = c.options@[k]@;
            let pad = if r.cols >= opt.len() { (r.cols - opt.len()) / 2 } else { 0 };
            self.options_ops(g, c, n - 1) + fill_ops(g, r, ' ', k == c.selected) + text_ops(
                g,
                r.col + pad,
                r.row as int,
                opt,
                false,
                k == c.selected,
            )
        }
    }

    /// Options drawn for a choice: as many as it has both texts and rectangles for.
    pub open spec fn drawn_options(c: Choice) -> int {
        if c.options@.len() <= c.rects@.len() { c.options@.len() as int } else { c.rects@.len() as int }
    }

    /// The requests drawing choices `0 .. n` makes.
    pub open spec fn choices_ops(&self, g: Geometry, n: int) -> Seq<PanelOp>
        decreases n,
    {
        if n <= 0 {
            seq![]
        } else {
            let c = self.choices@[n - 1];
            self.choices_ops(g, n - 1) + text_ops(g, self.area.col + 2, c.row as int, c.label@, false, false)
                + self.options_ops(g, c, Self::drawn_options(c))
        }
    }

    /// The requests drawing sliders `0 .. n` makes.
    pub open spec fn sliders_ops(&self, g: Geometry, n: int) -> Seq<PanelOp>
        decreases n,
    {
        if n <= 0 {
            seq![]
        } else {
            self.sliders_ops(g, n - 1) + self.slider_ops(g, n - 1)
        }
    }
}


/// The characters of `s` with a space appended.
fn chars_then_space(s: &str) -> (v: Vec<char>)
    ensures
        v@ == s@ + seq![' '],
{
    let mut v = str_chars(s);
    v.push(' ');
    v
}

/// A space followed by the characters of `s`.
fn space_then_chars(s: &str) -> (v: Vec<char>)
    ensures
        v@ == seq![' '] + s@,
{
    let w = str_chars(s);
    let mut v: Vec<char> = Vec::new();
    v.push(' ');
    let mut i: usize = 0;
    while i < w.len()
        invariant
            i <= w@.len(),
            v@ == seq![' '] + w@.take(i as int),
        decreases w@.len() - i,
    {
        v.push(w[i]);
        assert(w@.take(i + 1) =~= w@.take(i as int).push(w@[i as int]));
        i = i + 1;
    }
    assert(w@.take(w@.len() as int) =~= w@);
    v
}

/// Number of option rectangles for `len` options: at least one.
pub open spec fn choice_n(len: int) -> int {
    if len >= 1 { len } else { 1 }
}

/// Width of each option rectangle (plus one gap column) across the popup `a`.
pub open spec fn choice_w(a: CellRect, n: int) -> int {
    let avail = if a.cols >= 4 { a.cols - 4 } else { 0 };
    if avail / n >= 4 { avail / n } else { 4 }
}

impl Popup {
    /// Panel spanning `cols` columns from `top_row`. Contents are laid out
    /// with `add_slider`/`add_choice`; call `finish` before drawing.
    pub fn new(cols: u16, top_row: u16, title: &str) -> (p: Popup)
        requires
            cols >= 5,
        ensures
            p.area == (CellRect { col: 1, row: top_row, cols: (cols - 2) as u16, rows: 3 }),
            p.close == (CellRect { col: (cols - 5) as u16, row: top_row, cols: 3, rows: 1 }),
            p.title@ == title@,
            p.sliders@.len() == 0,
            p.choices@.len() == 0,
    {
        let area = CellRect { col: 1, row: top_row, cols: cols - 2, rows: 3 };
        let t = crate::text::chars_to_string(str_chars(title).as_slice());
        Popup {
            area,
            title: t,
            sliders: Vec::new(),
            choices: Vec::new(),
            close: CellRect { col: area.col + area.cols - 4, row: top_row, cols: 3, rows: 1 },
        }
    }

    fn next_row(&self) -> (r: u16)
        requires
            self.area.row + self.area.rows >= 1,
            self.area.row + self.area.rows <= u16::MAX,
        ensures
            r == self.area.row + self.area.rows - 1,
    {
        self.area.row + self.area.rows - 1
    }

    pub fn add_slider(
        &mut self,
        label: &str,
        min: i32,
        max: i32,
        value: i32,
        step: i32,
        left_icon: &'static str,
        right_icon: &'static str,
        fmt: ValueFormat,
    ) -> (r: &mut Self)
        requires
            min <= max,
            old(self).area.rows >= 1,
            old(self).area.row + old(self).area.rows <= u16::MAX,
            old(self).area.rows + 3 <= u16::MAX,
            old(self).area.col + old(self).area.cols >= 5,
            old(self).area.col + old(self).area.cols <= u16::MAX,
            old(self).area.col + 7 <= u16::MAX,
        ensures
            *final(self) == *final(r),
            r.area == (CellRect { rows: (old(self).area.rows + 3) as u16, ..old(self).area }),
            r.title == old(self).title,
            r.close == old(self).close,
            r.choices@ == old(self).choices@,
            r.sliders@.len() == old(self).sliders@.len() + 1,
            forall|i: int| 0 <= i < old(self).sliders@.len() ==> r.sliders@[i] == old(self).sliders@[i],
            ({
                let a = old(self).area;
                let row = a.row + a.rows - 1;
                let s = r.sliders@.last();
                let minus = CellRect { col: (a.col + 2) as u16, row: (row + 1) as u16, cols: 3, rows: 1 };
                let plus = CellRect { col: (a.col + a.cols - 5) as u16, row: (row + 1) as u16, cols: 3, rows: 1 };
                &&& s.label@ == label@
                &&& s.min == min && s.max == max && s.value == clampi(value as int, min as int, max as int)
                &&& s.step == (if step >= 1 { step } else { 1 })
                &&& s.left_icon == left_icon && s.right_icon == right_icon && s.fmt == fmt
                &&& s.row == row
                &&& s.minus == minus
                &&& s.plus == plus
                &&& s.track == (CellRect {
                    col: (minus.col + 4) as u16,
                    row: (row + 1) as u16,
                    cols: (if plus.col >= minus.col + 5 { plus.col - (minus.col + 5) } else { 0 }) as u16,
                    rows: 1,
                })
            }),
    {
        let row = self.next_row();
        let a = self.area;
        let minus = CellRect { col: a.col + 2, row: row + 1, cols: 3, rows: 1 };
        let plus = CellRect { col: a.col + a.cols - 5, row: row + 1, cols: 3, rows: 1 };
        let tcols: u16 = if plus.col >= minus.col + 5 { plus.col - (minus.col + 5) } else { 0 };
        let track = CellRect { col: minus.col + 4, row: row + 1, cols: tcols, rows: 1 };
        let v: i32 = if value < min { min } else if value > max { max } else { value };
        let st: i32 = if step >= 1 { step } else { 1 };
        let lab = crate::text::chars_to_string(str_chars(label).as_slice());
        self.sliders.push(
            Slider {
                label: lab,
                min,
                max,
                value: v,
                step: st,
                left_icon,
                right_icon,
                fmt,
                row,
                track,
                minus,
                plus,
            },
        );
        self.area.rows = self.area.rows + 3;
        self
    }

    pub fn add_choice(&mut self, label: &str, options: &[&str], selected: usize) -> (r: &mut Self)
        requires
            options@.len() <= u16::MAX,
            old(self).area.rows >= 1,
            old(self).area.row + old(self).area.rows <= u16::MAX,
            old(self).area.rows + 3 <= u16::MAX,
            old(self).area.col + 2 + (choice_n(options@.len() as int) - 1) * choice_w(old(self).area, choice_n(options@.len() as int)) <= u16::MAX,
        ensures
            *final(self) == *final(r),
            r.area == (CellRect { rows: (old(self).area.rows + 3) as u16, ..old(self).area }),
            r.title == old(self).title,
            r.close == old(self).close,
            r.sliders@ == old(self).sliders@,
            r.choices@.len() == old(self).choices@.len() + 1,
            forall|i: int| 0 <= i < old(self).choices@.len() ==> r.choices@[i] == old(self).choices@[i],
            ({
                let a = old(self).area;
                let row = a.row + a.rows - 1;
                let c = r.choices@.last();
                let n = choice_n(options@.len() as int);
                let w = choice_w(a, n);
                &&& c.label@ == label@
                &&& c.options@.len() == options@.len()
                &&& forall|k: int| 0 <= k < options@.len() ==> (#[trigger] c.options@[k])@ == options@[k]@
                &&& c.selected == selected
                &&& c.row == row
                &&& c.rects@.len() == n
                &&& forall|k: int| 0 <= k < n ==> #[trigger] c.rects@[k] == (CellRect {
                    col: (a.col + 2 + k * w) as u16,
                    row: (row + 1) as u16,
                    cols: (w - 1) as u16,
                    rows: 1,
                })
            }),
    {
        let row = self.next_row();
        let a = self.area;
        let n: u16 = if options.len() >= 1 { options.len() as u16 } else { 1 };
        let avail: u16 = if a.cols >= 4 { a.cols - 4 } else { 0 };
        let w: u16 = if avail / n >= 4 { avail / n } else { 4 };
        let mut rects: Vec<CellRect> = Vec::new();
        let mut i: u16 = 0;
        while i < n
            invariant
                i <= n,
                1 <= n <= u16::MAX,
                n == choice_n(options@.len() as int),
                w == choice_w(a, n as int),
                4 <= w,
                a.col + 2 + (n - 1) * w <= u16::MAX,
                row + 1 <= u16::MAX,
                rects@.len() == i,
                forall|k: int| 0 <= k < i ==> #[trigger] rects@[k] == (CellRect {
                    col: (a.col + 2 + k * w) as u16,
                    row: (row + 1) as u16,
                    cols: (w - 1) as u16,
                    rows: 1,
                }),
            decreases n - i,
        {
            assert(i * w <= (n - 1) * w) by (nonlinear_arith)
                requires
                    i < n,
                    w >= 4,
            ;
            rects.push(CellRect { col: a.col + 2 + i * w, row: row + 1, cols: w - 1, rows: 1 });
            i = i + 1;
        }
        let mut opts: Vec<String> = Vec::new();
        let mut j: usize = 0;
        while j < options.len()
            invariant
                j <= options@.len(),
                opts@.len() == j,
                forall|k: int| 0 <= k < j ==> (#[trigger] opts@[k])@ == options@[k]@,
            decreases options@.len() - j,
        {
            opts.push(crate::text::chars_to_string(str_chars(options[j]).as_slice()));
            j = j + 1;
        }
        let lab = crate::text::chars_to_string(str_chars(label).as_slice());
        self.choices.push(Choice { label: lab, options: opts, selected, row, rects });
        self.area.rows = self.area.rows + 3;
        self
    }

    pub fn finish(&mut self)
        requires
            old(self).area.rows < u16::MAX,
        ensures
            final(self).area == (CellRect { rows: (old(self).area.rows + 1) as u16, ..old(self).area }),
            final(self).title == old(self).title,
            final(self).close == old(self).close,
            final(self).sliders@ == old(self).sliders@,
            final(self).choices@ == old(self).choices@,
    {
        self.area.rows = self.area.rows + 1;
    }
}


impl Popup {
    /// Choice `ci` can be drawn without overflow.
    pub open spec fn choice_draw_ok(&self, ci: int) -> bool {
        let c = self.choices@[ci];
        &&& self.area.col + 2 + c.label@.len() <= u16::MAX + 1
        &&& forall|k: int|
            0 <= k < Self::drawn_options(c) ==> {
                let r = #[trigger] c.rects@[k];
                let opt = c.options@[k]@;
                let pad = if r.cols >= opt.len() { (r.cols - opt.len()) / 2 } else { 0 };
                &&& fill_ok(r)
                &&& r.col + pad <= u16::MAX
                &&& r.col + pad + opt.len() <= u16::MAX + 1
            }
    }

    /// `draw` stays free of overflow and refreshes inside the panel.
    pub open spec fn draw_ok(&self, g: Geometry) -> bool {
        &&& fill_ok(self.area)
        &&& frame_ok(self.area)
        &&& rect_in(self.area, g)
        &&& self.area.col + 2 <= u16::MAX
        &&& self.area.row + 1 <= u16::MAX
        &&& self.area.col + 2 + self.title@.len() <= u16::MAX + 1
        &&& self.close.col + 3 <= u16::MAX + 1
        &&& self.close.row + 1 <= u16::MAX
        &&& forall|i: int| 0 <= i < self.sliders@.len() ==> #[trigger] self.slider_draw_ok(i)
        &&& forall|i: int| 0 <= i < self.choices@.len() ==> #[trigger] self.choice_draw_ok(i)
    }

    /// The requests `draw` makes.
    pub open spec fn draw_spec(&self, g: Geometry) -> Seq<PanelOp> {
        let a = self.area;
        self.chrome_ops(g)
            + self.sliders_ops(g, self.sliders@.len() as int) + self.choices_ops(g, self.choices@.len() as int)
            + seq![PanelOp::Refresh(a, Waveform::Partial)]
    }

    /// The requests drawing the frame, title and close mark make.
    pub open spec fn chrome_ops(&self, g: Geometry) -> Seq<PanelOp> {
        let a = self.area;
        fill_ops(g, a, ' ', false) + frame_ops(g, a, false) + text_ops(g, a.col + 2, a.row + 1, self.title@, true, false)
            + text_ops(g, self.close.col as int, self.close.row + 1, seq![' ', '✕', ' '], false, true)
    }

    fn draw_chrome<P: Panel>(&self, panel: &mut P)
        requires
            old(panel).inv(),
            self.draw_ok(old(panel).geo()),
        ensures
            appended(*old(panel), *final(panel), self.chrome_ops(old(panel).geo())),
    {
        let ghost g = panel.geo();
        let ghost start = panel.ops();
        let a = self.area;
        fill(panel, a, ' ', false);
        frame(panel, a, false);
        let tv = str_chars(self.title.as_str());
        text_chars(panel, a.col + 2, a.row + 1, tv.as_slice(), true, false);
        text_chars(panel, self.close.col, self.close.row + 1, &[' ', '✕', ' '], false, true);
        assert(panel.ops() =~= start + self.chrome_ops(g));
    }

    pub fn draw<P: Panel>(&self, panel: &mut P)
        requires
            old(panel).inv(),
            self.draw_ok(old(panel).geo()),
        ensures
            appended(*old(panel), *final(panel), self.draw_spec(old(panel).geo())),
    {
        let ghost g = panel.geo();
        let ghost start = panel.ops();
        let a = self.area;
        self.draw_chrome(panel);
        let ghost head = panel.ops();
        let mut i: usize = 0;
        assert(head =~= head + self.sliders_ops(g, 0));
        while i < self.sliders.len()
            invariant
                i <= self.sliders@.len(),
                self.draw_ok(g),
                panel.inv(),
                panel.geo() == g,
                panel.ops() == head + self.sliders_ops(g, i as int),
            decreases self.sliders@.len() - i,
        {
            assert(self.slider_draw_ok(i as int));
            self.draw_slider(panel, i);
            assert(panel.ops() =~= head + self.sliders_ops(g, i + 1));
            i = i + 1;
        }
        let ghost mid = panel.ops();
        let mut ci: usize = 0;
        assert(mid =~= mid + self.choices_ops(g, 0));
        while ci < self.choices.len()
            invariant
                ci <= self.choices@.len(),
                a == self.area,
                self.draw_ok(g),
                panel.inv(),
                panel.geo() == g,
                panel.ops() == mid + self.choices_ops(g, ci as int),
            decreases self.choices@.len() - ci,
        {
            assert(self.choice_draw_ok(ci as int));
            self.draw_choice(panel, ci);
            assert(panel.ops() =~= mid + self.choices_ops(g, ci + 1));
            ci = ci + 1;
        }
        let ghost before = panel.ops();
        panel.refresh(a, Waveform::Partial);
        let ghost parts = self.chrome_ops(g) + self.sliders_ops(g, self.sliders@.len() as int) + self.choices_ops(g, self.choices@.len() as int);
        assert(before =~= start + parts);
        assert(self.draw_spec(g) =~= parts + seq![PanelOp::Refresh(a, Waveform::Partial)]);
        assert(panel.ops() =~= start + self.draw_spec(g));
    }

    fn draw_choice<P: Panel>(&self, panel: &mut P, ci: usize)
        requires
            old(panel).inv(),
            ci < self.choices@.len(),
            self.choice_draw_ok(ci as int),
            self.area.col + 2 <= u16::MAX,
        ensures
            appended(*old(panel), *final(panel), text_ops(old(panel).geo(), self.area.col + 2, self.choices@[ci as int].row as int, self.choices@[ci as int].label@, false, false)
                + self.options_ops(old(panel).geo(), self.choices@[ci as int], Self::drawn_options(self.choices@[ci as int]))),
    {
        let ghost g = panel.geo();
        let ghost start = panel.ops();
        let a = self.area;
        let c = &self.choices[ci];
        let lv = str_chars(c.label.as_str());
        text_chars(panel, a.col + 2, c.row, lv.as_slice(), false, false);
        let ghost before_opts = panel.ops();
        let m: usize = if c.options.len() <= c.rects.len() { c.options.len() } else { c.rects.len() };
        let mut k: usize = 0;
        assert(before_opts =~= before_opts + self.options_ops(g, *c, 0));
        while k < m
            invariant
                k <= m,
                m == Self::drawn_options(*c),
                m <= c.options@.len(),
                m <= c.rects@.len(),
                self.choice_draw_ok(ci as int),
                ci < self.choices@.len(),
                *c == self.choices@[ci as int],
                panel.inv(),
                panel.geo() == g,
                panel.ops() == before_opts + self.options_ops(g, *c, k as int),
            decreases m - k,
        {
            let r = c.rects[k];
            let ov = str_chars(c.options[k].as_str());
            let sel = k == c.selected;
            assert(fill_ok(c.rects@[k as int]));
            fill(panel, r, ' ', sel);
            let olen = ov.len();
            let pad: u16 = if olen <= r.cols as usize { (r.cols - olen as u16) / 2 } else { 0 };
            text_chars(panel, r.col + pad, r.row, ov.as_slice(), false, sel);
            assert(panel.ops() =~= before_opts + self.options_ops(g, *c, k + 1));
            k = k + 1;
        }
        assert(panel.ops() =~= start + (text_ops(g, self.area.col + 2, self.choices@[ci as int].row as int, self.choices@[ci as int].label@, false, false)
            + self.options_ops(g, self.choices@[ci as int], Self::drawn_options(self.choices@[ci as int]))));
    }

    /// Redraw one slider's rows (label with value, and the track).
    pub fn draw_slider<P: Panel>(&self, panel: &mut P, i: usize)
        requires
            old(panel).inv(),
            i < self.sliders@.len(),
            self.slider_draw_ok(i as int),
        ensures
            appended(*old(panel), *final(panel), self.slider_ops(old(panel).geo(), i as int)),
    {
        let ghost g = panel.geo();
        let ghost start = panel.ops();
        let s = &self.sliders[i];
        let a = self.area;
        let inner = CellRect { col: a.col + 1, row: s.row, cols: a.cols - 2, rows: 2 };
        fill(panel, inner, ' ', false);
        let lv = str_chars(s.label.as_str());
        text_chars(panel, a.col + 2, s.row, lv.as_slice(), false, false);
        let v = format_value(s.fmt, s.value);
        let vv = str_chars(v.as_str());
        text_chars(panel, a.col + a.cols - 2 - vv.len() as u16, s.row, vv.as_slice(), true, false);
        let li = chars_then_space(s.left_icon);
        text_chars(panel, s.minus.col, s.minus.row, li.as_slice(), false, false);
        let ri = space_then_chars(s.right_icon);
        text_chars(panel, s.plus.col, s.plus.row, ri.as_slice(), false, false);
        let knob = s.knob_col();
        let ghost before_track = panel.ops();
        let mut c = s.track.col;
        assert(before_track =~= before_track + track_ops(g, s.track, s.knob_spec(), 0));
        while c < s.track.col + s.track.cols
            invariant
                s.track.col <= c <= s.track.col + s.track.cols,
                s.track.fits(),
                knob == s.knob_spec(),
                panel.inv(),
                panel.geo() == g,
                panel.ops() == before_track + track_ops(g, s.track, s.knob_spec(), c - s.track.col),
            decreases s.track.col + s.track.cols - c,
        {
            let ch = if c == knob { '●' } else if c < knob { '━' } else { '─' };
            put(panel, c, s.track.row, ch, false, false);
            assert(panel.ops() =~= before_track + track_ops(g, s.track, s.knob_spec(), c + 1 - s.track.col));
            c = c + 1;
        }
        assert(panel.ops() =~= start + self.slider_ops(g, i as int));
    }

    pub fn refresh_slider<P: Panel>(&self, panel: &mut P, i: usize)
        requires
            old(panel).inv(),
            i < self.sliders@.len(),
            rect_in(CellRect { col: self.area.col, row: self.sliders@[i as int].row, cols: self.area.cols, rows: 2 }, old(panel).geo()),
        ensures
            appended(*old(panel), *final(panel), seq![PanelOp::Refresh(CellRect { col: self.area.col, row: self.sliders@[i as int].row, cols: self.area.cols, rows: 2 }, Waveform::Fast)]),
    {
        let s = &self.sliders[i];
        let ghost before = panel.ops();
        panel.refresh(CellRect { col: self.area.col, row: s.row, cols: self.area.cols, rows: 2 }, Waveform::Fast);
        assert(panel.ops() =~= before + seq![PanelOp::Refresh(CellRect { col: self.area.col, row: self.sliders@[i as int].row, cols: self.area.cols, rows: 2 }, Waveform::Fast)]);
    }

    pub fn refresh_choice<P: Panel>(&self, panel: &mut P, c: usize)
        requires
            old(panel).inv(),
            c < self.choices@.len(),
            self.choices@[c as int].row + 1 <= u16::MAX,
            rect_in(CellRect { col: self.area.col, row: (self.choices@[c as int].row + 1) as u16, cols: self.area.cols, rows: 1 }, old(panel).geo()),
        ensures
            appended(*old(panel), *final(panel), seq![PanelOp::Refresh(CellRect { col: self.area.col, row: (self.choices@[c as int].row + 1) as u16, cols: self.area.cols, rows: 1 }, Waveform::Fast)]),
    {
        let ch = &self.choices[c];
        let ghost before = panel.ops();
        panel.refresh(CellRect { col: self.area.col, row: ch.row + 1, cols: self.area.cols, rows: 1 }, Waveform::Fast);
        assert(panel.ops() =~= before + seq![PanelOp::Refresh(CellRect { col: self.area.col, row: (self.choices@[c as int].row + 1) as u16, cols: self.area.cols, rows: 1 }, Waveform::Fast)]);
    }

    /// Slider index under a finger, for dragging (track row, any column).
    pub fn slider_at(&self, col: u16, row: u16) -> (r: Option<usize>)
        ensures
            r == slider_at_spec(self.sliders@, self.sliders@.len() as int, col as int, row as int),
    {
        let mut i: usize = 0;
        while i < self.sliders.len()
            invariant
                i <= self.sliders@.len(),
                slider_at_spec(self.sliders@, i as int, col as int, row as int) is None,
            decreases self.sliders@.len() - i,
        {
            let t = self.sliders[i].track;
            if row == t.row && col as u32 + 2 >= t.col as u32 && col as u32 <= t.col as u32 + t.cols as u32 + 1 {
                proof {
                    lemma_slider_at_found(self.sliders@, i as int, self.sliders@.len() as int, col as int, row as int);
                }
                return Some(i);
            }
            i = i + 1;
        }
        None
    }

    /// Value slider `i` takes when the finger is at `col`.
    pub fn slider_value_at(&self, i: usize, col: u16) -> (v: i32)
        requires
            i < self.sliders@.len(),
            self.sliders@[i as int].wf(),
        ensures
            v == self.sliders@[i as int].value_at_spec(col as int),
    {
        self.sliders[i].value_at(col)
    }

    pub fn hit(&self, col: u16, row: u16) -> (h: PopupHit)
        requires
            self.sliders_wf(),
        ensures
            h == self.hit_spec(col as int, row as int),
    {
        let c = self.close;
        if c.holds(col, row) || (row as u32 == c.row as u32 + 1 && col >= c.col && (col as u32) < c.col as u32 + 3) {
            return PopupHit::Close;
        }
        if !self.area.holds(col, row) {
            return PopupHit::Close;
        }
        assert(!(c.has(col as int, row as int) || (row == c.row + 1 && c.col <= col < c.col + 3)));
        assert(self.area.has(col as int, row as int));
        let mut i: usize = 0;
        while i < self.sliders.len()
            invariant
                i <= self.sliders@.len(),
                self.sliders_wf(),
                !(self.close.has(col as int, row as int) || (row == self.close.row + 1 && self.close.col <= col < self.close.col + 3)),
                self.area.has(col as int, row as int),
                slider_hit(self.sliders@, i as int, col as int, row as int) is None,
            decreases self.sliders@.len() - i,
        {
            let s = &self.sliders[i];
            assert(s.wf());
            let found = if s.minus.holds(col, row) {
                let d: i64 = s.value as i64 - s.step as i64;
                Some(PopupHit::Slider(i, if d > s.min as i64 { d as i32 } else { s.min }))
            } else if s.plus.holds(col, row) {
                let d: i64 = s.value as i64 + s.step as i64;
                Some(PopupHit::Slider(i, if d < s.max as i64 { d as i32 } else { s.max }))
            } else if row == s.track.row && col >= s.track.col && (col as u32) < s.track.col as u32 + s.track.cols as u32 {
                Some(PopupHit::Slider(i, s.value_at(col)))
            } else {
                None
            };
            assert(slider_hit(self.sliders@, i + 1, col as int, row as int) == found);
            if let Some(h) = found {
                proof {
                    lemma_slider_hit_found(self.sliders@, i + 1, self.sliders@.len() as int, col as int, row as int);
                }
                return h;
            }
            i = i + 1;
        }
        let mut ci: usize = 0;
        while ci < self.choices.len()
            invariant
                ci <= self.choices@.len(),
                !(self.close.has(col as int, row as int) || (row == self.close.row + 1 && self.close.col <= col < self.close.col + 3)),
                self.area.has(col as int, row as int),
                slider_hit(self.sliders@, self.sliders@.len() as int, col as int, row as int) is None,
                choice_hit(self.choices@, ci as int, col as int, row as int) is None,
            decreases self.choices@.len() - ci,
        {
            let ch = &self.choices[ci];
            let mut k: usize = 0;
            while k < ch.rects.len()
                invariant
                    k <= ch.rects@.len(),
                    ci < self.choices@.len(),
                    *ch == self.choices@[ci as int],
                    !(self.close.has(col as int, row as int) || (row == self.close.row + 1 && self.close.col <= col < self.close.col + 3)),
                    self.area.has(col as int, row as int),
                    slider_hit(self.sliders@, self.sliders@.len() as int, col as int, row as int) is None,
                    choice_hit(self.choices@, ci as int, col as int, row as int) is None,
                    rect_hit(ch.rects@, k as int, col as int, row as int) is None,
                decreases ch.rects@.len() - k,
            {
                if ch.rects[k].holds(col, row) {
                    assert(rect_hit(ch.rects@, k + 1, col as int, row as int) == Some(k));
                    proof {
                        lemma_rect_hit_found(ch.rects@, k + 1, ch.rects@.len() as int, col as int, row as int);
                        assert(choice_hit(self.choices@, ci + 1, col as int, row as int) == Some(PopupHit::Choice(ci, k)));
                        lemma_choice_hit_found(self.choices@, ci + 1, self.choices@.len() as int, col as int, row as int);
                    }
                    return PopupHit::Choice(ci, k);
                }
                k = k + 1;
            }
            assert(rect_hit(ch.rects@, ch.rects@.len() as int, col as int, row as int) is None);
            ci = ci + 1;
        }
        PopupHit::Nothing
    }
}

proof fn lemma_slider_at_found(sl: Seq<Slider>, i: int, n: int, col: int, row: int)
    requires
        0 <= i < n,
        slider_at_spec(sl, i + 1, col, row) == Some(i as usize),
    ensures
        slider_at_spec(sl, n, col, row) == Some(i as usize),
    decreases n - i,
{
    if n > i + 1 {
        lemma_slider_at_found(sl, i, n - 1, col, row);
    }
}

proof fn lemma_slider_hit_found(sl: Seq<Slider>, k: int, n: int, col: int, row: int)
    requires
        0 <= k <= n,
        slider_hit(sl, k, col, row) is Some,
    ensures
        slider_hit(sl, n, col, row) == slider_hit(sl, k, col, row),
    decreases n - k,
{
    if n > k {
        lemma_slider_hit_found(sl, k, n - 1, col, row);
    }
}

proof fn lemma_rect_hit_found(rs: Seq<CellRect>, k: int, n: int, col: int, row: int)
    requires
        0 <= k <= n,
        rect_hit(rs, k, col, row) is Some,
    ensures
        rect_hit(rs, n, col, row) == rect_hit(rs, k, col, row),
    decreases n - k,
{
    if n > k {
        lemma_rect_hit_found(rs, k, n - 1, col, row);
    }
}

proof fn lemma_choice_hit_found(ch: Seq<Choice>, k: int, n: int, col: int, row: int)
    requires
        0 <= k <= n,
        choice_hit(ch, k, col, row) is Some,
    ensures
        choice_hit(ch, n, col, row) == choice_hit(ch, k, col, row),
    decreases n - k,
{
    if n > k {
        lemma_choice_hit_found(ch, k, n - 1, col, row);
    }
}

} // verus!
