//! Nickel-style popups: a bordered panel under the toolbar with a small notch,
//! serif section titles, centred values, double-ring sliders with end icons,
//! and segmented choices ("Justification: Off | ≡ | ≡" style). This module
//! lays them out and hit-tests them; painting is the application's.
//!
//! Sizes scale with the panel width: a length `c` on the 1072 px reference
//! panel is `c * (w + 80) / 1072` px, truncated.

use vstd::prelude::*;
use crate::fmt::ValueFormat;
use crate::px::{fits_i32, PxRect};
use crate::text::{chars_to_string, str_chars};
use crate::ui::popup::clampi;

verus! {

#[derive(Clone, Copy, Debug, PartialEq, Eq, Structural)]
pub enum EndIcon {
    /// No icon at this end.
    NoIcon,
    SunSmall,
    SunLarge,
    Gear,
    Moon,
    Minus,
    Plus,
    TextSmall,
    TextLarge,
}

/// A coordinate or length no screen comes near; layout arithmetic on such
/// values cannot overflow.
pub open spec fn sane(v: int) -> bool {
    -0x2000_0000 <= v <= 0x2000_0000
}

/// A popup's own position and size: small enough that everything laid out
/// from them is `sane`.
pub open spec fn small(v: int) -> bool {
    -0x400_0000 <= v <= 0x400_0000
}

pub open spec fn sane_rect(r: PxRect) -> bool {
    sane(r.x as int) && sane(r.y as int) && sane(r.w as int) && sane(r.h as int)
}

/// `a / b` rounded toward zero, as `as i32` truncates.
pub open spec fn tdiv(a: int, b: int) -> int {
    if a >= 0 {
        a / b
    } else {
        -((-a) / b)
    }
}

/// Law of truncating division: `i` of `n` equal parts of `d` stay within `d`.
pub proof fn lemma_prefix_width(d: int, n: int, i: int, cw: int)
    requires
        1 <= n,
        0 <= i < n,
        cw == tdiv(d, n),
    ensures
        -(if d >= 0 { d } else { -d }) <= i * cw <= (if d >= 0 { d } else { -d }),
        -(if d >= 0 { d } else { -d }) <= cw <= (if d >= 0 { d } else { -d }),
{
    if d >= 0 {
        assert(0 <= i * cw <= d && 0 <= cw <= d) by (nonlinear_arith)
            requires
                cw == d / n,
                d >= 0,
                1 <= n,
                0 <= i < n,
        ;
    } else {
        let e = -d;
        let q = e / n;
        assert(0 <= i * q <= e && 0 <= q <= e) by (nonlinear_arith)
            requires
                q == e / n,
                e > 0,
                1 <= n,
                0 <= i < n,
        ;
        assert(i * cw == -(i * q)) by (nonlinear_arith)
            requires
                cw == -q,
        ;
    }
}

/// A reference length `c` on a popup `w` px wide.
pub open spec fn scaled(c: int, w: int) -> int {
    tdiv(c * (w + 80), 1072)
}

/// `n / d` rounded to nearest, halves away from zero, for `n >= 0`, `d >= 1`.
pub open spec fn round_div(n: int, d: int) -> int {
    (2 * n + d) / (2 * d)
}

pub struct Slider {
    pub min: i32,
    pub max: i32,
    pub value: i32,
    pub step: i32,
    pub left: EndIcon,
    pub right: EndIcon,
    /// Shown centred above the track ("52%"), if any.
    pub value_fmt: Option<ValueFormat>,
    /// `(x0, x1, y)`: the ends of the track and its row.
    pub track: (i32, i32, i32),
    pub row: PxRect,
}

impl Slider {
    /// Range and step make sense, the value is in range, and the track lies
    /// on the sane plane.
    pub open spec fn wf(&self) -> bool {
        &&& self.min <= self.value <= self.max
        &&& self.step >= 1
        &&& sane(self.track.0 as int) && sane(self.track.1 as int) && sane(self.track.2 as int)
    }

    /// The value a touch at `x` selects: the position along the track mapped
    /// to the range, rounded to nearest, snapped to the step, in range.
    pub open spec fn value_at_spec(&self, x: int) -> int {
        let (x0, x1) = (self.track.0 as int, self.track.1 as int);
        let span = if x1 - x0 >= 1 { x1 - x0 } else { 1 };
        let pos = clampi(x - x0, 0, span);
        let v = self.min + round_div(pos * (self.max - self.min), span);
        let st = self.step as int;
        clampi((v - self.min + st / 2) / st * st + self.min, self.min as int, self.max as int)
    }

    pub fn value_at(&self, x: i32) -> (v: i32)
        requires
            self.wf(),
            self.value_ok(),
            fits_i32(x - self.track.0),
        ensures
            v == self.value_at_spec(x as int),
    {
        let (x0, x1, _) = self.track;
        let span: i64 = if x1 as i64 - x0 as i64 >= 1 { x1 as i64 - x0 as i64 } else { 1 };
        let d: i64 = x as i64 - x0 as i64;
        let pos: i64 = if d < 0 { 0 } else if d > span { span } else { d };
        let range: i64 = self.max as i64 - self.min as i64;
        proof {
            assert(0 <= pos * range <= span * range) by (nonlinear_arith)
                requires
                    0 <= pos <= span,
                    range >= 0,
            ;
        }
        let n: i64 = pos * range;
        let r: i64 = (2 * n + span) / (2 * span);
        proof {
            assert(r <= range) by (nonlinear_arith)
                requires
                    r == (2 * n + span) / (2 * span),
                    n <= span * range,
                    span >= 1,
                    range >= 0,
            ;
            assert(r >= 0) by (nonlinear_arith)
                requires
                    r == (2 * n + span) / (2 * span),
                    n >= 0,
                    span >= 1,
            ;
        }
        let v: i64 = self.min as i64 + r;
        let step: i64 = self.step as i64;
        let a: i64 = v - self.min as i64 + step / 2;
        let q: i64 = a / step;
        proof {
            assert(q * step <= a) by (nonlinear_arith)
                requires
                    q == a / step,
                    a >= 0,
                    step >= 1,
            ;
            assert(q * step >= 0) by (nonlinear_arith)
                requires
                    q == a / step,
                    a >= 0,
                    step >= 1,
            ;
        }
        let qs: i64 = q * step;
        let snapped: i64 = qs + self.min as i64;
        let out: i64 = if snapped < self.min as i64 {
            self.min as i64
        } else if snapped > self.max as i64 {
            self.max as i64
        } else {
            snapped
        };
        out as i32
    }

    /// Where the knob sits: the value's place between the track's ends.
    pub open spec fn knob_x_spec(&self) -> int {
        let (x0, x1) = (self.track.0 as int, self.track.1 as int);
        let range = if self.max - self.min >= 1 { self.max - self.min } else { 1 };
        x0 + tdiv((x1 - x0) * (self.value - self.min), range)
    }

    pub fn knob_x(&self) -> (k: i32)
        requires
            self.wf(),
        ensures
            k == self.knob_x_spec(),
    {
        let (x0, x1, _) = self.track;
        let range: i64 = if self.max as i64 - self.min as i64 >= 1 { self.max as i64 - self.min as i64 } else { 1 };
        let dx: i64 = x1 as i64 - x0 as i64;
        let dv: i64 = self.value as i64 - self.min as i64;
        proof {
            assert(-0x4000_0000 * (range as int) <= dx * dv <= 0x4000_0000 * (range as int)) by (nonlinear_arith)
                requires
                    -0x4000_0000 <= dx <= 0x4000_0000,
                    0 <= dv <= range,
            ;
        }
        let p: i64 = dx * dv;
        let q: i64 = if p >= 0 { p / range } else { -((-p) / range) };
        proof {
            if p >= 0 {
                assert(p / range <= 0x4000_0000) by (nonlinear_arith)
                    requires
                        0 <= p <= 0x4000_0000 * range,
                        range >= 1,
                ;
            } else {
                let np: int = -p;
                assert(np / (range as int) <= 0x4000_0000) by (nonlinear_arith)
                    requires
                        0 <= np <= 0x4000_0000 * range,
                        range >= 1,
                ;
            }
        }
        (x0 as i64 + q) as i32
    }
}

pub struct Choice {
    pub options: Vec<String>,
    pub selected: usize,
    pub rects: Vec<PxRect>,
}

pub enum Row {
    Title(String),
    Divider,
    /// Section slider, full width, optional centred value above it.
    Slider(Slider),
    /// "Label:" on the left, slider on the right, with - and + ends.
    LabeledSlider(String, Slider),
    LabeledChoice(String, Choice),
}

/// The slider a row holds.
pub open spec fn row_slider(r: Row) -> Slider {
    match r {
        Row::Slider(s) => s,
        Row::LabeledSlider(_, s) => s,
        _ => arbitrary(),
    }
}

/// The choice a row holds.
pub open spec fn row_choice(r: Row) -> Choice {
    match r {
        Row::LabeledChoice(_, c) => c,
        _ => arbitrary(),
    }
}

#[derive(Clone, Copy, Debug, PartialEq, Eq, Structural)]
pub enum PopupHit {
    Close,
    Slider(usize, i32),
    Choice(usize, usize),
    Nothing,
}

pub struct Popup {
    pub rect: PxRect,
    pub notch_x: Option<i32>,
    pub rows: Vec<(Row, PxRect)>,
    /// Row indices that hold a slider, in order.
    pub sliders: Vec<usize>,
    /// Row indices that hold a choice, in order.
    pub choices: Vec<usize>,
}

fn scale_len(c: i32, w: i32) -> (r: i32)
    requires
        0 <= c <= 1000,
        small(w as int),
        w >= 0,
    ensures
        r == scaled(c as int, w as int),
        0 <= r <= w + 80,
{
    let k: i64 = w as i64 + 80;
    proof {
        assert(0 <= (c as int) * (k as int) <= 1000 * (k as int)) by (nonlinear_arith)
            requires
                0 <= c <= 1000,
                0 <= k,
        ;
        assert(((c as int) * (k as int)) / 1072 <= k) by (nonlinear_arith)
            requires
                0 <= (c as int) * (k as int) <= 1000 * (k as int),
                0 <= k,
        ;
    }
    let p: i64 = c as i64 * k;
    (p / 1072) as i32
}

impl Popup {
    /// Rows and their rectangles stay on a sane plane; the slider and choice
    /// lists index rows of their kind; every slider is well formed.
    pub open spec fn wf(&self) -> bool {
        &&& small(self.rect.x as int) && small(self.rect.y as int) && small(self.rect.w as int) && small(self.rect.h as int)
        &&& self.rect.w >= 0
        &&& forall|i: int| 0 <= i < self.rows@.len() ==> sane_rect(#[trigger] self.rows@[i].1)
        &&& forall|i: int|
            0 <= i < self.sliders@.len() ==> {
                let r = #[trigger] self.sliders@[i];
                &&& r < self.rows@.len()
                &&& (self.rows@[r as int].0 is Slider || self.rows@[r as int].0 is LabeledSlider)
                &&& row_slider(self.rows@[r as int].0).wf()
            }
        &&& forall|i: int|
            0 <= i < self.choices@.len() ==> {
                let r = #[trigger] self.choices@[i];
                &&& r < self.rows@.len()
                &&& self.rows@[r as int].0 is LabeledChoice
                &&& forall|k: int| 0 <= k < row_choice(self.rows@[r as int].0).rects@.len()
                    ==> sane_rect(#[trigger] row_choice(self.rows@[r as int].0).rects@[k])
            }
    }

    /// Room for `extra` more px of rows on the sane plane.
    pub open spec fn room(&self, extra: int) -> bool {
        &&& small(self.rect.y + self.rect.h + extra)
        &&& small(self.rect.y + self.rect.h - 10)
        &&& small(self.rect.h + extra)
    }

    /// Slider `i`.
    pub open spec fn slider_spec(&self, i: int) -> Slider {
        row_slider(self.rows@[self.sliders@[i] as int].0)
    }

    /// Panel of width `w - 2*margin` starting at `y`; `notch_x` draws the
    /// little pointer towards the toolbar icon that opened it.
    pub fn new(w: i32, margin: i32, y: i32, notch_x: Option<i32>) -> (p: Popup)
        requires
            small(margin as int),
            small(y as int),
            small(w - 2 * margin),
            w - 2 * margin >= 0,
        ensures
            p.wf(),
            p.rect == (PxRect { x: margin, y, w: (w - 2 * margin) as i32, h: 30 }),
            p.notch_x == notch_x,
            p.rows@.len() == 0,
            p.sliders@.len() == 0,
            p.choices@.len() == 0,
    {
        Popup { rect: PxRect { x: margin, y, w: w - 2 * margin, h: 30 }, notch_x, rows: Vec::new(), sliders: Vec::new(), choices: Vec::new() }
    }

    /// Rectangle of a new row of height `h`: the panel's width, overlapping the
    /// previous bottom by 10 px.
    pub open spec fn next_row(&self, h: int) -> PxRect {
        PxRect { x: self.rect.x, y: (self.rect.y + self.rect.h - 10) as i32, w: self.rect.w, h: h as i32 }
    }

    fn push(&mut self, row: Row, h: i32)
        requires
            old(self).wf(),
            old(self).room(h as int),
            0 <= h <= old(self).rect.w + 80,
            row is Slider || row is LabeledSlider ==> row_slider(row).wf(),
            row is LabeledChoice ==> forall|k: int| 0 <= k < row_choice(row).rects@.len()
                ==> sane_rect(#[trigger] row_choice(row).rects@[k]),
        ensures
            final(self).rect == (PxRect { h: (old(self).rect.h + h) as i32, ..old(self).rect }),
            final(self).rows@ == old(self).rows@.push((row, old(self).next_row(h as int))),
            final(self).sliders@ == old(self).sliders@,
            final(self).choices@ == old(self).choices@,
            final(self).notch_x == old(self).notch_x,
            final(self).wf(),
    {
        let r = PxRect { x: self.rect.x, y: self.rect.y + self.rect.h - 10, w: self.rect.w, h };
        self.rect.h = self.rect.h + h;
        self.rows.push((row, r));
        proof {
            let p = *self;
            assert forall|i: int| 0 <= i < p.sliders@.len() implies {
                let r = #[trigger] p.sliders@[i];
                &&& r < p.rows@.len()
                &&& (p.rows@[r as int].0 is Slider || p.rows@[r as int].0 is LabeledSlider)
                &&& row_slider(p.rows@[r as int].0).wf()
            } by {
                assert(p.rows@[p.sliders@[i] as int] == old(self).rows@[old(self).sliders@[i] as int]);
            }
            assert forall|i: int| 0 <= i < p.choices@.len() implies {
                let r = #[trigger] p.choices@[i];
                &&& r < p.rows@.len()
                &&& p.rows@[r as int].0 is LabeledChoice
                &&& forall|k: int| 0 <= k < row_choice(p.rows@[r as int].0).rects@.len()
                    ==> sane_rect(#[trigger] row_choice(p.rows@[r as int].0).rects@[k])
            } by {
                assert(p.rows@[p.choices@[i] as int] == old(self).rows@[old(self).choices@[i] as int]);
            }
        }
    }
}

/// The slider `make_slider` builds: value clamped into range, step at least one.
pub open spec fn made_slider(
    min: i32,
    max: i32,
    value: i32,
    step: i32,
    left: EndIcon,
    right: EndIcon,
    value_fmt: Option<ValueFormat>,
    row: PxRect,
    x0: int,
    x1: int,
    y: int,
) -> Slider {
    Slider {
        min,
        max,
        value: clampi(value as int, min as int, max as int) as i32,
        step: if step >= 1 { step } else { 1 },
        left,
        right,
        value_fmt,
        track: (x0 as i32, x1 as i32, y as i32),
        row,
    }
}

fn make_slider(
    min: i32,
    max: i32,
    value: i32,
    step: i32,
    left: EndIcon,
    right: EndIcon,
    value_fmt: Option<ValueFormat>,
    row: PxRect,
    x0: i32,
    x1: i32,
    y: i32,
) -> (s: Slider)
    requires
        min <= max,
    ensures
        s == made_slider(min, max, value, step, left, right, value_fmt, row, x0 as int, x1 as int, y as int),
{
    let v = if value < min { min } else if value > max { max } else { value };
    assert(v == clampi(value as int, min as int, max as int));
    Slider { min, max, value: v, step: if step >= 1 { step } else { 1 }, left, right, value_fmt, track: (x0, x1, y), row }
}

impl Slider {
    /// Taking a value anywhere along the track stays within `i32`.
    pub open spec fn value_ok(&self) -> bool {
        let span = if self.track.1 - self.track.0 >= 1 { self.track.1 - self.track.0 } else { 1 };
        &&& span * (self.max - self.min) <= i32::MAX
        &&& self.max - self.min + self.step <= i32::MAX
        &&& self.value - self.step >= i32::MIN
        &&& self.value + self.step <= i32::MAX
    }
}

/// The first of the first `n` sliders a tap at `(x, y)` changes, and its new
/// value: `-` left of the track, `+` right of it, or the point on the track.
pub open spec fn slider_hit(sl: Seq<Slider>, n: int, x: int, y: int) -> Option<PopupHit>
    decreases n,
{
    if n <= 0 {
        None
    } else {
        match slider_hit(sl, n - 1, x, y) {
            Some(h) => Some(h),
            None => {
                let s = sl[n - 1];
                let (x0, x1, ty) = (s.track.0 as int, s.track.1 as int, s.track.2 as int);
                if -40 <= y - ty <= 40 {
                    if x < x0 - 10 && x >= x0 - 90 {
                        Some(PopupHit::Slider((n - 1) as usize, (if s.value - s.step >= s.min { s.value - s.step } else { s.min as int }) as i32))
                    } else if x > x1 + 10 && x <= x1 + 90 {
                        Some(PopupHit::Slider((n - 1) as usize, (if s.value + s.step <= s.max { s.value + s.step } else { s.max as int }) as i32))
                    } else if x >= x0 - 10 && x <= x1 + 10 {
                        Some(PopupHit::Slider((n - 1) as usize, s.value_at_spec(x) as i32))
                    } else {
                        None
                    }
                } else {
                    None
                }
            },
        }
    }
}

/// The first option rectangle of the first `k` among `rects` holding `(x, y)`.
pub open spec fn rect_hit(rects: Seq<PxRect>, k: int, x: int, y: int) -> Option<usize>
    decreases k,
{
    if k <= 0 {
        None
    } else {
        match rect_hit(rects, k - 1, x, y) {
            Some(j) => Some(j),
            None => if rects[k - 1].has(x, y) { Some((k - 1) as usize) } else { None },
        }
    }
}

/// The first of the first `n` choices with an option under `(x, y)`.
pub open spec fn choice_hit(cs: Seq<Choice>, n: int, x: int, y: int) -> Option<PopupHit>
    decreases n,
{
    if n <= 0 {
        None
    } else {
        match choice_hit(cs, n - 1, x, y) {
            Some(h) => Some(h),
            None => match rect_hit(cs[n - 1].rects@, cs[n - 1].rects@.len() as int, x, y) {
                Some(k) => Some(PopupHit::Choice((n - 1) as usize, k)),
                None => None,
            },
        }
    }
}

/// The first slider whose track row is within 40 px of `y`, with `x` near the track.
pub open spec fn slider_near(sl: Seq<Slider>, n: int, x: int, y: int) -> Option<usize>
    decreases n,
{
    if n <= 0 {
        None
    } else {
        match slider_near(sl, n - 1, x, y) {
            Some(i) => Some(i),
            None => {
                let s = sl[n - 1];
                if -40 <= y - s.track.2 <= 40 && x >= s.track.0 - 30 && x <= s.track.1 + 30 {
                    Some((n - 1) as usize)
                } else {
                    None
                }
            },
        }
    }
}

proof fn lemma_slider_near_found(sl: Seq<Slider>, k: int, n: int, x: int, y: int)
    requires
        0 <= k <= n,
        slider_near(sl, k, x, y) is Some,
    ensures
        slider_near(sl, n, x, y) == slider_near(sl, k, x, y),
    decreases n - k,
{
    if n > k {
        lemma_slider_near_found(sl, k, n - 1, x, y);
    }
}

proof fn lemma_slider_hit_found(sl: Seq<Slider>, k: int, n: int, x: int, y: int)
    requires
        0 <= k <= n,
        slider_hit(sl, k, x, y) is Some,
    ensures
        slider_hit(sl, n, x, y) == slider_hit(sl, k, x, y),
    decreases n - k,
{
    if n > k {
        lemma_slider_hit_found(sl, k, n - 1, x, y);
    }
}

proof fn lemma_rect_hit_found(rs: Seq<PxRect>, k: int, n: int, x: int, y: int)
    requires
        0 <= k <= n,
        rect_hit(rs, k, x, y) is Some,
    ensures
        rect_hit(rs, n, x, y) == rect_hit(rs, k, x, y),
    decreases n - k,
{
    if n > k {
        lemma_rect_hit_found(rs, k, n - 1, x, y);
    }
}

proof fn lemma_choice_hit_found(cs: Seq<Choice>, k: int, n: int, x: int, y: int)
    requires
        0 <= k <= n,
        choice_hit(cs, k, x, y) is Some,
    ensures
        choice_hit(cs, n, x, y) == choice_hit(cs, k, x, y),
    decreases n - k,
{
    if n > k {
        lemma_choice_hit_found(cs, k, n - 1, x, y);
    }
}

impl Popup {
    /// The sliders, in order.
    pub open spec fn slider_seq(&self) -> Seq<Slider> {
        Seq::new(self.sliders@.len(), |i: int| self.slider_spec(i))
    }

    /// The choices, in order.
    pub open spec fn choice_seq(&self) -> Seq<Choice> {
        Seq::new(self.choices@.len(), |i: int| row_choice(self.rows@[self.choices@[i] as int].0))
    }

    /// Every slider can turn any point of its track into a value.
    pub open spec fn values_ok(&self) -> bool {
        forall|i: int| 0 <= i < self.sliders@.len() ==> (#[trigger] self.slider_spec(i)).value_ok()
    }

    /// What a tap at `(x, y)` does: outside the panel it closes it.
    pub open spec fn hit_spec(&self, x: int, y: int) -> PopupHit {
        if !self.rect.has(x, y) {
            PopupHit::Close
        } else {
            match slider_hit(self.slider_seq(), self.sliders@.len() as int, x, y) {
                Some(h) => h,
                None => match choice_hit(self.choice_seq(), self.choices@.len() as int, x, y) {
                    Some(h) => h,
                    None => PopupHit::Nothing,
                },
            }
        }
    }

    fn push_slider_row(&mut self, row: Row, h: i32)
        requires
            old(self).wf(),
            old(self).room(h as int),
            0 <= h <= old(self).rect.w + 80,
            row is Slider || row is LabeledSlider,
            row_slider(row).wf(),
        ensures
            final(self).rect == (PxRect { h: (old(self).rect.h + h) as i32, ..old(self).rect }),
            final(self).rows@ == old(self).rows@.push((row, old(self).next_row(h as int))),
            final(self).sliders@ == old(self).sliders@.push(old(self).rows@.len() as usize),
            final(self).choices@ == old(self).choices@,
            final(self).notch_x == old(self).notch_x,
            final(self).wf(),
    {
        let n = self.rows.len();
        self.push(row, h);
        self.sliders.push(n);
        proof {
            let p = *self;
            assert forall|i: int| 0 <= i < p.sliders@.len() implies {
                let r = #[trigger] p.sliders@[i];
                &&& r < p.rows@.len()
                &&& (p.rows@[r as int].0 is Slider || p.rows@[r as int].0 is LabeledSlider)
                &&& row_slider(p.rows@[r as int].0).wf()
            } by {
                if i < p.sliders@.len() - 1 {
                    assert(p.sliders@[i] == old(self).sliders@[i]);
                }
            }
        }
    }

    fn push_choice_row(&mut self, row: Row, h: i32)
        requires
            old(self).wf(),
            old(self).room(h as int),
            0 <= h <= old(self).rect.w + 80,
            row is LabeledChoice,
            forall|k: int| 0 <= k < row_choice(row).rects@.len() ==> sane_rect(#[trigger] row_choice(row).rects@[k]),
        ensures
            final(self).rect == (PxRect { h: (old(self).rect.h + h) as i32, ..old(self).rect }),
            final(self).rows@ == old(self).rows@.push((row, old(self).next_row(h as int))),
            final(self).sliders@ == old(self).sliders@,
            final(self).choices@ == old(self).choices@.push(old(self).rows@.len() as usize),
            final(self).notch_x == old(self).notch_x,
            final(self).wf(),
    {
        let n = self.rows.len();
        self.push(row, h);
        self.choices.push(n);
        proof {
            let p = *self;
            assert forall|i: int| 0 <= i < p.choices@.len() implies {
                let r = #[trigger] p.choices@[i];
                &&& r < p.rows@.len()
                &&& p.rows@[r as int].0 is LabeledChoice
                &&& forall|k: int| 0 <= k < row_choice(p.rows@[r as int].0).rects@.len()
                    ==> sane_rect(#[trigger] row_choice(p.rows@[r as int].0).rects@[k])
            } by {
                if i < p.choices@.len() - 1 {
                    assert(p.choices@[i] == old(self).choices@[i]);
                }
            }
        }
    }

    /// A serif section title.
    pub fn title(&mut self, t: &str) -> (r: &mut Self)
        requires
            old(self).wf(),
            old(self).room(scaled(70, old(self).rect.w as int)),
        ensures
            *final(self) == *final(r),
            r.wf(),
            r.rect == (PxRect { h: (old(self).rect.h + scaled(70, old(self).rect.w as int)) as i32, ..old(self).rect }),
            r.rows@.len() == old(self).rows@.len() + 1,
            r.rows@.drop_last() == old(self).rows@,
            r.rows@.last().0 matches Row::Title(s) && s@ == t@,
            r.rows@.last().1 == old(self).next_row(scaled(70, old(self).rect.w as int)),
            r.sliders@ == old(self).sliders@,
            r.choices@ == old(self).choices@,
            r.notch_x == old(self).notch_x,
    {
        let h = scale_len(70, self.rect.w);
        let text = chars_to_string(str_chars(t).as_slice());
        self.push(Row::Title(text), h);
        assert(self.rows@.drop_last() =~= old(self).rows@);
        self
    }

    /// A thin divider.
    pub fn divider(&mut self) -> (r: &mut Self)
        requires
            old(self).wf(),
            old(self).room(scaled(30, old(self).rect.w as int)),
        ensures
            *final(self) == *final(r),
            r.wf(),
            r.rect == (PxRect { h: (old(self).rect.h + scaled(30, old(self).rect.w as int)) as i32, ..old(self).rect }),
            r.rows@.len() == old(self).rows@.len() + 1,
            r.rows@.drop_last() == old(self).rows@,
            r.rows@.last().0 is Divider,
            r.rows@.last().1 == old(self).next_row(scaled(30, old(self).rect.w as int)),
            r.sliders@ == old(self).sliders@,
            r.choices@ == old(self).choices@,
            r.notch_x == old(self).notch_x,
    {
        let h = scale_len(30, self.rect.w);
        self.push(Row::Divider, h);
        assert(self.rows@.drop_last() =~= old(self).rows@);
        self
    }

    /// A full-width section slider, with its value shown above when `value_fmt` is given.
    pub fn slider(
        &mut self,
        min: i32,
        max: i32,
        value: i32,
        step: i32,
        left: EndIcon,
        right: EndIcon,
        value_fmt: Option<ValueFormat>,
    ) -> (r: &mut Self)
        requires
            old(self).wf(),
            min <= max,
            old(self).room(scaled(if value_fmt is Some { 130 } else { 90 }, old(self).rect.w as int)),
        ensures
            *final(self) == *final(r),
            r.wf(),
            ({
                let w = old(self).rect.w as int;
                let h = scaled(if value_fmt is Some { 130 } else { 90 }, w);
                let row = old(self).next_row(h);
                let pad = scaled(110, w);
                &&& r.rect == (PxRect { h: (old(self).rect.h + h) as i32, ..old(self).rect })
                &&& r.rows@ == old(self).rows@.push(
                    (Row::Slider(made_slider(min, max, value, step, left, right, value_fmt, row, row.x + pad, row.x + row.w - pad, row.y + h - scaled(50, w))), row),
                )
            }),
            r.sliders@ == old(self).sliders@.push(old(self).rows@.len() as usize),
            r.choices@ == old(self).choices@,
            r.notch_x == old(self).notch_x,
    {
        let w = self.rect.w;
        let h = scale_len(if value_fmt.is_some() { 130 } else { 90 }, w);
        let row = PxRect { x: self.rect.x, y: self.rect.y + self.rect.h - 10, w: self.rect.w, h };
        let pad = scale_len(110, w);
        let s50 = scale_len(50, w);
        let y = row.y + h - s50;
        let sl = make_slider(min, max, value, step, left, right, value_fmt, row, row.x + pad, row.x + row.w - pad, y);
        self.push_slider_row(Row::Slider(sl), h);
        self
    }

    /// "Label:" on the left, a slider with - and + ends on the right.
    pub fn labeled_slider(&mut self, label: &str, min: i32, max: i32, value: i32, step: i32) -> (r: &mut Self)
        requires
            old(self).wf(),
            min <= max,
            old(self).room(scaled(100, old(self).rect.w as int)),
        ensures
            *final(self) == *final(r),
            r.wf(),
            ({
                let w = old(self).rect.w as int;
                let h = scaled(100, w);
                let row = old(self).next_row(h);
                &&& r.rect == (PxRect { h: (old(self).rect.h + h) as i32, ..old(self).rect })
                &&& r.rows@.len() == old(self).rows@.len() + 1
                &&& r.rows@.drop_last() == old(self).rows@
                &&& r.rows@.last().1 == row
                &&& r.rows@.last().0 matches Row::LabeledSlider(l, s) && l@ == label@ && s == made_slider(
                    min,
                    max,
                    value,
                    step,
                    EndIcon::Minus,
                    EndIcon::Plus,
                    None,
                    row,
                    row.x + scaled(330, w),
                    row.x + row.w - scaled(130, w),
                    row.y + h / 2,
                )
            }),
            r.sliders@ == old(self).sliders@.push(old(self).rows@.len() as usize),
            r.choices@ == old(self).choices@,
            r.notch_x == old(self).notch_x,
    {
        let w = self.rect.w;
        let h = scale_len(100, w);
        let row = PxRect { x: self.rect.x, y: self.rect.y + self.rect.h - 10, w: self.rect.w, h };
        let x0 = row.x + scale_len(330, w);
        let x1 = row.x + row.w - scale_len(130, w);
        let y = row.y + h / 2;
        let sl = make_slider(min, max, value, step, EndIcon::Minus, EndIcon::Plus, None, row, x0, x1, y);
        let text = chars_to_string(str_chars(label).as_slice());
        self.push_slider_row(Row::LabeledSlider(text, sl), h);
        assert(self.rows@.drop_last() =~= old(self).rows@);
        self
    }

    /// "Label:" on the left, one segment per option on the right.
    pub fn labeled_choice(&mut self, label: &str, options: &[&str], selected: usize) -> (r: &mut Self)
        requires
            old(self).wf(),
            options@.len() <= i32::MAX,
            old(self).room(scaled(100, old(self).rect.w as int)),
        ensures
            *final(self) == *final(r),
            r.wf(),
            ({
                let w = old(self).rect.w as int;
                let h = scaled(100, w);
                let row = old(self).next_row(h);
                let x0 = row.x + scaled(300, w);
                let x1 = row.x + row.w - scaled(40, w);
                let n = if options@.len() >= 1 { options@.len() as int } else { 1 };
                let cw = tdiv(x1 - x0, n);
                &&& r.rect == (PxRect { h: (old(self).rect.h + h) as i32, ..old(self).rect })
                &&& r.rows@.len() == old(self).rows@.len() + 1
                &&& r.rows@.drop_last() == old(self).rows@
                &&& r.rows@.last().1 == row
                &&& r.rows@.last().0 matches Row::LabeledChoice(l, c) && l@ == label@ && c.selected == selected
                    && c.options@.len() == options@.len() && (forall|k: int| 0 <= k < options@.len() ==> (#[trigger] c.options@[k])@
                    == options@[k]@) && c.rects@ == Seq::new(
                    n as nat,
                    |k: int|
                        PxRect {
                            x: (x0 + k * cw) as i32,
                            y: (row.y + h / 2 - scaled(30, w)) as i32,
                            w: cw as i32,
                            h: scaled(60, w) as i32,
                        },
                )
            }),
            r.sliders@ == old(self).sliders@,
            r.choices@ == old(self).choices@.push(old(self).rows@.len() as usize),
            r.notch_x == old(self).notch_x,
    {
        let w = self.rect.w;
        let h = scale_len(100, w);
        let row = PxRect { x: self.rect.x, y: self.rect.y + self.rect.h - 10, w: self.rect.w, h };
        let x0 = row.x + scale_len(300, w);
        let x1 = row.x + row.w - scale_len(40, w);
        let n: i32 = if options.len() >= 1 { options.len() as i32 } else { 1 };
        let d: i32 = x1 - x0;
        let cw: i32 = if d >= 0 { d / n } else { -((-d) / n) };
        let top = row.y + h / 2 - scale_len(30, w);
        let ch = scale_len(60, w);
        let ghost want = Seq::new(
            n as nat,
            |k: int| PxRect { x: (x0 + k * cw) as i32, y: top, w: cw, h: ch },
        );
        let mut rects: Vec<PxRect> = Vec::new();
        let mut i: i32 = 0;
        while i < n
            invariant
                0 <= i <= n,
                n >= 1,
                -0x900_0000 <= x0 <= 0x900_0000,
                -0x500_0000 <= d <= 0x500_0000,
                cw == tdiv(d as int, n as int),
                want == Seq::new(n as nat, |k: int| PxRect { x: (x0 + k * cw) as i32, y: top, w: cw, h: ch }),
                rects@ == want.take(i as int),
                sane(top as int),
                0 <= ch <= 0x500_0000,
                want.len() == n,
                forall|k: int| 0 <= k < rects@.len() ==> sane_rect(#[trigger] rects@[k]),
            decreases n - i,
        {
            proof {
                lemma_prefix_width(d as int, n as int, i as int, cw as int);
            }
            let px: i64 = x0 as i64 + (i as i64) * (cw as i64);
            assert(px == x0 + (i as int) * (cw as int));
            let rc = PxRect { x: px as i32, y: top, w: cw, h: ch };
            assert(rc.x == want[i as int].x);
            assert(rc.y == want[i as int].y);
            assert(rc.w == want[i as int].w);
            assert(rc.h == want[i as int].h);
            rects.push(rc);
            assert(want.take(i + 1) =~= want.take(i as int).push(want[i as int]));
            i = i + 1;
        }
        let mut opts: Vec<String> = Vec::new();
        let mut k: usize = 0;
        while k < options.len()
            invariant
                k <= options@.len(),
                opts@.len() == k,
                forall|j: int| 0 <= j < k ==> (#[trigger] opts@[j])@ == options@[j]@,
            decreases options@.len() - k,
        {
            opts.push(chars_to_string(str_chars(options[k]).as_slice()));
            k = k + 1;
        }
        let text = chars_to_string(str_chars(label).as_slice());
        self.push_choice_row(Row::LabeledChoice(text, Choice { options: opts, selected, rects }), h);
        assert(self.rows@.drop_last() =~= old(self).rows@);
        self
    }

    /// Closes the panel with its bottom margin.
    pub fn finish(&mut self)
        requires
            old(self).wf(),
            old(self).room(scaled(20, old(self).rect.w as int)),
        ensures
            final(self).wf(),
            final(self).rect == (PxRect { h: (old(self).rect.h + scaled(20, old(self).rect.w as int)) as i32, ..old(self).rect }),
            final(self).rows@ == old(self).rows@,
            final(self).sliders@ == old(self).sliders@,
            final(self).choices@ == old(self).choices@,
            final(self).notch_x == old(self).notch_x,
    {
        let h = scale_len(20, self.rect.w);
        self.rect.h = self.rect.h + h;
    }

    pub fn slider_count(&self) -> (n: usize)
        ensures
            n == self.sliders@.len(),
    {
        self.sliders.len()
    }

    pub fn slider_ref(&self, i: usize) -> (s: &Slider)
        requires
            self.wf(),
            i < self.sliders@.len(),
        ensures
            *s == self.slider_spec(i as int),
    {
        let idx = self.sliders[i];
        assert(idx == self.sliders@[i as int]);
        match &self.rows[idx].0 {
            Row::Slider(s) => s,
            Row::LabeledSlider(_, s) => s,
            _ => vstd::pervasive::unreached(),
        }
    }

    pub fn slider_value(&self, i: usize) -> (v: i32)
        requires
            self.wf(),
            i < self.sliders@.len(),
        ensures
            v == self.slider_spec(i as int).value,
    {
        self.slider_ref(i).value
    }

    pub fn slider_value_at(&self, i: usize, x: i32) -> (v: i32)
        requires
            self.wf(),
            i < self.sliders@.len(),
            self.slider_spec(i as int).value_ok(),
            fits_i32(x - self.slider_spec(i as int).track.0),
        ensures
            v == self.slider_spec(i as int).value_at_spec(x as int),
    {
        self.slider_ref(i).value_at(x)
    }

    /// Slider under a finger (its track row, any x), for dragging.
    pub fn slider_at(&self, x: i32, y: i32) -> (r: Option<usize>)
        requires
            self.wf(),
            sane(x as int),
            sane(y as int),
        ensures
            r == slider_near(self.slider_seq(), self.sliders@.len() as int, x as int, y as int),
    {
        let mut i: usize = 0;
        while i < self.sliders.len()
            invariant
                i <= self.sliders@.len(),
                self.wf(),
                sane(x as int),
                sane(y as int),
                slider_near(self.slider_seq(), i as int, x as int, y as int) is None,
            decreases self.sliders@.len() - i,
        {
            let s = self.slider_ref(i);
            assert(self.slider_seq()[i as int] == self.slider_spec(i as int));
            assert(s.wf());
            let (x0, x1, ty) = s.track;
            let dy = y - ty;
            if -40 <= dy && dy <= 40 && x >= x0 - 30 && x <= x1 + 30 {
                proof {
                    lemma_slider_near_found(self.slider_seq(), i + 1, self.sliders@.len() as int, x as int, y as int);
                }
                return Some(i);
            }
            i = i + 1;
        }
        None
    }

    pub fn hit(&self, x: i32, y: i32) -> (h: PopupHit)
        requires
            self.wf(),
            self.values_ok(),
        ensures
            h == self.hit_spec(x as int, y as int),
    {
        if !self.rect.contains(x, y) {
            return PopupHit::Close;
        }
        let mut i: usize = 0;
        while i < self.sliders.len()
            invariant
                i <= self.sliders@.len(),
                self.wf(),
                self.values_ok(),
                self.rect.has(x as int, y as int),
                slider_hit(self.slider_seq(), i as int, x as int, y as int) is None,
            decreases self.sliders@.len() - i,
        {
            let s = self.slider_ref(i);
            assert(self.slider_seq()[i as int] == self.slider_spec(i as int));
            assert(s.wf() && s.value_ok());
            let (x0, x1, ty) = s.track;
            let dy = y - ty;
            if -40 <= dy && dy <= 40 {
                if x < x0 - 10 && x >= x0 - 90 {
                    let v = if s.value - s.step >= s.min { s.value - s.step } else { s.min };
                    proof {
                        lemma_slider_hit_found(self.slider_seq(), i + 1, self.sliders@.len() as int, x as int, y as int);
                    }
                    return PopupHit::Slider(i, v);
                }
                if x > x1 + 10 && x <= x1 + 90 {
                    let v = if s.value + s.step <= s.max { s.value + s.step } else { s.max };
                    proof {
                        lemma_slider_hit_found(self.slider_seq(), i + 1, self.sliders@.len() as int, x as int, y as int);
                    }
                    return PopupHit::Slider(i, v);
                }
                if x >= x0 - 10 && x <= x1 + 10 {
                    let v = s.value_at(x);
                    proof {
                        lemma_slider_hit_found(self.slider_seq(), i + 1, self.sliders@.len() as int, x as int, y as int);
                    }
                    return PopupHit::Slider(i, v);
                }
            }
            i = i + 1;
        }
        let mut c: usize = 0;
        while c < self.choices.len()
            invariant
                c <= self.choices@.len(),
                self.wf(),
                self.rect.has(x as int, y as int),
                slider_hit(self.slider_seq(), self.sliders@.len() as int, x as int, y as int) is None,
                choice_hit(self.choice_seq(), c as int, x as int, y as int) is None,
            decreases self.choices@.len() - c,
        {
            let idx = self.choices[c];
            assert(self.choice_seq()[c as int] == row_choice(self.rows@[idx as int].0));
            match &self.rows[idx].0 {
                Row::LabeledChoice(_, ch) => {
                    assert(*ch == self.choice_seq()[c as int]);
                    let mut k: usize = 0;
                    while k < ch.rects.len()
                        invariant
                            k <= ch.rects@.len(),
                            c < self.choices@.len(),
                            *ch == self.choice_seq()[c as int],
                            choice_hit(self.choice_seq(), c as int, x as int, y as int) is None,
                            slider_hit(self.slider_seq(), self.sliders@.len() as int, x as int, y as int) is None,
                            self.rect.has(x as int, y as int),
                            forall|j: int| 0 <= j < ch.rects@.len() ==> sane_rect(#[trigger] ch.rects@[j]),
                            rect_hit(ch.rects@, k as int, x as int, y as int) is None,
                        decreases ch.rects@.len() - k,
                    {
                        assert(sane_rect(ch.rects@[k as int]));
                        if ch.rects[k].contains(x, y) {
                            proof {
                                lemma_rect_hit_found(ch.rects@, k + 1, ch.rects@.len() as int, x as int, y as int);
                                assert(choice_hit(self.choice_seq(), c + 1, x as int, y as int) == Some(PopupHit::Choice(c, k)));
                                lemma_choice_hit_found(self.choice_seq(), c + 1, self.choices@.len() as int, x as int, y as int);
                            }
                            return PopupHit::Choice(c, k);
                        }
                        k = k + 1;
                    }
                },
                _ => {},
            }
            c = c + 1;
        }
        PopupHit::Nothing
    }
}

/// The row with its slider replaced by `s`.
pub open spec fn with_slider(r: Row, s: Slider) -> Row {
    match r {
        Row::Slider(_) => Row::Slider(s),
        Row::LabeledSlider(l, _) => Row::LabeledSlider(l, s),
        _ => r,
    }
}

/// The row with its choice's selection set to `k`.
pub open spec fn with_selected(r: Row, k: usize) -> Row {
    match r {
        Row::LabeledChoice(l, c) => Row::LabeledChoice(l, Choice { selected: k, ..c }),
        _ => r,
    }
}

impl Popup {
    /// Set slider `i` to `value`, kept in range.
    pub fn set_slider(&mut self, i: usize, value: i32)
        requires
            old(self).wf(),
            i < old(self).sliders@.len(),
        ensures
            final(self).wf(),
            ({
                let idx = old(self).sliders@[i as int] as int;
                let s = old(self).slider_spec(i as int);
                final(self).rows@ == old(self).rows@.update(
                    idx,
                    (with_slider(old(self).rows@[idx].0, Slider { value: clampi(value as int, s.min as int, s.max as int) as i32, ..s }), old(self).rows@[idx].1),
                )
            }),
            final(self).rect == old(self).rect,
            final(self).sliders@ == old(self).sliders@,
            final(self).choices@ == old(self).choices@,
            final(self).notch_x == old(self).notch_x,
    {
        let idx = self.sliders[i];
        let cur = self.slider_ref(i);
        let v = if value < cur.min { cur.min } else if value > cur.max { cur.max } else { value };
        let (row, rect) = self.rows.remove(idx);
        let row = match row {
            Row::Slider(s) => Row::Slider(Slider { value: v, ..s }),
            Row::LabeledSlider(l, s) => Row::LabeledSlider(l, Slider { value: v, ..s }),
            other => other,
        };
        self.rows.insert(idx, (row, rect));
        proof {
            assert(self.rows@ =~= old(self).rows@.update(idx as int, (row, rect)));
            lemma_update_keeps_wf(*old(self), *self, idx as int);
        }
    }

    /// Raise or lower slider `i`'s maximum (at least one above its minimum),
    /// bringing the value down with it.
    pub fn set_slider_max(&mut self, i: usize, max: i32)
        requires
            old(self).wf(),
            i < old(self).sliders@.len(),
            old(self).slider_spec(i as int).min < i32::MAX,
        ensures
            final(self).wf(),
            ({
                let idx = old(self).sliders@[i as int] as int;
                let s = old(self).slider_spec(i as int);
                let m = if max >= s.min + 1 { max as int } else { s.min + 1 };
                final(self).rows@ == old(self).rows@.update(
                    idx,
                    (with_slider(old(self).rows@[idx].0, Slider { max: m as i32, value: (if s.value <= m { s.value as int } else { m }) as i32, ..s }), old(self).rows@[idx].1),
                )
            }),
            final(self).rect == old(self).rect,
            final(self).sliders@ == old(self).sliders@,
            final(self).choices@ == old(self).choices@,
            final(self).notch_x == old(self).notch_x,
    {
        let idx = self.sliders[i];
        let cur = self.slider_ref(i);
        let m = if max >= cur.min + 1 { max } else { cur.min + 1 };
        let v = if cur.value <= m { cur.value } else { m };
        let (row, rect) = self.rows.remove(idx);
        let row = match row {
            Row::Slider(s) => Row::Slider(Slider { max: m, value: v, ..s }),
            Row::LabeledSlider(l, s) => Row::LabeledSlider(l, Slider { max: m, value: v, ..s }),
            other => other,
        };
        self.rows.insert(idx, (row, rect));
        proof {
            assert(self.rows@ =~= old(self).rows@.update(idx as int, (row, rect)));
            lemma_update_keeps_wf(*old(self), *self, idx as int);
        }
    }

    /// Select option `selected` of choice `c` (the last one if out of range).
    pub fn set_choice(&mut self, c: usize, selected: usize)
        requires
            old(self).wf(),
            c < old(self).choices@.len(),
            row_choice(old(self).rows@[old(self).choices@[c as int] as int].0).options@.len() >= 1,
        ensures
            final(self).wf(),
            ({
                let idx = old(self).choices@[c as int] as int;
                let n = row_choice(old(self).rows@[idx].0).options@.len();
                final(self).rows@ == old(self).rows@.update(
                    idx,
                    (with_selected(old(self).rows@[idx].0, (if selected < n { selected as int } else { n - 1 }) as usize), old(self).rows@[idx].1),
                )
            }),
            final(self).rect == old(self).rect,
            final(self).sliders@ == old(self).sliders@,
            final(self).choices@ == old(self).choices@,
            final(self).notch_x == old(self).notch_x,
    {
        let idx = self.choices[c];
        let (row, rect) = self.rows.remove(idx);
        let row = match row {
            Row::LabeledChoice(l, ch) => {
                let n = ch.options.len();
                let k = if selected < n { selected } else { n - 1 };
                Row::LabeledChoice(l, Choice { selected: k, ..ch })
            },
            other => other,
        };
        self.rows.insert(idx, (row, rect));
        proof {
            assert(self.rows@ =~= old(self).rows@.update(idx as int, (row, rect)));
            lemma_update_keeps_wf(*old(self), *self, idx as int);
        }
    }
}

/// Replacing one row by one of the same kind, with a well-formed slider or
/// sane option rectangles, keeps a popup well formed.
proof fn lemma_update_keeps_wf(p: Popup, q: Popup, idx: int)
    requires
        p.wf(),
        0 <= idx < p.rows@.len(),
        q.rect == p.rect,
        q.sliders@ == p.sliders@,
        q.choices@ == p.choices@,
        q.rows@.len() == p.rows@.len(),
        forall|j: int| 0 <= j < p.rows@.len() && j != idx ==> q.rows@[j] == p.rows@[j],
        q.rows@[idx].1 == p.rows@[idx].1,
        p.rows@[idx].0 is Slider <==> q.rows@[idx].0 is Slider,
        p.rows@[idx].0 is LabeledSlider <==> q.rows@[idx].0 is LabeledSlider,
        p.rows@[idx].0 is LabeledChoice <==> q.rows@[idx].0 is LabeledChoice,
        q.rows@[idx].0 is Slider || q.rows@[idx].0 is LabeledSlider ==> row_slider(q.rows@[idx].0).wf(),
        q.rows@[idx].0 is LabeledChoice ==> row_choice(q.rows@[idx].0).rects@ == row_choice(p.rows@[idx].0).rects@,
    ensures
        q.wf(),
{
    assert forall|i: int| 0 <= i < q.rows@.len() implies sane_rect(#[trigger] q.rows@[i].1) by {
        assert(sane_rect(p.rows@[i].1));
    }
    assert forall|i: int| 0 <= i < q.sliders@.len() implies {
        let r = #[trigger] q.sliders@[i];
        &&& r < q.rows@.len()
        &&& (q.rows@[r as int].0 is Slider || q.rows@[r as int].0 is LabeledSlider)
        &&& row_slider(q.rows@[r as int].0).wf()
    } by {
        assert(p.sliders@[i] == q.sliders@[i]);
    }
    assert forall|i: int| 0 <= i < q.choices@.len() implies {
        let r = #[trigger] q.choices@[i];
        &&& r < q.rows@.len()
        &&& q.rows@[r as int].0 is LabeledChoice
        &&& forall|k: int| 0 <= k < row_choice(q.rows@[r as int].0).rects@.len()
            ==> sane_rect(#[trigger] row_choice(q.rows@[r as int].0).rects@[k])
    } by {
        assert(p.choices@[i] == q.choices@[i]);
    }
}

/// Law: a touch on a slider selects a value within its range that is its
/// maximum or a whole number of steps above its minimum; a touch at or left of
/// the track's start selects the minimum; and the value never falls as the
/// touch moves right.
pub proof fn lemma_value_at_law(s: Slider, x: int, x2: int)
    requires
        s.wf(),
    ensures
        s.min <= s.value_at_spec(x) <= s.max,
        s.value_at_spec(x) == s.max || (s.value_at_spec(x) - s.min) % (s.step as int) == 0,
        x <= s.track.0 ==> s.value_at_spec(x) == s.min,
        x <= x2 ==> s.value_at_spec(x) <= s.value_at_spec(x2),
{
    let (x0, x1) = (s.track.0 as int, s.track.1 as int);
    let span = if x1 - x0 >= 1 { x1 - x0 } else { 1 };
    let range = s.max - s.min;
    let st = s.step as int;
    let p1 = clampi(x - x0, 0, span);
    let p2 = clampi(x2 - x0, 0, span);
    let n1 = 2 * (p1 * range) + span;
    let n2 = 2 * (p2 * range) + span;
    let v1 = s.min + round_div(p1 * range, span);
    let v2 = s.min + round_div(p2 * range, span);
    assert(0 <= p1 * range) by (nonlinear_arith)
        requires
            0 <= p1,
            0 <= range,
    ;
    assert(v1 >= s.min) by (nonlinear_arith)
        requires
            v1 == s.min + (2 * (p1 * range) + span) / (2 * span),
            0 <= p1 * range,
            span >= 1,
    ;
    let t1 = v1 - s.min + st / 2;
    let t2 = v2 - s.min + st / 2;
    let q1 = t1 / st;
    let q2 = t2 / st;
    let w1 = q1 * st + s.min;
    let w2 = q2 * st + s.min;
    assert(s.value_at_spec(x) == clampi(w1, s.min as int, s.max as int));
    assert(s.value_at_spec(x2) == clampi(w2, s.min as int, s.max as int));
    // the step
    vstd::arithmetic::div_mod::lemma_mod_multiples_basic(q1, st);
    assert((w1 - s.min) == q1 * st);
    // the start of the track
    if x <= x0 {
        assert(p1 == 0);
        assert(p1 * range == 0) by (nonlinear_arith)
            requires
                p1 == 0,
        ;
        assert(span / (2 * span) == 0) by (nonlinear_arith)
            requires
                span >= 1,
        ;
        assert(v1 == s.min);
        assert(st / 2 / st == 0) by (nonlinear_arith)
            requires
                st >= 1,
        ;
        assert(q1 == 0);
        assert(q1 * st == 0) by (nonlinear_arith)
            requires
                q1 == 0,
        ;
        assert(w1 == s.min);
    }
    // monotone in the touch
    if x <= x2 {
        assert(p1 <= p2);
        assert(p1 * range <= p2 * range) by (nonlinear_arith)
            requires
                p1 <= p2,
                0 <= range,
        ;
        vstd::arithmetic::div_mod::lemma_div_is_ordered(n1, n2, 2 * span);
        assert(v1 <= v2);
        assert(t1 >= 0) by (nonlinear_arith)
            requires
                v1 >= s.min,
                st >= 1,
                t1 == v1 - s.min + st / 2,
        ;
        vstd::arithmetic::div_mod::lemma_div_is_ordered(t1, t2, st);
        assert(q1 * st <= q2 * st) by (nonlinear_arith)
            requires
                q1 <= q2,
                st >= 1,
        ;
    }
}

/// The popup builder's calls.
pub enum BuildCall {
    Title,
    Divider,
    Slider,
    LabeledSlider,
    LabeledChoice,
    Finish,
}

/// How many of `cs` add a slider.
pub open spec fn slider_calls(cs: Seq<BuildCall>) -> nat
    decreases cs.len(),
{
    if cs.len() == 0 {
        0
    } else {
        slider_calls(cs.drop_last()) + match cs.last() {
            BuildCall::Slider | BuildCall::LabeledSlider => 1nat,
            _ => 0nat,
        }
    }
}

/// What one builder call does to the slider list, as the builders' contracts
/// state it: `slider` and `labeled_slider` add the new row, the others keep
/// the list.
pub open spec fn slider_step(a: Popup, c: BuildCall, b: Popup) -> bool {
    match c {
        BuildCall::Slider | BuildCall::LabeledSlider => b.sliders@ == a.sliders@.push(a.rows@.len() as usize),
        _ => b.sliders@ == a.sliders@,
    }
}

/// Law: a popup built from `Popup::new` by the calls `cs` (`ps[i + 1]` being
/// the popup after `cs[i]`) holds one slider per `slider` or
/// `labeled_slider` call.
pub proof fn lemma_slider_count(ps: Seq<Popup>, cs: Seq<BuildCall>)
    requires
        ps.len() == cs.len() + 1,
        ps[0].sliders@.len() == 0,
        forall|i: int| 0 <= i < cs.len() ==> slider_step(ps[i], #[trigger] cs[i], ps[i + 1]),
    ensures
        ps.last().sliders@.len() == slider_calls(cs),
    decreases cs.len(),
{
    if cs.len() > 0 {
        let k = cs.len() - 1;
        assert forall|i: int| 0 <= i < cs.drop_last().len() implies
            slider_step(ps.drop_last()[i], #[trigger] cs.drop_last()[i], ps.drop_last()[i + 1]) by {
            assert(cs.drop_last()[i] == cs[i]);
            assert(slider_step(ps[i], cs[i], ps[i + 1]));
        }
        lemma_slider_count(ps.drop_last(), cs.drop_last());
        assert(slider_step(ps[k], cs[k], ps[k + 1]));
        assert(cs.last() == cs[k]);
    }
}

} // verus!
