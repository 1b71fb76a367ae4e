//! Nickel's reading-view header: status line (clock, battery) and a toolbar
//! with a back arrow, a bold title and line icons on the right, over a thin
//! separator. 150 px tall on a 1072 px wide panel; scales with width. This
//! module lays the bar out and hit-tests it; painting is the application's.

use vstd::prelude::*;
use crate::pxui::popup::{small, tdiv};
use crate::px::PxRect;

verus! {

#[derive(Clone, Copy, Debug, PartialEq, Eq, Structural)]
pub enum BarAction {
    Back,
    Brightness,
    Text,
    Keyboard,
    Settings,
    More,
    Nothing,
}

#[derive(Clone, Debug, Default, PartialEq, Eq)]
pub struct BarStatus {
    pub clock: String,
    pub title: String,
    pub battery_pct: Option<u8>,
    pub charging: bool,
}

pub struct TopBar {
    pub w: i32,
    pub h: i32,
    pub margin: i32,
    pub buttons: Vec<(BarAction, PxRect)>,
}

/// Bar height on a panel `w` px wide.
pub open spec fn bar_height(w: int) -> int {
    tdiv(150 * w, 1072)
}

/// The toolbar's buttons on a panel `w` px wide: five icons right to left,
/// then the back button spanning what is left on the left.
pub open spec fn bar_buttons(w: int) -> Seq<(BarAction, PxRect)> {
    let h = bar_height(w);
    let margin = tdiv(40 * w, 1072);
    let step = tdiv(72 * w, 1072);
    let cy = tdiv(h * 70, 100);
    let cx0 = w - margin - tdiv(step, 2);
    let icon = |k: int| PxRect { x: (cx0 - k * step - tdiv(step, 2)) as i32, y: (cy - 45) as i32, w: step as i32, h: 90 };
    seq![
        (BarAction::More, icon(0)),
        (BarAction::Settings, icon(1)),
        (BarAction::Keyboard, icon(2)),
        (BarAction::Text, icon(3)),
        (BarAction::Brightness, icon(4)),
        (BarAction::Back, PxRect { x: 0, y: (cy - 45) as i32, w: (cx0 - 5 * step + tdiv(step, 2)) as i32, h: 90 }),
    ]
}

/// The action of the first of the first `n` buttons under `(x, y)`.
pub open spec fn bar_hit(bs: Seq<(BarAction, PxRect)>, n: int, x: int, y: int) -> Option<BarAction>
    decreases n,
{
    if n <= 0 {
        None
    } else {
        match bar_hit(bs, n - 1, x, y) {
            Some(a) => Some(a),
            None => if bs[n - 1].1.has(x, y) { Some(bs[n - 1].0) } else { None },
        }
    }
}

/// `a / b` rounded toward zero.
fn div_trunc(a: i64, b: i64) -> (q: i64)
    requires
        b >= 1,
        -0x1_0000_0000_0000 <= a <= 0x1_0000_0000_0000,
    ensures
        q == tdiv(a as int, b as int),
{
    if a >= 0 {
        a / b
    } else {
        -((-a) / b)
    }
}

proof fn lemma_tdiv_bound(a: int, b: int, m: int)
    requires
        b >= 1,
        -m <= a <= m,
    ensures
        -m <= tdiv(a, b) <= m,
{
    if a >= 0 {
        assert(a / b <= a) by (nonlinear_arith)
            requires
                a >= 0,
                b >= 1,
        ;
    } else {
        let e = -a;
        assert(e / b <= e) by (nonlinear_arith)
            requires
                e >= 0,
                b >= 1,
        ;
    }
}

impl TopBar {
    pub fn new(w: i32) -> (t: TopBar)
        requires
            small(w as int),
        ensures
            t.w == w,
            t.h == bar_height(w as int),
            t.margin == tdiv(40 * w, 1072),
            t.buttons@ == bar_buttons(w as int),
    {
        proof {
            lemma_tdiv_bound(150 * w, 1072, 150 * 0x400_0000int);
            lemma_tdiv_bound(40 * w, 1072, 40 * 0x400_0000int);
            lemma_tdiv_bound(72 * w, 1072, 72 * 0x400_0000int);
        }
        let h = div_trunc(150 * w as i64, 1072);
        let margin = div_trunc(40 * w as i64, 1072);
        let step = div_trunc(72 * w as i64, 1072);
        proof {
            lemma_tdiv_bound(h * 70, 100, 0x4000_0000);
            lemma_tdiv_bound(step as int, 2, 0x4000_0000);
        }
        let cy = div_trunc(h * 70, 100);
        let half = div_trunc(step, 2);
        let ghost want = bar_buttons(w as int);
        let mut cx: i64 = w as i64 - margin - half;
        let ghost cx0 = cx;
        let mut buttons: Vec<(BarAction, PxRect)> = Vec::new();
        let actions = [BarAction::More, BarAction::Settings, BarAction::Keyboard, BarAction::Text, BarAction::Brightness];
        let mut k: usize = 0;
        while k < 5
            invariant
                k <= 5,
                actions@ == seq![BarAction::More, BarAction::Settings, BarAction::Keyboard, BarAction::Text, BarAction::Brightness],
                cx == cx0 - k * step,
                -0x1000_0000 <= cx0 <= 0x1000_0000,
                -0x100_0000 <= step <= 0x100_0000,
                -0x1000_0000 <= half <= 0x1000_0000,
                -0x1000_0000 <= cy <= 0x1000_0000,
                want == bar_buttons(w as int),
                cx0 == w - tdiv(40 * w, 1072) - tdiv(tdiv(72 * w, 1072), 2),
                step == tdiv(72 * w, 1072),
                half == tdiv(step as int, 2),
                cy == tdiv(tdiv(150 * w, 1072) * 70, 100),
                buttons@ == want.take(k as int),
            decreases 5 - k,
        {
            let r = PxRect { x: (cx - half) as i32, y: (cy - 45) as i32, w: step as i32, h: 90 };
            buttons.push((actions[k], r));
            assert(want.take(k + 1) =~= want.take(k as int).push(want[k as int]));
            cx = cx - step;
            k = k + 1;
        }
        buttons.push((BarAction::Back, PxRect { x: 0, y: (cy - 45) as i32, w: (cx + half) as i32, h: 90 }));
        assert(buttons@ =~= want);
        TopBar { w, h: h as i32, margin: margin as i32, buttons }
    }

    pub fn height(&self) -> (h: i32)
        ensures
            h == self.h,
    {
        self.h
    }

    pub fn area(&self) -> (r: PxRect)
        ensures
            r == (PxRect { x: 0, y: 0, w: self.w, h: self.h }),
    {
        PxRect { x: 0, y: 0, w: self.w, h: self.h }
    }

    /// The status line: the top 40% of the bar.
    pub fn status_rect(&self) -> (r: PxRect)
        requires
            small(self.h as int),
        ensures
            r == (PxRect { x: 0, y: 0, w: self.w, h: tdiv(self.h * 40, 100) as i32 }),
    {
        proof {
            lemma_tdiv_bound(self.h * 40, 100, 40 * 0x400_0000int);
        }
        PxRect { x: 0, y: 0, w: self.w, h: div_trunc(self.h as i64 * 40, 100) as i32 }
    }

    /// The button under `(x, y)`; `Nothing` when there is none.
    pub fn hit(&self, x: i32, y: i32) -> (a: BarAction)
        requires
            forall|i: int| 0 <= i < self.buttons@.len() ==> (#[trigger] self.buttons@[i]).1.fits(),
        ensures
            a == (match bar_hit(self.buttons@, self.buttons@.len() as int, x as int, y as int) {
                Some(b) => b,
                None => BarAction::Nothing,
            }),
    {
        let mut i: usize = 0;
        while i < self.buttons.len()
            invariant
                i <= self.buttons@.len(),
                forall|j: int| 0 <= j < self.buttons@.len() ==> (#[trigger] self.buttons@[j]).1.fits(),
                bar_hit(self.buttons@, i as int, x as int, y as int) is None,
            decreases self.buttons@.len() - i,
        {
            let (a, r) = self.buttons[i];
            assert(self.buttons@[i as int].1.fits());
            if r.contains(x, y) {
                proof {
                    lemma_bar_hit_found(self.buttons@, i + 1, self.buttons@.len() as int, x as int, y as int);
                }
                return a;
            }
            i = i + 1;
        }
        BarAction::Nothing
    }
}

proof fn lemma_bar_hit_found(bs: Seq<(BarAction, PxRect)>, k: int, n: int, x: int, y: int)
    requires
        0 <= k <= n,
        bar_hit(bs, k, x, y) is Some,
    ensures
        bar_hit(bs, n, x, y) == bar_hit(bs, k, x, y),
    decreases n - k,
{
    if n > k {
        lemma_bar_hit_found(bs, k, n - 1, x, y);
    }
}

} // verus!
