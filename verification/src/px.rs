//! Pixel-level drawing for the reader-style chrome (top bar, popups):
//! rectangles in pixel coordinates, the canvas they are painted on and its
//! integer primitives (fills, blends, lines, outlines), and a fake canvas for
//! tests. Antialiased rings and text need floating point and a font
//! rasteriser; they are the application's.

use vstd::prelude::*;

verus! {

/// `v` fits an `i32`.
pub open spec fn fits_i32(v: int) -> bool {
    i32::MIN <= v <= i32::MAX
}

#[derive(Clone, Copy, Debug, PartialEq, Eq, Default, Structural)]
pub struct PxRect {
    pub x: i32,
    pub y: i32,
    pub w: i32,
    pub h: i32,
}

impl PxRect {
    /// The far edges are representable.
    pub open spec fn fits(self) -> bool {
        fits_i32(self.x + self.w) && fits_i32(self.y + self.h)
    }

    /// Pixel `(x, y)` lies inside.
    pub open spec fn has(self, x: int, y: int) -> bool {
        self.x <= x < self.x + self.w && self.y <= y < self.y + self.h
    }

    /// The inputs on which `contains` computes its edges without overflow:
    /// an edge is only computed once the test before it passed.
    pub open spec fn contains_ok(self, x: int, y: int) -> bool {
        &&& x >= self.x ==> fits_i32(self.x + self.w)
        &&& (x >= self.x && x < self.x + self.w && y >= self.y) ==> fits_i32(self.y + self.h)
    }

    pub fn new(x: i32, y: i32, w: i32, h: i32) -> (r: PxRect)
        ensures
            r == (PxRect { x, y, w, h }),
    {
        PxRect { x, y, w, h }
    }

    pub fn contains(&self, x: i32, y: i32) -> (b: bool)
        requires
            self.contains_ok(x as int, y as int),
        ensures
            b == self.has(x as int, y as int),
    {
        x >= self.x && x < self.x + self.w && y >= self.y && y < self.y + self.h
    }

    pub fn right(&self) -> (r: i32)
        requires
            fits_i32(self.x + self.w),
        ensures
            r == self.x + self.w,
    {
        self.x + self.w
    }

    pub fn bottom(&self) -> (b: i32)
        requires
            fits_i32(self.y + self.h),
        ensures
            b == self.y + self.h,
    {
        self.y + self.h
    }

    /// The rectangle shrunk by `d` on every side, never below zero size.
    pub fn inset(&self, d: i32) -> (r: PxRect)
        requires
            fits_i32(self.x + d),
            fits_i32(self.y + d),
            fits_i32(2 * d),
            fits_i32(self.w - 2 * d),
            fits_i32(self.h - 2 * d),
        ensures
            r == (PxRect {
                x: (self.x + d) as i32,
                y: (self.y + d) as i32,
                w: if self.w - 2 * d > 0 { (self.w - 2 * d) as i32 } else { 0 },
                h: if self.h - 2 * d > 0 { (self.h - 2 * d) as i32 } else { 0 },
            }),
    {
        let w = self.w - 2 * d;
        let h = self.h - 2 * d;
        PxRect { x: self.x + d, y: self.y + d, w: if w > 0 { w } else { 0 }, h: if h > 0 { h } else { 0 } }
    }

    /// The smallest rectangle holding both.
    pub fn union(&self, o: &PxRect) -> (r: PxRect)
        requires
            self.fits(),
            o.fits(),
            fits_i32((if self.x + self.w >= o.x + o.w { self.x + self.w } else { o.x + o.w }) - (if self.x <= o.x {
                self.x
            } else {
                o.x
            })),
            fits_i32((if self.y + self.h >= o.y + o.h { self.y + self.h } else { o.y + o.h }) - (if self.y <= o.y {
                self.y
            } else {
                o.y
            })),
        ensures
            r.x == (if self.x <= o.x { self.x } else { o.x }),
            r.y == (if self.y <= o.y { self.y } else { o.y }),
            r.x + r.w == (if self.x + self.w >= o.x + o.w { self.x + self.w } else { o.x + o.w }),
            r.y + r.h == (if self.y + self.h >= o.y + o.h { self.y + self.h } else { o.y + o.h }),
    {
        let x = if self.x <= o.x { self.x } else { o.x };
        let y = if self.y <= o.y { self.y } else { o.y };
        let r1 = self.right();
        let r2 = o.right();
        let b1 = self.bottom();
        let b2 = o.bottom();
        let right = if r1 >= r2 { r1 } else { r2 };
        let bottom = if b1 >= b2 { b1 } else { b2 };
        PxRect { x, y, w: right - x, h: bottom - y }
    }
}

/// Law: the union holds every pixel of either rectangle.
pub proof fn lemma_union_covers(a: PxRect, b: PxRect, u: PxRect, x: int, y: int)
    requires
        u.x == (if a.x <= b.x { a.x } else { b.x }),
        u.y == (if a.y <= b.y { a.y } else { b.y }),
        u.x + u.w == (if a.x + a.w >= b.x + b.w { a.x + a.w } else { b.x + b.w }),
        u.y + u.h == (if a.y + a.h >= b.y + b.h { a.y + a.h } else { b.y + b.h }),
        a.has(x, y) || b.has(x, y),
    ensures
        u.has(x, y),
{
}

#[derive(Clone, Copy, Debug, PartialEq, Eq, Structural)]
pub enum PxWave {
    Fast,
    Quality,
    Full,
}

/// Pixel (`x`, `y`) lies on a `w` x `h` canvas.
pub open spec fn on_canvas(w: int, h: int, x: int, y: int) -> bool {
    0 <= x < w && 0 <= y < h
}

/// The row-major image after setting one pixel; off-canvas writes are dropped.
pub open spec fn put_spec(img: Seq<u8>, w: int, h: int, x: int, y: int, g: u8) -> Seq<u8> {
    if on_canvas(w, h, x, y) {
        img.update(y * w + x, g)
    } else {
        img
    }
}

/// The image after filling the part of `r` that lies on the canvas.
pub open spec fn fill_spec(img: Seq<u8>, w: int, r: PxRect, g: u8) -> Seq<u8> {
    Seq::new(img.len(), |i: int| if r.has(i % w, i / w) { g } else { img[i] })
}

/// The image after filling the pixels of `r` on rows before `y`, and on row
/// `y` before column `x`.
pub open spec fn fill_part(img: Seq<u8>, w: int, r: PxRect, g: u8, y: int, x: int) -> Seq<u8> {
    Seq::new(
        img.len(),
        |i: int|
            if r.has(i % w, i / w) && (i / w < y || (i / w == y && i % w < x)) {
                g
            } else {
                img[i]
            },
    )
}

/// `a` truncated-divided by 255 (Rust's `/` on integers).
pub open spec fn div255(a: int) -> int {
    if a >= 0 {
        a / 255
    } else {
        -((-a) / 255)
    }
}

/// Coverage `cov` of colour `gray` over background `bg`: all of it at 255,
/// mixed in proportion below.
pub open spec fn mix(bg: u8, gray: u8, cov: u8) -> u8 {
    let v = bg + div255((gray - bg) * cov);
    (if v < 0 {
        0
    } else if v > 255 {
        255
    } else {
        v
    }) as u8
}

/// The image after blending `gray` at coverage `cov` into pixel (`x`, `y`).
pub open spec fn blend_spec(img: Seq<u8>, w: int, h: int, x: int, y: int, cov: u8, gray: u8) -> Seq<u8> {
    if cov == 0 || !on_canvas(w, h, x, y) {
        img
    } else if cov == 255 {
        img.update(y * w + x, gray)
    } else {
        img.update(y * w + x, mix(img[y * w + x], gray, cov))
    }
}

/// Row-major index arithmetic on a `w`-wide canvas.
proof fn lemma_index(x: int, y: int, w: int)
    requires
        0 <= x < w,
        0 <= y,
    ensures
        (y * w + x) % w == x,
        (y * w + x) / w == y,
{
    vstd::arithmetic::div_mod::lemma_fundamental_div_mod_converse(y * w + x, w, y, x);
}

/// Every index is its row times the width plus its column.
proof fn lemma_split(i: int, w: int)
    requires
        0 <= i,
        0 < w,
    ensures
        i == (i / w) * w + i % w,
        0 <= i % w < w,
        0 <= i / w,
{
    vstd::arithmetic::div_mod::lemma_fundamental_div_mod(i, w);
    vstd::arithmetic::div_mod::lemma_div_pos_is_pos(i, w);
    assert(w * (i / w) == (i / w) * w) by (nonlinear_arith);
}

/// A canvas of grey pixels, row-major, with a log of refreshed rectangles.
pub trait PxCanvas {
    /// Width and height.
    spec fn dims(&self) -> (int, int);

    /// The pixels, row by row.
    spec fn image(&self) -> Seq<u8>;

    /// The refreshes requested so far.
    spec fn log(&self) -> Seq<(PxRect, PxWave)>;

    spec fn inv(&self) -> bool;

    proof fn lemma_inv(&self)
        requires
            self.inv(),
        ensures
            self.dims().0 >= 0,
            self.dims().1 >= 0,
            self.image().len() == self.dims().0 * self.dims().1,
    ;

    fn size(&self) -> (s: (i32, i32))
        requires
            self.inv(),
        ensures
            s.0 == self.dims().0,
            s.1 == self.dims().1,
    ;

    fn put(&mut self, x: i32, y: i32, gray: u8)
        requires
            old(self).inv(),
        ensures
            final(self).inv(),
            final(self).dims() == old(self).dims(),
            final(self).log() == old(self).log(),
            final(self).image() == put_spec(old(self).image(), old(self).dims().0, old(self).dims().1, x as int, y as int, gray),
    ;

    fn get(&self, x: i32, y: i32) -> (g: u8)
        requires
            self.inv(),
            on_canvas(self.dims().0, self.dims().1, x as int, y as int),
        ensures
            g == self.image()[y * self.dims().0 + x],
    ;

    fn refresh_px(&mut self, r: PxRect, wave: PxWave)
        requires
            old(self).inv(),
        ensures
            final(self).inv(),
            final(self).dims() == old(self).dims(),
            final(self).image() == old(self).image(),
            final(self).log() == old(self).log().push((r, wave)),
    ;

    /// Paint the part of `r` that lies on the canvas.
    fn fill(&mut self, r: PxRect, gray: u8)
        requires
            old(self).inv(),
            old(self).dims().0 * old(self).dims().1 <= usize::MAX,
            r.fits(),
        ensures
            final(self).inv(),
            final(self).dims() == old(self).dims(),
            final(self).log() == old(self).log(),
            final(self).image() == fill_spec(old(self).image(), old(self).dims().0, r, gray),
    {
        proof {
            self.lemma_inv();
        }
        let ghost img0 = self.image();
        let ghost d = self.dims();
        let (w, h) = self.size();
        let right = r.right();
        let bottom = r.bottom();
        let x_start = if r.x > 0 {
            r.x
        } else {
            0
        };
        let x_end = if right < w {
            right
        } else {
            w
        };
        let y_start = if r.y > 0 {
            r.y
        } else {
            0
        };
        let y_end = if bottom < h {
            bottom
        } else {
            h
        };
        if w == 0 {
            proof {
                assert(img0.len() == 0) by (nonlinear_arith)
                    requires
                        img0.len() == w * h,
                        w == 0,
                ;
                assert(fill_spec(img0, w as int, r, gray) =~= img0);
            }
            return;
        }
        proof {
            assert(fill_part(img0, w as int, r, gray, y_start as int, x_start as int) =~= img0) by {
                assert forall|i: int| 0 <= i < img0.len() implies #[trigger] fill_part(
                    img0,
                    w as int,
                    r,
                    gray,
                    y_start as int,
                    x_start as int,
                )[i] == img0[i] by {
                    lemma_split(i, w as int);
                }
            }
        }
        let mut y = y_start;
        while y < y_end
            invariant
                self.inv(),
                self.dims() == d,
                d.0 == w,
                d.1 == h,
                h >= 0,
                img0.len() == w * h,
                self.log() == old(self).log(),
                img0 == old(self).image(),
                x_start == (if r.x > 0 { r.x } else { 0 }),
                x_end == (if r.x + r.w < w { r.x + r.w } else { w as int }),
                y_start == (if r.y > 0 { r.y } else { 0 }),
                y_end == (if r.y + r.h < h { r.y + r.h } else { h as int }),
                y_start <= y,
                w > 0,
                self.image() == fill_part(img0, w as int, r, gray, y as int, x_start as int),
            decreases y_end - y,
        {
            let mut x = x_start;
            while x < x_end
                invariant
                    self.inv(),
                    self.dims() == d,
                    d.0 == w,
                    d.1 == h,
                    w > 0,
                    img0.len() == w * h,
                    self.log() == old(self).log(),
                    x_start == (if r.x > 0 { r.x } else { 0 }),
                    x_end == (if r.x + r.w < w { r.x + r.w } else { w as int }),
                    y_start <= y < y_end,
                    y_end == (if r.y + r.h < h { r.y + r.h } else { h as int }),
                    y_start == (if r.y > 0 { r.y } else { 0 }),
                    x_start <= x,
                    self.image() == fill_part(img0, w as int, r, gray, y as int, x as int),
                decreases x_end - x,
            {
                let ghost before = self.image();
                self.put(x, y, gray);
                proof {
                    lemma_index(x as int, y as int, w as int);
                    assert(on_canvas(w as int, h as int, x as int, y as int));
                    assert(0 <= y * w + x < w * h) by (nonlinear_arith)
                        requires
                            0 <= x < w,
                            0 <= y < h,
                    ;
                    assert(self.image() == before.update(y * w + x, gray));
                    assert(r.has(x as int, y as int));
                    assert(self.image() =~= fill_part(img0, w as int, r, gray, y as int, x + 1)) by {
                        assert forall|i: int| 0 <= i < img0.len() implies #[trigger] self.image()[i] == fill_part(
                            img0,
                            w as int,
                            r,
                            gray,
                            y as int,
                            x + 1,
                        )[i] by {
                            lemma_split(i, w as int);
                            if i != y * w + x {
                                assert(i % (w as int) != x || i / (w as int) != y);
                            }
                        }
                    }
                }
                x = x + 1;
            }
            proof {
                assert(fill_part(img0, w as int, r, gray, y as int, x as int) =~= fill_part(
                    img0,
                    w as int,
                    r,
                    gray,
                    y + 1,
                    x_start as int,
                )) by {
                    assert forall|i: int| 0 <= i < img0.len() implies #[trigger] fill_part(
                        img0,
                        w as int,
                        r,
                        gray,
                        y as int,
                        x as int,
                    )[i] == fill_part(img0, w as int, r, gray, y + 1, x_start as int)[i] by {
                        lemma_split(i, w as int);
                    }
                }
            }
            y = y + 1;
        }
        proof {
            assert(fill_part(img0, w as int, r, gray, y as int, x_start as int) =~= fill_spec(img0, w as int, r, gray)) by {
                assert forall|i: int| 0 <= i < img0.len() implies #[trigger] fill_part(
                    img0,
                    w as int,
                    r,
                    gray,
                    y as int,
                    x_start as int,
                )[i] == fill_spec(img0, w as int, r, gray)[i] by {
                    lemma_split(i, w as int);
                    if i / (w as int) >= y {
                        assert(i / (w as int) < h) by (nonlinear_arith)
                            requires
                                i < w * h,
                                i == (i / (w as int)) * w + i % (w as int),
                                0 <= i % (w as int),
                                w > 0,
                        ;
                    }
                }
            }
        }
    }

    /// Blend `gray` at coverage `cov` (0 = none, 255 = opaque) into a pixel.
    fn blend(&mut self, x: i32, y: i32, cov: u8, gray: u8)
        requires
            old(self).inv(),
        ensures
            final(self).inv(),
            final(self).dims() == old(self).dims(),
            final(self).log() == old(self).log(),
            final(self).image() == blend_spec(old(self).image(), old(self).dims().0, old(self).dims().1, x as int, y as int, cov, gray),
    {
        if cov == 0 {
            return;
        }
        let (w, h) = self.size();
        if x < 0 || y < 0 || x >= w || y >= h {
            return;
        }
        if cov == 255 {
            self.put(x, y, gray);
            return;
        }
        let bg = self.get(x, y) as i32;
        assert(-65025 <= (gray - bg) * cov <= 65025) by (nonlinear_arith)
            requires
                0 <= bg <= 255,
                0 <= gray <= 255,
                0 <= cov <= 255,
        ;
        let p: i32 = (gray as i32 - bg) * cov as i32;
        let q: i32 = if p >= 0 {
            p / 255
        } else {
            -((-p) / 255)
        };
        let v = bg + q;
        let c: i32 = if v < 0 {
            0
        } else if v > 255 {
            255
        } else {
            v
        };
        self.put(x, y, c as u8);
    }

    /// A horizontal line from `x0` to `x1` (either order), `thick` rows high.
    fn hline(&mut self, x0: i32, x1: i32, y: i32, thick: i32, gray: u8)
        requires
            old(self).inv(),
            old(self).dims().0 * old(self).dims().1 <= usize::MAX,
            fits_i32(x1 - x0),
            fits_i32(if x1 >= x0 { x1 - x0 + 1 } else { x0 - x1 + 1 }),
            (if x0 <= x1 { x0 as int } else { x1 as int }) + (if x1 >= x0 { x1 - x0 + 1 } else { x0 - x1 + 1 }) <= i32::MAX,
            y + (if thick > 1 { thick as int } else { 1 }) <= i32::MAX,
        ensures
            final(self).inv(),
            final(self).dims() == old(self).dims(),
            final(self).log() == old(self).log(),
            final(self).image() == fill_spec(
                old(self).image(),
                old(self).dims().0,
                PxRect {
                    x: if x0 <= x1 { x0 } else { x1 },
                    y,
                    w: (if x1 >= x0 { x1 - x0 + 1 } else { x0 - x1 + 1 }) as i32,
                    h: if thick > 1 { thick } else { 1 },
                },
                gray,
            ),
    {
        let d: i32 = x1 - x0;
        let len: i32 = if d >= 0 {
            d + 1
        } else {
            -d + 1
        };
        let r = PxRect::new(if x0 <= x1 { x0 } else { x1 }, y, len, if thick > 1 { thick } else { 1 });
        self.fill(r, gray);
    }

    /// A vertical line from `y0` to `y1` (either order), `thick` columns wide.
    fn vline(&mut self, x: i32, y0: i32, y1: i32, thick: i32, gray: u8)
        requires
            old(self).inv(),
            old(self).dims().0 * old(self).dims().1 <= usize::MAX,
            fits_i32(y1 - y0),
            fits_i32(if y1 >= y0 { y1 - y0 + 1 } else { y0 - y1 + 1 }),
            (if y0 <= y1 { y0 as int } else { y1 as int }) + (if y1 >= y0 { y1 - y0 + 1 } else { y0 - y1 + 1 }) <= i32::MAX,
            x + (if thick > 1 { thick as int } else { 1 }) <= i32::MAX,
        ensures
            final(self).inv(),
            final(self).dims() == old(self).dims(),
            final(self).log() == old(self).log(),
            final(self).image() == fill_spec(
                old(self).image(),
                old(self).dims().0,
                PxRect {
                    x,
                    y: if y0 <= y1 { y0 } else { y1 },
                    w: if thick > 1 { thick } else { 1 },
                    h: (if y1 >= y0 { y1 - y0 + 1 } else { y0 - y1 + 1 }) as i32,
                },
                gray,
            ),
    {
        let d: i32 = y1 - y0;
        let len: i32 = if d >= 0 {
            d + 1
        } else {
            -d + 1
        };
        let r = PxRect::new(x, if y0 <= y1 { y0 } else { y1 }, if thick > 1 { thick } else { 1 }, len);
        self.fill(r, gray);
    }

    /// A line of pen width `thick` from (`x0`, `y0`) to (`x1`, `y1`).
    fn line(&mut self, x0: i32, y0: i32, x1: i32, y1: i32, thick: i32, gray: u8)
        requires
            old(self).inv(),
            old(self).dims().0 * old(self).dims().1 <= usize::MAX,
            fits_i32((if x0 <= x1 { x0 as int } else { x1 as int }) - half_of(thick as int)),
            fits_i32((if y0 <= y1 { y0 as int } else { y1 as int }) - half_of(thick as int)),
            fits_i32((if x0 >= x1 { x0 as int } else { x1 as int }) - half_of(thick as int) + pen(thick as int)),
            fits_i32((if y0 >= y1 { y0 as int } else { y1 as int }) - half_of(thick as int) + pen(thick as int)),
        ensures
            final(self).inv(),
            final(self).dims() == old(self).dims(),
            final(self).log() == old(self).log(),
            final(self).image() == stamp_all(old(self).image(), old(self).dims().0, line_path(x0 as int, y0 as int, x1 as int, y1 as int), thick as int, gray),
    {
        let ghost img0 = self.image();
        let ghost w = self.dims().0;
        let a: i64 = if x1 >= x0 {
            x1 as i64 - x0 as i64
        } else {
            x0 as i64 - x1 as i64
        };
        let b: i64 = if y1 >= y0 {
            y1 as i64 - y0 as i64
        } else {
            y0 as i64 - y1 as i64
        };
        let sx: i32 = if x0 < x1 {
            1
        } else {
            -1
        };
        let sy: i32 = if y0 < y1 {
            1
        } else {
            -1
        };
        let half: i64 = if thick >= 0 {
            thick as i64 / 2
        } else {
            -((-(thick as i64)) / 2)
        };
        let t: i64 = if thick > 1 {
            thick as i64
        } else {
            1
        };
        let mut x = x0;
        let mut y = y0;
        let mut err: i64 = a - b;
        let ghost mut kx: int = 0;
        let ghost mut ky: int = 0;
        let ghost mut done: Seq<(int, int)> = seq![];
        let ghost mut fuel: nat = (a + b + 1) as nat;
        let ghost path = line_path(x0 as int, y0 as int, x1 as int, y1 as int);
        assert(path =~= done + line_points(
            x as int,
            y as int,
            err as int,
            x1 as int,
            y1 as int,
            a as int,
            b as int,
            sx as int,
            sy as int,
            fuel,
        ));
        loop
            invariant_except_break
                path == done + line_points(
                    x as int,
                    y as int,
                    err as int,
                    x1 as int,
                    y1 as int,
                    a as int,
                    b as int,
                    sx as int,
                    sy as int,
                    fuel,
                ),
                self.image() == stamp_all(img0, w, done, thick as int, gray),
            invariant
                self.inv(),
                self.dims().0 == w,
                self.dims() == old(self).dims(),
                self.log() == old(self).log(),
                old(self).dims().0 * old(self).dims().1 <= usize::MAX,
                img0 == old(self).image(),
                a == (if x1 >= x0 { x1 - x0 } else { x0 - x1 }),
                b == (if y1 >= y0 { y1 - y0 } else { y0 - y1 }),
                sx == (if x0 < x1 { 1int } else { -1int }),
                sy == (if y0 < y1 { 1int } else { -1int }),
                half == half_of(thick as int),
                t == pen(thick as int),
                fits_i32((if x0 <= x1 { x0 as int } else { x1 as int }) - half_of(thick as int)),
                fits_i32((if y0 <= y1 { y0 as int } else { y1 as int }) - half_of(thick as int)),
                fits_i32((if x0 >= x1 { x0 as int } else { x1 as int }) - half_of(thick as int) + pen(thick as int)),
                fits_i32((if y0 >= y1 { y0 as int } else { y1 as int }) - half_of(thick as int) + pen(thick as int)),
                0 <= kx <= a,
                0 <= ky <= b,
                x == (if x0 < x1 { x0 + kx } else { x0 - kx }),
                y == (if y0 < y1 { y0 + ky } else { y0 - ky }),
                err == a - b + a * ky - b * kx,
                -2 * b <= err <= 2 * a,
                fuel >= (a - kx) + (b - ky) + 1,
            ensures
                self.inv(),
                self.dims() == old(self).dims(),
                self.log() == old(self).log(),
                self.image() == stamp_all(img0, w, path, thick as int, gray),
            decreases (a - kx) + (b - ky),
        {
            let ghost cur = (x as int, y as int);
            let r = PxRect::new((x as i64 - half) as i32, (y as i64 - half) as i32, t as i32, t as i32);
            assert(r == stamp(cur, thick as int));
            proof {
                lemma_stamp_push(img0, w, done, cur, thick as int, gray);
            }
            self.fill(r, gray);
            let at_end = x == x1 && y == y1;
            if at_end {
                assert(kx == a && ky == b);
                assert(path =~= done.push(cur));
                break;
            }
            assert(!(kx == a && ky == b));
            let e2: i64 = 2 * err;
            let ghost next = line_step(x as int, y as int, err as int, a as int, b as int, sx as int, sy as int);
            assert(path =~= done.push(cur) + line_points(
                next.0,
                next.1,
                next.2,
                x1 as int,
                y1 as int,
                a as int,
                b as int,
                sx as int,
                sy as int,
                (fuel - 1) as nat,
            ));
            proof {
                lemma_walk_step(a as int, b as int, kx, ky, err as int);
                done = done.push(cur);
                fuel = (fuel - 1) as nat;
            }
            if e2 >= -b {
                err = err - b;
                x = (x as i64 + sx as i64) as i32;
                proof {
                    assert(b * (kx + 1) == b * kx + b) by (nonlinear_arith);
                    kx = kx + 1;
                }
            }
            if e2 <= a {
                err = err + a;
                y = (y as i64 + sy as i64) as i32;
                proof {
                    assert(a * (ky + 1) == a * ky + a) by (nonlinear_arith);
                    ky = ky + 1;
                }
            }
            assert(x == next.0 && y == next.1 && err == next.2);
        }
    }

    /// The outline of `r`, `thick` pixels wide, inside its edges.
    fn rect_outline(&mut self, r: PxRect, thick: i32, gray: u8)
        requires
            old(self).inv(),
            old(self).dims().0 * old(self).dims().1 <= usize::MAX,
            r.fits(),
            fits_i32(r.y + thick),
            fits_i32(r.x + thick),
            fits_i32(r.y + r.h - thick),
            fits_i32(r.x + r.w - thick),
            fits_i32(r.y + r.h - thick + thick),
            fits_i32(r.x + r.w - thick + thick),
        ensures
            final(self).inv(),
            final(self).dims() == old(self).dims(),
            final(self).log() == old(self).log(),
            final(self).image() == fill_spec(
                fill_spec(
                    fill_spec(
                        fill_spec(old(self).image(), old(self).dims().0, PxRect { x: r.x, y: r.y, w: r.w, h: thick }, gray),
                        old(self).dims().0,
                        PxRect { x: r.x, y: (r.y + r.h - thick) as i32, w: r.w, h: thick },
                        gray,
                    ),
                    old(self).dims().0,
                    PxRect { x: r.x, y: r.y, w: thick, h: r.h },
                    gray,
                ),
                old(self).dims().0,
                PxRect { x: (r.x + r.w - thick) as i32, y: r.y, w: thick, h: r.h },
                gray,
            ),
    {
        self.fill(PxRect::new(r.x, r.y, r.w, thick), gray);
        self.fill(PxRect::new(r.x, r.bottom() - thick, r.w, thick), gray);
        self.fill(PxRect::new(r.x, r.y, thick, r.h), gray);
        self.fill(PxRect::new(r.right() - thick, r.y, thick, r.h), gray);
    }
}

/// Number of pixels among the first `n` of `img` that lie in `r` and are dark
/// (below 128).
pub open spec fn dark_count(img: Seq<u8>, w: int, r: PxRect, n: int) -> nat
    decreases n,
{
    if n <= 0 {
        0
    } else {
        dark_count(img, w, r, n - 1) + if r.has((n - 1) % w, (n - 1) / w) && img[n - 1] < 128 {
            1nat
        } else {
            0nat
        }
    }
}

/// An in-memory canvas for tests: white at first, refreshes recorded.
pub struct FakeCanvas {
    pub w: i32,
    pub h: i32,
    pub px: Vec<u8>,
    pub refreshes: Vec<(PxRect, PxWave)>,
}

impl FakeCanvas {
    pub fn new(w: i32, h: i32) -> (c: FakeCanvas)
        requires
            w >= 0,
            h >= 0,
            w * h <= i32::MAX,
        ensures
            c.inv(),
            c.dims() == (w as int, h as int),
            c.image() == Seq::new((w * h) as nat, |i: int| 255u8),
            c.log() == Seq::<(PxRect, PxWave)>::empty(),
    {
        let n: usize = (w * h) as usize;
        let mut px: Vec<u8> = Vec::new();
        let mut i: usize = 0;
        while i < n
            invariant
                i <= n,
                px@ == Seq::new(i as nat, |k: int| 255u8),
            decreases n - i,
        {
            px.push(255);
            assert(px@ =~= Seq::new((i + 1) as nat, |k: int| 255u8));
            i = i + 1;
        }
        FakeCanvas { w, h, px, refreshes: Vec::new() }
    }

    /// Number of dark pixels (below 128) of the canvas inside `r`.
    pub fn dark_pixels(&self, r: PxRect) -> (n: usize)
        requires
            self.inv(),
        ensures
            n == dark_count(self.image(), self.w as int, r, self.image().len() as int),
    {
        let w = self.w;
        let mut n: usize = 0;
        let mut i: usize = 0;
        if w == 0 {
            assert(self.px@.len() == 0) by (nonlinear_arith)
                requires
                    self.px@.len() == self.w * self.h,
                    self.w == 0,
            ;
            return 0;
        }
        while i < self.px.len()
            invariant
                self.inv(),
                w == self.w > 0,
                i <= self.px@.len(),
                n <= i,
                n == dark_count(self.px@, w as int, r, i as int),
            decreases self.px@.len() - i,
        {
            let x: i64 = (i % (w as usize)) as i64;
            let y: i64 = (i / (w as usize)) as i64;
            let inside = r.x as i64 <= x && x < r.x as i64 + r.w as i64 && r.y as i64 <= y && y < r.y as i64
                + r.h as i64;
            if inside && self.px[i] < 128 {
                n = n + 1;
            }
            i = i + 1;
        }
        n
    }
}

impl PxCanvas for FakeCanvas {
    open spec fn dims(&self) -> (int, int) {
        (self.w as int, self.h as int)
    }

    open spec fn image(&self) -> Seq<u8> {
        self.px@
    }

    open spec fn log(&self) -> Seq<(PxRect, PxWave)> {
        self.refreshes@
    }

    open spec fn inv(&self) -> bool {
        &&& self.w >= 0
        &&& self.h >= 0
        &&& self.w * self.h <= i32::MAX
        &&& self.px@.len() == self.w * self.h
    }

    proof fn lemma_inv(&self) {
    }

    fn size(&self) -> (s: (i32, i32)) {
        (self.w, self.h)
    }

    fn put(&mut self, x: i32, y: i32, gray: u8) {
        if x >= 0 && y >= 0 && x < self.w && y < self.h {
            proof {
                assert(0 <= y * self.w + x < self.w * self.h) by (nonlinear_arith)
                    requires
                        0 <= x < self.w,
                        0 <= y < self.h,
                ;
            }
            let i: usize = (y * self.w + x) as usize;
            self.px.set(i, gray);
        }
    }

    fn get(&self, x: i32, y: i32) -> (g: u8) {
        proof {
            assert(0 <= y * self.w + x < self.w * self.h) by (nonlinear_arith)
                requires
                    0 <= x < self.w,
                    0 <= y < self.h,
            ;
        }
        self.px[(y * self.w + x) as usize]
    }

    fn refresh_px(&mut self, r: PxRect, wave: PxWave) {
        self.refreshes.push((r, wave));
    }
}

/// Half a pen width, truncated towards zero.
pub open spec fn half_of(thick: int) -> int {
    if thick >= 0 {
        thick / 2
    } else {
        -((-thick) / 2)
    }
}

/// A pen width of at least one pixel.
pub open spec fn pen(thick: int) -> int {
    if thick > 1 {
        thick
    } else {
        1
    }
}

/// The square a pen of width `thick` leaves at point `p`.
pub open spec fn stamp(p: (int, int), thick: int) -> PxRect {
    PxRect {
        x: (p.0 - half_of(thick)) as i32,
        y: (p.1 - half_of(thick)) as i32,
        w: pen(thick) as i32,
        h: pen(thick) as i32,
    }
}

/// One step of the walk from (`x`, `y`) towards the end of a line `a`
/// across and `b` down (both non-negative), in directions `sx`, `sy`:
/// across when the error allows, down when it allows, or both.
pub open spec fn line_step(x: int, y: int, err: int, a: int, b: int, sx: int, sy: int) -> (int, int, int) {
    let e2 = 2 * err;
    let (x2, err2) = if e2 >= -b {
        (x + sx, err - b)
    } else {
        (x, err)
    };
    if e2 <= a {
        (x2, y + sy, err2 + a)
    } else {
        (x2, y, err2)
    }
}

/// The points of the walk from (`x`, `y`) until (`x1`, `y1`), at most
/// `fuel` steps.
pub open spec fn line_points(x: int, y: int, err: int, x1: int, y1: int, a: int, b: int, sx: int, sy: int, fuel: nat) -> Seq<(int, int)>
    decreases fuel,
{
    if fuel == 0 || (x == x1 && y == y1) {
        seq![(x, y)]
    } else {
        let n = line_step(x, y, err, a, b, sx, sy);
        seq![(x, y)] + line_points(n.0, n.1, n.2, x1, y1, a, b, sx, sy, (fuel - 1) as nat)
    }
}

/// The points of the line from (`x0`, `y0`) to (`x1`, `y1`), both ends
/// included (Bresenham's walk).
pub open spec fn line_path(x0: int, y0: int, x1: int, y1: int) -> Seq<(int, int)> {
    let a = if x1 >= x0 { x1 - x0 } else { x0 - x1 };
    let b = if y1 >= y0 { y1 - y0 } else { y0 - y1 };
    line_points(x0, y0, a - b, x1, y1, a, b, if x0 < x1 { 1 } else { -1 }, if y0 < y1 { 1 } else { -1 }, (a + b + 1) as nat)
}

/// The image after stamping a pen at each of `pts`, in order.
pub open spec fn stamp_all(img: Seq<u8>, w: int, pts: Seq<(int, int)>, thick: int, g: u8) -> Seq<u8>
    decreases pts.len(),
{
    if pts.len() == 0 {
        img
    } else {
        stamp_all(fill_spec(img, w, stamp(pts[0], thick), g), w, pts.drop_first(), thick, g)
    }
}

/// Stamping one more point at the end stamps it last.
proof fn lemma_stamp_push(img: Seq<u8>, w: int, pts: Seq<(int, int)>, p: (int, int), thick: int, g: u8)
    ensures
        stamp_all(img, w, pts.push(p), thick, g) == fill_spec(stamp_all(img, w, pts, thick, g), w, stamp(p, thick), g),
    decreases pts.len(),
{
    if pts.len() == 0 {
        assert(pts.push(p)[0] == p);
        assert(pts.push(p).drop_first() =~= Seq::<(int, int)>::empty());
        let f = fill_spec(img, w, stamp(p, thick), g);
        assert(stamp_all(f, w, Seq::<(int, int)>::empty(), thick, g) == f);
        assert(stamp_all(img, w, pts, thick, g) == img);
    } else {
        assert(pts.push(p)[0] == pts[0]);
        assert(pts.push(p).drop_first() =~= pts.drop_first().push(p));
        lemma_stamp_push(fill_spec(img, w, stamp(pts[0], thick), g), w, pts.drop_first(), p, thick, g);
    }
}

/// One step of the walk before its end moves across or down (or both),
/// never past the end, and keeps the error within its bounds.
proof fn lemma_walk_step(a: int, b: int, kx: int, ky: int, err: int)
    requires
        0 <= kx <= a,
        0 <= ky <= b,
        !(kx == a && ky == b),
        err == a - b + a * ky - b * kx,
        -2 * b <= err <= 2 * a,
    ensures
        2 * err >= -b || 2 * err <= a,
        kx == a ==> 2 * err < -b,
        ky == b ==> 2 * err > a,
        2 * err >= -b && 2 * err <= a ==> -2 * b <= err - b + a <= 2 * a,
        2 * err >= -b && 2 * err > a ==> -2 * b <= err - b <= 2 * a,
        2 * err < -b && 2 * err <= a ==> -2 * b <= err + a <= 2 * a,
{
    if kx == a {
        assert(ky < b);
        assert(a * ky <= a * (b - 1)) by (nonlinear_arith)
            requires
                a >= 0,
                ky <= b - 1,
        ;
        assert(a * (b - 1) == a * b - a) by (nonlinear_arith);
        assert(b * kx == b * a) by (nonlinear_arith)
            requires
                kx == a,
        ;
        assert(a * b == b * a) by (nonlinear_arith);
    }
    if ky == b {
        assert(kx < a);
        assert(b * kx <= b * (a - 1)) by (nonlinear_arith)
            requires
                b >= 0,
                kx <= a - 1,
        ;
        assert(b * (a - 1) == b * a - b) by (nonlinear_arith);
        assert(a * ky == a * b) by (nonlinear_arith)
            requires
                ky == b,
        ;
        assert(a * b == b * a) by (nonlinear_arith);
    }
}

/// `p` and `q` are the same pixel or neighbours (diagonals included).
pub open spec fn near(p: (int, int), q: (int, int)) -> bool {
    -1 <= q.0 - p.0 <= 1 && -1 <= q.1 - p.1 <= 1
}

/// Each point of `pts` is `near` the one before.
pub open spec fn connected(pts: Seq<(int, int)>) -> bool
    decreases pts.len(),
{
    pts.len() <= 1 || (near(pts[0], pts[1]) && connected(pts.drop_first()))
}

proof fn lemma_points_reach(x0: int, y0: int, x1: int, y1: int, kx: int, ky: int, fuel: nat)
    requires
        0 <= kx <= (if x1 >= x0 { x1 - x0 } else { x0 - x1 }),
        0 <= ky <= (if y1 >= y0 { y1 - y0 } else { y0 - y1 }),
        fuel >= (if x1 >= x0 { x1 - x0 } else { x0 - x1 }) - kx + (if y1 >= y0 { y1 - y0 } else { y0 - y1 }) - ky + 1,
        ({
            let a = if x1 >= x0 { x1 - x0 } else { x0 - x1 };
            let b = if y1 >= y0 { y1 - y0 } else { y0 - y1 };
            -2 * b <= a - b + a * ky - b * kx <= 2 * a
        }),
    ensures
        ({
            let a = if x1 >= x0 { x1 - x0 } else { x0 - x1 };
            let b = if y1 >= y0 { y1 - y0 } else { y0 - y1 };
            let sx = if x0 < x1 { 1int } else { -1int };
            let sy = if y0 < y1 { 1int } else { -1int };
            let x = if x0 < x1 { x0 + kx } else { x0 - kx };
            let y = if y0 < y1 { y0 + ky } else { y0 - ky };
            let pts = line_points(x, y, a - b + a * ky - b * kx, x1, y1, a, b, sx, sy, fuel);
            &&& pts.len() >= 1
            &&& pts[0] == (x, y)
            &&& pts.last() == (x1, y1)
            &&& connected(pts)
        }),
    decreases (if x1 >= x0 { x1 - x0 } else { x0 - x1 }) - kx + (if y1 >= y0 { y1 - y0 } else { y0 - y1 }) - ky,
{
    let a = if x1 >= x0 { x1 - x0 } else { x0 - x1 };
    let b = if y1 >= y0 { y1 - y0 } else { y0 - y1 };
    let sx = if x0 < x1 { 1int } else { -1int };
    let sy = if y0 < y1 { 1int } else { -1int };
    let x = if x0 < x1 { x0 + kx } else { x0 - kx };
    let y = if y0 < y1 { y0 + ky } else { y0 - ky };
    let err = a - b + a * ky - b * kx;
    if kx == a && ky == b {
        assert(x == x1 && y == y1);
    } else {
        assert(!(x == x1 && y == y1));
        lemma_walk_step(a, b, kx, ky, err);
        let e2 = 2 * err;
        let kx2 = if e2 >= -b { kx + 1 } else { kx };
        let ky2 = if e2 <= a { ky + 1 } else { ky };
        assert(b * (kx + 1) == b * kx + b) by (nonlinear_arith);
        assert(a * (ky + 1) == a * ky + a) by (nonlinear_arith);
        let n = line_step(x, y, err, a, b, sx, sy);
        assert(n == (if x0 < x1 { x0 + kx2 } else { x0 - kx2 }, if y0 < y1 { y0 + ky2 } else { y0 - ky2 }, a - b + a
            * ky2 - b * kx2));
        lemma_points_reach(x0, y0, x1, y1, kx2, ky2, (fuel - 1) as nat);
        let rest = line_points(n.0, n.1, n.2, x1, y1, a, b, sx, sy, (fuel - 1) as nat);
        let pts = line_points(x, y, err, x1, y1, a, b, sx, sy, fuel);
        assert(pts == seq![(x, y)] + rest);
        assert(pts.drop_first() =~= rest);
        assert(pts[1] == rest[0]);
    }
}

/// A line's points run from its start to its end, each a neighbour of the
/// one before.
pub proof fn lemma_line_path(x0: int, y0: int, x1: int, y1: int)
    ensures
        line_path(x0, y0, x1, y1)[0] == (x0, y0),
        line_path(x0, y0, x1, y1).last() == (x1, y1),
        connected(line_path(x0, y0, x1, y1)),
{
    let a = if x1 >= x0 { x1 - x0 } else { x0 - x1 };
    let b = if y1 >= y0 { y1 - y0 } else { y0 - y1 };
    assert(a * 0 == 0 && b * 0 == 0) by (nonlinear_arith);
    lemma_points_reach(x0, y0, x1, y1, 0, 0, (a + b + 1) as nat);
}

} // verus!
