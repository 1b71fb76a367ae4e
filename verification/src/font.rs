//! Bitmap font for the terminal grid. A BDF file is read into fixed-size
//! glyph bitmaps, one `u32` per row with the most significant bit as the
//! leftmost pixel, so fonts up to 32 pixels wide fit.
//!
//! The reader follows the file line by line: `FONTBOUNDINGBOX` sets the cell,
//! each `STARTCHAR` ... `ENDCHAR` block gives one glyph (its `ENCODING`, `BBX`
//! and `BITMAP` rows), which is normalised to the full cell. A malformed
//! number in the file is an asset error: `parse_bdf` answers `None` for it.

use std::collections::HashMap;
use vstd::prelude::*;
use crate::parse::{char_views, has_prefix, lines_chars, lines_of, parse_int, parse_int_chars, starts_with_chars, words, words_chars};
use crate::pair::byte_chars;
use crate::text::{chars_eq, str_chars, trim, trim_chars};
use vstd::utf8::encode_utf8;

verus! {

broadcast use vstd::std_specs::hash::group_hash_axioms;

/// One glyph: one row per pixel line, most significant bit leftmost.
#[derive(Clone, Debug, PartialEq, Eq)]
pub struct Glyph {
    pub rows: Vec<u32>,
}

/// A font as plain values: cell size, the glyph rows of each code point,
/// and the box drawn for code points the font lacks.
pub struct FontView {
    pub width: u16,
    pub height: u16,
    pub glyphs: Map<u32, Seq<u32>>,
    pub fallback: Seq<u32>,
}

#[derive(Debug)]
pub struct Font {
    pub width: u16,
    pub height: u16,
    glyphs: HashMap<u32, Glyph>,
    /// The code points in `glyphs`, each once.
    keys: Vec<u32>,
    fallback: Glyph,
}

/// The rows of each glyph of a map.
pub open spec fn glyph_rows(m: Map<u32, Glyph>) -> Map<u32, Seq<u32>> {
    m.map_values(|g: Glyph| g.rows@)
}

/// `ks` lists the keys of `m`, each once.
pub open spec fn keyed(m: Map<u32, Glyph>, ks: Seq<u32>) -> bool {
    &&& ks.no_duplicates()
    &&& forall|k: u32| m.contains_key(k) <==> ks.contains(k)
}

impl View for Font {
    type V = FontView;

    closed spec fn view(&self) -> FontView {
        FontView {
            width: self.width,
            height: self.height,
            glyphs: glyph_rows(self.glyphs@),
            fallback: self.fallback.rows@,
        }
    }
}

impl Font {
    /// The key list matches the glyph map; the cell is 1 to 32 pixels wide
    /// and at least 3 high.
    pub closed spec fn wf(&self) -> bool {
        &&& keyed(self.glyphs@, self.keys@)
        &&& 0 < self.width <= 32
        &&& self.height >= 3
    }
}

/// A valid Unicode scalar value (what `char::from_u32` accepts).
pub open spec fn is_scalar(u: u32) -> bool {
    u <= 0xD7FF || (0xE000 <= u && u <= 0x10FFFF)
}

/// `i` fits in an `i32`.
pub open spec fn fits_i32(i: int) -> bool {
    i32::MIN <= i <= i32::MAX
}

/// Each whitespace-separated token parsed as an `i32` (`str::parse`), or
/// `None` when one of them is not a number.
pub open spec fn i32_tokens(ts: Seq<Seq<char>>) -> Option<Seq<i32>>
    decreases ts.len(),
{
    if ts.len() == 0 {
        Some(seq![])
    } else {
        match i32_tokens(ts.drop_last()) {
            Some(vs) => match parse_int(ts.last(), 10, true, i32::MIN as int, i32::MAX as int) {
                Some(v) => Some(vs.push(v as i32)),
                None => None,
            },
            None => None,
        }
    }
}

/// The numbers after a keyword, when there are at least four and all parse.
pub open spec fn four_numbers(rest: Seq<char>) -> Option<Seq<i32>> {
    match i32_tokens(words(rest)) {
        Some(v) => if v.len() >= 4 {
            Some(v)
        } else {
            None
        },
        None => None,
    }
}

/// The code point of an `ENCODING` value: a non-negative `i64`, taken
/// modulo 2^32; `None` for anything else.
pub open spec fn encoding_of(rest: Seq<char>) -> Option<u32> {
    match parse_int(trim(rest), 10, true, i64::MIN as int, i64::MAX as int) {
        Some(v) => if v >= 0 {
            Some(v as u32)
        } else {
            None
        },
        None => None,
    }
}

/// A bitmap row: one to eight hex digits, left-aligned to 32 bits.
pub open spec fn row_of(l: Seq<char>) -> Option<u32> {
    let t = trim(l);
    match parse_int(t, 16, false, 0, u32::MAX as int) {
        Some(b) => if 1 <= t.len() <= 8 {
            Some((b as u32) << ((32 - 4 * t.len()) as u32))
        } else {
            None
        },
        None => None,
    }
}

/// A glyph being read: what its block has said so far.
pub struct CharScan {
    pub enc: Option<u32>,
    pub bbx: (i32, i32, i32, i32),
    pub rows: Seq<u32>,
    pub in_bitmap: bool,
}

/// What the reader knows after some lines of a BDF file.
pub struct BdfScan {
    pub width: u16,
    pub height: u16,
    pub yoff: i32,
    pub glyphs: Map<u32, Seq<u32>>,
    pub cur: Option<CharScan>,
}

/// A glyph block as it starts.
pub open spec fn new_char() -> CharScan {
    CharScan { enc: None, bbx: (0, 0, 0, 0), rows: seq![], in_bitmap: false }
}

/// One line inside a glyph block other than `ENDCHAR`; `None` when the line
/// is malformed.
pub open spec fn char_line(c: CharScan, l: Seq<char>) -> Option<CharScan> {
    if c.in_bitmap {
        match row_of(l) {
            Some(r) => Some(CharScan { rows: c.rows.push(r), ..c }),
            None => None,
        }
    } else if has_prefix(l, "ENCODING "@) {
        Some(CharScan { enc: encoding_of(l.skip("ENCODING "@.len() as int)), ..c })
    } else if has_prefix(l, "BBX "@) {
        match four_numbers(l.skip("BBX "@.len() as int)) {
            Some(v) => Some(CharScan { bbx: (v[0], v[1], v[2], v[3]), ..c }),
            None => None,
        }
    } else if l == "BITMAP"@ {
        Some(CharScan { in_bitmap: true, ..c })
    } else {
        Some(c)
    }
}

/// A bitmap row moved right by `bx` pixels (left for a negative `bx`).
pub open spec fn shift_row(r: u32, bx: i32) -> u32 {
    if bx >= 0 {
        r >> (bx as u32)
    } else {
        r << ((-bx) as u32)
    }
}

/// The cell after placing the first `k` bitmap rows, the first at line
/// `top`; rows that fall outside the cell are dropped. `None` when a line
/// number overflows or a placed row would shift by 32 or more.
pub open spec fn place_rows(height: u16, top: i32, bx: i32, rows: Seq<u32>, k: int) -> Option<Seq<u32>>
    decreases k,
{
    if k <= 0 {
        Some(Seq::new(height as nat, |y: int| 0u32))
    } else {
        match place_rows(height, top, bx, rows, k - 1) {
            Some(cell) => {
                let y = top + ((k - 1) as i32);
                if !fits_i32(y) {
                    None
                } else if 0 <= y < height {
                    if -32 < bx < 32 {
                        Some(cell.update(y, shift_row(rows[k - 1], bx)))
                    } else {
                        None
                    }
                } else {
                    Some(cell)
                }
            },
            None => None,
        }
    }
}

/// The full-cell rows of a glyph block: the bitmap placed by its bounding
/// box and the font's baseline offset.
pub open spec fn glyph_cell(height: u16, yoff: i32, c: CharScan) -> Option<Seq<u32>> {
    let a = height - c.bbx.1;
    let b = c.bbx.3 - yoff;
    if fits_i32(a) && fits_i32(b) && fits_i32(a - b) {
        place_rows(height, (a - b) as i32, c.bbx.2, c.rows, c.rows.len() as int)
    } else {
        None
    }
}

/// The end of a glyph block: a block with a valid code point whose box is
/// exactly the font's bounding box adds (or replaces) its glyph; other blocks
/// are skipped.
pub open spec fn finish_char(st: BdfScan, c: CharScan) -> Option<BdfScan> {
    match c.enc {
        None => Some(st),
        Some(e) => if !is_scalar(e) || c.bbx.0 != st.width || c.bbx.1 != st.height {
            Some(st)
        } else {
            match glyph_cell(st.height, st.yoff, c) {
                Some(cell) => Some(BdfScan { glyphs: st.glyphs.insert(e, cell), ..st }),
                None => None,
            }
        },
    }
}

/// One line of the file.
pub open spec fn bdf_line(st: BdfScan, l: Seq<char>) -> Option<BdfScan> {
    match st.cur {
        Some(c) => if l == "ENDCHAR"@ {
            finish_char(BdfScan { cur: None, ..st }, c)
        } else {
            match char_line(c, l) {
                Some(c2) => Some(BdfScan { cur: Some(c2), ..st }),
                None => None,
            }
        },
        None => if has_prefix(l, "FONTBOUNDINGBOX "@) {
            match four_numbers(l.skip("FONTBOUNDINGBOX "@.len() as int)) {
                Some(v) => Some(BdfScan { width: v[0] as u16, height: v[1] as u16, yoff: v[3], ..st }),
                None => None,
            }
        } else if has_prefix(l, "STARTCHAR"@) {
            Some(BdfScan { cur: Some(new_char()), ..st })
        } else {
            Some(st)
        },
    }
}

/// The reader's state after the lines `ls`, or `None` once one was malformed.
pub open spec fn bdf_scan(ls: Seq<Seq<char>>) -> Option<BdfScan>
    decreases ls.len(),
{
    if ls.len() == 0 {
        Some(BdfScan { width: 0, height: 0, yoff: 0, glyphs: Map::empty(), cur: None })
    } else {
        match bdf_scan(ls.drop_last()) {
            Some(st) => bdf_line(st, ls.last()),
            None => None,
        }
    }
}

/// The end of the file closes a glyph block left open.
pub open spec fn bdf_done(st: BdfScan) -> Option<BdfScan> {
    match st.cur {
        Some(c) => finish_char(BdfScan { cur: None, ..st }, c),
        None => Some(st),
    }
}

/// The full-width row of a cell `w` pixels wide.
pub open spec fn full_row(w: u16) -> u32 {
    if w >= 32 {
        0xFFFF_FFFFu32
    } else {
        0xFFFF_FFFFu32 << ((32 - w) as u32)
    }
}

/// The row with only the leftmost and rightmost pixel of the cell set.
pub open spec fn edge_row(w: u16) -> u32 {
    (1u32 << 31u32) | (1u32 << ((32 - w) as u32))
}

/// The fallback glyph: a hollow box from line 2 to line `h - 3`.
pub open spec fn fallback_rows(w: u16, h: u16) -> Seq<u32> {
    Seq::new(
        h as nat,
        |y: int|
            if y == 2 || y == h - 3 {
                full_row(w)
            } else if 2 < y < h - 3 {
                edge_row(w)
            } else {
                0u32
            },
    )
}

/// The font a BDF text gives, or `None` where the text is malformed or
/// gives no cell of 1 to 32 pixels wide and at least 3 high.
pub open spec fn bdf_font(s: Seq<char>) -> Option<FontView> {
    match bdf_scan(lines_of(s)) {
        Some(st) => match bdf_done(st) {
            Some(f) => if 0 < f.width <= 32 && f.height >= 3 {
                Some(FontView { width: f.width, height: f.height, glyphs: f.glyphs, fallback: fallback_rows(f.width, f.height) })
            } else {
                None
            },
            None => None,
        },
        None => None,
    }
}

/// The keywords the reader looks for, as characters.
struct Keywords {
    fbb: Vec<char>,
    startchar: Vec<char>,
    endchar: Vec<char>,
    encoding: Vec<char>,
    bbx: Vec<char>,
    bitmap: Vec<char>,
}

impl Keywords {
    spec fn ok(&self) -> bool {
        &&& self.fbb@ == "FONTBOUNDINGBOX "@
        &&& self.startchar@ == "STARTCHAR"@
        &&& self.endchar@ == "ENDCHAR"@
        &&& self.encoding@ == "ENCODING "@
        &&& self.bbx@ == "BBX "@
        &&& self.bitmap@ == "BITMAP"@
    }

    fn new() -> (k: Keywords)
        ensures
            k.ok(),
    {
        Keywords {
            fbb: str_chars("FONTBOUNDINGBOX "),
            startchar: str_chars("STARTCHAR"),
            endchar: str_chars("ENDCHAR"),
            encoding: str_chars("ENCODING "),
            bbx: str_chars("BBX "),
            bitmap: str_chars("BITMAP"),
        }
    }
}

/// The tail of `v` after its first `n` characters.
fn tail(v: &[char], n: usize) -> (r: Vec<char>)
    requires
        n <= v@.len(),
    ensures
        r@ == v@.skip(n as int),
{
    let mut r: Vec<char> = Vec::new();
    let mut i = n;
    while i < v.len()
        invariant
            n <= i <= v@.len(),
            r@ == v@.subrange(n as int, i as int),
        decreases v@.len() - i,
    {
        r.push(v[i]);
        assert(v@.subrange(n as int, i + 1) =~= v@.subrange(n as int, i as int).push(v@[i as int]));
        i = i + 1;
    }
    assert(v@.subrange(n as int, v@.len() as int) =~= v@.skip(n as int));
    r
}

/// The tokens of `v` as `i32`s, `None` when one is not a number.
fn i32_fields(v: &[char]) -> (r: Option<Vec<i32>>)
    ensures
        match r {
            Some(xs) => i32_tokens(words(v@)) == Some(xs@),
            None => i32_tokens(words(v@)) is None,
        },
{
    let ws = words_chars(v);
    let ghost ts = char_views(ws@);
    let mut out: Vec<i32> = Vec::new();
    let mut i: usize = 0;
    assert(ts.take(0) =~= Seq::<Seq<char>>::empty());
    while i < ws.len()
        invariant
            i <= ws@.len(),
            ts == char_views(ws@),
            ts == words(v@),
            i32_tokens(ts.take(i as int)) == Some(out@),
        decreases ws@.len() - i,
    {
        assert(ts.take(i + 1).drop_last() =~= ts.take(i as int));
        assert(ts.take(i + 1).last() == ws@[i as int]@);
        match parse_int_chars(ws[i].as_slice(), 10, true, i32::MIN as i128, i32::MAX as i128) {
            Some(x) => {
                out.push(x as i32);
            },
            None => {
                proof {
                    lemma_tokens_none(ts, i as int + 1);
                }
                return None;
            },
        }
        i = i + 1;
    }
    assert(ts.take(ws@.len() as int) =~= ts);
    Some(out)
}

/// Once a token fails, every longer prefix fails too.
proof fn lemma_tokens_none(ts: Seq<Seq<char>>, k: int)
    requires
        0 <= k <= ts.len(),
        i32_tokens(ts.take(k)) is None,
    ensures
        i32_tokens(ts) is None,
    decreases ts.len() - k,
{
    if k < ts.len() {
        assert(ts.take(k + 1).drop_last() =~= ts.take(k));
        lemma_tokens_none(ts, k + 1);
    } else {
        assert(ts.take(k) =~= ts);
    }
}

/// At least four numbers after a keyword.
fn four_fields(v: &[char]) -> (r: Option<Vec<i32>>)
    ensures
        match r {
            Some(xs) => four_numbers(v@) == Some(xs@) && xs@.len() >= 4,
            None => four_numbers(v@) is None,
        },
{
    match i32_fields(v) {
        Some(xs) => if xs.len() >= 4 {
            Some(xs)
        } else {
            None
        },
        None => None,
    }
}

/// The code point of an `ENCODING` line's value.
fn encoding_value(v: &[char]) -> (r: Option<u32>)
    ensures
        r == encoding_of(v@),
{
    let t = trim_chars(v);
    match parse_int_chars(t.as_slice(), 10, true, i64::MIN as i128, i64::MAX as i128) {
        Some(x) => if x >= 0 {
            Some(x as u32)
        } else {
            None
        },
        None => None,
    }
}

/// A bitmap row of the file, left-aligned.
fn row_value(l: &[char]) -> (r: Option<u32>)
    ensures
        r == row_of(l@),
{
    let t = trim_chars(l);
    match parse_int_chars(t.as_slice(), 16, false, 0, u32::MAX as i128) {
        Some(b) => if 1 <= t.len() && t.len() <= 8 {
            let sh: u32 = 32 - 4 * (t.len() as u32);
            Some((b as u32) << sh)
        } else {
            None
        },
        None => None,
    }
}

/// A glyph block being read.
struct CharAcc {
    enc: Option<u32>,
    bbx: (i32, i32, i32, i32),
    rows: Vec<u32>,
    in_bitmap: bool,
}

impl View for CharAcc {
    type V = CharScan;

    closed spec fn view(&self) -> CharScan {
        CharScan { enc: self.enc, bbx: self.bbx, rows: self.rows@, in_bitmap: self.in_bitmap }
    }
}

/// One line inside a glyph block other than `ENDCHAR`.
fn char_step(c: CharAcc, l: &[char], kw: &Keywords) -> (r: Option<CharAcc>)
    requires
        kw.ok(),
    ensures
        match r {
            Some(c2) => char_line(c@, l@) == Some(c2@),
            None => char_line(c@, l@) is None,
        },
{
    let mut c = c;
    if c.in_bitmap {
        match row_value(l) {
            Some(r) => {
                c.rows.push(r);
                Some(c)
            },
            None => None,
        }
    } else if starts_with_chars(l, kw.encoding.as_slice()) {
        let rest = tail(l, kw.encoding.len());
        c.enc = encoding_value(rest.as_slice());
        Some(c)
    } else if starts_with_chars(l, kw.bbx.as_slice()) {
        let rest = tail(l, kw.bbx.len());
        match four_fields(rest.as_slice()) {
            Some(v) => {
                c.bbx = (v[0], v[1], v[2], v[3]);
                Some(c)
            },
            None => None,
        }
    } else if chars_eq(l, kw.bitmap.as_slice()) {
        c.in_bitmap = true;
        Some(c)
    } else {
        Some(c)
    }
}

/// Once a row fails to place, every later count fails too.
proof fn lemma_place_none(height: u16, top: i32, bx: i32, rows: Seq<u32>, k: int, n: int)
    requires
        0 <= k <= n,
        place_rows(height, top, bx, rows, k) is None,
    ensures
        place_rows(height, top, bx, rows, n) is None,
    decreases n - k,
{
    if k < n {
        lemma_place_none(height, top, bx, rows, k + 1, n);
    }
}

/// A row moved by `bx` pixels, for `-32 < bx < 32`.
fn shift_value(r: u32, bx: i32) -> (s: u32)
    requires
        -32 < bx < 32,
    ensures
        s == shift_row(r, bx),
{
    if bx >= 0 {
        r >> (bx as u32)
    } else {
        r << ((-bx) as u32)
    }
}

/// `n` zero rows.
fn zero_rows(n: u16) -> (v: Vec<u32>)
    ensures
        v@ == Seq::new(n as nat, |y: int| 0u32),
{
    let mut v: Vec<u32> = Vec::new();
    let mut i: u16 = 0;
    while i < n
        invariant
            i <= n,
            v@ == Seq::new(i as nat, |y: int| 0u32),
        decreases n - i,
    {
        v.push(0);
        assert(v@ =~= Seq::new((i + 1) as nat, |y: int| 0u32));
        i = i + 1;
    }
    v
}

/// The full-cell rows of a finished glyph block.
fn cell_of(height: u16, yoff: i32, c: &CharAcc) -> (r: Option<Vec<u32>>)
    ensures
        match r {
            Some(cell) => glyph_cell(height, yoff, c@) == Some(cell@) && cell@.len() == height,
            None => glyph_cell(height, yoff, c@) is None,
        },
{
    let (_bw, bh, bx, by) = c.bbx;
    let a: i64 = height as i64 - bh as i64;
    let b: i64 = by as i64 - yoff as i64;
    if a < i32::MIN as i64 || a > i32::MAX as i64 || b < i32::MIN as i64 || b > i32::MAX as i64 || a - b
        < i32::MIN as i64 || a - b > i32::MAX as i64 {
        return None;
    }
    let top: i32 = (a - b) as i32;
    let mut cell = zero_rows(height);
    let mut k: usize = 0;
    while k < c.rows.len()
        invariant
            k <= c.rows@.len(),
            c@.rows == c.rows@,
            c@.bbx.2 == bx,
            place_rows(height, top, bx, c.rows@, k as int) == Some(cell@),
            glyph_cell(height, yoff, c@) == place_rows(height, top, bx, c.rows@, c.rows@.len() as int),
            cell@.len() == height,
        decreases c.rows@.len() - k,
    {
        let y: i64 = top as i64 + (k as i32) as i64;
        if y < i32::MIN as i64 || y > i32::MAX as i64 {
            assert(place_rows(height, top, bx, c.rows@, k + 1) is None);
            proof {
                lemma_place_none(height, top, bx, c.rows@, k + 1, c.rows@.len() as int);
            }
            return None;
        }
        if 0 <= y && y < height as i64 {
            if bx <= -32 || bx >= 32 {
                assert(place_rows(height, top, bx, c.rows@, k + 1) is None);
                proof {
                    lemma_place_none(height, top, bx, c.rows@, k + 1, c.rows@.len() as int);
                }
                return None;
            }
            let v = shift_value(c.rows[k], bx);
            cell.set(y as usize, v);
        }
        k = k + 1;
    }
    Some(cell)
}

/// Adds or replaces one glyph, keeping the key list.
fn put_glyph(glyphs: &mut HashMap<u32, Glyph>, keys: &mut Vec<u32>, k: u32, g: Glyph)
    requires
        keyed(old(glyphs)@, old(keys)@),
    ensures
        keyed(final(glyphs)@, final(keys)@),
        final(glyphs)@ == old(glyphs)@.insert(k, g),
{
    if !glyphs.contains_key(&k) {
        keys.push(k);
        proof {
            assert forall|i: int, j: int| 0 <= i < j < keys@.len() implies keys@[i] != keys@[j] by {
                if j == keys@.len() - 1 {
                    assert(old(keys)@[i] == keys@[i]);
                    assert(old(keys)@.contains(keys@[i]));
                } else {
                    assert(old(keys)@[i] == keys@[i] && old(keys)@[j] == keys@[j]);
                }
            }
        }
    }
    glyphs.insert(k, g);
    proof {
        assert forall|j: u32| final(glyphs)@.contains_key(j) <==> final(keys)@.contains(j) by {
            if j != k {
                if old(keys)@.contains(j) {
                    let i = choose|i: int| 0 <= i < old(keys)@.len() && old(keys)@[i] == j;
                    assert(final(keys)@[i] == j);
                }
                if final(keys)@.contains(j) {
                    let i = choose|i: int| 0 <= i < final(keys)@.len() && final(keys)@[i] == j;
                    assert(old(keys)@[i] == j);
                }
            } else {
                if old(keys)@.contains(j) {
                    let i = choose|i: int| 0 <= i < old(keys)@.len() && old(keys)@[i] == j;
                    assert(final(keys)@[i] == j);
                } else {
                    assert(final(keys)@[old(keys)@.len() as int] == j);
                }
            }
        }
    }
}

/// The reader's state.
struct Scan {
    width: u16,
    height: u16,
    yoff: i32,
    glyphs: HashMap<u32, Glyph>,
    keys: Vec<u32>,
    cur: Option<CharAcc>,
}

impl View for Scan {
    type V = BdfScan;

    closed spec fn view(&self) -> BdfScan {
        BdfScan {
            width: self.width,
            height: self.height,
            yoff: self.yoff,
            glyphs: glyph_rows(self.glyphs@),
            cur: match self.cur {
                Some(c) => Some(c@),
                None => None,
            },
        }
    }
}

impl Scan {
    spec fn inv(&self) -> bool {
        keyed(self.glyphs@, self.keys@)
    }
}

/// Ends the glyph block `c`.
fn finish(st: Scan, c: CharAcc) -> (r: Option<Scan>)
    requires
        st.inv(),
        st.cur is None,
    ensures
        match r {
            Some(s2) => finish_char(st@, c@) == Some(s2@) && s2.inv() && s2.cur is None,
            None => finish_char(st@, c@) is None,
        },
{
    let mut st = st;
    match c.enc {
        None => Some(st),
        Some(e) => {
            let scalar = e <= 0xD7FF || (0xE000 <= e && e <= 0x10FFFF);
            if !scalar || c.bbx.0 != st.width as i32 || c.bbx.1 != st.height as i32 {
                return Some(st);
            }
            match cell_of(st.height, st.yoff, &c) {
                Some(cell) => {
                    let ghost before = st.glyphs@;
                    let ghost rows = cell@;
                    put_glyph(&mut st.glyphs, &mut st.keys, e, Glyph { rows: cell });
                    assert(glyph_rows(st.glyphs@) =~= glyph_rows(before).insert(e, rows));
                    Some(st)
                },
                None => None,
            }
        },
    }
}

/// One line of the file.
fn scan_line(st: Scan, l: &[char], kw: &Keywords) -> (r: Option<Scan>)
    requires
        st.inv(),
        kw.ok(),
    ensures
        match r {
            Some(s2) => bdf_line(st@, l@) == Some(s2@) && s2.inv(),
            None => bdf_line(st@, l@) is None,
        },
{
    let mut st = st;
    match st.cur.take() {
        Some(c) => {
            if chars_eq(l, kw.endchar.as_slice()) {
                finish(st, c)
            } else {
                match char_step(c, l, kw) {
                    Some(c2) => {
                        st.cur = Some(c2);
                        Some(st)
                    },
                    None => None,
                }
            }
        },
        None => {
            if starts_with_chars(l, kw.fbb.as_slice()) {
                let rest = tail(l, kw.fbb.len());
                match four_fields(rest.as_slice()) {
                    Some(v) => {
                        st.width = v[0] as u16;
                        st.height = v[1] as u16;
                        st.yoff = v[3];
                        Some(st)
                    },
                    None => None,
                }
            } else if starts_with_chars(l, kw.startchar.as_slice()) {
                st.cur = Some(CharAcc { enc: None, bbx: (0, 0, 0, 0), rows: Vec::new(), in_bitmap: false });
                Some(st)
            } else {
                Some(st)
            }
        },
    }
}

/// Rows of the fallback box for a cell of `w` by `h`.
fn fallback_of(w: u16, h: u16) -> (v: Vec<u32>)
    requires
        0 < w <= 32,
        h >= 3,
    ensures
        v@ == fallback_rows(w, h),
{
    let full: u32 = if w >= 32 {
        0xFFFF_FFFFu32
    } else {
        0xFFFF_FFFFu32 << ((32 - w) as u32)
    };
    let edge: u32 = (1u32 << 31u32) | (1u32 << ((32 - w) as u32));
    let mut v: Vec<u32> = Vec::new();
    let mut y: u16 = 0;
    while y < h
        invariant
            y <= h,
            h >= 3,
            full == full_row(w),
            edge == edge_row(w),
            v@ == fallback_rows(w, h).take(y as int),
        decreases h - y,
    {
        let r: u32 = if y == 2 || y == h - 3 {
            full
        } else if y > 2 && y < h - 3 {
            edge
        } else {
            0
        };
        v.push(r);
        assert(v@ =~= fallback_rows(w, h).take(y + 1));
        y = y + 1;
    }
    assert(v@ =~= fallback_rows(w, h));
    v
}

impl Font {
    /// Reads a BDF font: `None` where the text is malformed (a number that
    /// does not parse, a bitmap row of more than eight digits, a glyph box
    /// that overflows) or where its cell is not 1 to 32 pixels wide and at
    /// least 3 high. Glyphs whose box exceeds the cell, or whose code point
    /// is not a character, are skipped.
    pub fn parse_bdf(src: &str) -> (r: Option<Font>)
        ensures
            match r {
                Some(f) => bdf_font(src@) == Some(f@) && f.wf(),
                None => bdf_font(src@) is None,
            },
            r is Some && box_before_glyphs(lines_of(src@)) ==> uniform(r->0@),
    {
        proof {
            if bdf_font(src@) is Some && box_before_glyphs(lines_of(src@)) {
                lemma_bdf_glyph_rows(src@);
            }
        }
        let text = str_chars(src);
        let lines = lines_chars(text.as_slice());
        let ghost ls = char_views(lines@);
        let kw = Keywords::new();
        let mut st = Scan { width: 0, height: 0, yoff: 0, glyphs: HashMap::new(), keys: Vec::new(), cur: None };
        assert(glyph_rows(st.glyphs@) =~= Map::empty());
        assert(ls.take(0) =~= Seq::<Seq<char>>::empty());
        let mut i: usize = 0;
        while i < lines.len()
            invariant
                i <= lines@.len(),
                ls == char_views(lines@),
                ls == lines_of(src@),
                kw.ok(),
                st.inv(),
                bdf_scan(ls.take(i as int)) == Some(st@),
            decreases lines@.len() - i,
        {
            assert(ls.take(i + 1).drop_last() =~= ls.take(i as int));
            assert(ls.take(i + 1).last() == lines@[i as int]@);
            match scan_line(st, lines[i].as_slice(), &kw) {
                Some(s2) => {
                    st = s2;
                },
                None => {
                    proof {
                        lemma_scan_none(ls, i as int + 1);
                    }
                    return None;
                },
            }
            i = i + 1;
        }
        assert(ls.take(lines@.len() as int) =~= ls);
        let mut st = st;
        let done = match st.cur.take() {
            Some(c) => finish(st, c),
            None => Some(st),
        };
        let st = match done {
            Some(s2) => s2,
            None => {
                return None;
            },
        };
        if st.width == 0 || st.width > 32 || st.height < 3 {
            return None;
        }
        let fb = fallback_of(st.width, st.height);
        Some(Font { width: st.width, height: st.height, glyphs: st.glyphs, keys: st.keys, fallback: Glyph { rows: fb } })
    }

    /// Reads a BDF font whose text is well formed (see `parse_bdf`) and adds
    /// the glyphs of the Unifont `.hex` text `symbols` for the code points it
    /// lacks, fitted into its cell (see `with_symbols`).
    pub fn from_bdf(src: &str, symbols: &str) -> (f: Font)
        requires
            with_symbols_spec(src@, symbols@) is Some,
        ensures
            with_symbols_spec(src@, symbols@) == Some(f@),
            f.wf(),
            box_before_glyphs(lines_of(src@)) ==> uniform(f@),
    {
        match Font::with_symbols(src, symbols) {
            Some(f) => f,
            None => vstd::pervasive::unreached(),
        }
    }

    /// The font of the BDF text `src` with the glyphs of the `.hex` text
    /// `symbols` added where it lacks them: the font the device uses, whose
    /// symbol glyphs come from GNU Unifont. `None` where either text cannot
    /// be read or a symbol cannot be placed in the cell.
    pub fn with_symbols(src: &str, symbols: &str) -> (r: Option<Font>)
        ensures
            r is Some ==> r->0.wf(),
            match r {
                Some(f) => Some(f@) == with_symbols_spec(src@, symbols@),
                None => with_symbols_spec(src@, symbols@) is None,
            },
            r is Some && box_before_glyphs(lines_of(src@)) ==> uniform(r->0@),
    {
        proof {
            if with_symbols_spec(src@, symbols@) is Some && box_before_glyphs(lines_of(src@)) {
                lemma_symbols_keep_rows(src@, symbols@);
            }
        }
        match Font::parse_bdf(src) {
            Some(f) => {
                let mut f = f;
                if f.try_add_hex_fallbacks(symbols) {
                    Some(f)
                } else {
                    None
                }
            },
            None => None,
        }
    }
}

/// The font of BDF text `src` with the `.hex` glyphs of `symbols` added.
pub open spec fn with_symbols_spec(src: Seq<char>, symbols: Seq<char>) -> Option<FontView> {
    match bdf_font(src) {
        Some(base) => match hex_glyphs(base, symbols) {
            Some(g) => Some(FontView { glyphs: g, ..base }),
            None => None,
        },
        None => None,
    }
}

/// Once a line is malformed, every longer prefix is too.
proof fn lemma_scan_none(ls: Seq<Seq<char>>, k: int)
    requires
        0 <= k <= ls.len(),
        bdf_scan(ls.take(k)) is None,
    ensures
        bdf_scan(ls) is None,
    decreases ls.len() - k,
{
    if k < ls.len() {
        assert(ls.take(k + 1).drop_last() =~= ls.take(k));
        lemma_scan_none(ls, k + 1);
    } else {
        assert(ls.take(k) =~= ls);
    }
}

/// Pixel `x` (0 = leftmost) of a row.
pub open spec fn pixel(v: u32, x: u32) -> bool {
    (v >> ((31 - x) as u32)) & 1u32 == 1u32
}

/// `d` is row `r` of a `w`-pixel cell with each pixel doubled: pixels `2x`
/// and `2x + 1` of `d` are pixel `x` of `r` for `x < w`, the rest are clear.
pub open spec fn doubled(r: u32, d: u32, w: u16) -> bool {
    forall|p: u32| p < 32 ==> (#[trigger] pixel(d, p) <==> (p < 2 * w && pixel(r, p / 2)))
}

/// `b` is `a` with each row doubled in width and repeated.
pub open spec fn doubled_rows(a: Seq<u32>, b: Seq<u32>, w: u16) -> bool {
    &&& b.len() == 2 * a.len()
    &&& forall|y: int| 0 <= y < a.len() ==> doubled(a[y], #[trigger] b[2 * y], w) && b[2 * y + 1] == b[2 * y]
}

/// `g` is `f` scaled by two: every glyph and the fallback pixel-doubled.
pub open spec fn scaled_from(f: FontView, g: FontView) -> bool {
    &&& g.width == 2 * f.width
    &&& g.height == 2 * f.height
    &&& g.glyphs.dom() == f.glyphs.dom()
    &&& forall|k: u32| #[trigger] f.glyphs.contains_key(k) ==> doubled_rows(f.glyphs[k], g.glyphs[k], f.width)
    &&& doubled_rows(f.fallback, g.fallback, f.width)
}

proof fn lemma_pixel_bits(out: u32, bits: u32, x: u32, p: u32)
    by (bit_vector)
    requires
        x < 16,
        p < 32,
    ensures
        (((out | (3u32 << ((30 - 2 * x) as u32))) >> ((31 - p) as u32)) & 1u32 == 1u32) <==> (((out >> ((31
            - p) as u32)) & 1u32 == 1u32) || p == 2 * x || p == 2 * x + 1),
        ((bits & (1u32 << ((31 - x) as u32))) != 0u32) <==> ((bits >> ((31 - x) as u32)) & 1u32 == 1u32),
        (0u32 >> ((31 - p) as u32)) & 1u32 != 1u32,
{
}

/// Row `bits` of a `w`-pixel cell with every pixel doubled.
fn dbl(bits: u32, w: u16) -> (out: u32)
    requires
        w <= 16,
    ensures
        doubled(bits, out, w),
{
    let mut out: u32 = 0;
    let mut x: u32 = 0;
    assert forall|p: u32| p < 32 implies (#[trigger] pixel(out, p) <==> (p < 2 * x && pixel(bits, p / 2))) by {
        lemma_pixel_bits(out, bits, 0, p);
    }
    while x < w as u32
        invariant
            x <= w <= 16,
            forall|p: u32| p < 32 ==> (#[trigger] pixel(out, p) <==> (p < 2 * x && pixel(bits, p / 2))),
        decreases w - x,
    {
        let ghost before = out;
        proof {
            lemma_pixel_bits(out, bits, x, 0);
        }
        let set = bits & (1u32 << (31 - x)) != 0;
        assert(set == pixel(bits, x));
        if set {
            out = out | (3u32 << (30 - 2 * x));
        }
        assert forall|p: u32| p < 32 implies (#[trigger] pixel(out, p) <==> (p < 2 * (x + 1) && pixel(bits, p / 2))) by {
            lemma_pixel_bits(before, bits, x, p);
            if p == 2 * x || p == 2 * x + 1 {
                assert(p / 2 == x);
                assert(pixel(bits, p / 2) == set);
            } else {
                assert(pixel(out, p) == pixel(before, p));
                assert(p < 2 * (x + 1) <==> p < 2 * x);
            }
        }
        x = x + 1;
    }
    out
}

/// A glyph's rows doubled in width and repeated.
fn dbl_rows(g: &Glyph, w: u16) -> (r: Glyph)
    requires
        w <= 16,
    ensures
        doubled_rows(g.rows@, r.rows@, w),
{
    let mut rows: Vec<u32> = Vec::new();
    let mut i: usize = 0;
    while i < g.rows.len()
        invariant
            i <= g.rows@.len(),
            w <= 16,
            rows@.len() == 2 * i,
            forall|y: int| 0 <= y < i ==> doubled(g.rows@[y], #[trigger] rows@[2 * y], w) && rows@[2 * y + 1] == rows@[2 * y],
        decreases g.rows@.len() - i,
    {
        let d = dbl(g.rows[i], w);
        rows.push(d);
        rows.push(d);
        assert forall|y: int| 0 <= y < i + 1 implies doubled(g.rows@[y], #[trigger] rows@[2 * y], w) && rows@[2 * y + 1]
            == rows@[2 * y] by {
            if y == i {
                assert(rows@[2 * y] == d);
            }
        }
        i = i + 1;
    }
    Glyph { rows }
}

impl Font {
    /// Pixel-double every glyph (16x32 from 8x16, 24x48 from 12x24).
    pub fn scaled_2x(&self) -> (r: Font)
        requires
            self.wf(),
            self@.width <= 16,
            self@.height <= 32767,
        ensures
            r.wf(),
            scaled_from(self@, r@),
            uniform(self@) ==> uniform(r@),
    {
        let w = self.width;
        let mut glyphs: HashMap<u32, Glyph> = HashMap::new();
        let mut keys: Vec<u32> = Vec::new();
        let mut i: usize = 0;
        while i < self.keys.len()
            invariant
                i <= self.keys@.len(),
                self.wf(),
                w == self.width <= 16,
                self.height <= 32767,
                keyed(glyphs@, keys@),
                forall|k: u32| glyphs@.contains_key(k) <==> self.keys@.take(i as int).contains(k),
                forall|k: u32| #[trigger] glyphs@.contains_key(k) ==> doubled_rows(self@.glyphs[k], glyphs@[k].rows@, w),
            decreases self.keys@.len() - i,
        {
            let k = self.keys[i];
            assert(self.keys@.contains(k));
            assert(self.glyphs@.contains_key(k));
            assert(self@.glyphs.contains_key(k));
            assert(glyph_rows(self.glyphs@)[k] == self.glyphs@[k].rows@);
            let g = match self.glyphs.get(&k) {
                Some(g) => g,
                None => vstd::pervasive::unreached(),
            };
            let d = dbl_rows(g, w);
            put_glyph(&mut glyphs, &mut keys, k, d);
            let ghost pre = self.keys@.take(i as int);
            let ghost pre1 = self.keys@.take(i + 1);
            assert(pre1 =~= pre.push(k));
            assert forall|j: u32| glyphs@.contains_key(j) <==> pre1.contains(j) by {
                if pre.contains(j) {
                    let t = choose|t: int| 0 <= t < pre.len() && pre[t] == j;
                    assert(pre1[t] == j);
                }
                if pre1.contains(j) && j != k {
                    let t = choose|t: int| 0 <= t < pre1.len() && pre1[t] == j;
                    assert(pre[t] == j);
                }
                assert(pre1[i as int] == k);
            }
            i = i + 1;
        }
        assert(self.keys@.take(self.keys@.len() as int) =~= self.keys@);
        let fallback = dbl_rows(&self.fallback, w);
        let r = Font { width: self.width * 2, height: self.height * 2, glyphs, keys, fallback };
        assert(r@.glyphs.dom() =~= self@.glyphs.dom());
        proof {
            if uniform(self@) {
                lemma_doubling_keeps_rows(self@, r@);
            }
        }
        r
    }

    /// The glyph for `ch`, or the fallback box when the font lacks it.
    pub fn glyph(&self, ch: char) -> (g: &Glyph)
        ensures
            g.rows@ == (if self@.glyphs.contains_key(ch as u32) {
                self@.glyphs[ch as u32]
            } else {
                self@.fallback
            }),
    {
        match self.glyphs.get(&(ch as u32)) {
            Some(g) => g,
            None => &self.fallback,
        }
    }

    /// The box drawn for code points the font lacks.
    pub fn fallback(&self) -> (g: &Glyph)
        ensures
            g.rows@ == self@.fallback,
    {
        &self.fallback
    }

    /// Whether the font has its own glyph for `ch`.
    pub fn has(&self, ch: char) -> (b: bool)
        ensures
            b == self@.glyphs.contains_key(ch as u32),
    {
        self.glyphs.contains_key(&(ch as u32))
    }

    /// Number of glyphs.
    pub fn len(&self) -> (n: usize)
        ensures
            n == self@.glyphs.len(),
    {
        assert(glyph_rows(self.glyphs@).dom() =~= self.glyphs@.dom());
        self.glyphs.len()
    }

    pub fn is_empty(&self) -> (b: bool)
        ensures
            b == self@.glyphs.is_empty(),
    {
        assert(glyph_rows(self.glyphs@).dom() =~= self.glyphs@.dom());
        self.glyphs.is_empty()
    }
}

/// A font family with a list of pixel sizes (some produced by 2x scaling).
#[derive(Clone, Copy, Debug, PartialEq, Eq, Structural)]
pub enum Family {
    Spleen,
    Terminus,
}

/// The BDF files a family's sizes come from.
#[derive(Clone, Copy, Debug, PartialEq, Eq, Structural)]
pub enum BdfFile {
    Spleen8x16,
    Spleen12x24,
    Spleen16x32,
    Spleen32x64,
    Terminus8x16,
    Terminus10x20,
    Terminus12x24,
    Terminus14x28,
    Terminus16x32,
}

pub open spec fn family_name(f: Family) -> Seq<char> {
    match f {
        Family::Spleen => seq!['S', 'p', 'l', 'e', 'e', 'n'],
        Family::Terminus => seq!['T', 'e', 'r', 'm', 'i', 'n', 'u', 's'],
    }
}

/// `s` in ASCII lower case.
pub open spec fn lower_all(s: Seq<char>) -> Seq<char> {
    Seq::new(s.len(), |i: int| crate::parse::ascii_lower(s[i]))
}

/// (file, scale) of each size step, smallest first.
pub open spec fn family_steps(f: Family) -> Seq<(BdfFile, u8)> {
    match f {
        Family::Spleen => seq![
            (BdfFile::Spleen8x16, 1u8),
            (BdfFile::Spleen12x24, 1u8),
            (BdfFile::Spleen16x32, 1u8),
            (BdfFile::Spleen12x24, 2u8),
            (BdfFile::Spleen32x64, 1u8),
        ],
        Family::Terminus => seq![
            (BdfFile::Terminus8x16, 1u8),
            (BdfFile::Terminus10x20, 1u8),
            (BdfFile::Terminus12x24, 1u8),
            (BdfFile::Terminus14x28, 1u8),
            (BdfFile::Terminus16x32, 1u8),
            (BdfFile::Terminus12x24, 2u8),
            (BdfFile::Terminus16x32, 2u8),
        ],
    }
}

/// File and scale of size step `idx`; past the last step, the last.
pub open spec fn step_of(f: Family, idx: int) -> (BdfFile, u8) {
    family_steps(f)[if idx < family_steps(f).len() {
        idx
    } else {
        family_steps(f).len() - 1
    }]
}

impl Family {
    pub fn name(self) -> (r: &'static str)
        ensures
            r@ == family_name(self),
    {
        proof {
            reveal_strlit("Spleen");
            reveal_strlit("Terminus");
        }
        match self {
            Family::Spleen => "Spleen",
            Family::Terminus => "Terminus",
        }
    }

    /// `terminus` in any case is Terminus; anything else is Spleen.
    pub fn parse(s: &str) -> (f: Family)
        ensures
            f == (if lower_all(s@) == seq!['t', 'e', 'r', 'm', 'i', 'n', 'u', 's'] {
                Family::Terminus
            } else {
                Family::Spleen
            }),
    {
        let v = str_chars(s);
        let t = ['t', 'e', 'r', 'm', 'i', 'n', 'u', 's'];
        let same = crate::parse::eq_ignore_case_chars(v.as_slice(), &t);
        proof {
            let want = seq!['t', 'e', 'r', 'm', 'i', 'n', 'u', 's'];
            assert(t@ =~= want);
            if same {
                assert(lower_all(s@) =~= want);
            } else if lower_all(s@) == want {
                assert forall|i: int| 0 <= i < v@.len() implies crate::parse::ascii_lower(#[trigger] v@[i])
                    == crate::parse::ascii_lower(t@[i]) by {
                    assert(lower_all(s@)[i] == want[i]);
                }
            }
        }
        if same {
            Family::Terminus
        } else {
            Family::Spleen
        }
    }

    /// Number of size steps.
    pub fn size_count(self) -> (n: usize)
        ensures
            n == family_steps(self).len(),
    {
        match self {
            Family::Spleen => 5,
            Family::Terminus => 7,
        }
    }

    /// File and scale of size step `idx`; past the last step, the last.
    pub fn step(self, idx: usize) -> (r: (BdfFile, u8))
        ensures
            r == step_of(self, idx as int),
    {
        let n = self.size_count();
        let i = if idx < n {
            idx
        } else {
            n - 1
        };
        match self {
            Family::Spleen => if i == 0 {
                (BdfFile::Spleen8x16, 1)
            } else if i == 1 {
                (BdfFile::Spleen12x24, 1)
            } else if i == 2 {
                (BdfFile::Spleen16x32, 1)
            } else if i == 3 {
                (BdfFile::Spleen12x24, 2)
            } else {
                (BdfFile::Spleen32x64, 1)
            },
            Family::Terminus => if i == 0 {
                (BdfFile::Terminus8x16, 1)
            } else if i == 1 {
                (BdfFile::Terminus10x20, 1)
            } else if i == 2 {
                (BdfFile::Terminus12x24, 1)
            } else if i == 3 {
                (BdfFile::Terminus14x28, 1)
            } else if i == 4 {
                (BdfFile::Terminus16x32, 1)
            } else if i == 5 {
                (BdfFile::Terminus12x24, 2)
            } else {
                (BdfFile::Terminus16x32, 2)
            },
        }
    }
}


/// A byte of a multi-byte UTF-8 sequence other than its first.
pub open spec fn is_cont(c: char) -> bool {
    0x80 <= c as u32 <= 0xBF
}

/// Glyph width of a `.hex` bitmap of `n` digits (32 or 64), else 0.
pub open spec fn hex_gw(n: int) -> int {
    if n == 32 {
        8
    } else if n == 64 {
        16
    } else {
        0
    }
}

/// Cutting `bits` into 16 pieces of `pr` bytes cuts no character apart.
pub open spec fn slices_ok(bits: Seq<char>, pr: int) -> bool {
    forall|j: int| 0 < j < 16 * pr && j % pr == 0 ==> !is_cont(#[trigger] bits[j])
}

/// Source row `i` of a `.hex` bitmap, left-aligned to 16 bits; 0 where its
/// digits do not parse.
pub open spec fn hex_src(bits: Seq<char>, gw: int, i: int) -> u16 {
    let pr = gw / 4;
    let v = match parse_int(bits.subrange(i * pr, (i + 1) * pr), 16, false, 0, u16::MAX as int) {
        Some(v) => v,
        None => 0,
    };
    (v as u16) << ((16 - gw) as u16)
}

/// The integer scale of a `gw` x 16 glyph in a `cw` x `ch` cell, at least 1.
pub open spec fn hex_scale(cw: int, ch: int, gw: int) -> int {
    let s = if cw / gw < ch / 16 {
        cw / gw
    } else {
        ch / 16
    };
    if s < 1 {
        1
    } else {
        s
    }
}

/// Drawn width and height: scaled up when the glyph fits the cell's width,
/// else squeezed into the cell.
pub open spec fn hex_dw(cw: int, ch: int, gw: int) -> int {
    if cw >= gw {
        gw * hex_scale(cw, ch, gw)
    } else {
        cw
    }
}

pub open spec fn hex_dh(cw: int, ch: int, gw: int) -> int {
    if cw >= gw {
        16 * hex_scale(cw, ch, gw)
    } else if ch < 16 {
        ch
    } else {
        16
    }
}

/// Source column of drawn column `dx`.
pub open spec fn hex_sx(cw: int, ch: int, gw: int, dx: int) -> int {
    if cw >= gw {
        dx / hex_scale(cw, ch, gw)
    } else {
        dx * gw / hex_dw(cw, ch, gw)
    }
}

/// Source row of drawn row `dy`.
pub open spec fn hex_sy(cw: int, ch: int, gw: int, dy: int) -> int {
    if cw >= gw {
        dy / hex_scale(cw, ch, gw)
    } else {
        dy * 16 / hex_dh(cw, ch, gw)
    }
}

/// The first `k` drawn columns of a row from source row `src`, placed from
/// column `x0` of the cell.
pub open spec fn hex_out(cw: int, ch: int, gw: int, src: u16, x0: int, k: int) -> u32
    decreases k,
{
    if k <= 0 {
        0u32
    } else {
        let o = hex_out(cw, ch, gw, src, x0, k - 1);
        let sx = hex_sx(cw, ch, gw, k - 1);
        if src & (1u16 << ((15 - sx) as u16)) != 0u16 {
            o | (1u32 << ((31 - (x0 + k - 1)) as u32))
        } else {
            o
        }
    }
}

/// The cell rows of a `.hex` glyph, centred in a `cw` x `ch` cell.
pub open spec fn hex_cell(cw: int, ch: int, bits: Seq<char>, gw: int) -> Seq<u32> {
    let dw = hex_dw(cw, ch, gw);
    let dh = hex_dh(cw, ch, gw);
    let x0 = (cw - dw) / 2;
    let y0 = (ch - dh) / 2;
    Seq::new(
        ch as nat,
        |y: int|
            if y0 <= y < y0 + dh {
                hex_out(cw, ch, gw, hex_src(bits, gw, hex_sy(cw, ch, gw, y - y0)), x0, dw)
            } else {
                0u32
            },
    )
}

/// One line of a `.hex` file (`codepoint:bits`) for a `cw` x `ch` font that
/// has the glyphs `have`: a valid code point the font lacks, with 32 or 64
/// digits, adds its glyph. `None` where the glyph cannot be placed: a piece
/// that cuts a character apart, or a cell under 16 lines for a glyph no
/// wider than it.
pub open spec fn hex_line(cw: int, ch: int, have: Map<u32, Seq<u32>>, l: Seq<char>) -> Option<Map<u32, Seq<u32>>> {
    match crate::parse::split_once(l, ':') {
        None => Some(have),
        Some((cp, bits)) => match parse_int(cp, 16, false, 0, u32::MAX as int) {
            None => Some(have),
            Some(u) => {
                let gw = hex_gw(bits.len() as int);
                if !is_scalar(u as u32) || have.contains_key(u as u32) || gw == 0 {
                    Some(have)
                } else if !slices_ok(bits, gw / 4) || (cw >= gw && ch < 16) {
                    None
                } else {
                    Some(have.insert(u as u32, hex_cell(cw, ch, bits, gw)))
                }
            },
        },
    }
}

/// The glyphs after the lines `ls`, or `None` once one cannot be placed.
pub open spec fn hex_scan(cw: int, ch: int, have: Map<u32, Seq<u32>>, ls: Seq<Seq<char>>) -> Option<Map<u32, Seq<u32>>>
    decreases ls.len(),
{
    if ls.len() == 0 {
        Some(have)
    } else {
        match hex_scan(cw, ch, have, ls.drop_last()) {
            Some(m) => hex_line(cw, ch, m, ls.last()),
            None => None,
        }
    }
}

/// The glyphs of `f` with those of the `.hex` text `hex` added, read byte
/// by byte.
pub open spec fn hex_glyphs(f: FontView, hex: Seq<char>) -> Option<Map<u32, Seq<u32>>> {
    hex_scan(f.width as int, f.height as int, f.glyphs, lines_of(byte_chars(encode_utf8(hex))))
}

proof fn lemma_hex_none(cw: int, ch: int, have: Map<u32, Seq<u32>>, ls: Seq<Seq<char>>, k: int)
    requires
        0 <= k <= ls.len(),
        hex_scan(cw, ch, have, ls.take(k)) is None,
    ensures
        hex_scan(cw, ch, have, ls) is None,
    decreases ls.len() - k,
{
    if k < ls.len() {
        assert(ls.take(k + 1).drop_last() =~= ls.take(k));
        lemma_hex_none(cw, ch, have, ls, k + 1);
    } else {
        assert(ls.take(k) =~= ls);
    }
}

/// Facts about the placement of a glyph that can be placed.
proof fn lemma_hex_fit(cw: int, ch: int, gw: int)
    requires
        1 <= cw <= 32,
        ch >= 3,
        gw == 8 || gw == 16,
        !(cw >= gw && ch < 16),
    ensures
        1 <= hex_scale(cw, ch, gw) <= 32,
        1 <= hex_dw(cw, ch, gw) <= cw,
        1 <= hex_dh(cw, ch, gw) <= ch,
        forall|dx: int| 0 <= dx < hex_dw(cw, ch, gw) ==> 0 <= #[trigger] hex_sx(cw, ch, gw, dx) < gw,
        forall|dy: int| 0 <= dy < hex_dh(cw, ch, gw) ==> 0 <= #[trigger] hex_sy(cw, ch, gw, dy) < 16,
{
    let sc = hex_scale(cw, ch, gw);
    let dw = hex_dw(cw, ch, gw);
    let dh = hex_dh(cw, ch, gw);
    if cw >= gw {
        assert(cw / gw >= 1 && cw / gw <= 4) by (nonlinear_arith)
            requires
                cw >= gw,
                gw >= 8,
                cw <= 32,
        ;
        assert(ch / 16 >= 1);
        assert(gw * sc <= cw) by (nonlinear_arith)
            requires
                sc <= cw / gw,
                gw > 0,
        ;
        assert(16 * sc <= ch) by (nonlinear_arith)
            requires
                sc <= ch / 16,
        ;
        assert forall|dx: int| 0 <= dx < dw implies 0 <= #[trigger] hex_sx(cw, ch, gw, dx) < gw by {
            assert(0 <= dx / sc < gw) by (nonlinear_arith)
                requires
                    0 <= dx < gw * sc,
                    sc >= 1,
            ;
        }
        assert forall|dy: int| 0 <= dy < dh implies 0 <= #[trigger] hex_sy(cw, ch, gw, dy) < 16 by {
            assert(0 <= dy / sc < 16) by (nonlinear_arith)
                requires
                    0 <= dy < 16 * sc,
                    sc >= 1,
            ;
        }
    } else {
        assert forall|dx: int| 0 <= dx < dw implies 0 <= #[trigger] hex_sx(cw, ch, gw, dx) < gw by {
            assert(0 <= dx * gw / dw < gw) by (nonlinear_arith)
                requires
                    0 <= dx < dw,
                    gw > 0,
            ;
        }
        assert forall|dy: int| 0 <= dy < dh implies 0 <= #[trigger] hex_sy(cw, ch, gw, dy) < 16 by {
            assert(0 <= dy * 16 / dh < 16) by (nonlinear_arith)
                requires
                    0 <= dy < dh,
            ;
        }
    }
}

/// Scale, drawn width and drawn height of a glyph `gw` wide.
fn hex_fit(cw: u32, ch: u32, gw: u32) -> (r: (u32, u32, u32))
    requires
        1 <= cw <= 32,
        3 <= ch <= 65535,
        gw == 8 || gw == 16,
        !(cw >= gw && ch < 16),
    ensures
        r.0 == hex_scale(cw as int, ch as int, gw as int),
        r.1 == hex_dw(cw as int, ch as int, gw as int),
        r.2 == hex_dh(cw as int, ch as int, gw as int),
        1 <= r.0 <= 32,
        1 <= r.1 <= cw,
        1 <= r.2 <= ch,
{
    proof {
        lemma_hex_fit(cw as int, ch as int, gw as int);
    }
    let a = cw / gw;
    let b = ch / 16;
    let m = if a < b {
        a
    } else {
        b
    };
    let scale = if m < 1 {
        1
    } else {
        m
    };
    if cw >= gw {
        (scale, gw * scale, 16 * scale)
    } else {
        (scale, cw, if ch < 16 {
            ch
        } else {
            16
        })
    }
}

/// Source row `i` of the 16 rows of a `.hex` bitmap.
fn hex_src_row(bits: &[char], gw: u32, i: usize) -> (r: u16)
    requires
        gw == 8 || gw == 16,
        bits@.len() == 4 * gw,
        i < 16,
    ensures
        r == hex_src(bits@, gw as int, i as int),
{
    let pr: usize = (gw / 4) as usize;
    assert(pr == 2 || pr == 4);
    assert((i + 1) * pr <= 16 * pr && 0 <= i * pr <= (i + 1) * pr) by (nonlinear_arith)
        requires
            i < 16,
            pr <= 4,
    ;
    let piece = crate::parse::copy_range(bits, i * pr, (i + 1) * pr);
    let v: i128 = match parse_int_chars(piece.as_slice(), 16, false, 0, u16::MAX as i128) {
        Some(v) => v,
        None => 0,
    };
    (v as u16) << ((16 - gw) as u16)
}

/// One drawn row from source row `src`, placed from column `x0`.
fn hex_row(cw: u32, ch: u32, gw: u32, src: u16, x0: u32, scale: u32, dw: u32) -> (out: u32)
    requires
        1 <= cw <= 32,
        3 <= ch <= 65535,
        gw == 8 || gw == 16,
        !(cw >= gw && ch < 16),
        scale == hex_scale(cw as int, ch as int, gw as int),
        dw == hex_dw(cw as int, ch as int, gw as int),
        x0 + dw <= cw,
    ensures
        out == hex_out(cw as int, ch as int, gw as int, src, x0 as int, dw as int),
{
    proof {
        lemma_hex_fit(cw as int, ch as int, gw as int);
    }
    let mut out: u32 = 0;
    let mut dx: u32 = 0;
    while dx < dw
        invariant
            1 <= cw <= 32,
            3 <= ch <= 65535,
            gw == 8 || gw == 16,
            !(cw >= gw && ch < 16),
            scale == hex_scale(cw as int, ch as int, gw as int),
            dw == hex_dw(cw as int, ch as int, gw as int),
            1 <= scale <= 32,
            1 <= dw,
            x0 + dw <= cw,
            dx <= dw,
            forall|d: int| 0 <= d < dw ==> 0 <= #[trigger] hex_sx(cw as int, ch as int, gw as int, d) < gw,
            out == hex_out(cw as int, ch as int, gw as int, src, x0 as int, dx as int),
        decreases dw - dx,
    {
        assert(dx * gw <= 32 * 16) by (nonlinear_arith)
            requires
                dx <= 32,
                gw <= 16,
        ;
        let sx: u32 = if cw >= gw {
            dx / scale
        } else {
            dx * gw / dw
        };
        assert(sx == hex_sx(cw as int, ch as int, gw as int, dx as int));
        if src & (1u16 << ((15 - sx) as u16)) != 0 {
            out = out | (1u32 << (31 - (x0 + dx)));
        }
        dx = dx + 1;
    }
    out
}

/// The cell rows of a `.hex` glyph.
fn hex_glyph(cw: u32, ch: u32, bits: &[char], gw: u32) -> (r: Vec<u32>)
    requires
        1 <= cw <= 32,
        3 <= ch <= 65535,
        gw == 8 || gw == 16,
        !(cw >= gw && ch < 16),
        bits@.len() == 4 * gw,
    ensures
        r@ == hex_cell(cw as int, ch as int, bits@, gw as int),
{
    proof {
        lemma_hex_fit(cw as int, ch as int, gw as int);
    }
    let (scale, dw, dh) = hex_fit(cw, ch, gw);
    let mut src: Vec<u16> = Vec::new();
    let mut i: usize = 0;
    while i < 16
        invariant
            i <= 16,
            gw == 8 || gw == 16,
            bits@.len() == 4 * gw,
            src@.len() == i,
            forall|j: int| 0 <= j < i ==> #[trigger] src@[j] == hex_src(bits@, gw as int, j),
        decreases 16 - i,
    {
        let v = hex_src_row(bits, gw, i);
        src.push(v);
        i = i + 1;
    }
    let x0 = (cw - dw) / 2;
    let y0 = (ch - dh) / 2;
    let ghost want = hex_cell(cw as int, ch as int, bits@, gw as int);
    let mut rows: Vec<u32> = Vec::new();
    let mut y: u32 = 0;
    while y < ch
        invariant
            1 <= cw <= 32,
            3 <= ch <= 65535,
            gw == 8 || gw == 16,
            !(cw >= gw && ch < 16),
            bits@.len() == 4 * gw,
            scale == hex_scale(cw as int, ch as int, gw as int),
            dw == hex_dw(cw as int, ch as int, gw as int),
            dh == hex_dh(cw as int, ch as int, gw as int),
            1 <= dw <= cw,
            1 <= dh <= ch,
            x0 == (cw - dw) / 2,
            y0 == (ch - dh) / 2,
            src@.len() == 16,
            forall|j: int| 0 <= j < 16 ==> #[trigger] src@[j] == hex_src(bits@, gw as int, j),
            forall|dy: int| 0 <= dy < dh ==> 0 <= #[trigger] hex_sy(cw as int, ch as int, gw as int, dy) < 16,
            want == hex_cell(cw as int, ch as int, bits@, gw as int),
            y <= ch,
            rows@ == want.take(y as int),
        decreases ch - y,
    {
        let r: u32 = if y0 <= y && y < y0 + dh {
            let dy = y - y0;
            let sy: u32 = if cw >= gw {
                dy / scale
            } else {
                dy * 16 / dh
            };
            assert(sy == hex_sy(cw as int, ch as int, gw as int, dy as int));
            hex_row(cw, ch, gw, src[sy as usize], x0, scale, dw)
        } else {
            0
        };
        rows.push(r);
        assert(rows@ =~= want.take(y + 1));
        y = y + 1;
    }
    assert(rows@ =~= want);
    rows
}

/// Cutting `bits` into 16 pieces of `pr` bytes cuts no character apart.
fn pieces_whole(bits: &[char], pr: usize) -> (b: bool)
    requires
        pr == 2 || pr == 4,
        bits@.len() == 16 * pr,
    ensures
        b == slices_ok(bits@, pr as int),
{
    let mut j: usize = pr;
    while j < 16 * pr
        invariant
            pr == 2 || pr == 4,
            bits@.len() == 16 * pr,
            pr <= j <= 16 * pr,
            j % pr == 0,
            forall|t: int| 0 < t < j && t % (pr as int) == 0 ==> !is_cont(#[trigger] bits@[t]),
        decreases 16 * pr - j,
    {
        let c = bits[j] as u32;
        if 0x80 <= c && c <= 0xBF {
            return false;
        }
        j = j + pr;
    }
    true
}

/// One line of a `.hex` file; `false` where its glyph cannot be placed.
fn hex_step(cw: u32, ch: u32, work: &mut HashMap<u32, Glyph>, keys: &mut Vec<u32>, l: &[char]) -> (ok: bool)
    requires
        1 <= cw <= 32,
        3 <= ch <= 65535,
        keyed(old(work)@, old(keys)@),
    ensures
        keyed(final(work)@, final(keys)@),
        match hex_line(cw as int, ch as int, glyph_rows(old(work)@), l@) {
            Some(m) => ok && glyph_rows(final(work)@) == m,
            None => !ok,
        },
{
    let (cp, bits) = match crate::parse::split_once_chars(l, ':') {
        Some(p) => p,
        None => {
            return true;
        },
    };
    let u = match parse_int_chars(cp.as_slice(), 16, false, 0, u32::MAX as i128) {
        Some(u) => u as u32,
        None => {
            return true;
        },
    };
    let scalar = u <= 0xD7FF || (0xE000 <= u && u <= 0x10FFFF);
    let gw: u32 = if bits.len() == 32 {
        8
    } else if bits.len() == 64 {
        16
    } else {
        0
    };
    if !scalar || work.contains_key(&u) || gw == 0 {
        return true;
    }
    let pr: usize = (gw / 4) as usize;
    if !pieces_whole(bits.as_slice(), pr) || (cw >= gw && ch < 16) {
        return false;
    }
    let rows = hex_glyph(cw, ch, bits.as_slice(), gw);
    let ghost before = work@;
    let ghost rv = rows@;
    put_glyph(work, keys, u, Glyph { rows });
    assert(glyph_rows(work@) =~= glyph_rows(before).insert(u, rv));
    true
}

impl Font {
    /// Adds glyphs from a Unifont `.hex` text for code points the font
    /// lacks, fitted into this font's cell: integer-scaled up when there is
    /// room, squeezed otherwise, and centred. Answers `false`, and leaves the
    /// font as it was, where a glyph cannot be placed.
    pub fn try_add_hex_fallbacks(&mut self, hex: &str) -> (ok: bool)
        requires
            old(self).wf(),
        ensures
            final(self).wf(),
            ok == (hex_glyphs(old(self)@, hex@) is Some),
            ok ==> final(self)@ == (FontView { glyphs: hex_glyphs(old(self)@, hex@)->0, ..old(self)@ }),
            !ok ==> final(self)@ == old(self)@,
            uniform(old(self)@) ==> uniform(final(self)@),
    {
        proof {
            if uniform(self@) && hex_glyphs(self@, hex@) is Some {
                lemma_hex_scan_rows(self@.width as int, self@.height as int, self@.glyphs, lines_of(byte_chars(encode_utf8(hex@))));
            }
        }
        let b = hex.as_bytes();
        let mut cs: Vec<char> = Vec::new();
        let mut i: usize = 0;
        while i < b.len()
            invariant
                i <= b@.len(),
                b@ == encode_utf8(hex@),
                cs@ == byte_chars(b@.take(i as int)),
            decreases b@.len() - i,
        {
            cs.push(b[i] as char);
            assert(cs@ =~= byte_chars(b@.take(i + 1)));
            i = i + 1;
        }
        assert(b@.take(b@.len() as int) =~= b@);
        let lines = lines_chars(cs.as_slice());
        let ghost ls = char_views(lines@);
        let cw = self.width as u32;
        let ch = self.height as u32;
        let mut work = self.glyphs.clone();
        let mut keys: Vec<u32> = Vec::new();
        let mut k: usize = 0;
        while k < self.keys.len()
            invariant
                k <= self.keys@.len(),
                keys@ == self.keys@.take(k as int),
            decreases self.keys@.len() - k,
        {
            keys.push(self.keys[k]);
            assert(keys@ =~= self.keys@.take(k + 1));
            k = k + 1;
        }
        assert(keys@ =~= self.keys@);
        let ghost have = glyph_rows(self.glyphs@);
        assert(ls.take(0) =~= Seq::<Seq<char>>::empty());
        let mut n: usize = 0;
        while n < lines.len()
            invariant
                n <= lines@.len(),
                ls == char_views(lines@),
                ls == lines_of(byte_chars(encode_utf8(hex@))),
                1 <= cw <= 32,
                3 <= ch <= 65535,
                cw == self@.width,
                ch == self@.height,
                have == self@.glyphs,
                *self == *old(self),
                self.wf(),
                keyed(work@, keys@),
                hex_scan(cw as int, ch as int, have, ls.take(n as int)) == Some(glyph_rows(work@)),
            decreases lines@.len() - n,
        {
            assert(ls.take(n + 1).drop_last() =~= ls.take(n as int));
            assert(ls.take(n + 1).last() == lines@[n as int]@);
            if !hex_step(cw, ch, &mut work, &mut keys, lines[n].as_slice()) {
                proof {
                    lemma_hex_none(cw as int, ch as int, have, ls, n + 1);
                }
                return false;
            }
            n = n + 1;
        }
        assert(ls.take(lines@.len() as int) =~= ls);
        self.glyphs = work;
        self.keys = keys;
        true
    }

    /// `try_add_hex_fallbacks` for a text whose glyphs can all be placed.
    pub fn add_hex_fallbacks(&mut self, hex: &str)
        requires
            old(self).wf(),
            (hex_glyphs(old(self)@, hex@) is Some),
        ensures
            final(self).wf(),
            final(self)@ == (FontView { glyphs: hex_glyphs(old(self)@, hex@)->0, ..old(self)@ }),
    {
        self.try_add_hex_fallbacks(hex);
    }
}

proof fn lemma_hex_scan_keeps(cw: int, ch: int, have: Map<u32, Seq<u32>>, ls: Seq<Seq<char>>)
    requires
        hex_scan(cw, ch, have, ls) is Some,
    ensures
        have.submap_of(hex_scan(cw, ch, have, ls)->0),
    decreases ls.len(),
{
    if ls.len() > 0 {
        lemma_hex_scan_keeps(cw, ch, have, ls.drop_last());
        let m = hex_scan(cw, ch, have, ls.drop_last())->0;
        let m2 = hex_scan(cw, ch, have, ls)->0;
        assert(m2 == hex_line(cw, ch, m, ls.last())->0);
        assert(m.submap_of(m2));
        assert forall|k: u32| #[trigger] have.contains_key(k) implies m2.contains_key(k) && have[k] == m2[k] by {
            assert(m.contains_key(k) && m[k] == have[k]);
        }
    }
}

/// Glyphs from a `.hex` text only fill gaps: every glyph the font had stays
/// as it was.
pub proof fn lemma_hex_keeps_glyphs(f: FontView, hex: Seq<char>)
    requires
        hex_glyphs(f, hex) is Some,
    ensures
        f.glyphs.submap_of(hex_glyphs(f, hex)->0),
{
    lemma_hex_scan_keeps(f.width as int, f.height as int, f.glyphs, lines_of(byte_chars(encode_utf8(hex))));
}

/// The first line of `ls` that starts with `FONTBOUNDINGBOX `, if any.
pub open spec fn first_fbb(ls: Seq<Seq<char>>) -> Option<Seq<char>>
    decreases ls.len(),
{
    if ls.len() == 0 {
        None
    } else if has_prefix(ls[0], "FONTBOUNDINGBOX "@) {
        Some(ls[0])
    } else {
        first_fbb(ls.drop_first())
    }
}

/// A cell dimension as written in a bounding box line: a `u16`, or 8.
pub open spec fn dim_or_8(t: Seq<char>) -> int {
    match parse_int(t, 10, false, 0, u16::MAX as int) {
        Some(v) => v,
        None => 8,
    }
}

/// The cell size a BDF text declares, times `scale`, read from its first
/// bounding box line (`8 16` when it has none) without parsing the glyphs;
/// `None` when the line has fewer than two numbers or the size overflows.
pub open spec fn cell_size_spec(text: Seq<char>, scale: u8) -> Option<(u16, u16)> {
    let line = match first_fbb(lines_of(text)) {
        Some(l) => l,
        None => "FONTBOUNDINGBOX 8 16 0 0"@,
    };
    let ws = words(line);
    if ws.len() < 3 {
        None
    } else {
        let w = dim_or_8(ws[1]) * scale;
        let h = dim_or_8(ws[2]) * scale;
        if w <= u16::MAX && h <= u16::MAX {
            Some((w as u16, h as u16))
        } else {
            None
        }
    }
}

/// The first line that starts with `FONTBOUNDINGBOX `.
fn find_fbb(lines: &Vec<Vec<char>>) -> (r: Option<usize>)
    ensures
        match r {
            Some(k) => k < lines@.len() && first_fbb(char_views(lines@)) == Some(lines@[k as int]@),
            None => first_fbb(char_views(lines@)) is None,
        },
{
    let ghost ls = char_views(lines@);
    let kw = str_chars("FONTBOUNDINGBOX ");
    let mut i: usize = 0;
    assert(ls.skip(0) =~= ls);
    while i < lines.len()
        invariant
            i <= lines@.len(),
            ls == char_views(lines@),
            kw@ == "FONTBOUNDINGBOX "@,
            first_fbb(ls.skip(i as int)) == first_fbb(ls),
        decreases lines@.len() - i,
    {
        assert(ls.skip(i as int).drop_first() =~= ls.skip(i + 1));
        assert(ls.skip(i as int)[0] == lines@[i as int]@);
        if starts_with_chars(lines[i].as_slice(), kw.as_slice()) {
            return Some(i);
        }
        i = i + 1;
    }
    assert(ls.skip(i as int) =~= Seq::<Seq<char>>::empty());
    None
}

fn dim_value(t: &[char]) -> (v: u32)
    ensures
        v == dim_or_8(t@),
        v <= 65535,
{
    match parse_int_chars(t, 10, false, 0, u16::MAX as i128) {
        Some(x) => x as u32,
        None => 8,
    }
}

impl Family {
    /// Cell size of size step `idx` whose BDF text is `text`, without
    /// parsing the font.
    pub fn cell_size(self, idx: usize, text: &str) -> (r: Option<(u16, u16)>)
        ensures
            r == cell_size_spec(text@, step_of(self, idx as int).1),
    {
        let (_file, scale) = self.step(idx);
        let v = str_chars(text);
        let lines = lines_chars(v.as_slice());
        let ghost ls = char_views(lines@);
        let found = find_fbb(&lines);
        let line: Vec<char> = match found {
            Some(k) => lines[k].clone(),
            None => str_chars("FONTBOUNDINGBOX 8 16 0 0"),
        };
        assert(line@ == match first_fbb(ls) {
            Some(l) => l,
            None => "FONTBOUNDINGBOX 8 16 0 0"@,
        });
        let ws = words_chars(line.as_slice());
        if ws.len() < 3 {
            return None;
        }
        assert(char_views(ws@)[1] == ws@[1]@ && char_views(ws@)[2] == ws@[2]@);
        let dw = dim_value(ws[1].as_slice());
        let dh = dim_value(ws[2].as_slice());
        assert(dw * scale <= 65535 * 255 && dh * scale <= 65535 * 255) by (nonlinear_arith)
            requires
                dw <= 65535,
                dh <= 65535,
                scale <= 255,
        ;
        let w = dw * scale as u32;
        let h = dh * scale as u32;
        if w <= u16::MAX as u32 && h <= u16::MAX as u32 {
            Some((w as u16, h as u16))
        } else {
            None
        }
    }

    /// The font of size step `idx` from its BDF text and the Unifont symbol
    /// glyphs `symbols`: read, symbols added, then doubled when the step is a
    /// 2x one. `None` where a text is malformed or the font too large to
    /// double.
    pub fn load(self, idx: usize, text: &str, symbols: &str) -> (r: Option<Font>)
        ensures
            match r {
                Some(f) => f.wf() && match with_symbols_spec(text@, symbols@) {
                    Some(base) => if step_of(self, idx as int).1 == 2 {
                        scaled_from(base, f@)
                    } else {
                        f@ == base
                    },
                    None => false,
                },
                None => match with_symbols_spec(text@, symbols@) {
                    Some(base) => step_of(self, idx as int).1 == 2 && (base.width > 16 || base.height > 32767),
                    None => true,
                },
            },
    {
        let (_file, scale) = self.step(idx);
        match Font::with_symbols(text, symbols) {
            Some(f) => if scale == 2 {
                if f.width <= 16 && f.height <= 32767 {
                    Some(f.scaled_2x())
                } else {
                    None
                }
            } else {
                Some(f)
            },
            None => None,
        }
    }
}

/// Every glyph of a font, and its fallback box, has one row per pixel line
/// of the cell.
pub open spec fn uniform(f: FontView) -> bool {
    &&& f.fallback.len() == f.height
    &&& forall|k: u32| f.glyphs.contains_key(k) ==> #[trigger] f.glyphs[k].len() == f.height
}

/// No `FONTBOUNDINGBOX` line comes after a `STARTCHAR` line: the cell is
/// fixed before the first glyph, as in every font the application ships.
pub open spec fn box_before_glyphs(ls: Seq<Seq<char>>) -> bool {
    forall|i: int, j: int|
        0 <= i < j < ls.len() && has_prefix(#[trigger] ls[i], "STARTCHAR"@) ==> !has_prefix(
            #[trigger] ls[j],
            "FONTBOUNDINGBOX "@,
        )
}

proof fn lemma_place_rows_len(height: u16, top: i32, bx: i32, rows: Seq<u32>, k: int)
    requires
        place_rows(height, top, bx, rows, k) is Some,
    ensures
        place_rows(height, top, bx, rows, k)->0.len() == height,
    decreases k,
{
    if k > 0 {
        lemma_place_rows_len(height, top, bx, rows, k - 1);
    }
}

/// What the reader keeps true while reading a file whose cell is fixed
/// before its first glyph.
pub open spec fn scan_rows_ok(ls: Seq<Seq<char>>, st: BdfScan) -> bool {
    &&& forall|k: u32| st.glyphs.contains_key(k) ==> #[trigger] st.glyphs[k].len() == st.height
    &&& (st.glyphs.dom() != Set::<u32>::empty() || st.cur is Some) ==> exists|i: int|
        0 <= i < ls.len() && has_prefix(#[trigger] ls[i], "STARTCHAR"@)
}

proof fn lemma_finish_rows(ls: Seq<Seq<char>>, st: BdfScan, c: CharScan)
    requires
        scan_rows_ok(ls, BdfScan { cur: Some(c), ..st }),
        finish_char(BdfScan { cur: None, ..st }, c) is Some,
    ensures
        scan_rows_ok(ls, finish_char(BdfScan { cur: None, ..st }, c)->0),
        finish_char(BdfScan { cur: None, ..st }, c)->0.cur is None,
{
    let st1 = BdfScan { cur: Some(c), ..st };
    let st0 = BdfScan { cur: None, ..st };
    let st2 = finish_char(st0, c)->0;
    assert(st1.glyphs == st.glyphs && st1.height == st.height);
    assert(exists|i: int| 0 <= i < ls.len() && has_prefix(#[trigger] ls[i], "STARTCHAR"@));
    assert(forall|k: u32| st.glyphs.contains_key(k) ==> #[trigger] st.glyphs[k].len() == st.height);
    match c.enc {
        None => {
            assert(st2 == st0);
        },
        Some(e) => {
            if !is_scalar(e) || c.bbx.0 != st.width || c.bbx.1 != st.height {
                assert(st2 == st0);
            } else {
                let cell = glyph_cell(st.height, st.yoff, c)->0;
                let a = st.height - c.bbx.1;
                let b = c.bbx.3 - st.yoff;
                assert(glyph_cell(st.height, st.yoff, c) == place_rows(st.height, (a - b) as i32, c.bbx.2, c.rows, c.rows.len() as int));
                lemma_place_rows_len(st.height, (a - b) as i32, c.bbx.2, c.rows, c.rows.len() as int);
                assert(cell.len() == st.height);
                assert(st2.glyphs == st.glyphs.insert(e, cell));
                assert(st2.height == st.height);
                assert forall|k: u32| st2.glyphs.contains_key(k) implies #[trigger] st2.glyphs[k].len() == st2.height by {
                    if k != e {
                        assert(st.glyphs.contains_key(k));
                    }
                }
            }
        },
    }
}

proof fn lemma_scan_rows(ls: Seq<Seq<char>>)
    requires
        box_before_glyphs(ls),
        bdf_scan(ls) is Some,
    ensures
        scan_rows_ok(ls, bdf_scan(ls)->0),
    decreases ls.len(),
{
    if ls.len() == 0 {
        let st = bdf_scan(ls)->0;
        assert(st.glyphs.dom() =~= Set::<u32>::empty());
    } else {
        let pre = ls.drop_last();
        let l = ls.last();
        assert forall|i: int, j: int|
            0 <= i < j < pre.len() && has_prefix(#[trigger] pre[i], "STARTCHAR"@) implies !has_prefix(
            #[trigger] pre[j],
            "FONTBOUNDINGBOX "@,
        ) by {
            assert(pre[i] == ls[i] && pre[j] == ls[j]);
        }
        lemma_scan_rows(pre);
        let st = bdf_scan(pre)->0;
        let st2 = bdf_scan(ls)->0;
        assert(st2 == bdf_line(st, l)->0);
        assert(ls[ls.len() - 1] == l);
        // a STARTCHAR line of the prefix is one of the whole
        assert((exists|i: int| 0 <= i < pre.len() && has_prefix(#[trigger] pre[i], "STARTCHAR"@)) ==> (exists|
            i: int,
        | 0 <= i < ls.len() && has_prefix(#[trigger] ls[i], "STARTCHAR"@))) by {
            if exists|i: int| 0 <= i < pre.len() && has_prefix(#[trigger] pre[i], "STARTCHAR"@) {
                let i = choose|i: int| 0 <= i < pre.len() && has_prefix(#[trigger] pre[i], "STARTCHAR"@);
                assert(ls[i] == pre[i]);
            }
        }
        match st.cur {
            Some(c) => {
                if l == "ENDCHAR"@ {
                    assert(scan_rows_ok(ls, BdfScan { cur: Some(c), ..st }));
                    lemma_finish_rows(ls, st, c);
                }
            },
            None => {
                if has_prefix(l, "FONTBOUNDINGBOX "@) {
                    if st.glyphs.dom() != Set::<u32>::empty() {
                        let i = choose|i: int| 0 <= i < pre.len() && has_prefix(#[trigger] pre[i], "STARTCHAR"@);
                        assert(ls[i] == pre[i]);
                        assert(!has_prefix(ls[ls.len() - 1], "FONTBOUNDINGBOX "@));
                    }
                    assert forall|k: u32| st2.glyphs.contains_key(k) implies #[trigger] st2.glyphs[k].len() == st2.height by {
                        assert(st.glyphs.dom().contains(k));
                    }
                } else if has_prefix(l, "STARTCHAR"@) {
                    assert(has_prefix(ls[ls.len() - 1], "STARTCHAR"@));
                }
            },
        }
    }
}

/// Law: in a font read from a BDF file whose cell is fixed before its first
/// glyph, every glyph and the fallback box have exactly `height` rows, so
/// `glyph` gives `height` rows for every code point.
pub proof fn lemma_bdf_glyph_rows(s: Seq<char>)
    requires
        bdf_font(s) is Some,
        box_before_glyphs(lines_of(s)),
    ensures
        uniform(bdf_font(s)->0),
{
    let ls = lines_of(s);
    lemma_scan_rows(ls);
    let st = bdf_scan(ls)->0;
    match st.cur {
        Some(c) => {
            lemma_finish_rows(ls, st, c);
        },
        None => {},
    }
}

proof fn lemma_hex_scan_rows(cw: int, ch: int, have: Map<u32, Seq<u32>>, ls: Seq<Seq<char>>)
    requires
        ch >= 0,
        forall|k: u32| have.contains_key(k) ==> #[trigger] have[k].len() == ch,
        hex_scan(cw, ch, have, ls) is Some,
    ensures
        forall|k: u32| hex_scan(cw, ch, have, ls)->0.contains_key(k) ==> #[trigger] hex_scan(cw, ch, have, ls)->0[k].len() == ch,
    decreases ls.len(),
{
    if ls.len() > 0 {
        lemma_hex_scan_rows(cw, ch, have, ls.drop_last());
    }
}

/// Law: adding the Unifont symbol glyphs keeps every glyph `height` rows
/// high.
pub proof fn lemma_symbols_keep_rows(s: Seq<char>, symbols: Seq<char>)
    requires
        bdf_font(s) is Some,
        box_before_glyphs(lines_of(s)),
        with_symbols_spec(s, symbols) is Some,
    ensures
        uniform(with_symbols_spec(s, symbols)->0),
{
    let base = bdf_font(s)->0;
    lemma_bdf_glyph_rows(s);
    lemma_hex_scan_rows(base.width as int, base.height as int, base.glyphs, lines_of(byte_chars(encode_utf8(symbols))));
}

/// Law: doubling a font whose glyphs have `height` rows gives glyphs of the
/// doubled height.
pub proof fn lemma_doubling_keeps_rows(f: FontView, g: FontView)
    requires
        uniform(f),
        scaled_from(f, g),
    ensures
        uniform(g),
{
    assert forall|k: u32| g.glyphs.contains_key(k) implies #[trigger] g.glyphs[k].len() == g.height by {
        assert(f.glyphs.contains_key(k));
    }
}

} // verus!
