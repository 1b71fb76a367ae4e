//! On-screen keyboard: 5 rows of 13 slots, each key 5 cells wide and 3 tall.
//! Modifiers (Shift, Ctrl, Alt) are one-shot: they apply to the next key sent
//! and are then cleared.

use vstd::prelude::*;
use crate::panel::{CellRect, Geometry, Panel, PanelOp, Waveform, rect_in};
use crate::text::chars_to_string;
use crate::ui::draw::{appended, button_chars, button_ok, button_ops, fill, fill_ok, fill_ops};

verus! {

/// Rows the keyboard occupies.
pub const OSK_ROWS: u16 = 15;

const SLOT_W: u16 = 5;

const KEY_H: u16 = 3;

const SLOTS: u16 = 13;

#[derive(Clone, Copy, Debug, PartialEq, Eq, Structural)]
pub enum Key {
    /// Normal and shifted character.
    Char(char, char),
    Esc,
    Tab,
    Enter,
    Backspace,
    Space,
    Up,
    Down,
    Left,
    Right,
    Shift,
    Ctrl,
    Alt,
    Hide,
    Home,
}

/// A key and how many slots it spans.
#[derive(Clone, Copy, Debug)]
pub struct Slot {
    pub key: Key,
    pub span: u16,
}

pub open spec fn sc(a: char, b: char) -> Slot {
    Slot { key: Key::Char(a, b), span: 1 }
}

pub open spec fn sk(key: Key) -> Slot {
    Slot { key, span: 1 }
}

fn c(a: char, b: char) -> (s: Slot)
    ensures
        s == sc(a, b),
{
    Slot { key: Key::Char(a, b), span: 1 }
}

fn k(key: Key) -> (s: Slot)
    ensures
        s == sk(key),
{
    Slot { key, span: 1 }
}

/// The keys of row `ri`, left to right.
pub open spec fn layout_row(ri: int) -> Seq<Slot> {
    if ri == 0 {
        seq![sc('`', '~'), sc('1', '!'), sc('2', '@'), sc('3', '#'), sc('4', '$'), sc('5', '%'), sc('6', '^'), sc('7', '&'), sc('8', '*'), sc('9', '('), sc('0', ')'), sc('-', '_'), sc('=', '+')]
    } else if ri == 1 {
        seq![sc('q', 'Q'), sc('w', 'W'), sc('e', 'E'), sc('r', 'R'), sc('t', 'T'), sc('y', 'Y'), sc('u', 'U'), sc('i', 'I'), sc('o', 'O'), sc('p', 'P'), sc('[', '{'), sc(']', '}'), sk(Key::Backspace)]
    } else if ri == 2 {
        seq![sc('a', 'A'), sc('s', 'S'), sc('d', 'D'), sc('f', 'F'), sc('g', 'G'), sc('h', 'H'), sc('j', 'J'), sc('k', 'K'), sc('l', 'L'), sc(';', ':'), sc('\'', '"'), sc('\\', '|'), sk(Key::Enter)]
    } else if ri == 3 {
        seq![sk(Key::Shift), sc('z', 'Z'), sc('x', 'X'), sc('c', 'C'), sc('v', 'V'), sc('b', 'B'), sc('n', 'N'), sc('m', 'M'), sc(',', '<'), sc('.', '>'), sc('/', '?'), sk(Key::Shift), sk(Key::Up)]
    } else {
        seq![sk(Key::Esc), sk(Key::Tab), sk(Key::Ctrl), sk(Key::Alt), Slot { key: Key::Space, span: 4 }, sk(Key::Left), sk(Key::Down), sk(Key::Right), sk(Key::Hide), sk(Key::Home)]
    }
}

fn row_slots(ri: usize) -> (v: Vec<Slot>)
    requires
        ri < 5,
    ensures
        v@ == layout_row(ri as int),
        forall|i: int| 0 <= i < v@.len() ==> 1 <= #[trigger] v@[i].span <= 4,
{
    let mut v: Vec<Slot> = Vec::new();
    if ri == 0 {
        v.push(c('`', '~')); v.push(c('1', '!')); v.push(c('2', '@')); v.push(c('3', '#'));
        v.push(c('4', '$')); v.push(c('5', '%')); v.push(c('6', '^')); v.push(c('7', '&'));
        v.push(c('8', '*')); v.push(c('9', '(')); v.push(c('0', ')')); v.push(c('-', '_'));
        v.push(c('=', '+'));
    } else if ri == 1 {
        v.push(c('q', 'Q')); v.push(c('w', 'W')); v.push(c('e', 'E')); v.push(c('r', 'R'));
        v.push(c('t', 'T')); v.push(c('y', 'Y')); v.push(c('u', 'U')); v.push(c('i', 'I'));
        v.push(c('o', 'O')); v.push(c('p', 'P')); v.push(c('[', '{')); v.push(c(']', '}'));
        v.push(k(Key::Backspace));
    } else if ri == 2 {
        v.push(c('a', 'A')); v.push(c('s', 'S')); v.push(c('d', 'D')); v.push(c('f', 'F'));
        v.push(c('g', 'G')); v.push(c('h', 'H')); v.push(c('j', 'J')); v.push(c('k', 'K'));
        v.push(c('l', 'L')); v.push(c(';', ':')); v.push(c('\'', '"')); v.push(c('\\', '|'));
        v.push(k(Key::Enter));
    } else if ri == 3 {
        v.push(k(Key::Shift)); v.push(c('z', 'Z')); v.push(c('x', 'X')); v.push(c('c', 'C'));
        v.push(c('v', 'V')); v.push(c('b', 'B')); v.push(c('n', 'N')); v.push(c('m', 'M'));
        v.push(c(',', '<')); v.push(c('.', '>')); v.push(c('/', '?')); v.push(k(Key::Shift));
        v.push(k(Key::Up));
    } else {
        v.push(k(Key::Esc)); v.push(k(Key::Tab)); v.push(k(Key::Ctrl)); v.push(k(Key::Alt));
        v.push(Slot { key: Key::Space, span: 4 }); v.push(k(Key::Left)); v.push(k(Key::Down));
        v.push(k(Key::Right)); v.push(k(Key::Hide)); v.push(k(Key::Home));
    }
    assert(v@ =~= layout_row(ri as int));
    v
}

/// Slots taken by the keys before index `i` of a row.
pub open spec fn span_before(slots: Seq<Slot>, i: int) -> int
    decreases i,
{
    if i <= 0 {
        0
    } else {
        span_before(slots, i - 1) + slots[i - 1].span
    }
}

/// A key and the cells it covers.
#[derive(Clone, Copy, Debug)]
pub struct Placed {
    pub key: Key,
    pub rect: CellRect,
}

/// The left margin that centres the 65-column keyboard in `cols` columns.
pub open spec fn osk_margin(cols: int) -> int {
    if cols >= 65 { (cols - 65) / 2 } else { 0 }
}

/// The keys of row `ri`, placed.
pub open spec fn placed_row(ri: int, margin: int, top: int) -> Seq<Placed> {
    let slots = layout_row(ri);
    Seq::new(
        slots.len(),
        |i: int|
            Placed {
                key: slots[i].key,
                rect: CellRect {
                    col: (margin + span_before(slots, i) * 5) as u16,
                    row: (top + ri * 3) as u16,
                    cols: (slots[i].span * 5) as u16,
                    rows: 3,
                },
            },
    )
}

/// The first `n` rows of keys, placed.
pub open spec fn placed_rows(n: int, margin: int, top: int) -> Seq<Placed>
    decreases n,
{
    if n <= 0 {
        seq![]
    } else {
        placed_rows(n - 1, margin, top) + placed_row(n - 1, margin, top)
    }
}

/// Every key of a keyboard `cols` wide whose top row is `top`, row by row, left to right.
pub open spec fn osk_layout(cols: int, top: int) -> Seq<Placed> {
    placed_rows(5, osk_margin(cols), top)
}

#[derive(Clone, Copy, Debug, PartialEq, Eq)]
pub enum OskAction {
    Send(&'static [u8]),
    SendChar(char),
    Hide,
    Home,
    ModifierChanged,
    Nothing,
}

pub struct Osk {
    pub keys: Vec<Placed>,
    pub area: CellRect,
    pub shift: bool,
    pub ctrl: bool,
    pub alt: bool,
}

/// What a key is labelled with.
pub open spec fn label_text(key: Key, shift: bool) -> Seq<char> {
    match key {
        Key::Char(a, b) => seq![if shift { b } else { a }],
        Key::Esc => seq!['E', 's', 'c'],
        Key::Tab => seq!['T', 'a', 'b'],
        Key::Enter => seq!['E', 'n', 't'],
        Key::Backspace => seq!['B', 'k', 's'],
        Key::Space => seq!['s', 'p', 'a', 'c', 'e'],
        Key::Up => seq!['↑'],
        Key::Down => seq!['↓'],
        Key::Left => seq!['←'],
        Key::Right => seq!['→'],
        Key::Shift => seq!['S', 'f', 't'],
        Key::Ctrl => seq!['C', 't', 'l'],
        Key::Alt => seq!['A', 'l', 't'],
        Key::Hide => seq!['K', 'b', 'd'],
        Key::Home => seq!['H', 'o', 'm'],
    }
}

pub open spec fn is_modifier(key: Key) -> bool {
    key == Key::Shift || key == Key::Ctrl || key == Key::Alt
}

/// The bytes an arrow, Enter, Tab, Esc or Backspace key sends.
pub open spec fn key_sequence(key: Key) -> Seq<u8> {
    match key {
        Key::Esc => seq![0x1bu8],
        Key::Tab => seq![0x09u8],
        Key::Enter => seq![0x0du8],
        Key::Backspace => seq![0x7fu8],
        Key::Up => seq![0x1bu8, 0x5bu8, 0x41u8],
        Key::Down => seq![0x1bu8, 0x5bu8, 0x42u8],
        Key::Right => seq![0x1bu8, 0x5bu8, 0x43u8],
        Key::Left => seq![0x1bu8, 0x5bu8, 0x44u8],
        _ => seq![],
    }
}

/// The code of `c` after ASCII lower-casing (`char::to_ascii_lowercase`).
pub open spec fn ascii_lower_code(c: char) -> u32 {
    if 65 <= c as u32 <= 90 {
        (c as u32 + 32) as u32
    } else {
        c as u32
    }
}

/// The bytes a character key sends with the given modifiers held.
pub open spec fn char_bytes(ch: char, ctrl: bool, alt: bool) -> Seq<u8> {
    let prefix = if alt { seq![0x1bu8] } else { seq![] };
    let lc = ascii_lower_code(ch);
    let body = if ctrl && 0x40 <= lc <= 0x7f {
        seq![(lc & 0x1f) as u8]
    } else {
        vstd::utf8::encode_scalar(ch as u32)
    };
    prefix + body
}

/// The UTF-8 encoding of `ch`.
pub fn encode_char(ch: char) -> (v: Vec<u8>)
    ensures
        v@ == vstd::utf8::encode_scalar(ch as u32),
{
    let u = ch as u32;
    let mut v: Vec<u8> = Vec::new();
    if u <= 0x7F {
        v.push((u & 0x7F) as u8);
    } else if u <= 0x7FF {
        v.push(0xC0 | ((u >> 6) & 0x1F) as u8);
        v.push(0x80 | (u & 0x3F) as u8);
    } else if u <= 0xFFFF {
        v.push(0xE0 | ((u >> 12) & 0x0F) as u8);
        v.push(0x80 | ((u >> 6) & 0x3F) as u8);
        v.push(0x80 | (u & 0x3F) as u8);
    } else {
        v.push(0xF0 | ((u >> 18) & 0x7) as u8);
        v.push(0x80 | ((u >> 12) & 0x3F) as u8);
        v.push(0x80 | ((u >> 6) & 0x3F) as u8);
        v.push(0x80 | (u & 0x3F) as u8);
    }
    assert(v@ =~= vstd::utf8::encode_scalar(u));
    v
}

impl Osk {
    /// The keys are where the layout puts them, and every key rectangle has
    /// representable far edges.
    pub open spec fn wf(&self) -> bool {
        &&& self.keys@ == osk_layout(self.area.cols as int, self.area.row as int)
        &&& self.area.row + OSK_ROWS <= u16::MAX
    }

    pub open spec fn active(&self, key: Key) -> bool {
        ||| key == Key::Shift && self.shift
        ||| key == Key::Ctrl && self.ctrl
        ||| key == Key::Alt && self.alt
    }

    /// The requests `draw_key(i, pressed)` makes.
    pub open spec fn key_ops(&self, g: Geometry, i: int, pressed: bool) -> Seq<PanelOp> {
        let p = self.keys@[i];
        button_ops(g, p.rect, label_text(p.key, self.shift), pressed || self.active(p.key))
    }

    /// The requests drawing the first `n` keys makes.
    pub open spec fn keys_ops(&self, g: Geometry, n: int) -> Seq<PanelOp>
        decreases n,
    {
        if n <= 0 {
            seq![]
        } else {
            self.keys_ops(g, n - 1) + self.key_ops(g, n - 1, false)
        }
    }

    /// The requests `draw_modifiers` makes for the first `n` keys.
    pub open spec fn modifier_ops(&self, g: Geometry, n: int) -> Seq<PanelOp>
        decreases n,
    {
        if n <= 0 {
            seq![]
        } else if is_modifier(self.keys@[n - 1].key) {
            self.modifier_ops(g, n - 1) + self.key_ops(g, n - 1, false) + seq![
                PanelOp::Refresh(self.keys@[n - 1].rect, Waveform::Fast),
            ]
        } else {
            self.modifier_ops(g, n - 1)
        }
    }

    /// Every key's rectangle lies on a panel of geometry `g`.
    pub open spec fn keys_on(&self, g: Geometry) -> bool {
        forall|i: int| 0 <= i < self.keys@.len() ==> rect_in(#[trigger] self.keys@[i].rect, g)
    }

    /// The keyboard across `cols` columns with its top row at `top_row`.
    pub fn new(cols: u16, top_row: u16) -> (o: Osk)
        requires
            top_row + OSK_ROWS <= u16::MAX,
        ensures
            o.wf(),
            o.keys@ == osk_layout(cols as int, top_row as int),
            o.area == (CellRect { col: 0, row: top_row, cols, rows: OSK_ROWS }),
            !o.shift && !o.ctrl && !o.alt,
    {
        let width = SLOTS * SLOT_W;
        let margin = if cols >= width { (cols - width) / 2 } else { 0 };
        let mut keys: Vec<Placed> = Vec::new();
        let mut ri: usize = 0;
        while ri < 5
            invariant
                ri <= 5,
                margin == osk_margin(cols as int),
                top_row + OSK_ROWS <= u16::MAX,
                keys@ == placed_rows(ri as int, margin as int, top_row as int),
            decreases 5 - ri,
        {
            let row = row_slots(ri);
            let mut slot: u16 = 0;
            let mut j: usize = 0;
            let ghost prev = keys@;
            while j < row.len()
                invariant
                    ri < 5,
                    j <= row@.len(),
                    row@ == layout_row(ri as int),
                    forall|i: int| 0 <= i < row@.len() ==> 1 <= #[trigger] row@[i].span <= 4,
                    margin == osk_margin(cols as int),
                    margin <= 32767,
                    top_row + OSK_ROWS <= u16::MAX,
                    slot as int == span_before(row@, j as int),
                    slot <= 4 * j,
                    row@.len() <= 13,
                    keys@ == prev + placed_row(ri as int, margin as int, top_row as int).take(j as int),
                decreases row@.len() - j,
            {
                let s = row[j];
                let p = Placed {
                    key: s.key,
                    rect: CellRect {
                        col: margin + slot * SLOT_W,
                        row: top_row + ri as u16 * KEY_H,
                        cols: s.span * SLOT_W,
                        rows: KEY_H,
                    },
                };
                keys.push(p);
                assert(placed_row(ri as int, margin as int, top_row as int).take(j + 1) =~= placed_row(
                    ri as int,
                    margin as int,
                    top_row as int,
                ).take(j as int).push(p));
                slot = slot + s.span;
                j = j + 1;
            }
            assert(placed_row(ri as int, margin as int, top_row as int).take(row@.len() as int)
                =~= placed_row(ri as int, margin as int, top_row as int));
            ri = ri + 1;
        }
        Osk {
            keys,
            area: CellRect { col: 0, row: top_row, cols, rows: OSK_ROWS },
            shift: false,
            ctrl: false,
            alt: false,
        }
    }
}



/// The bytes an action produces with the given modifiers held.
pub open spec fn action_bytes(a: OskAction, ctrl: bool, alt: bool) -> Seq<u8> {
    match a {
        OskAction::SendChar(ch) => char_bytes(ch, ctrl, alt),
        OskAction::Send(seq) => (if alt { seq![0x1bu8] } else { seq![] }) + seq@,
        _ => seq![],
    }
}

/// What `press` does to a keyboard in state `o` for key `i`: the action it
/// returns and the modifiers it leaves.
pub open spec fn press_spec(o: Osk, key: Key, r: OskAction, shift: bool, ctrl: bool, alt: bool) -> bool {
    match key {
        Key::Shift => r == OskAction::ModifierChanged && shift == !o.shift && ctrl == o.ctrl && alt == o.alt,
        Key::Ctrl => r == OskAction::ModifierChanged && shift == o.shift && ctrl == !o.ctrl && alt == o.alt,
        Key::Alt => r == OskAction::ModifierChanged && shift == o.shift && ctrl == o.ctrl && alt == !o.alt,
        _ => {
            &&& shift == o.shift && ctrl == o.ctrl && alt == o.alt
            &&& match key {
                Key::Hide => r == OskAction::Hide,
                Key::Home => r == OskAction::Home,
                Key::Char(a, b) => r == OskAction::SendChar(if o.shift { b } else { a }),
                Key::Space => r == OskAction::SendChar(' '),
                _ => r matches OskAction::Send(seq) && seq@ == key_sequence(key),
            }
        },
    }
}

impl Osk {
    fn label(&self, key: Key) -> (s: String)
        ensures
            s@ == label_text(key, self.shift),
    {
        let r = match key {
            Key::Char(a, b) => chars_to_string(&[if self.shift { b } else { a }]),
            Key::Esc => chars_to_string(&['E', 's', 'c']),
            Key::Tab => chars_to_string(&['T', 'a', 'b']),
            Key::Enter => chars_to_string(&['E', 'n', 't']),
            Key::Backspace => chars_to_string(&['B', 'k', 's']),
            Key::Space => chars_to_string(&['s', 'p', 'a', 'c', 'e']),
            Key::Up => chars_to_string(&['↑']),
            Key::Down => chars_to_string(&['↓']),
            Key::Left => chars_to_string(&['←']),
            Key::Right => chars_to_string(&['→']),
            Key::Shift => chars_to_string(&['S', 'f', 't']),
            Key::Ctrl => chars_to_string(&['C', 't', 'l']),
            Key::Alt => chars_to_string(&['A', 'l', 't']),
            Key::Hide => chars_to_string(&['K', 'b', 'd']),
            Key::Home => chars_to_string(&['H', 'o', 'm']),
        };
        r
    }

    fn is_active(&self, key: Key) -> (b: bool)
        ensures
            b == self.active(key),
    {
        (key == Key::Shift && self.shift) || (key == Key::Ctrl && self.ctrl) || (key == Key::Alt
            && self.alt)
    }

    proof fn lemma_key(&self, i: int)
        requires
            self.wf(),
            0 <= i < self.keys@.len(),
        ensures
            button_ok(self.keys@[i].rect),
            self.keys@.len() == 62,
            key_in_band(self.keys@[i], osk_margin(self.area.cols as int), self.area.row as int),
    {
        lemma_layout_in_band(self.area.cols as int, self.area.row as int);
        assert(key_in_band(self.keys@[i], osk_margin(self.area.cols as int), self.area.row as int));
    }

    fn draw_key<P: Panel>(&self, panel: &mut P, i: usize, pressed: bool)
        requires
            self.wf(),
            i < self.keys@.len(),
            old(panel).inv(),
        ensures
            appended(*old(panel), *final(panel), self.key_ops(old(panel).geo(), i as int, pressed)),
    {
        proof {
            self.lemma_key(i as int);
        }
        let p = self.keys[i];
        let label = self.label(p.key);
        let lv = crate::text::str_chars(label.as_str());
        button_chars(panel, p.rect, lv.as_slice(), pressed || self.is_active(p.key));
    }

    /// Draw every key and refresh the keyboard area once.
    pub fn draw<P: Panel>(&self, panel: &mut P)
        requires
            self.wf(),
            old(panel).inv(),
            rect_in(self.area, old(panel).geo()),
        ensures
            appended(
                *old(panel),
                *final(panel),
                fill_ops(old(panel).geo(), self.area, ' ', false) + self.keys_ops(
                    old(panel).geo(),
                    self.keys@.len() as int,
                ) + seq![PanelOp::Refresh(self.area, Waveform::Partial)],
            ),
    {
        let ghost g = panel.geo();
        let ghost start = panel.ops();
        fill(panel, self.area, ' ', false);
        let ghost after_fill = panel.ops();
        let mut i: usize = 0;
        assert(after_fill =~= after_fill + self.keys_ops(g, 0));
        while i < self.keys.len()
            invariant
                self.wf(),
                self.area.row + OSK_ROWS <= u16::MAX,
                i <= self.keys@.len(),
                panel.inv(),
                panel.geo() == g,
                panel.ops() == after_fill + self.keys_ops(g, i as int),
            decreases self.keys@.len() - i,
        {
            self.draw_key(panel, i, false);
            assert(panel.ops() =~= after_fill + self.keys_ops(g, i + 1));
            i = i + 1;
        }
        let ghost before_refresh = panel.ops();
        panel.refresh(self.area, Waveform::Partial);
        assert(panel.ops() =~= start + (fill_ops(g, self.area, ' ', false) + self.keys_ops(
            g,
            self.keys@.len() as int,
        ) + seq![PanelOp::Refresh(self.area, Waveform::Partial)]));
    }

    /// Redraw only the modifier keys, refreshing each.
    pub fn draw_modifiers<P: Panel>(&self, panel: &mut P)
        requires
            self.wf(),
            old(panel).inv(),
            self.keys_on(old(panel).geo()),
        ensures
            appended(*old(panel), *final(panel), self.modifier_ops(old(panel).geo(), self.keys@.len() as int)),
    {
        let ghost g = panel.geo();
        let ghost start = panel.ops();
        let mut i: usize = 0;
        assert(start =~= start + self.modifier_ops(g, 0));
        while i < self.keys.len()
            invariant
                self.wf(),
                self.area.row + OSK_ROWS <= u16::MAX,
                self.keys_on(g),
                i <= self.keys@.len(),
                panel.inv(),
                panel.geo() == g,
                panel.ops() == start + self.modifier_ops(g, i as int),
            decreases self.keys@.len() - i,
        {
            let key = self.keys[i].key;
            if key == Key::Shift || key == Key::Ctrl || key == Key::Alt {
                self.draw_key(panel, i, false);
                assert(rect_in(self.keys@[i as int].rect, g));
                panel.refresh(self.keys[i].rect, Waveform::Fast);
            }
            assert(panel.ops() =~= start + self.modifier_ops(g, i + 1));
            i = i + 1;
        }
    }

    /// Index of the first key under `(col, row)`.
    pub fn hit(&self, col: u16, row: u16) -> (r: Option<usize>)
        requires
            self.wf(),
        ensures
            match r {
                Some(i) => i < self.keys@.len() && self.keys@[i as int].rect.has(col as int, row as int)
                    && forall|j: int| 0 <= j < i ==> !(#[trigger] self.keys@[j]).rect.has(col as int, row as int),
                None => forall|j: int| 0 <= j < self.keys@.len() ==> !(#[trigger] self.keys@[j]).rect.has(col as int, row as int),
            },
    {
        let mut i: usize = 0;
        while i < self.keys.len()
            invariant
                self.wf(),
                self.area.row + OSK_ROWS <= u16::MAX,
                i <= self.keys@.len(),
                forall|j: int| 0 <= j < i ==> !(#[trigger] self.keys@[j]).rect.has(col as int, row as int),
            decreases self.keys@.len() - i,
        {
            proof {
                self.lemma_key(i as int);
            }
            if self.keys[i].rect.contains(col, row) {
                return Some(i);
            }
            i = i + 1;
        }
        None
    }

    /// Visual feedback: invert the key (call `release` afterwards).
    pub fn flash<P: Panel>(&self, panel: &mut P, i: usize)
        requires
            self.wf(),
            i < self.keys@.len(),
            old(panel).inv(),
            rect_in(self.keys@[i as int].rect, old(panel).geo()),
        ensures
            appended(
                *old(panel),
                *final(panel),
                self.key_ops(old(panel).geo(), i as int, true) + seq![PanelOp::Refresh(self.keys@[i as int].rect, Waveform::Fast)],
            ),
    {
        let ghost start = panel.ops();
        self.draw_key(panel, i, true);
        panel.refresh(self.keys[i].rect, Waveform::Fast);
        assert(panel.ops() =~= start + (self.key_ops(panel.geo(), i as int, true) + seq![PanelOp::Refresh(self.keys@[i as int].rect, Waveform::Fast)]));
    }

    pub fn release<P: Panel>(&self, panel: &mut P, i: usize)
        requires
            self.wf(),
            i < self.keys@.len(),
            old(panel).inv(),
            rect_in(self.keys@[i as int].rect, old(panel).geo()),
        ensures
            appended(
                *old(panel),
                *final(panel),
                self.key_ops(old(panel).geo(), i as int, false) + seq![PanelOp::Refresh(self.keys@[i as int].rect, Waveform::Fast)],
            ),
    {
        let ghost start = panel.ops();
        self.draw_key(panel, i, false);
        panel.refresh(self.keys[i].rect, Waveform::Fast);
        assert(panel.ops() =~= start + (self.key_ops(panel.geo(), i as int, false) + seq![PanelOp::Refresh(self.keys@[i as int].rect, Waveform::Fast)]));
    }

    /// Press key `i`: modifiers toggle, other keys yield what they send.
    pub fn press(&mut self, i: usize) -> (r: OskAction)
        requires
            i < old(self).keys@.len(),
        ensures
            final(self).keys@ == old(self).keys@,
            final(self).area == old(self).area,
            press_spec(*old(self), old(self).keys@[i as int].key, r, final(self).shift, final(self).ctrl, final(self).alt),
    {
        let key = self.keys[i].key;
        let action = match key {
            Key::Shift => {
                self.shift = !self.shift;
                return OskAction::ModifierChanged;
            },
            Key::Ctrl => {
                self.ctrl = !self.ctrl;
                return OskAction::ModifierChanged;
            },
            Key::Alt => {
                self.alt = !self.alt;
                return OskAction::ModifierChanged;
            },
            Key::Hide => return OskAction::Hide,
            Key::Home => return OskAction::Home,
            Key::Char(a, b) => OskAction::SendChar(if self.shift { b } else { a }),
            Key::Space => OskAction::SendChar(' '),
            Key::Esc => {
                let s: &'static [u8] = &[0x1b];
                assert(s@ =~= key_sequence(key));
                OskAction::Send(s)
            },
            Key::Tab => {
                let s: &'static [u8] = &[0x09];
                assert(s@ =~= key_sequence(key));
                OskAction::Send(s)
            },
            Key::Enter => {
                let s: &'static [u8] = &[0x0d];
                assert(s@ =~= key_sequence(key));
                OskAction::Send(s)
            },
            Key::Backspace => {
                let s: &'static [u8] = &[0x7f];
                assert(s@ =~= key_sequence(key));
                OskAction::Send(s)
            },
            Key::Up => {
                let s: &'static [u8] = &[0x1b, 0x5b, 0x41];
                assert(s@ =~= key_sequence(key));
                OskAction::Send(s)
            },
            Key::Down => {
                let s: &'static [u8] = &[0x1b, 0x5b, 0x42];
                assert(s@ =~= key_sequence(key));
                OskAction::Send(s)
            },
            Key::Right => {
                let s: &'static [u8] = &[0x1b, 0x5b, 0x43];
                assert(s@ =~= key_sequence(key));
                OskAction::Send(s)
            },
            Key::Left => {
                let s: &'static [u8] = &[0x1b, 0x5b, 0x44];
                assert(s@ =~= key_sequence(key));
                OskAction::Send(s)
            },
        };
        action
    }

    /// Bytes to send for an action, applying and clearing one-shot modifiers.
    pub fn bytes_for(&mut self, action: OskAction) -> (out: Vec<u8>)
        ensures
            out@ == action_bytes(action, old(self).ctrl, old(self).alt),
            !final(self).shift && !final(self).ctrl && !final(self).alt,
            final(self).keys@ == old(self).keys@,
            final(self).area == old(self).area,
    {
        let mut out: Vec<u8> = Vec::new();
        match action {
            OskAction::SendChar(ch) => {
                if self.alt {
                    out.push(0x1b);
                }
                let u = ch as u32;
                let lc: u32 = if 65 <= u && u <= 90 { u + 32 } else { u };
                if self.ctrl && 0x40 <= lc && lc <= 0x7f {
                    out.push((lc & 0x1f) as u8);
                } else {
                    let enc = encode_char(ch);
                    let mut j: usize = 0;
                    let ghost pre = out@;
                    while j < enc.len()
                        invariant
                            j <= enc@.len(),
                            out@ == pre + enc@.take(j as int),
                        decreases enc@.len() - j,
                    {
                        out.push(enc[j]);
                        assert(enc@.take(j + 1) =~= enc@.take(j as int).push(enc@[j as int]));
                        j = j + 1;
                    }
                    assert(enc@.take(enc@.len() as int) =~= enc@);
                }
                assert(out@ =~= action_bytes(action, self.ctrl, self.alt));
            },
            OskAction::Send(seq) => {
                if self.alt {
                    out.push(0x1b);
                }
                let mut j: usize = 0;
                let ghost pre = out@;
                while j < seq.len()
                    invariant
                        j <= seq@.len(),
                        out@ == pre + seq@.take(j as int),
                    decreases seq@.len() - j,
                {
                    out.push(seq[j]);
                    assert(seq@.take(j + 1) =~= seq@.take(j as int).push(seq@[j as int]));
                    j = j + 1;
                }
                assert(seq@.take(seq@.len() as int) =~= seq@);
                assert(out@ =~= action_bytes(action, self.ctrl, self.alt));
            },
            _ => {},
        }
        self.shift = false;
        self.ctrl = false;
        self.alt = false;
        out
    }

    pub fn modifiers_active(&self) -> (b: bool)
        ensures
            b == (self.shift || self.ctrl || self.alt),
    {
        self.shift || self.ctrl || self.alt
    }
}

/// Each key's extent stays within the 13-slot row.
proof fn lemma_span_before_mono(slots: Seq<Slot>, i: int, j: int)
    requires
        0 <= i <= j <= slots.len(),
        forall|x: int| 0 <= x < slots.len() ==> 1 <= #[trigger] slots[x].span,
    ensures
        span_before(slots, i) <= span_before(slots, j),
    decreases j - i,
{
    if i < j {
        lemma_span_before_mono(slots, i, j - 1);
    }
}

proof fn lemma_row_bounds(ri: int)
    requires
        0 <= ri < 5,
    ensures
        forall|i: int|
            0 <= i < layout_row(ri).len() ==> span_before(layout_row(ri), i) + #[trigger] layout_row(
                ri,
            )[i].span <= 13,
        forall|i: int| 0 <= i < layout_row(ri).len() ==> 1 <= #[trigger] layout_row(ri)[i].span <= 4,
        layout_row(ri).len() <= 13,
{
    let slots = layout_row(ri);
    assert(span_before(slots, slots.len() as int) == 13) by {
        reveal_with_fuel(span_before, 14);
    }
    assert forall|i: int| 0 <= i < slots.len() implies span_before(slots, i) + #[trigger] slots[i].span
        <= 13 by {
        lemma_span_before_mono(slots, i + 1, slots.len() as int);
    }
}

/// Every key of the layout is 3 rows tall, at least 5 columns wide, inside the
/// 65 columns right of the margin and inside the 15 rows below `top`.
pub open spec fn key_in_band(p: Placed, margin: int, top: int) -> bool {
    &&& margin <= p.rect.col
    &&& p.rect.col + p.rect.cols <= margin + 65
    &&& p.rect.cols >= 5
    &&& p.rect.rows == 3
    &&& top <= p.rect.row <= top + 12
}

proof fn lemma_rows_in_band(n: int, margin: int, top: int)
    requires
        0 <= n <= 5,
        0 <= margin <= 32767,
        0 <= top <= u16::MAX - 12,
    ensures
        forall|i: int|
            0 <= i < placed_rows(n, margin, top).len() ==> key_in_band(
                #[trigger] placed_rows(n, margin, top)[i],
                margin,
                top,
            ),
    decreases n,
{
    if n > 0 {
        lemma_rows_in_band(n - 1, margin, top);
        lemma_row_bounds(n - 1);
        let a = placed_rows(n - 1, margin, top);
        let b = placed_row(n - 1, margin, top);
        assert forall|i: int| 0 <= i < (a + b).len() implies key_in_band(#[trigger] (a + b)[i], margin, top) by {
            if i >= a.len() {
                let j = i - a.len();
                assert(span_before(layout_row(n - 1), j) + layout_row(n - 1)[j].span <= 13);
                assert(span_before(layout_row(n - 1), j) >= 0) by {
                    lemma_span_before_mono(layout_row(n - 1), 0, j);
                }
            }
        }
    }
}

/// The layout has 62 keys, each inside the keyboard's band.
pub proof fn lemma_layout_in_band(cols: int, top: int)
    requires
        0 <= cols <= u16::MAX,
        0 <= top <= u16::MAX - 12,
    ensures
        osk_layout(cols, top).len() == 62,
        forall|i: int|
            0 <= i < osk_layout(cols, top).len() ==> key_in_band(
                #[trigger] osk_layout(cols, top)[i],
                osk_margin(cols),
                top,
            ),
{
    lemma_rows_in_band(5, osk_margin(cols), top);
    reveal_with_fuel(placed_rows, 6);
}

/// `a` lies wholly above `b`, or on the same rows wholly left of it.
pub open spec fn rect_before(a: CellRect, b: CellRect) -> bool {
    ||| a.row + a.rows <= b.row
    ||| a.row == b.row && a.rows == b.rows && a.col + a.cols <= b.col
}

proof fn lemma_rows_ordered(n: int, margin: int, top: int)
    requires
        0 <= n <= 5,
        0 <= margin <= 32767,
        0 <= top <= u16::MAX - 12,
    ensures
        forall|i: int, j: int|
            0 <= i < j < placed_rows(n, margin, top).len() ==> rect_before(
                #[trigger] placed_rows(n, margin, top)[i].rect,
                #[trigger] placed_rows(n, margin, top)[j].rect,
            ),
        forall|i: int|
            0 <= i < placed_rows(n, margin, top).len() ==> (#[trigger] placed_rows(n, margin, top)[i]).rect.row + 3
                <= top + n * 3 && placed_rows(n, margin, top)[i].rect.rows == 3,
    decreases n,
{
    if n > 0 {
        lemma_rows_ordered(n - 1, margin, top);
        lemma_row_bounds(n - 1);
        let slots = layout_row(n - 1);
        let a = placed_rows(n - 1, margin, top);
        let b = placed_row(n - 1, margin, top);
        assert(placed_rows(n, margin, top) == a + b);
        assert forall|k: int| 0 <= k < b.len() implies (#[trigger] b[k]).rect.row == top + (n - 1) * 3 && b[k].rect.rows
            == 3 && b[k].rect.col == margin + span_before(slots, k) * 5 && b[k].rect.cols == slots[k].span * 5 by {
            assert(span_before(slots, k) + slots[k].span <= 13);
            assert(span_before(slots, k) >= 0) by {
                lemma_span_before_mono(slots, 0, k);
            }
        }
        assert forall|i: int, j: int| 0 <= i < j < (a + b).len() implies rect_before(
            #[trigger] (a + b)[i].rect,
            #[trigger] (a + b)[j].rect,
        ) by {
            if j < a.len() {
                assert((a + b)[i] == a[i] && (a + b)[j] == a[j]);
            } else if i < a.len() {
                assert((a + b)[i] == a[i] && (a + b)[j] == b[j - a.len()]);
            } else {
                let i2 = i - a.len();
                let j2 = j - a.len();
                assert((a + b)[i] == b[i2] && (a + b)[j] == b[j2]);
                assert(span_before(slots, i2 + 1) == span_before(slots, i2) + slots[i2].span);
                lemma_span_before_mono(slots, i2 + 1, j2);
            }
        }
        assert forall|i: int| 0 <= i < (a + b).len() implies (#[trigger] (a + b)[i]).rect.row + 3 <= top + n * 3 && (a
            + b)[i].rect.rows == 3 by {
            if i < a.len() {
                assert((a + b)[i] == a[i]);
            } else {
                assert((a + b)[i] == b[i - a.len()]);
            }
        }
    }
}

/// Law: the keys do not overlap, so a point of the keyboard lies on at most
/// one key.
pub proof fn lemma_keys_disjoint(cols: int, top: int)
    requires
        0 <= cols <= u16::MAX,
        0 <= top <= u16::MAX - 12,
    ensures
        forall|i: int, j: int, c: int, r: int|
            #![trigger osk_layout(cols, top)[i].rect.has(c, r), osk_layout(cols, top)[j].rect.has(c, r)]
            0 <= i < j < osk_layout(cols, top).len() && osk_layout(cols, top)[i].rect.has(c, r) ==> !osk_layout(
                cols,
                top,
            )[j].rect.has(c, r),
{
    lemma_rows_ordered(5, osk_margin(cols), top);
    assert forall|i: int, j: int, c: int, r: int|
        #![trigger osk_layout(cols, top)[i].rect.has(c, r), osk_layout(cols, top)[j].rect.has(c, r)]
        0 <= i < j < osk_layout(cols, top).len() && osk_layout(cols, top)[i].rect.has(c, r) implies !osk_layout(
            cols,
            top,
        )[j].rect.has(c, r) by {
        assert(rect_before(osk_layout(cols, top)[i].rect, osk_layout(cols, top)[j].rect));
    }
}

/// Law: the keys that stand for terminal control input send the VT100 bytes
/// for them. Left sends ESC [ D, Right ESC [ C, Up ESC [ A and Down ESC [ B
/// (the cursor-key sequences); Esc sends ESC, Tab HT, Enter CR and Backspace
/// DEL. The press leaves Ctrl and Alt as they were, and the bytes then sent
/// for the action are those, behind one ESC when Alt is held.
pub proof fn lemma_control_keys_send(o: Osk, key: Key, r: OskAction, shift: bool, ctrl: bool, alt: bool)
    requires
        press_spec(o, key, r, shift, ctrl, alt),
    ensures
        key == Key::Left ==> (r matches OskAction::Send(b) && b@ == seq![0x1bu8, 0x5bu8, 0x44u8]),
        key == Key::Right ==> (r matches OskAction::Send(b) && b@ == seq![0x1bu8, 0x5bu8, 0x43u8]),
        key == Key::Up ==> (r matches OskAction::Send(b) && b@ == seq![0x1bu8, 0x5bu8, 0x41u8]),
        key == Key::Down ==> (r matches OskAction::Send(b) && b@ == seq![0x1bu8, 0x5bu8, 0x42u8]),
        key == Key::Esc ==> (r matches OskAction::Send(b) && b@ == seq![0x1bu8]),
        key == Key::Tab ==> (r matches OskAction::Send(b) && b@ == seq![0x09u8]),
        key == Key::Enter ==> (r matches OskAction::Send(b) && b@ == seq![0x0du8]),
        key == Key::Backspace ==> (r matches OskAction::Send(b) && b@ == seq![0x7fu8]),
        key == Key::Left ==> action_bytes(r, ctrl, alt) == (if o.alt { seq![0x1bu8] } else { seq![] }) + seq![0x1bu8, 0x5bu8, 0x44u8],
        key == Key::Right ==> action_bytes(r, ctrl, alt) == (if o.alt { seq![0x1bu8] } else { seq![] }) + seq![0x1bu8, 0x5bu8, 0x43u8],
        key == Key::Up ==> action_bytes(r, ctrl, alt) == (if o.alt { seq![0x1bu8] } else { seq![] }) + seq![0x1bu8, 0x5bu8, 0x41u8],
        key == Key::Down ==> action_bytes(r, ctrl, alt) == (if o.alt { seq![0x1bu8] } else { seq![] }) + seq![0x1bu8, 0x5bu8, 0x42u8],
        !o.alt && key == Key::Left ==> action_bytes(r, ctrl, alt) == seq![0x1bu8, 0x5bu8, 0x44u8],
        !o.alt && key == Key::Right ==> action_bytes(r, ctrl, alt) == seq![0x1bu8, 0x5bu8, 0x43u8],
{
    assert(Seq::<u8>::empty() + seq![0x1bu8, 0x5bu8, 0x44u8] =~= seq![0x1bu8, 0x5bu8, 0x44u8]);
    assert(Seq::<u8>::empty() + seq![0x1bu8, 0x5bu8, 0x43u8] =~= seq![0x1bu8, 0x5bu8, 0x43u8]);
}

/// Law: the arrow keys of the keyboard laid out across any width are where
/// the layout puts them: the bottom row holds Left, Down and Right, the row
/// above ends with Up, so a tap on them presses those keys.
pub proof fn lemma_arrow_keys_present(cols: int, top: int)
    requires
        0 <= cols <= u16::MAX,
        0 <= top <= u16::MAX - 12,
    ensures
        exists|i: int| 0 <= i < osk_layout(cols, top).len() && (#[trigger] osk_layout(cols, top)[i]).key == Key::Left,
        exists|i: int| 0 <= i < osk_layout(cols, top).len() && (#[trigger] osk_layout(cols, top)[i]).key == Key::Right,
        exists|i: int, j: int|
            0 <= i < osk_layout(cols, top).len() && 0 <= j < osk_layout(cols, top).len() && (#[trigger] osk_layout(
                cols,
                top,
            )[i]).key == Key::Left && (#[trigger] osk_layout(cols, top)[j]).key == Key::Right && osk_layout(cols, top)[i].rect.row
                == osk_layout(cols, top)[j].rect.row && osk_layout(cols, top)[i].rect.col + osk_layout(cols, top)[i].rect.cols
                <= osk_layout(cols, top)[j].rect.col,
{
    reveal_with_fuel(placed_rows, 6);
    let l = osk_layout(cols, top);
    let a = placed_rows(4, osk_margin(cols), top);
    let b = placed_row(4, osk_margin(cols), top);
    assert(l == a + b);
    lemma_row_bounds(4);
    assert(layout_row(4)[5].key == Key::Left);
    assert(layout_row(4)[7].key == Key::Right);
    assert(l[a.len() as int + 5] == b[5]);
    assert(l[a.len() as int + 7] == b[7]);
    let slots = layout_row(4);
    assert(span_before(slots, 6) == span_before(slots, 5) + slots[5].span);
    assert(span_before(slots, 7) == span_before(slots, 6) + slots[6].span);
    assert(span_before(slots, 5) >= 0) by {
        lemma_span_before_mono(slots, 0, 5);
    }
    assert(span_before(slots, 7) + slots[7].span <= 13);
}

/// Law: with Ctrl held, a letter key sends the control code of its letter,
/// whichever case it is (Ctrl-A is 1, ..., Ctrl-Z is 26), behind one ESC when
/// Alt is held too; without Ctrl or Alt, an ASCII character key sends its own
/// code.
pub proof fn lemma_ctrl_letters(ch: char, alt: bool)
    ensures
        'a' <= ch <= 'z' ==> char_bytes(ch, true, alt) == (if alt { seq![0x1bu8] } else { seq![] }) + seq![
            (ch as u32 - 0x60) as u8,
        ],
        'A' <= ch <= 'Z' ==> char_bytes(ch, true, alt) == (if alt { seq![0x1bu8] } else { seq![] }) + seq![
            (ch as u32 - 0x40) as u8,
        ],
        (ch as u32) < 0x80 ==> char_bytes(ch, false, false) == seq![(ch as u32) as u8],
{
    let u = ch as u32;
    if 'a' <= ch <= 'z' {
        assert(0x61 <= u <= 0x7a);
        assert(u & 0x1f == u - 0x60) by (bit_vector)
            requires
                0x61 <= u <= 0x7a,
        ;
    }
    if 'A' <= ch <= 'Z' {
        let l = (u + 32) as u32;
        assert(0x61 <= l <= 0x7a);
        assert(l & 0x1f == u - 0x40) by (bit_vector)
            requires
                0x41 <= u <= 0x5a,
                l == u + 32,
        ;
    }
    if u < 0x80 {
        assert(u & 0x7f == u) by (bit_vector)
            requires
                u < 0x80,
        ;
        assert(vstd::utf8::encode_scalar(u) =~= seq![u as u8]);
        assert(Seq::<u8>::empty() + seq![u as u8] =~= seq![u as u8]);
    }
}

/// Law: Shift, Ctrl and Alt each flip their own modifier and no other, so a
/// second press undoes the first; Space types a space; Hide and Home ask to
/// hide the keyboard and to go home; no other key changes a modifier.
pub proof fn lemma_modifier_keys(o: Osk, key: Key, r: OskAction, shift: bool, ctrl: bool, alt: bool)
    requires
        press_spec(o, key, r, shift, ctrl, alt),
    ensures
        key == Key::Shift ==> r == OskAction::ModifierChanged && shift != o.shift && ctrl == o.ctrl && alt == o.alt,
        key == Key::Ctrl ==> r == OskAction::ModifierChanged && ctrl != o.ctrl && shift == o.shift && alt == o.alt,
        key == Key::Alt ==> r == OskAction::ModifierChanged && alt != o.alt && shift == o.shift && ctrl == o.ctrl,
        key != Key::Shift && key != Key::Ctrl && key != Key::Alt ==> shift == o.shift && ctrl == o.ctrl && alt == o.alt,
        key == Key::Space ==> r == OskAction::SendChar(' '),
        key == Key::Hide ==> r == OskAction::Hide,
        key == Key::Home ==> r == OskAction::Home,
        forall|a: char, b: char| key == Key::Char(a, b) ==> r == OskAction::SendChar(if o.shift { b } else { a }) && (
        !o.shift ==> r == OskAction::SendChar(a)),
{
}

} // verus!
