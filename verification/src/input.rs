//! Touch input. `TouchParser` turns raw evdev packets into screen-space
//! events; the device node itself is opened and polled by the application.

use vstd::prelude::*;

verus! {

/// How raw panel coordinates map to screen pixels. Kobo panels are commonly
/// mounted rotated; FBInk reports the quirks per device.
#[derive(Clone, Copy, Debug, PartialEq, Eq, Structural)]
pub struct TouchMap {
    pub swap_axes: bool,
    pub mirror_x: bool,
    pub mirror_y: bool,
    pub width: i32,
    pub height: i32,
}

/// `v` limited to `lo..=hi`.
pub open spec fn clamp_int(v: int, lo: int, hi: int) -> int {
    if v < lo {
        lo
    } else if v > hi {
        hi
    } else {
        v
    }
}

impl TouchMap {
    /// The map has at least one pixel in each direction.
    pub open spec fn wf(self) -> bool {
        self.width >= 1 && self.height >= 1
    }

    /// Screen point of raw `(x, y)`: axes swapped, then mirrored, then clamped
    /// to the screen.
    pub open spec fn screen_point(self, raw_x: int, raw_y: int) -> (int, int) {
        let (x0, y0) = if self.swap_axes { (raw_y, raw_x) } else { (raw_x, raw_y) };
        let x1 = if self.mirror_x { self.width - 1 - x0 } else { x0 };
        let y1 = if self.mirror_y { self.height - 1 - y0 } else { y0 };
        (clamp_int(x1, 0, self.width - 1), clamp_int(y1, 0, self.height - 1))
    }

    pub fn to_screen(&self, raw_x: i32, raw_y: i32) -> (p: (i32, i32))
        requires
            self.wf(),
        ensures
            p.0 == self.screen_point(raw_x as int, raw_y as int).0,
            p.1 == self.screen_point(raw_x as int, raw_y as int).1,
            0 <= p.0 < self.width,
            0 <= p.1 < self.height,
    {
        let (x0, y0) = if self.swap_axes { (raw_y as i64, raw_x as i64) } else { (raw_x as i64, raw_y as i64) };
        let x1: i64 = if self.mirror_x { self.width as i64 - 1 - x0 } else { x0 };
        let y1: i64 = if self.mirror_y { self.height as i64 - 1 - y0 } else { y0 };
        let wmax: i64 = self.width as i64 - 1;
        let hmax: i64 = self.height as i64 - 1;
        let x: i64 = if x1 < 0 { 0 } else if x1 > wmax { wmax } else { x1 };
        let y: i64 = if y1 < 0 { 0 } else if y1 > hmax { hmax } else { y1 };
        (x as i32, y as i32)
    }
}

#[derive(Clone, Copy, Debug, PartialEq, Eq, Structural)]
pub enum TouchEvent {
    Down { x: i32, y: i32 },
    Move { x: i32, y: i32 },
    Up { x: i32, y: i32 },
    /// Emitted together with `Up` when the finger travelled less than `TAP_SLOP` px.
    Tap { x: i32, y: i32 },
}

pub const TAP_SLOP: i32 = 40;

pub const EV_SYN: u16 = 0;

pub const EV_KEY: u16 = 1;

pub const EV_ABS: u16 = 3;

pub const BTN_TOUCH: u16 = 0x14a;

pub const ABS_MT_POSITION_X: u16 = 0x35;

pub const ABS_MT_POSITION_Y: u16 = 0x36;

pub const ABS_MT_TRACKING_ID: u16 = 0x39;

pub struct TouchParser {
    map: TouchMap,
    raw_x: i32,
    raw_y: i32,
    down: bool,
    pending_down: bool,
    pending_up: bool,
    moved: bool,
    start: (i32, i32),
    last: (i32, i32),
}

/// What a parser remembers between packets.
#[derive(Clone, Copy, Debug)]
pub struct TouchState {
    pub raw_x: i32,
    pub raw_y: i32,
    pub down: bool,
    pub pending_down: bool,
    pub pending_up: bool,
    pub moved: bool,
    pub start: (i32, i32),
    pub last: (i32, i32),
}

/// The state of a parser that has seen nothing.
pub open spec fn idle_state() -> TouchState {
    TouchState {
        raw_x: 0,
        raw_y: 0,
        down: false,
        pending_down: false,
        pending_up: false,
        moved: false,
        start: (0, 0),
        last: (0, 0),
    }
}

/// Little-endian `u16` in bytes `i`, `i + 1`.
pub open spec fn le_u16(b: Seq<u8>, i: int) -> int {
    b[i] + 256 * b[i + 1]
}

/// Little-endian two's-complement `i32` in bytes `i .. i + 4`.
pub open spec fn le_i32(b: Seq<u8>, i: int) -> int {
    let u = b[i] + 256 * b[i + 1] + 65536 * b[i + 2] + 16777216 * b[i + 3];
    if u >= 0x8000_0000 {
        u - 0x1_0000_0000
    } else {
        u
    }
}

/// `|v| < TAP_SLOP`
pub open spec fn within_slop(v: int) -> bool {
    -TAP_SLOP < v < TAP_SLOP
}

/// State and events after the SYN_REPORT that completes a packet.
pub open spec fn syn_step(map: TouchMap, s: TouchState) -> (TouchState, Seq<TouchEvent>) {
    let (x, y) = map.screen_point(s.raw_x as int, s.raw_y as int);
    let p = (x as i32, y as i32);
    // Finger down, or movement while down.
    let (s1, out1) = if s.pending_down && !s.down {
        (TouchState { down: true, start: p, last: p, ..s }, seq![TouchEvent::Down { x: p.0, y: p.1 }])
    } else if s.down && s.moved && !s.pending_up && p != s.last {
        (TouchState { last: p, ..s }, seq![TouchEvent::Move { x: p.0, y: p.1 }])
    } else {
        (s, seq![])
    };
    // Finger lifted: Up, and Tap when it stayed within the slop of where it landed.
    let (s2, out2) = if s1.pending_up && s1.down {
        let u = if s1.moved { p } else { s1.last };
        let tap = within_slop(u.0 - s1.start.0) && within_slop(u.1 - s1.start.1);
        (
            TouchState { down: false, ..s1 },
            if tap {
                seq![TouchEvent::Up { x: u.0, y: u.1 }, TouchEvent::Tap { x: u.0, y: u.1 }]
            } else {
                seq![TouchEvent::Up { x: u.0, y: u.1 }]
            },
        )
    } else {
        (s1, seq![])
    };
    (TouchState { pending_down: false, pending_up: false, moved: false, ..s2 }, out1 + out2)
}

/// State and events after one 16-byte `input_event` (32-bit ABI: 8 bytes
/// timeval, u16 type, u16 code, i32 value). Shorter packets are ignored.
pub open spec fn feed_step(map: TouchMap, s: TouchState, ev: Seq<u8>) -> (TouchState, Seq<TouchEvent>) {
    if ev.len() < 16 {
        (s, seq![])
    } else {
        let ty = le_u16(ev, 8);
        let code = le_u16(ev, 10);
        let val = le_i32(ev, 12);
        if ty == EV_ABS && code == ABS_MT_POSITION_X {
            (TouchState { raw_x: val as i32, moved: true, ..s }, seq![])
        } else if ty == EV_ABS && code == ABS_MT_POSITION_Y {
            (TouchState { raw_y: val as i32, moved: true, ..s }, seq![])
        } else if ty == EV_KEY && code == BTN_TOUCH {
            if val != 0 {
                (TouchState { pending_down: true, ..s }, seq![])
            } else {
                (TouchState { pending_up: true, ..s }, seq![])
            }
        } else if ty == EV_ABS && code == ABS_MT_TRACKING_ID {
            if val >= 0 {
                (TouchState { pending_down: true, ..s }, seq![])
            } else {
                (TouchState { pending_up: true, ..s }, seq![])
            }
        } else if ty == EV_SYN && code == 0 {
            syn_step(map, s)
        } else {
            (s, seq![])
        }
    }
}

fn le_u16_at(ev: &[u8], i: usize) -> (v: u16)
    requires
        i + 1 < ev@.len(),
    ensures
        v == le_u16(ev@, i as int),
{
    ev[i] as u16 + ev[i + 1] as u16 * 256
}

fn le_i32_at(ev: &[u8], i: usize) -> (v: i32)
    requires
        i + 3 < ev@.len(),
    ensures
        v == le_i32(ev@, i as int),
{
    let u: u64 = ev[i] as u64 + ev[i + 1] as u64 * 256 + ev[i + 2] as u64 * 65536 + ev[i + 3] as u64 * 16777216;
    if u >= 0x8000_0000 {
        (u as i64 - 0x1_0000_0000) as i32
    } else {
        u as i32
    }
}

impl TouchParser {
    pub closed spec fn state(&self) -> TouchState {
        TouchState {
            raw_x: self.raw_x,
            raw_y: self.raw_y,
            down: self.down,
            pending_down: self.pending_down,
            pending_up: self.pending_up,
            moved: self.moved,
            start: self.start,
            last: self.last,
        }
    }

    pub closed spec fn touch_map(&self) -> TouchMap {
        self.map
    }

    pub fn new(map: TouchMap) -> (p: TouchParser)
        ensures
            p.touch_map() == map,
            p.state() == idle_state(),
    {
        TouchParser {
            map,
            raw_x: 0,
            raw_y: 0,
            down: false,
            pending_down: false,
            pending_up: false,
            moved: false,
            start: (0, 0),
            last: (0, 0),
        }
    }

    /// Feed one 16-byte `input_event`. Returns events completed by a SYN_REPORT.
    pub fn feed(&mut self, ev: &[u8]) -> (out: Vec<TouchEvent>)
        requires
            old(self).touch_map().wf(),
        ensures
            final(self).touch_map() == old(self).touch_map(),
            (final(self).state(), out@) == feed_step(old(self).touch_map(), old(self).state(), ev@),
    {
        let mut out: Vec<TouchEvent> = Vec::new();
        if ev.len() < 16 {
            return out;
        }
        let ty = le_u16_at(ev, 8);
        let code = le_u16_at(ev, 10);
        let val = le_i32_at(ev, 12);
        if ty == EV_ABS && code == ABS_MT_POSITION_X {
            self.raw_x = val;
            self.moved = true;
        } else if ty == EV_ABS && code == ABS_MT_POSITION_Y {
            self.raw_y = val;
            self.moved = true;
        } else if ty == EV_KEY && code == BTN_TOUCH {
            if val != 0 {
                self.pending_down = true;
            } else {
                self.pending_up = true;
            }
        } else if ty == EV_ABS && code == ABS_MT_TRACKING_ID {
            if val >= 0 {
                self.pending_down = true;
            } else {
                self.pending_up = true;
            }
        } else if ty == EV_SYN && code == 0 {
            let ghost s0 = self.state();
            let (x, y) = self.map.to_screen(self.raw_x, self.raw_y);
            if self.pending_down && !self.down {
                self.down = true;
                self.start = (x, y);
                self.last = (x, y);
                out.push(TouchEvent::Down { x, y });
            } else if self.down && self.moved && !self.pending_up && (x != self.last.0 || y != self.last.1) {
                self.last = (x, y);
                out.push(TouchEvent::Move { x, y });
            }
            if self.pending_up && self.down {
                self.down = false;
                let (ux, uy) = if self.moved { (x, y) } else { self.last };
                out.push(TouchEvent::Up { x: ux, y: uy });
                let (sx, sy) = self.start;
                let dx: i64 = ux as i64 - sx as i64;
                let dy: i64 = uy as i64 - sy as i64;
                if -40 < dx && dx < 40 && -40 < dy && dy < 40 {
                    out.push(TouchEvent::Tap { x: ux, y: uy });
                }
            }
            self.pending_down = false;
            self.pending_up = false;
            self.moved = false;
            assert((self.state(), out@) == syn_step(self.map, s0));
        }
        out
    }
}

/// Law: a packet yields a Tap only directly after an Up at the same point, and
/// only when that point is within `TAP_SLOP` of where the finger went down.
pub proof fn lemma_tap_follows_up(map: TouchMap, s: TouchState, ev: Seq<u8>)
    ensures
        ({
            let out = feed_step(map, s, ev).1;
            forall|k: int| 0 <= k < out.len() && (#[trigger] out[k]) is Tap ==> {
                &&& k >= 1
                &&& out[k - 1] matches TouchEvent::Up { x, y }
                &&& out[k] == (TouchEvent::Tap { x, y })
                &&& s.down || out[0] is Down
            }
        }),
{
}

/// Law: Down and Up alternate. A Down comes only from a parser whose finger is
/// up and leaves it down; an Up comes only once the finger is down and leaves
/// it up; a packet never yields two of either.
pub proof fn lemma_down_up_alternate(map: TouchMap, s: TouchState, ev: Seq<u8>)
    ensures
        ({
            let (s2, out) = feed_step(map, s, ev);
            &&& (exists|k: int| 0 <= k < out.len() && (#[trigger] out[k]) is Down) ==> !s.down && out[0] is Down
            &&& (exists|k: int| 0 <= k < out.len() && (#[trigger] out[k]) is Up) ==> !s2.down
            &&& (out.len() > 0 && out[0] is Down && !(exists|k: int| 0 <= k < out.len() && (#[trigger] out[k]) is Up)) ==> s2.down
            &&& out.len() <= 3
        }),
{
    let (s2, out) = feed_step(map, s, ev);
    if out.len() > 0 {
        let (x, y) = map.screen_point(s.raw_x as int, s.raw_y as int);
        let p = (x as i32, y as i32);
        let down = s.pending_down && !s.down;
        let mv = !down && s.down && s.moved && !s.pending_up && p != s.last;
        let s1 = if down { TouchState { down: true, start: p, last: p, ..s } } else if mv { TouchState { last: p, ..s } } else { s };
        let up = s1.pending_up && s1.down;
        let u = if s1.moved { p } else { s1.last };
        let tap = up && within_slop(u.0 - s1.start.0) && within_slop(u.1 - s1.start.1);
        let d = TouchEvent::Down { x: p.0, y: p.1 };
        let m = TouchEvent::Move { x: p.0, y: p.1 };
        let uu = TouchEvent::Up { x: u.0, y: u.1 };
        let t = TouchEvent::Tap { x: u.0, y: u.1 };
        if down && tap {
            assert(out =~= seq![d, uu, t]);
        } else if down && up {
            assert(out =~= seq![d, uu]);
        } else if down {
            assert(out =~= seq![d]);
        } else if mv && tap {
            assert(out =~= seq![m, uu, t]);
        } else if mv && up {
            assert(out =~= seq![m, uu]);
        } else if mv {
            assert(out =~= seq![m]);
        } else if tap {
            assert(out =~= seq![uu, t]);
        } else {
            assert(out =~= seq![uu]);
        }
    }
}

/// State and events after the packets `evs`, in order.
pub open spec fn feed_all(map: TouchMap, s: TouchState, evs: Seq<Seq<u8>>) -> (TouchState, Seq<TouchEvent>)
    decreases evs.len(),
{
    if evs.len() == 0 {
        (s, seq![])
    } else {
        let (s1, o1) = feed_all(map, s, evs.drop_last());
        let (s2, o2) = feed_step(map, s1, evs.last());
        (s2, o1 + o2)
    }
}

/// Where the last `Down` among `out` landed, if there is one.
pub open spec fn last_down(out: Seq<TouchEvent>) -> Option<(i32, i32)>
    decreases out.len(),
{
    if out.len() == 0 {
        None
    } else {
        match out.last() {
            TouchEvent::Down { x, y } => Some((x, y)),
            _ => last_down(out.drop_last()),
        }
    }
}

/// Every `Tap` among `out` comes right after an `Up` at its point, and that
/// point is within `TAP_SLOP` of where the last `Down` before it landed.
pub open spec fn taps_ok(out: Seq<TouchEvent>) -> bool {
    forall|k: int| 0 <= k < out.len() && (#[trigger] out[k]) is Tap ==> {
        &&& k >= 1
        &&& out[k - 1] matches TouchEvent::Up { x, y }
        &&& out[k] == (TouchEvent::Tap { x, y })
        &&& last_down(out.take(k)) matches Some(d)
        &&& within_slop(x - d.0) && within_slop(y - d.1)
    }
}

/// What holds of a parser and the events it has emitted so far.
pub open spec fn history_ok(s: TouchState, out: Seq<TouchEvent>) -> bool {
    &&& s.down ==> last_down(out) == Some(s.start)
    &&& taps_ok(out)
}

proof fn lemma_last_down_append(a: Seq<TouchEvent>, b: Seq<TouchEvent>)
    ensures
        last_down(a + b) == (if last_down(b) is Some { last_down(b) } else { last_down(a) }),
    decreases b.len(),
{
    if b.len() > 0 {
        assert((a + b).drop_last() =~= a + b.drop_last());
        assert((a + b).last() == b.last());
        lemma_last_down_append(a, b.drop_last());
    } else {
        assert(a + b =~= a);
    }
}

proof fn lemma_history_step(map: TouchMap, s: TouchState, out: Seq<TouchEvent>, ev: Seq<u8>)
    requires
        history_ok(s, out),
    ensures
        history_ok(feed_step(map, s, ev).0, out + feed_step(map, s, ev).1),
{
    let (s2, o) = feed_step(map, s, ev);
    let all = out + o;
    if o.len() == 0 {
        assert(all =~= out);
        if s2.down {
            assert(s2.start == s.start && s.down);
        }
    } else {
        lemma_history_packet(map, s, out, ev);
    }
}

#[verifier::spinoff_prover]
#[verifier::rlimit(30)]
proof fn lemma_history_packet(map: TouchMap, s: TouchState, out: Seq<TouchEvent>, ev: Seq<u8>)
    requires
        history_ok(s, out),
        feed_step(map, s, ev).1.len() > 0,
    ensures
        history_ok(feed_step(map, s, ev).0, out + feed_step(map, s, ev).1),
{
    let (s2, o) = feed_step(map, s, ev);
    let all = out + o;
    let (x, y) = map.screen_point(s.raw_x as int, s.raw_y as int);
    let p = (x as i32, y as i32);
    let down = s.pending_down && !s.down;
    let mv = !down && s.down && s.moved && !s.pending_up && p != s.last;
    let s1 = if down { TouchState { down: true, start: p, last: p, ..s } } else if mv { TouchState { last: p, ..s } } else { s };
    let up = s1.pending_up && s1.down;
    let u = if s1.moved { p } else { s1.last };
    let tap = up && within_slop(u.0 - s1.start.0) && within_slop(u.1 - s1.start.1);
    let d = TouchEvent::Down { x: p.0, y: p.1 };
    let m = TouchEvent::Move { x: p.0, y: p.1 };
    let uu = TouchEvent::Up { x: u.0, y: u.1 };
    let t = TouchEvent::Tap { x: u.0, y: u.1 };
    let n = out.len() as int;
    // the events before this packet keep their property
    assert forall|k: int| 0 <= k < n && (#[trigger] all[k]) is Tap implies {
        &&& k >= 1
        &&& all[k - 1] matches TouchEvent::Up { x, y }
        &&& all[k] == (TouchEvent::Tap { x, y })
        &&& last_down(all.take(k)) matches Some(dd)
        &&& within_slop(x - dd.0) && within_slop(y - dd.1)
    } by {
        assert(all[k] == out[k]);
        assert(all[k - 1] == out[k - 1]);
        assert(all.take(k) =~= out.take(k));
    }
    // the start of the current touch, before the packet's Up
    let before_up = if down { seq![d] } else if mv { seq![m] } else { seq![] };
    lemma_last_down_append(out, before_up);
    assert(s1.down ==> last_down(out + before_up) == Some(s1.start)) by {
        if down {
            reveal_with_fuel(last_down, 2);
            assert(seq![d].drop_last() =~= Seq::<TouchEvent>::empty());
        } else if mv {
            reveal_with_fuel(last_down, 2);
            assert(seq![m].drop_last() =~= Seq::<TouchEvent>::empty());
        } else {
            assert(last_down(Seq::<TouchEvent>::empty()) is None);
        }
    }
    if tap {
        assert(o =~= before_up + seq![uu, t]);
        let k = n + before_up.len() + 1;
        assert(all.take(k - 1) =~= out + before_up);
        lemma_last_down_append(out + before_up, seq![uu]);
        assert(all.take(k) =~= (out + before_up) + seq![uu]);
        reveal_with_fuel(last_down, 2);
        assert(seq![uu].drop_last() =~= Seq::<TouchEvent>::empty());
        assert(last_down(seq![uu]) is None);
        assert(last_down(all.take(k)) == Some(s1.start));
        assert forall|j: int| n <= j < all.len() && (#[trigger] all[j]) is Tap implies j == k by {
            assert(all[j] == o[j - n]);
        }
        assert(all[k - 1] == uu);
        assert(all[k] == t);
    } else {
        if up {
            assert(o =~= before_up + seq![uu]);
        } else {
            assert(o =~= before_up);
        }
        assert forall|j: int| n <= j < all.len() implies !((#[trigger] all[j]) is Tap) by {
            assert(all[j] == o[j - n]);
        }
    }
    assert(taps_ok(all));
    if s2.down {
        assert(!up);
        assert(o =~= before_up);
        assert(s2.start == s1.start);
    }
}

/// Law: over any run of packets from a fresh parser, a `Tap` comes right
/// after an `Up` at its point, and only when that point lies within
/// `TAP_SLOP` of where the finger went down for that touch (the last `Down`
/// before it): a swipe gives no `Tap`, however it moved in between.
pub proof fn lemma_tap_slop_from_down(map: TouchMap, evs: Seq<Seq<u8>>)
    ensures
        taps_ok(feed_all(map, idle_state(), evs).1),
        history_ok(feed_all(map, idle_state(), evs).0, feed_all(map, idle_state(), evs).1),
    decreases evs.len(),
{
    if evs.len() > 0 {
        lemma_tap_slop_from_down(map, evs.drop_last());
        let (s1, o1) = feed_all(map, idle_state(), evs.drop_last());
        lemma_history_step(map, s1, o1, evs.last());
    } else {
        assert(taps_ok(Seq::<TouchEvent>::empty()));
    }
}

/// Law: a packet shorter than an `input_event` changes nothing and yields
/// nothing; only a SYN_REPORT (type 0, code 0) yields events; and a `Move`
/// comes only while a finger is down.
pub proof fn lemma_feed_law(map: TouchMap, s: TouchState, ev: Seq<u8>)
    ensures
        ev.len() < 16 ==> feed_step(map, s, ev) == (s, Seq::<TouchEvent>::empty()),
        feed_step(map, s, ev).1.len() > 0 ==> ev.len() >= 16 && le_u16(ev, 8) == EV_SYN && le_u16(ev, 10) == 0,
        forall|k: int| 0 <= k < feed_step(map, s, ev).1.len() && (#[trigger] feed_step(map, s, ev).1[k]) is Move ==> s.down,
{
    let out = feed_step(map, s, ev).1;
    if ev.len() >= 16 && le_u16(ev, 8) == EV_SYN && le_u16(ev, 10) == 0 && out.len() > 0 {
        let (x, y) = map.screen_point(s.raw_x as int, s.raw_y as int);
        let p = (x as i32, y as i32);
        let down = s.pending_down && !s.down;
        let mv = !down && s.down && s.moved && !s.pending_up && p != s.last;
        let s1 = if down { TouchState { down: true, start: p, last: p, ..s } } else if mv { TouchState { last: p, ..s } } else { s };
        let up = s1.pending_up && s1.down;
        let u = if s1.moved { p } else { s1.last };
        let tap = up && within_slop(u.0 - s1.start.0) && within_slop(u.1 - s1.start.1);
        let d = TouchEvent::Down { x: p.0, y: p.1 };
        let m = TouchEvent::Move { x: p.0, y: p.1 };
        let uu = TouchEvent::Up { x: u.0, y: u.1 };
        let t = TouchEvent::Tap { x: u.0, y: u.1 };
        if down && tap {
            assert(out =~= seq![d, uu, t]);
        } else if down && up {
            assert(out =~= seq![d, uu]);
        } else if down {
            assert(out =~= seq![d]);
        } else if mv && tap {
            assert(out =~= seq![m, uu, t]);
        } else if mv && up {
            assert(out =~= seq![m, uu]);
        } else if mv {
            assert(out =~= seq![m]);
        } else if tap {
            assert(out =~= seq![uu, t]);
        } else {
            assert(out =~= seq![uu]);
        }
    }
}

} // verus!
