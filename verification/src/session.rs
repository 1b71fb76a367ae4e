//! The decisions of the interactive app: how the screen is split during a
//! session, what a swipe or a key press means, when pressed keys are drawn
//! released, when a session that failed at once is retried with a plain
//! shell, and how the command line of the `run` and `ssh` modes is read.
//! The application performs the I/O; these functions decide.

use vstd::prelude::*;
use crate::pair::push_str;
use crate::parse::{parse_int, parse_int_chars};
use crate::text::{chars_eq, chars_to_string, int_text, push_decimal, str_chars, string_push};
use crate::ui::home::{FormAction, HostEntry};
use crate::ui::osk::OskAction;

verus! {

/// A vertical swipe shorter than this is not a scroll.
pub const SWIPE_MIN_PX: i32 = 60;

/// A session whose command is missing ends within this long.
pub const QUICK_EXIT_MS: u64 = 5000;

/// How long a pressed key stays drawn pressed.
pub const KEY_FLASH_MS: u64 = 120;

/// Exit status of a shell whose command was not found.
pub const NOT_FOUND: i32 = 127;

/// The screen split of a session, in pixel lines: the terminal band on top,
/// the keyboard band at the bottom. With the keyboard hidden the terminal
/// takes the whole view.
#[derive(Clone, Copy, Debug, PartialEq, Eq, Structural)]
pub struct Layout {
    pub osk_visible: bool,
    pub term_top: u32,
    pub term_bottom: u32,
    pub osk_top: u32,
    pub osk_bottom: u32,
}

/// `a - b`, or 0 when `b > a` (`saturating_sub`).
pub open spec fn sat_sub(a: int, b: int) -> int {
    if a >= b {
        a - b
    } else {
        0
    }
}

/// The split for a view `view_h` lines high, a margin, the keyboard's line
/// height `fh` and its number of rows: the keyboard sits on the bottom
/// margin, and the terminal ends half a keyboard row above it.
pub open spec fn layout_spec(view_h: int, margin: int, fh: int, osk_rows: int, osk_visible: bool) -> Layout {
    let bottom = sat_sub(view_h, margin);
    let osk_top = sat_sub(bottom, osk_rows * fh);
    Layout {
        osk_visible,
        term_top: margin as u32,
        term_bottom: (if osk_visible {
            sat_sub(osk_top, fh / 2)
        } else {
            bottom
        }) as u32,
        osk_top: osk_top as u32,
        osk_bottom: bottom as u32,
    }
}

impl Layout {
    pub fn compute(view_h: u32, margin: u32, fh: u32, osk_visible: bool, osk_rows: u16) -> (l: Layout)
        requires
            osk_rows * fh <= u32::MAX,
        ensures
            l == layout_spec(view_h as int, margin as int, fh as int, osk_rows as int, osk_visible),
    {
        let osk_px: u32 = osk_rows as u32 * fh;
        let bottom = view_h.saturating_sub(margin);
        let osk_top = bottom.saturating_sub(osk_px);
        let term_bottom = if osk_visible {
            osk_top.saturating_sub(fh / 2)
        } else {
            bottom
        };
        Layout { osk_visible, term_top: margin, term_bottom, osk_top, osk_bottom: bottom }
    }
}

pub open spec fn abs(i: int) -> int {
    if i < 0 {
        -i
    } else {
        i
    }
}

/// A finger that went down at `down` and up at `up` scrolls when it moved
/// at least `SWIPE_MIN_PX` lines, more up or down than sideways, and started
/// on the terminal: by a line per `fh` pixels (at least one), to older
/// content when it moved down.
pub open spec fn swipe_spec(down: (i32, i32), up: (i32, i32), starts_in_term: bool, fh: u32) -> Option<(u32, bool)> {
    let dy = up.1 - down.1;
    let dx = up.0 - down.0;
    if abs(dy) >= SWIPE_MIN_PX && abs(dy) > abs(dx) && starts_in_term {
        let n = abs(dy) / (fh as int);
        Some((if n < 1 {
            1u32
        } else {
            n as u32
        }, dy > 0))
    } else {
        None
    }
}

pub fn swipe(down: (i32, i32), up: (i32, i32), starts_in_term: bool, fh: u32) -> (r: Option<(u32, bool)>)
    requires
        fh > 0,
    ensures
        r == swipe_spec(down, up, starts_in_term, fh),
{
    let dy: i64 = up.1 as i64 - down.1 as i64;
    let dx: i64 = up.0 as i64 - down.0 as i64;
    let ady: i64 = if dy < 0 {
        -dy
    } else {
        dy
    };
    let adx: i64 = if dx < 0 {
        -dx
    } else {
        dx
    };
    if ady >= SWIPE_MIN_PX as i64 && ady > adx && starts_in_term {
        let n: i64 = ady / (fh as i64);
        assert(n <= ady);
        Some((if n < 1 {
            1u32
        } else {
            n as u32
        }, dy > 0))
    } else {
        None
    }
}

/// The pressed keys whose release time has come, in the order pressed.
pub open spec fn due_keys(p: Seq<(usize, u64)>, now: u64) -> Seq<usize>
    decreases p.len(),
{
    if p.len() == 0 {
        seq![]
    } else {
        let r = due_keys(p.drop_last(), now);
        if now >= p.last().1 {
            r.push(p.last().0)
        } else {
            r
        }
    }
}

/// The pressed keys still to be released later.
pub open spec fn still_pressed(p: Seq<(usize, u64)>, now: u64) -> Seq<(usize, u64)>
    decreases p.len(),
{
    if p.len() == 0 {
        seq![]
    } else {
        let r = still_pressed(p.drop_last(), now);
        if now >= p.last().1 {
            r
        } else {
            r.push(p.last())
        }
    }
}

/// Takes the keys due for release at `now` out of `pending`.
pub fn due_releases(pending: &mut Vec<(usize, u64)>, now: u64) -> (released: Vec<usize>)
    ensures
        released@ == due_keys(old(pending)@, now),
        final(pending)@ == still_pressed(old(pending)@, now),
{
    let mut out: Vec<usize> = Vec::new();
    let mut keep: Vec<(usize, u64)> = Vec::new();
    let mut i: usize = 0;
    assert(pending@.take(0) =~= Seq::<(usize, u64)>::empty());
    while i < pending.len()
        invariant
            i <= pending@.len(),
            pending@ == old(pending)@,
            out@ == due_keys(pending@.take(i as int), now),
            keep@ == still_pressed(pending@.take(i as int), now),
        decreases pending@.len() - i,
    {
        assert(pending@.take(i + 1).drop_last() =~= pending@.take(i as int));
        let (k, at) = pending[i];
        if now >= at {
            out.push(k);
        } else {
            keep.push((k, at));
        }
        i = i + 1;
    }
    assert(pending@.take(pending@.len() as int) =~= pending@);
    *pending = keep;
    out
}

/// When to release a key pressed at `now`.
pub fn release_at(now: u64) -> (t: u64)
    requires
        now + KEY_FLASH_MS <= u64::MAX,
    ensures
        t == now + KEY_FLASH_MS,
{
    now + KEY_FLASH_MS
}

/// What a tap during a session is for.
#[derive(Clone, Copy, Debug, PartialEq, Eq, Structural)]
pub enum TapTarget {
    /// The keyboard's key with this index.
    Key(usize),
    /// Anywhere else: show or hide the keyboard, with a full-page refresh.
    ToggleKeyboard,
}

/// A tap while the keyboard is shown (`osk_visible`) and `key` is the key
/// under the finger, if any, presses that key; any other tap shows or hides
/// the keyboard.
pub fn session_tap(osk_visible: bool, key: Option<usize>) -> (t: TapTarget)
    ensures
        t == (match key {
            Some(k) => if osk_visible {
                TapTarget::Key(k)
            } else {
                TapTarget::ToggleKeyboard
            },
            None => TapTarget::ToggleKeyboard,
        }),
{
    match key {
        Some(k) => if osk_visible {
            TapTarget::Key(k)
        } else {
            TapTarget::ToggleKeyboard
        },
        None => TapTarget::ToggleKeyboard,
    }
}

/// What a key of the keyboard does during a session.
#[derive(Clone, Copy, Debug, PartialEq, Eq, Structural)]
pub enum SessionKey {
    /// Back to the home screen.
    GoHome,
    /// Hide the keyboard and give the terminal the whole view.
    HideKeyboard,
    /// Only a modifier changed: redraw the modifier keys.
    RedrawModifiers,
    /// Send the key's bytes, return to the live view, release the key later.
    Type,
}

pub open spec fn session_key_spec(a: OskAction) -> SessionKey {
    match a {
        OskAction::Home => SessionKey::GoHome,
        OskAction::Hide => SessionKey::HideKeyboard,
        OskAction::ModifierChanged => SessionKey::RedrawModifiers,
        _ => SessionKey::Type,
    }
}

pub fn session_key(a: &OskAction) -> (k: SessionKey)
    ensures
        k == session_key_spec(*a),
{
    match a {
        OskAction::Home => SessionKey::GoHome,
        OskAction::Hide => SessionKey::HideKeyboard,
        OskAction::ModifierChanged => SessionKey::RedrawModifiers,
        _ => SessionKey::Type,
    }
}

/// What a key of the keyboard does to the add form: hide and home cancel
/// it, a modifier does nothing, other keys (`None`) type into it.
pub open spec fn form_key_spec(a: OskAction) -> Option<FormAction> {
    match a {
        OskAction::Hide | OskAction::Home => Some(FormAction::Cancel),
        OskAction::ModifierChanged => Some(FormAction::Nothing),
        _ => None,
    }
}

pub fn form_key(a: &OskAction) -> (r: Option<FormAction>)
    ensures
        r == form_key_spec(*a),
{
    match a {
        OskAction::Hide | OskAction::Home => Some(FormAction::Cancel),
        OskAction::ModifierChanged => Some(FormAction::Nothing),
        _ => None,
    }
}

/// A session ended at once with "command not found" while a command was
/// given: retry with a login shell.
pub open spec fn retry_shell_spec(status: Option<i32>, has_command: bool) -> bool {
    status == Some(NOT_FOUND) && has_command
}

pub fn retry_with_shell(status: Option<i32>, has_command: bool) -> (b: bool)
    ensures
        b == retry_shell_spec(status, has_command),
{
    match status {
        Some(s) => s == NOT_FOUND && has_command,
        None => false,
    }
}

/// The far end went away with `status` after `elapsed_ms`: a missing
/// command, reported at once so the session can be retried.
pub fn quick_failure(status: i32, elapsed_ms: u64) -> (b: bool)
    ensures
        b == (status == NOT_FOUND && elapsed_ms < QUICK_EXIT_MS),
{
    status == NOT_FOUND && elapsed_ms < QUICK_EXIT_MS
}

/// The screen counts as settled after 1.2 s without change, or 8 s in all.
pub fn screen_settled(now: u64, start: u64, stable_since: u64) -> (b: bool)
    requires
        start <= now,
        stable_since <= now,
    ensures
        b == (now - stable_since >= 1200 || now - start >= 8000),
{
    now - stable_since >= 1200 || now - start >= 8000
}

/// The status line after a registration: `added NAME`.
pub fn added_text(name: &str) -> (s: String)
    ensures
        s@ == "added "@ + name@,
{
    let mut s = String::new();
    push_str(&mut s, "added ");
    push_str(&mut s, name);
    s
}

/// The status line after a session: `NAME: session ended`.
pub fn ended_text(name: &str) -> (s: String)
    ensures
        s@ == name@ + ": session ended"@,
{
    let mut s = String::new();
    push_str(&mut s, name);
    push_str(&mut s, ": session ended");
    s
}

/// The banner while connecting: `connecting to NAME (SPEC)...`.
pub fn connecting_text(e: &HostEntry) -> (s: String)
    ensures
        s@ == "connecting to "@ + e.name@ + " ("@ + e.spec@ + ")..."@,
{
    let mut s = String::new();
    push_str(&mut s, "connecting to ");
    push_str(&mut s, e.name.as_str());
    push_str(&mut s, " (");
    push_str(&mut s, e.spec.as_str());
    push_str(&mut s, ")...");
    s
}

/// The last line once the far end is gone: `[session ended (STATUS); tap to go home]`.
pub fn closed_text(status: i32) -> (s: String)
    ensures
        s@ == "[session ended ("@ + int_text(status as int) + "); tap to go home]"@,
{
    let mut s = String::new();
    push_str(&mut s, "[session ended (");
    if status < 0 {
        string_push(&mut s, '-');
        push_decimal(&mut s, (-(status as i64)) as u64);
    } else {
        push_decimal(&mut s, status as u64);
    }
    push_str(&mut s, "); tap to go home]");
    s
}

/// `s` with every `a b` pair, read left to right, replaced by `to`
/// (`str::replace` with a two-character pattern).
pub open spec fn replace_pair(s: Seq<char>, a: char, b: char, to: char) -> Seq<char>
    decreases s.len(),
{
    if s.len() < 2 {
        s
    } else if s[0] == a && s[1] == b {
        seq![to] + replace_pair(s.skip(2), a, b, to)
    } else {
        seq![s[0]] + replace_pair(s.skip(1), a, b, to)
    }
}

/// Typed text with its `\n` and `\t` escapes turned into newline and tab.
pub open spec fn unescape(s: Seq<char>) -> Seq<char> {
    replace_pair(replace_pair(s, '\\', 'n', '\n'), '\\', 't', '\t')
}

fn replace_pair_chars(v: &[char], a: char, b: char, to: char) -> (r: Vec<char>)
    ensures
        r@ == replace_pair(v@, a, b, to),
{
    let mut out: Vec<char> = Vec::new();
    let mut i: usize = 0;
    assert(v@.skip(0) =~= v@);
    assert(out@ + replace_pair(v@.skip(0), a, b, to) =~= replace_pair(v@, a, b, to));
    while i < v.len()
        invariant
            i <= v@.len(),
            out@ + replace_pair(v@.skip(i as int), a, b, to) == replace_pair(v@, a, b, to),
        decreases v@.len() - i,
    {
        let ghost rest = v@.skip(i as int);
        if i + 1 < v.len() && v[i] == a && v[i + 1] == b {
            assert(rest[0] == a && rest[1] == b);
            assert(rest.skip(2) =~= v@.skip(i + 2));
            out.push(to);
            assert(out@ + replace_pair(v@.skip(i + 2), a, b, to) =~= out@.drop_last() + (seq![to] + replace_pair(
                rest.skip(2),
                a,
                b,
                to,
            )));
            i = i + 2;
        } else if i + 1 < v.len() {
            assert(rest.skip(1) =~= v@.skip(i + 1));
            out.push(v[i]);
            assert(out@ + replace_pair(v@.skip(i + 1), a, b, to) =~= out@.drop_last() + (seq![rest[0]]
                + replace_pair(rest.skip(1), a, b, to)));
            i = i + 1;
        } else {
            assert(rest =~= seq![v@[i as int]]);
            out.push(v[i]);
            assert(v@.skip(i + 1) =~= Seq::<char>::empty());
            assert(out@ + replace_pair(v@.skip(i + 1), a, b, to) =~= out@.drop_last() + rest);
            i = i + 1;
        }
    }
    assert(v@.skip(i as int) =~= Seq::<char>::empty());
    assert(out@ + Seq::<char>::empty() =~= out@);
    out
}

/// Typed text with its escapes resolved.
pub fn unescape_str(s: &str) -> (r: String)
    ensures
        r@ == unescape(s@),
{
    let v = str_chars(s);
    let n = replace_pair_chars(v.as_slice(), '\\', 'n', '\n');
    let t = replace_pair_chars(n.as_slice(), '\\', 't', '\t');
    chars_to_string(t.as_slice())
}

/// Where a session's bytes come from: a local command or SSH.
#[derive(Clone, Copy, Debug, PartialEq, Eq, Structural)]
pub enum Kind {
    Pty,
    Ssh,
}

/// The command line of the `run` and `ssh` modes.
pub struct RunArgs {
    /// Texts to type, one every 1.5 s after the first second.
    pub typed: Vec<String>,
    /// Seconds to keep the screen after the command exits.
    pub hold: u64,
    /// The command and its arguments (`run`), or `user@host[:port]` (`ssh`).
    pub cmd: Vec<String>,
    pub key: Option<String>,
    pub remote_cmd: Option<String>,
}

/// The command line as plain values.
pub struct RunArgsView {
    pub typed: Seq<Seq<char>>,
    pub hold: u64,
    pub cmd: Seq<Seq<char>>,
    pub key: Option<Seq<char>>,
    pub remote_cmd: Option<Seq<char>>,
}

pub open spec fn str_views(v: Seq<String>) -> Seq<Seq<char>> {
    Seq::new(v.len(), |i: int| v[i]@)
}

pub open spec fn opt_view(o: Option<String>) -> Option<Seq<char>> {
    match o {
        Some(s) => Some(s@),
        None => None,
    }
}

impl View for RunArgs {
    type V = RunArgsView;

    open spec fn view(&self) -> RunArgsView {
        RunArgsView {
            typed: str_views(self.typed@),
            hold: self.hold,
            cmd: str_views(self.cmd@),
            key: opt_view(self.key),
            remote_cmd: opt_view(self.remote_cmd),
        }
    }
}

/// The argument after position `i`, or an empty one at the end.
pub open spec fn next_or_empty(args: Seq<Seq<char>>, i: int) -> Seq<char> {
    if i + 1 < args.len() {
        args[i + 1]
    } else {
        seq![]
    }
}

/// The argument after position `i`, if any.
pub open spec fn next_arg(args: Seq<Seq<char>>, i: int) -> Option<Seq<char>> {
    if i + 1 < args.len() {
        Some(args[i + 1])
    } else {
        None
    }
}

/// Reading the arguments from position `i` on: `--type TEXT`, `--hold SECS`
/// (2 when not a number), `--key PATH`, `--cmd COMMAND`, `--` before the
/// rest of the command; anything else is a word of the command.
pub open spec fn run_args_from(args: Seq<Seq<char>>, i: int, acc: RunArgsView) -> RunArgsView
    decreases args.len() + 1 - i,
{
    if i < 0 || i >= args.len() {
        acc
    } else {
        let a = args[i];
        if a == "--type"@ {
            run_args_from(args, i + 2, RunArgsView { typed: acc.typed.push(unescape(next_or_empty(args, i))), ..acc })
        } else if a == "--hold"@ {
            let h = match parse_int(next_or_empty(args, i), 10, false, 0, u64::MAX as int) {
                Some(h) => h as u64,
                None => 2u64,
            };
            run_args_from(args, i + 2, RunArgsView { hold: h, ..acc })
        } else if a == "--key"@ {
            run_args_from(args, i + 2, RunArgsView { key: next_arg(args, i), ..acc })
        } else if a == "--cmd"@ {
            run_args_from(args, i + 2, RunArgsView { remote_cmd: next_arg(args, i), ..acc })
        } else if a == "--"@ {
            RunArgsView { cmd: acc.cmd + args.skip(i + 1), ..acc }
        } else {
            run_args_from(args, i + 1, RunArgsView { cmd: acc.cmd.push(a), ..acc })
        }
    }
}

pub open spec fn run_args_spec(args: Seq<Seq<char>>) -> RunArgsView {
    run_args_from(args, 0, RunArgsView { typed: seq![], hold: 2, cmd: seq![], key: None, remote_cmd: None })
}

/// Position `i + 2`, or the end when that is past it.
fn skip_two(i: usize, n: usize) -> (j: usize)
    requires
        i < n,
    ensures
        j <= n,
        j == i + 2 || (j == n && i + 2 > n),
{
    if i + 1 < n {
        i + 2
    } else {
        n
    }
}

fn clone_string(s: &String) -> (r: String)
    ensures
        r@ == s@,
{
    let v = str_chars(s.as_str());
    chars_to_string(v.as_slice())
}

impl RunArgs {
    pub fn parse(args: &Vec<String>) -> (r: RunArgs)
        ensures
            r@ == run_args_spec(str_views(args@)),
    {
        let ghost av = str_views(args@);
        let flag_type = str_chars("--type");
        let flag_hold = str_chars("--hold");
        let flag_key = str_chars("--key");
        let flag_cmd = str_chars("--cmd");
        let flag_rest = str_chars("--");
        let mut r = RunArgs { typed: Vec::new(), hold: 2, cmd: Vec::new(), key: None, remote_cmd: None };
        assert(str_views(r.typed@) =~= Seq::<Seq<char>>::empty());
        assert(str_views(r.cmd@) =~= Seq::<Seq<char>>::empty());
        let mut i: usize = 0;
        while i < args.len()
            invariant
                i <= args@.len(),
                av == str_views(args@),
                flag_type@ == "--type"@,
                flag_hold@ == "--hold"@,
                flag_key@ == "--key"@,
                flag_cmd@ == "--cmd"@,
                flag_rest@ == "--"@,
                run_args_from(av, i as int, r@) == run_args_spec(av),
            decreases args@.len() - i,
        {
            let a = str_chars(args[i].as_str());
            assert(a@ == av[i as int]);
            let ghost before = r@;
            let ghost i0 = i as int;
            if i + 1 < args.len() {
                assert(av[i + 1] == args@[i + 1]@);
            }
            if chars_eq(a.as_slice(), flag_type.as_slice()) {
                proof {
                    reveal_strlit("");
                }
                let t = if i + 1 < args.len() {
                    unescape_str(args[i + 1].as_str())
                } else {
                    assert(""@ =~= Seq::<char>::empty());
                    unescape_str("")
                };
                r.typed.push(t);
                assert(str_views(r.typed@) =~= before.typed.push(unescape(next_or_empty(av, i as int))));
                i = skip_two(i, args.len());
                assert(run_args_from(av, i as int, r@) == run_args_from(av, i0 + 2, r@));
            } else if chars_eq(a.as_slice(), flag_hold.as_slice()) {
                let h: u64 = if i + 1 < args.len() {
                    let v = str_chars(args[i + 1].as_str());
                    match parse_int_chars(v.as_slice(), 10, false, 0, u64::MAX as i128) {
                        Some(h) => h as u64,
                        None => 2,
                    }
                } else {
                    2
                };
                proof {
                    if i + 1 >= args@.len() {
                        assert(parse_int(next_or_empty(av, i as int), 10, false, 0, u64::MAX as int) is None);
                    }
                }
                r.hold = h;
                i = skip_two(i, args.len());
                assert(run_args_from(av, i as int, r@) == run_args_from(av, i0 + 2, r@));
            } else if chars_eq(a.as_slice(), flag_key.as_slice()) {
                r.key = if i + 1 < args.len() {
                    Some(clone_string(&args[i + 1]))
                } else {
                    None
                };
                i = skip_two(i, args.len());
                assert(run_args_from(av, i as int, r@) == run_args_from(av, i0 + 2, r@));
            } else if chars_eq(a.as_slice(), flag_cmd.as_slice()) {
                r.remote_cmd = if i + 1 < args.len() {
                    Some(clone_string(&args[i + 1]))
                } else {
                    None
                };
                i = skip_two(i, args.len());
                assert(run_args_from(av, i as int, r@) == run_args_from(av, i0 + 2, r@));
            } else if chars_eq(a.as_slice(), flag_rest.as_slice()) {
                let mut j = i + 1;
                assert(av.subrange(i + 1, j as int) =~= Seq::<Seq<char>>::empty());
                while j < args.len()
                    invariant
                        i < j <= args@.len(),
                        av == str_views(args@),
                        str_views(r.cmd@) == before.cmd + av.subrange(i + 1, j as int),
                        str_views(r.typed@) == before.typed,
                        r.hold == before.hold,
                        opt_view(r.key) == before.key,
                        opt_view(r.remote_cmd) == before.remote_cmd,
                    decreases args@.len() - j,
                {
                    let ghost c0 = str_views(r.cmd@);
                    r.cmd.push(clone_string(&args[j]));
                    assert(str_views(r.cmd@) =~= c0.push(av[j as int]));
                    assert(av.subrange(i + 1, j + 1) =~= av.subrange(i + 1, j as int).push(av[j as int]));
                    j = j + 1;
                }
                assert(av.subrange(i + 1, args@.len() as int) =~= av.skip(i + 1));
                return r;
            } else {
                r.cmd.push(clone_string(&args[i]));
                assert(str_views(r.cmd@) =~= before.cmd.push(av[i as int]));
                i = i + 1;
            }
        }
        r
    }
}

/// With the keyboard shown, the terminal band ends above the keyboard band,
/// which ends on the bottom margin; the view is never exceeded.
pub proof fn lemma_bands_ordered(view_h: int, margin: int, fh: int, osk_rows: int)
    requires
        0 <= view_h <= u32::MAX,
        0 <= margin,
        0 <= fh,
        0 <= osk_rows,
    ensures
        layout_spec(view_h, margin, fh, osk_rows, true).term_bottom <= layout_spec(view_h, margin, fh, osk_rows, true).osk_top,
        layout_spec(view_h, margin, fh, osk_rows, true).osk_top <= layout_spec(view_h, margin, fh, osk_rows, true).osk_bottom,
        layout_spec(view_h, margin, fh, osk_rows, true).osk_bottom <= view_h,
        layout_spec(view_h, margin, fh, osk_rows, false).term_bottom == layout_spec(view_h, margin, fh, osk_rows, false).osk_bottom,
{
    assert(osk_rows * fh >= 0) by (nonlinear_arith)
        requires
            osk_rows >= 0,
            fh >= 0,
    ;
}

/// Every pressed key is either released now or kept for later, in order.
pub proof fn lemma_releases_partition(p: Seq<(usize, u64)>, now: u64)
    ensures
        due_keys(p, now).len() + still_pressed(p, now).len() == p.len(),
        forall|i: int| 0 <= i < still_pressed(p, now).len() ==> now < (#[trigger] still_pressed(p, now)[i]).1,
    decreases p.len(),
{
    if p.len() > 0 {
        lemma_releases_partition(p.drop_last(), now);
        let r = still_pressed(p.drop_last(), now);
        if now < p.last().1 {
            assert forall|i: int| 0 <= i < r.push(p.last()).len() implies now < (#[trigger] r.push(p.last())[i]).1 by {
                if i < r.len() {
                    assert(r.push(p.last())[i] == r[i]);
                }
            }
        }
    }
}

} // verus!
