//! Small device facts read from sysfs: battery and frontlight. The
//! application reads the files; this module reads their text.

use vstd::prelude::*;
use crate::parse::{eq_ignore_case, eq_ignore_case_chars, parse_int, parse_int_chars};
use crate::text::{decimal, is_white, push_decimal, str_chars, string_push, trim, trim_chars, trim_end, trim_start};

verus! {

/// A sysfs number: the trimmed text as a `u8`.
pub open spec fn sysfs_u8(text: Seq<char>) -> Option<u8> {
    match parse_int(trim(text), 10, false, 0, 255) {
        Some(v) => Some(v as u8),
        None => None,
    }
}

/// Charge percent (at most 100) from the `capacity` file, and whether the
/// `status` file says charging or full (in any case).
pub open spec fn battery_spec(capacity: Seq<char>, status: Option<Seq<char>>) -> (Option<u8>, bool) {
    (
        match sysfs_u8(capacity) {
            Some(p) => Some(if p > 100 {
                100u8
            } else {
                p
            }),
            None => None,
        },
        match status {
            Some(s) => eq_ignore_case(trim(s), "charging"@) || eq_ignore_case(trim(s), "full"@),
            None => false,
        },
    )
}

fn read_u8(text: &str) -> (r: Option<u8>)
    ensures
        r == sysfs_u8(text@),
{
    let v = str_chars(text);
    let t = trim_chars(v.as_slice());
    match parse_int_chars(t.as_slice(), 10, false, 0, 255) {
        Some(p) => Some(p as u8),
        None => None,
    }
}

/// (percent, charging) from the battery's `capacity` text and, when it
/// could be read, its `status` text.
pub fn battery(capacity: &str, status: Option<&str>) -> (r: (Option<u8>, bool))
    ensures
        r == battery_spec(capacity@, match status {
            Some(s) => Some(s@),
            None => None,
        }),
{
    let pct = match read_u8(capacity) {
        Some(p) => Some(if p > 100 {
            100u8
        } else {
            p
        }),
        None => None,
    };
    let charging = match status {
        Some(s) => {
            let v = str_chars(s);
            let t = trim_chars(v.as_slice());
            let charging_word = str_chars("charging");
            let full_word = str_chars("full");
            eq_ignore_case_chars(t.as_slice(), charging_word.as_slice()) || eq_ignore_case_chars(
                t.as_slice(),
                full_word.as_slice(),
            )
        },
        None => false,
    };
    (pct, charging)
}

/// The frontlight level from the `brightness` file's text.
pub fn brightness(text: &str) -> (r: Option<u8>)
    ensures
        r == sysfs_u8(text@),
{
    read_u8(text)
}

/// What to write to the `brightness` file for `pct` (at most 100).
pub fn brightness_text(pct: u8) -> (s: String)
    ensures
        s@ == decimal((if pct > 100 {
            100u8
        } else {
            pct
        }) as nat).push('\n'),
{
    let p = if pct > 100 {
        100u8
    } else {
        pct
    };
    let mut s = String::new();
    push_decimal(&mut s, p as u64);
    string_push(&mut s, '\n');
    s
}

/// Law: reading back what `brightness_text` writes gives the clamped
/// percent: the file's text `decimal(min(pct, 100))` and a newline trims to
/// the digits, which parse to that number.
pub proof fn lemma_brightness_round_trip(pct: u8)
    ensures
        sysfs_u8(decimal((if pct > 100 { 100u8 } else { pct }) as nat).push('\n'))
            == Some(if pct > 100 { 100u8 } else { pct }),
{
    let q: u8 = if pct > 100 { 100u8 } else { pct };
    let d = decimal(q as nat);
    let s = d.push('\n');
    crate::store::lemma_decimal_digits(q as nat);
    assert(s[0] == d[0]);
    crate::store::lemma_trim_start_len(s);
    assert(trim_start(s) == s);
    assert(is_white('\n'));
    assert(s.drop_last() =~= d);
    crate::store::lemma_trim_end_len(d);
    assert(trim_end(s) == trim_end(d));
    assert(trim(s) == d);
}

} // verus!
