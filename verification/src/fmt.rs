//! How slider values are shown: as a percentage, a plain number, or pixels.

use vstd::prelude::*;
use crate::text::{int_text, int_to_string, string_push};

verus! {

/// A value formatter for sliders.
#[derive(Clone, Copy, Debug, PartialEq, Eq, Structural)]
pub enum ValueFormat {
    /// `52%`
    Pct,
    /// `52`
    Plain,
    /// `52 px`
    Px,
}

/// The text `fmt` shows for `v`.
pub open spec fn value_text(fmt: ValueFormat, v: int) -> Seq<char> {
    match fmt {
        ValueFormat::Pct => int_text(v) + seq!['%'],
        ValueFormat::Plain => int_text(v),
        ValueFormat::Px => int_text(v) + seq![' ', 'p', 'x'],
    }
}

/// `v` followed by a percent sign.
pub fn pct(v: i32) -> (s: String)
    ensures
        s@ == value_text(ValueFormat::Pct, v as int),
{
    let mut s = int_to_string(v as i64);
    string_push(&mut s, '%');
    s
}

/// `v` in decimal.
pub fn plain(v: i32) -> (s: String)
    ensures
        s@ == value_text(ValueFormat::Plain, v as int),
{
    int_to_string(v as i64)
}

/// `v` followed by ` px`.
pub fn px(v: i32) -> (s: String)
    ensures
        s@ == value_text(ValueFormat::Px, v as int),
{
    let mut s = int_to_string(v as i64);
    string_push(&mut s, ' ');
    string_push(&mut s, 'p');
    string_push(&mut s, 'x');
    s
}

/// `v` shown as `fmt` shows it.
pub fn format_value(fmt: ValueFormat, v: i32) -> (s: String)
    ensures
        s@ == value_text(fmt, v as int),
{
    match fmt {
        ValueFormat::Pct => pct(v),
        ValueFormat::Plain => plain(v),
        ValueFormat::Px => px(v),
    }
}

} // verus!
