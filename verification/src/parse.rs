//! Splitting and number parsing on character sequences, with the meaning of
//! the `str` methods the text formats here are written with: `split`,
//! `split_once`, `lines`, `split_whitespace`, `strip_prefix`,
//! `eq_ignore_ascii_case` and integer `parse` / `from_str_radix`.

use vstd::prelude::*;
use crate::text::{char_is_white, is_white};

verus! {

/// The character sequences held by `v`.
pub open spec fn char_views(v: Seq<Vec<char>>) -> Seq<Seq<char>> {
    Seq::new(v.len(), |i: int| v[i]@)
}

/// Index of the first `c` in `s`, or -1 when there is none.
pub open spec fn first_at(s: Seq<char>, c: char) -> int
    decreases s.len(),
{
    if s.len() == 0 {
        -1
    } else if s[0] == c {
        0
    } else {
        let r = first_at(s.drop_first(), c);
        if r < 0 {
            -1
        } else {
            r + 1
        }
    }
}

pub proof fn lemma_first_at(s: Seq<char>, c: char)
    ensures
        -1 <= first_at(s, c) < s.len(),
        first_at(s, c) >= 0 ==> s[first_at(s, c)] == c,
        forall|j: int| 0 <= j < s.len() && (first_at(s, c) < 0 || j < first_at(s, c)) ==> s[j] != c,
    decreases s.len(),
{
    if s.len() > 0 && s[0] != c {
        lemma_first_at(s.drop_first(), c);
        assert forall|j: int| 0 <= j < s.len() && (first_at(s, c) < 0 || j < first_at(s, c)) implies s[j] != c by {
            if j > 0 {
                assert(s[j] == s.drop_first()[j - 1]);
            }
        }
    }
}

/// `first_at` is the one index holding `c` with none before it.
pub proof fn lemma_first_at_is(s: Seq<char>, c: char, i: int)
    requires
        -1 <= i < s.len(),
        i >= 0 ==> s[i] == c,
        forall|j: int| 0 <= j < s.len() && (i < 0 || j < i) ==> s[j] != c,
    ensures
        first_at(s, c) == i,
{
    lemma_first_at(s, c);
    if first_at(s, c) >= 0 && (i < 0 || first_at(s, c) < i) {
        assert(s[first_at(s, c)] == c);
    }
    if i >= 0 && (first_at(s, c) < 0 || i < first_at(s, c)) {
        assert(s[i] == c);
    }
}

/// Position of the first `c` at or after `from`.
pub fn find_char(v: &[char], c: char, from: usize) -> (r: Option<usize>)
    requires
        from <= v@.len(),
    ensures
        match r {
            Some(i) => from <= i < v@.len() && i - from == first_at(v@.skip(from as int), c),
            None => first_at(v@.skip(from as int), c) == -1,
        },
{
    let mut i = from;
    while i < v.len()
        invariant
            from <= i <= v@.len(),
            forall|j: int| from <= j < i ==> v@[j] != c,
        decreases v@.len() - i,
    {
        if v[i] == c {
            proof {
                lemma_first_at_is(v@.skip(from as int), c, i - from);
            }
            return Some(i);
        }
        i = i + 1;
    }
    proof {
        lemma_first_at_is(v@.skip(from as int), c, -1);
    }
    None
}

/// The text before and after the first `c` (`str::split_once`).
pub open spec fn split_once(s: Seq<char>, c: char) -> Option<(Seq<char>, Seq<char>)> {
    let i = first_at(s, c);
    if i < 0 {
        None
    } else {
        Some((s.take(i), s.skip(i + 1)))
    }
}

pub fn split_once_chars(v: &[char], c: char) -> (r: Option<(Vec<char>, Vec<char>)>)
    ensures
        match r {
            Some((a, b)) => split_once(v@, c) == Some((a@, b@)),
            None => split_once(v@, c) is None,
        },
{
    assert(v@.skip(0) =~= v@);
    let n = v.len();
    match find_char(v, c, 0) {
        Some(i) => {
            assert(i < n);
            let a = copy_range(v, 0, i);
            let b = copy_range(v, i + 1, v.len());
            assert(a@ =~= v@.take(i as int));
            assert(b@ =~= v@.skip(i + 1));
            Some((a, b))
        },
        None => None,
    }
}

/// `v[from..to]` as a new vector.
pub fn copy_range(v: &[char], from: usize, to: usize) -> (r: Vec<char>)
    requires
        from <= to <= v@.len(),
    ensures
        r@ == v@.subrange(from as int, to as int),
{
    let mut r: Vec<char> = Vec::new();
    let mut i = from;
    while i < to
        invariant
            from <= i <= to <= v@.len(),
            r@ == v@.subrange(from as int, i as int),
        decreases to - i,
    {
        r.push(v[i]);
        assert(v@.subrange(from as int, i + 1) =~= v@.subrange(from as int, i as int).push(v@[i as int]));
        i = i + 1;
    }
    r
}

/// The pieces between occurrences of `c` (`str::split`): one more piece than
/// there are separators.
pub open spec fn split_on(s: Seq<char>, c: char) -> Seq<Seq<char>>
    decreases s.len(),
{
    let i = first_at(s, c);
    if i < 0 || i >= s.len() {
        seq![s]
    } else {
        seq![s.take(i)] + split_on(s.skip(i + 1), c)
    }
}

pub fn split_chars(v: &[char], c: char) -> (r: Vec<Vec<char>>)
    ensures
        char_views(r@) == split_on(v@, c),
{
    let mut pieces: Vec<Vec<char>> = Vec::new();
    let mut start: usize = 0;
    let n = v.len();
    assert(v@.skip(0) =~= v@);
    assert(char_views(pieces@) + split_on(v@, c) =~= split_on(v@, c));
    loop
        invariant
            start <= v@.len(),
            n == v@.len(),
            char_views(pieces@) + split_on(v@.skip(start as int), c) == split_on(v@, c),
        decreases v@.len() - start,
    {
        let ghost rest = v@.skip(start as int);
        proof {
            lemma_first_at(rest, c);
        }
        match find_char(v, c, start) {
            Some(i) => {
                assert(i < n);
                let piece = copy_range(v, start, i);
                assert(piece@ =~= rest.take(i - start));
                assert(rest.skip(i - start + 1) =~= v@.skip(i + 1));
                let ghost before = char_views(pieces@);
                pieces.push(piece);
                assert(char_views(pieces@) =~= before + seq![piece@]);
                assert(char_views(pieces@) + split_on(v@.skip(i + 1), c) =~= before + split_on(rest, c));
                start = i + 1;
            },
            None => {
                let piece = copy_range(v, start, v.len());
                assert(piece@ =~= rest);
                let ghost before = char_views(pieces@);
                pieces.push(piece);
                assert(char_views(pieces@) =~= before + split_on(rest, c));
                return pieces;
            },
        }
    }
}

/// A line without its terminator: `\n`, or `\r\n`.
pub open spec fn line_body(l: Seq<char>) -> Seq<char> {
    if l.len() > 0 && l.last() == '\r' {
        l.drop_last()
    } else {
        l
    }
}

/// The lines of `s` (`str::lines`): split at `\n`, a `\r` before the `\n`
/// dropped, no empty line after a final `\n`.
pub open spec fn lines_of(s: Seq<char>) -> Seq<Seq<char>>
    decreases s.len(),
{
    if s.len() == 0 {
        seq![]
    } else {
        let i = first_at(s, '\n');
        if i < 0 || i >= s.len() {
            seq![s]
        } else {
            seq![line_body(s.take(i))] + lines_of(s.skip(i + 1))
        }
    }
}

pub fn lines_chars(v: &[char]) -> (r: Vec<Vec<char>>)
    ensures
        char_views(r@) == lines_of(v@),
{
    let mut lines: Vec<Vec<char>> = Vec::new();
    let mut start: usize = 0;
    assert(v@.skip(0) =~= v@);
    assert(char_views(lines@) + lines_of(v@) =~= lines_of(v@));
    while start < v.len()
        invariant
            start <= v@.len(),
            char_views(lines@) + lines_of(v@.skip(start as int)) == lines_of(v@),
        decreases v@.len() - start,
    {
        let ghost rest = v@.skip(start as int);
        proof {
            lemma_first_at(rest, '\n');
        }
        let ghost before = char_views(lines@);
        match find_char(v, '\n', start) {
            Some(i) => {
                let end: usize = if i > start && v[i - 1] == '\r' { i - 1 } else { i };
                let line = copy_range(v, start, end);
                assert(line@ =~= line_body(rest.take(i - start)));
                assert(rest.skip(i - start + 1) =~= v@.skip(i + 1));
                lines.push(line);
                assert(char_views(lines@) =~= before + seq![line@]);
                assert(char_views(lines@) + lines_of(v@.skip(i + 1)) =~= before + lines_of(rest));
                start = i + 1;
            },
            None => {
                let line = copy_range(v, start, v.len());
                assert(line@ =~= rest);
                lines.push(line);
                assert(char_views(lines@) =~= before + lines_of(rest));
                assert(v@.skip(v@.len() as int) =~= Seq::<char>::empty());
                start = v.len();
            },
        }
    }
    assert(v@.skip(start as int) =~= Seq::<char>::empty());
    assert(char_views(lines@) + Seq::<Seq<char>>::empty() =~= char_views(lines@));
    lines
}

/// Number of leading characters of `s` that are not whitespace.
pub open spec fn word_len(s: Seq<char>) -> int
    decreases s.len(),
{
    if s.len() == 0 || is_white(s[0]) {
        0
    } else {
        1 + word_len(s.drop_first())
    }
}

pub proof fn lemma_word_len(s: Seq<char>)
    ensures
        0 <= word_len(s) <= s.len(),
        word_len(s) < s.len() ==> is_white(s[word_len(s)]),
        forall|j: int| 0 <= j < word_len(s) ==> !is_white(s[j]),
    decreases s.len(),
{
    if s.len() > 0 && !is_white(s[0]) {
        lemma_word_len(s.drop_first());
        assert forall|j: int| 0 <= j < word_len(s) implies !is_white(s[j]) by {
            if j > 0 {
                assert(s[j] == s.drop_first()[j - 1]);
            }
        }
    }
}

proof fn lemma_word_len_is(s: Seq<char>, n: int)
    requires
        0 <= n <= s.len(),
        n < s.len() ==> is_white(s[n]),
        forall|j: int| 0 <= j < n ==> !is_white(s[j]),
    ensures
        word_len(s) == n,
    decreases s.len(),
{
    if n > 0 {
        lemma_word_len_is(s.drop_first(), n - 1);
    }
}

/// The whitespace-separated words of `s` (`str::split_whitespace`).
pub open spec fn words(s: Seq<char>) -> Seq<Seq<char>>
    decreases s.len(),
{
    if s.len() == 0 {
        seq![]
    } else if is_white(s[0]) {
        words(s.drop_first())
    } else {
        let n = word_len(s);
        if n <= 0 || n > s.len() {
            seq![s]
        } else {
            seq![s.take(n)] + words(s.skip(n))
        }
    }
}

pub fn words_chars(v: &[char]) -> (r: Vec<Vec<char>>)
    ensures
        char_views(r@) == words(v@),
{
    let mut out: Vec<Vec<char>> = Vec::new();
    let mut i: usize = 0;
    assert(v@.skip(0) =~= v@);
    assert(char_views(out@) + words(v@) =~= words(v@));
    while i < v.len()
        invariant
            i <= v@.len(),
            char_views(out@) + words(v@.skip(i as int)) == words(v@),
        decreases v@.len() - i,
    {
        let ghost rest = v@.skip(i as int);
        if char_is_white(v[i]) {
            assert(rest.drop_first() =~= v@.skip(i + 1));
            i = i + 1;
        } else {
            let mut j = i;
            while j < v.len() && !char_is_white(v[j])
                invariant
                    i <= j <= v@.len(),
                    forall|k: int| i <= k < j ==> !is_white(v@[k]),
                decreases v@.len() - j,
            {
                j = j + 1;
            }
            proof {
                lemma_word_len_is(rest, j - i);
            }
            let w = copy_range(v, i, j);
            assert(w@ =~= rest.take(j - i));
            assert(rest.skip(j - i) =~= v@.skip(j as int));
            let ghost before = char_views(out@);
            out.push(w);
            assert(char_views(out@) =~= before + seq![w@]);
            assert(char_views(out@) + words(v@.skip(j as int)) =~= before + words(rest));
            i = j;
        }
    }
    assert(v@.skip(i as int) =~= Seq::<char>::empty());
    assert(char_views(out@) + Seq::<Seq<char>>::empty() =~= char_views(out@));
    out
}

/// `s` starts with `p`.
pub open spec fn has_prefix(s: Seq<char>, p: Seq<char>) -> bool {
    p.len() <= s.len() && s.take(p.len() as int) == p
}

pub fn starts_with_chars(v: &[char], p: &[char]) -> (b: bool)
    ensures
        b == has_prefix(v@, p@),
{
    if p.len() > v.len() {
        return false;
    }
    let mut i: usize = 0;
    while i < p.len()
        invariant
            i <= p@.len() <= v@.len(),
            forall|k: int| 0 <= k < i ==> v@[k] == p@[k],
        decreases p@.len() - i,
    {
        if v[i] != p[i] {
            assert(v@.take(p@.len() as int)[i as int] != p@[i as int]);
            return false;
        }
        i = i + 1;
    }
    assert(v@.take(p@.len() as int) =~= p@);
    true
}

/// The ASCII lower-case form of `c`; other characters unchanged.
pub open spec fn ascii_lower(c: char) -> char {
    if 'A' <= c <= 'Z' {
        ((c as u32) + 32) as char
    } else {
        c
    }
}

/// Equal up to ASCII case (`str::eq_ignore_ascii_case`).
pub open spec fn eq_ignore_case(a: Seq<char>, b: Seq<char>) -> bool {
    a.len() == b.len() && forall|i: int| 0 <= i < a.len() ==> ascii_lower(#[trigger] a[i]) == ascii_lower(b[i])
}

pub fn lower_char(c: char) -> (r: char)
    ensures
        r == ascii_lower(c),
{
    if 'A' <= c && c <= 'Z' {
        let u = c as u32 + 32;
        assert(u < 0xD800);
        char_from_ascii(u)
    } else {
        c
    }
}

/// The character with code `u`, an ASCII or other non-surrogate value below 0xD800.
fn char_from_ascii(u: u32) -> (c: char)
    requires
        u < 0xD800,
    ensures
        c == u as char,
{
    let b = u as u8;
    if u < 128 {
        b as char
    } else {
        char_of_scalar(u)
    }
}

/// `char::from_u32` on a value that is a scalar value.
#[verifier::external_body]
fn char_of_scalar(u: u32) -> (c: char)
    requires
        u < 0xD800 || 0xE000 <= u < 0x110000,
    ensures
        c == u as char,
{
    match char::from_u32(u) {
        Some(c) => c,
        None => ' ',
    }
}

pub fn eq_ignore_case_chars(a: &[char], b: &[char]) -> (r: bool)
    ensures
        r == eq_ignore_case(a@, b@),
{
    if a.len() != b.len() {
        return false;
    }
    let mut i: usize = 0;
    while i < a.len()
        invariant
            i <= a@.len(),
            a@.len() == b@.len(),
            forall|k: int| 0 <= k < i ==> ascii_lower(#[trigger] a@[k]) == ascii_lower(b@[k]),
        decreases a@.len() - i,
    {
        if lower_char(a[i]) != lower_char(b[i]) {
            return false;
        }
        i = i + 1;
    }
    true
}

/// Value of digit `c` in base `radix` (`char::to_digit`), or -1.
pub open spec fn digit_value(c: char, radix: int) -> int {
    let v = if '0' <= c <= '9' {
        c as int - '0' as int
    } else if 'a' <= c <= 'z' {
        c as int - 'a' as int + 10
    } else if 'A' <= c <= 'Z' {
        c as int - 'A' as int + 10
    } else {
        -1
    };
    if 0 <= v < radix {
        v
    } else {
        -1
    }
}

/// Every character of `s` is a base-`radix` digit.
pub open spec fn all_digits(s: Seq<char>, radix: int) -> bool {
    forall|i: int| 0 <= i < s.len() ==> digit_value(#[trigger] s[i], radix) >= 0
}

/// The number the digits of `s` spell in base `radix`.
pub open spec fn digits_value(s: Seq<char>, radix: int) -> int
    decreases s.len(),
{
    if s.len() == 0 {
        0
    } else {
        digits_value(s.drop_last(), radix) * radix + digit_value(s.last(), radix)
    }
}

/// What `from_str_radix` (and `str::parse` in base 10) gives for an integer
/// type with range `min..=max`: an optional `+` (or `-` when the type is
/// signed), then at least one digit, and a value in range.
pub open spec fn parse_int(s: Seq<char>, radix: int, signed: bool, min: int, max: int) -> Option<int> {
    if s.len() == 0 {
        None
    } else if s.len() == 1 && (s[0] == '+' || s[0] == '-') {
        None
    } else {
        let neg = signed && s[0] == '-';
        let d = if s[0] == '+' || neg { s.drop_first() } else { s };
        let v = if neg { -digits_value(d, radix) } else { digits_value(d, radix) };
        if all_digits(d, radix) && min <= v <= max {
            Some(v)
        } else {
            None
        }
    }
}

proof fn lemma_digits_grow(s: Seq<char>, radix: int)
    requires
        2 <= radix,
        all_digits(s, radix),
    ensures
        digits_value(s, radix) >= 0,
    decreases s.len(),
{
    if s.len() > 0 {
        assert(all_digits(s.drop_last(), radix)) by {
            assert forall|i: int| 0 <= i < s.drop_last().len() implies digit_value(#[trigger] s.drop_last()[i], radix) >= 0 by {
                assert(s.drop_last()[i] == s[i]);
            }
        }
        lemma_digits_grow(s.drop_last(), radix);
        assert(digit_value(s[s.len() - 1], radix) >= 0);
        let p = digits_value(s.drop_last(), radix);
        assert(p * radix >= 0) by (nonlinear_arith)
            requires
                p >= 0,
                radix >= 2,
        ;
    }
}

fn digit_of(c: char, radix: u32) -> (d: Option<u32>)
    requires
        2 <= radix <= 36,
    ensures
        match d {
            Some(v) => v == digit_value(c, radix as int) && v < radix,
            None => digit_value(c, radix as int) < 0,
        },
{
    let v: i64 = if '0' <= c && c <= '9' {
        c as i64 - 48
    } else if 'a' <= c && c <= 'z' {
        c as i64 - 97 + 10
    } else if 'A' <= c && c <= 'Z' {
        c as i64 - 65 + 10
    } else {
        -1
    };
    if 0 <= v && v < radix as i64 {
        Some(v as u32)
    } else {
        None
    }
}

/// Values above this are all alike to the parser: out of every range it serves.
pub open spec fn digit_cap() -> int {
    0x1_0000_0000_0000_0001
}

/// The digits of `s` as a number, or `digit_cap() + 1` for anything larger.
pub open spec fn capped(s: Seq<char>, radix: int) -> int {
    if digits_value(s, radix) <= digit_cap() {
        digits_value(s, radix)
    } else {
        digit_cap() + 1
    }
}

proof fn lemma_capped_step(pre: Seq<char>, nxt: Seq<char>, radix: int, dv: int)
    requires
        2 <= radix <= 36,
        0 <= dv < radix,
        all_digits(pre, radix),
        nxt.len() == pre.len() + 1,
        nxt.drop_last() == pre,
        digit_value(nxt.last(), radix) == dv,
    ensures
        capped(nxt, radix) == (if capped(pre, radix) > digit_cap() {
            digit_cap() + 1
        } else if capped(pre, radix) * radix + dv > digit_cap() {
            digit_cap() + 1
        } else {
            capped(pre, radix) * radix + dv
        }),
{
    lemma_digits_grow(pre, radix);
    let pv = digits_value(pre, radix);
    assert(digits_value(nxt, radix) == pv * radix + dv);
    if pv > digit_cap() {
        assert(pv * radix >= pv * 2) by (nonlinear_arith)
            requires
                pv >= 0,
                radix >= 2,
        ;
    }
}

/// The digits `v[start..]` in base `radix`, capped; `None` at a non-digit.
fn digits_capped(v: &[char], start: usize, radix: u32) -> (r: Option<u128>)
    requires
        start <= v@.len(),
        2 <= radix <= 36,
    ensures
        match r {
            Some(a) => all_digits(v@.skip(start as int), radix as int) && a == capped(v@.skip(start as int), radix as int),
            None => !all_digits(v@.skip(start as int), radix as int),
        },
{
    let cap: u128 = 0x1_0000_0000_0000_0001;
    let mut acc: u128 = 0;
    let mut i = start;
    assert(v@.subrange(start as int, start as int) =~= Seq::<char>::empty());
    while i < v.len()
        invariant
            start <= i <= v@.len(),
            2 <= radix <= 36,
            cap == digit_cap(),
            all_digits(v@.subrange(start as int, i as int), radix as int),
            acc == capped(v@.subrange(start as int, i as int), radix as int),
        decreases v@.len() - i,
    {
        let ghost pre = v@.subrange(start as int, i as int);
        let ghost nxt = v@.subrange(start as int, i + 1);
        assert(nxt.drop_last() =~= pre);
        match digit_of(v[i], radix) {
            None => {
                assert(v@.skip(start as int)[i - start] == v@[i as int]);
                return None;
            },
            Some(dv) => {
                proof {
                    assert(all_digits(nxt, radix as int)) by {
                        assert forall|k: int| 0 <= k < nxt.len() implies digit_value(#[trigger] nxt[k], radix as int) >= 0 by {
                            if k < pre.len() {
                                assert(nxt[k] == pre[k]);
                            }
                        }
                    }
                    lemma_capped_step(pre, nxt, radix as int, dv as int);
                }
                if acc <= cap {
                    proof {
                        assert(acc * (radix as u128) + (dv as u128) <= 0x1_0000_0000_0000_0001 * 36 + 36) by (nonlinear_arith)
                            requires
                                acc <= 0x1_0000_0000_0000_0001,
                                radix <= 36,
                                dv < 36,
                        ;
                    }
                    let next = acc * (radix as u128) + (dv as u128);
                    acc = if next > cap { cap + 1 } else { next };
                }
            },
        }
        i = i + 1;
    }
    assert(v@.subrange(start as int, v@.len() as int) =~= v@.skip(start as int));
    Some(acc)
}

/// Parse `v` as an integer of range `min..=max` in base `radix`, as
/// `from_str_radix` does.
pub fn parse_int_chars(v: &[char], radix: u32, signed: bool, min: i128, max: i128) -> (r: Option<i128>)
    requires
        2 <= radix <= 36,
        -0x1_0000_0000_0000_0000 <= min <= 0 <= max <= 0x1_0000_0000_0000_0000,
    ensures
        match r {
            Some(x) => parse_int(v@, radix as int, signed, min as int, max as int) == Some(x as int),
            None => parse_int(v@, radix as int, signed, min as int, max as int) is None,
        },
{
    if v.len() == 0 {
        return None;
    }
    if v.len() == 1 && (v[0] == '+' || v[0] == '-') {
        return None;
    }
    let neg = signed && v[0] == '-';
    let start: usize = if v[0] == '+' || neg { 1 } else { 0 };
    assert((if v@[0] == '+' || neg { v@.drop_first() } else { v@ }) =~= v@.skip(start as int));
    match digits_capped(v, start, radix) {
        None => None,
        Some(acc) => {
            if acc > 0x1_0000_0000_0000_0001 {
                return None;
            }
            let mag = acc as i128;
            let val: i128 = if neg { -mag } else { mag };
            if min <= val && val <= max {
                Some(val)
            } else {
                None
            }
        },
    }
}

} // verus!
