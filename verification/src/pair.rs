//! Pairing server logic: the Kobo serves a host-setup script (with this
//! device's public key baked in) and accepts registrations from machines that
//! ran it. Plain HTTP on the LAN. The socket work is the application's; this
//! module decides when a request is complete and what to answer.

use vstd::prelude::*;
use vstd::utf8::{decode_utf8, encode_utf8, is_continuation_byte, valid_utf8};
use crate::parse::{
    all_digits, char_views, eq_ignore_case, eq_ignore_case_chars, lines_chars, lines_of, parse_int, parse_int_chars,
    split_chars, split_on, split_once, split_once_chars, words, words_chars,
};
use crate::text::{chars_eq, chars_contain, chars_to_string, decimal, push_decimal, str_chars, string_push, trim, trim_chars};
use crate::ui::home::HostEntry;

verus! {

broadcast use vstd::utf8::group_utf8_lib;

pub const PORT: u16 = 8080;

/// Requests larger than this are dropped before their head is complete.
pub const MAX_REQUEST: usize = 65536;

/// The text `String::from_utf8_lossy` makes of `bytes`.
pub uninterp spec fn lossy_text(bytes: Seq<u8>) -> Seq<char>;

/// `String::from_utf8_lossy(bytes).into_owned()`. The contract names the
/// result `lossy_text(bytes)` and states what std documents: valid UTF-8 is
/// decoded unchanged. How invalid sequences are replaced is left unsaid.
#[verifier::external_body]
fn utf8_lossy(bytes: &[u8]) -> (s: String)
    ensures
        s@ == lossy_text(bytes@),
        valid_utf8(bytes@) ==> s@ == decode_utf8(bytes@),
{
    String::from_utf8_lossy(bytes).into_owned()
}

/// The bytes as one-byte characters, for digit parsing.
pub open spec fn byte_chars(b: Seq<u8>) -> Seq<char> {
    Seq::new(b.len(), |i: int| b[i] as char)
}

/// The bytes `urldecode` makes of `b` from position `i` on: `+` is a space,
/// `%` followed by what `u8::from_str_radix(.., 16)` accepts of the next two
/// bytes (one at the very end) is that byte, anything else is itself.
pub open spec fn url_bytes(b: Seq<u8>, i: int) -> Seq<u8>
    decreases b.len() + 3 - i,
{
    if i < 0 || i >= b.len() {
        seq![]
    } else if b[i] == 0x2b {
        seq![0x20u8] + url_bytes(b, i + 1)
    } else if b[i] == 0x25 && i + 2 <= b.len() {
        let end = if i + 3 < b.len() { i + 3 } else { b.len() as int };
        match parse_int(byte_chars(b.subrange(i + 1, end)), 16, false, 0, 255) {
            Some(v) => seq![v as u8] + url_bytes(b, i + 3),
            None => seq![0x25u8] + url_bytes(b, i + 1),
        }
    } else {
        seq![b[i]] + url_bytes(b, i + 1)
    }
}

/// `urldecode` cuts the two bytes after each `%` out of the text; that cut
/// must not end inside a multi-byte character.
pub open spec fn url_safe(b: Seq<u8>) -> bool {
    forall|i: int| 0 <= i && i + 3 < b.len() && b[i] == 0x25 ==> !is_continuation_byte(#[trigger] b[i + 3])
}

/// The text `urldecode` makes of `s`.
pub open spec fn url_text(s: Seq<char>) -> Seq<char> {
    lossy_text(url_bytes(encode_utf8(s), 0))
}

/// The one or two bytes after a `%` as a number, as `u8::from_str_radix(.., 16)` reads them.
fn hex_pair(b: &[u8], from: usize, end: usize) -> (r: Option<u8>)
    requires
        from <= end <= b@.len(),
        end - from <= 2,
    ensures
        match r {
            Some(v) => parse_int(byte_chars(b@.subrange(from as int, end as int)), 16, false, 0, 255) == Some(v as int),
            None => parse_int(byte_chars(b@.subrange(from as int, end as int)), 16, false, 0, 255) is None,
        },
{
    let mut cs: Vec<char> = Vec::new();
    let mut k = from;
    while k < end
        invariant
            from <= k <= end <= b@.len(),
            cs@ == byte_chars(b@.subrange(from as int, k as int)),
        decreases end - k,
    {
        cs.push(b[k] as char);
        assert(cs@ =~= byte_chars(b@.subrange(from as int, k + 1)));
        k = k + 1;
    }
    match parse_int_chars(cs.as_slice(), 16, false, 0, 255) {
        Some(v) => Some(v as u8),
        None => None,
    }
}

/// Decode `application/x-www-form-urlencoded` text: `+` is a space, `%XX` a byte.
pub fn urldecode(s: &str) -> (r: String)
    requires
        url_safe(encode_utf8(s@)),
    ensures
        r@ == url_text(s@),
        valid_utf8(url_bytes(encode_utf8(s@), 0)) ==> r@ == decode_utf8(url_bytes(encode_utf8(s@), 0)),
        !s@.contains('%') && !s@.contains('+') ==> r@ == s@,
{
    proof {
        if !s@.contains('%') && !s@.contains('+') {
            lemma_urldecode_plain(s@);
        }
    }
    let b = s.as_bytes();
    let mut out: Vec<u8> = Vec::new();
    let mut i: usize = 0;
    while i < b.len()
        invariant
            i <= b@.len(),
            b@ == encode_utf8(s@),
            out@ + url_bytes(b@, i as int) == url_bytes(b@, 0),
        decreases b@.len() - i,
    {
        let ghost pre = out@;
        let c = b[i];
        if c == 0x2b {
            out.push(0x20);
            assert(out@ + url_bytes(b@, i + 1) =~= pre + url_bytes(b@, i as int));
            i = i + 1;
        } else if c == 0x25 && b.len() - i >= 2 {
            let end: usize = if b.len() - i > 3 { i + 3 } else { b.len() };
            match hex_pair(b, i + 1, end) {
                Some(v) => {
                    out.push(v);
                    assert(out@ + url_bytes(b@, i + 3) =~= pre + url_bytes(b@, i as int));
                    if b.len() - i >= 3 {
                        i = i + 3;
                    } else {
                        assert(url_bytes(b@, i + 3) =~= Seq::<u8>::empty());
                        assert(url_bytes(b@, b@.len() as int) =~= Seq::<u8>::empty());
                        i = b.len();
                    }
                },
                None => {
                    out.push(0x25);
                    assert(out@ + url_bytes(b@, i + 1) =~= pre + url_bytes(b@, i as int));
                    i = i + 1;
                },
            }
        } else {
            out.push(c);
            assert(out@ + url_bytes(b@, i + 1) =~= pre + url_bytes(b@, i as int));
            i = i + 1;
        }
    }
    assert(url_bytes(b@, i as int) =~= Seq::<u8>::empty());
    assert(out@ =~= url_bytes(b@, 0));
    utf8_lossy(out.as_slice())
}

/// Whether `urldecode` can take `s`.
pub fn url_safe_str(s: &str) -> (ok: bool)
    ensures
        ok == url_safe(encode_utf8(s@)),
{
    let b = s.as_bytes();
    let n = b.len();
    if n < 4 {
        return true;
    }
    let mut i: usize = 0;
    while i < n - 3
        invariant
            n == b@.len(),
            n >= 4,
            b@ == encode_utf8(s@),
            forall|j: int| 0 <= j < i && j + 3 < b@.len() && b@[j] == 0x25 ==> !is_continuation_byte(#[trigger] b@[j + 3]),
        decreases b@.len() - i,
    {
        if b[i] == 0x25 && 0x80 <= b[i + 3] && b[i + 3] < 0xC0 {
            return false;
        }
        i = i + 1;
    }
    true
}

/// Law: text with neither `%` nor `+` decodes to itself.
pub proof fn lemma_urldecode_plain(s: Seq<char>)
    requires
        !s.contains('%'),
        !s.contains('+'),
    ensures
        url_bytes(encode_utf8(s), 0) == encode_utf8(s),
{
    lemma_plain_bytes(s);
    let b = encode_utf8(s);
    lemma_url_bytes_plain(b, 0);
    assert(b.skip(0) =~= b);
}

/// The UTF-8 bytes of text without `%` or `+` hold neither byte.
proof fn lemma_plain_bytes(s: Seq<char>)
    requires
        !s.contains('%'),
        !s.contains('+'),
    ensures
        forall|i: int| 0 <= i < encode_utf8(s).len() ==> #[trigger] encode_utf8(s)[i] != 0x25 && encode_utf8(s)[i] != 0x2b,
    decreases s.len(),
{
    if s.len() > 0 {
        let rest = s.drop_first();
        assert(!rest.contains('%')) by {
            if rest.contains('%') {
                let k = choose|k: int| 0 <= k < rest.len() && rest[k] == '%';
                assert(s[k + 1] == '%');
            }
        }
        assert(!rest.contains('+')) by {
            if rest.contains('+') {
                let k = choose|k: int| 0 <= k < rest.len() && rest[k] == '+';
                assert(s[k + 1] == '+');
            }
        }
        lemma_plain_bytes(rest);
        let head = vstd::utf8::encode_scalar(s[0] as u32);
        assert(s[0] != '%' && s[0] != '+') by {
            assert(s.contains(s[0]) || s.len() == 0);
        }
        vstd::utf8::encode_utf8_first_scalar(s);
        assert forall|i: int| 0 <= i < head.len() implies #[trigger] head[i] != 0x25 && head[i] != 0x2b by {
            lemma_scalar_bytes(s[0], i);
        }
        assert(encode_utf8(s) == head + encode_utf8(rest));
    }
}

/// Only a `%` or `+` character is encoded with the byte `%` or `+`.
proof fn lemma_scalar_bytes(c: char, i: int)
    requires
        c != '%',
        c != '+',
        0 <= i < vstd::utf8::encode_scalar(c as u32).len(),
    ensures
        vstd::utf8::encode_scalar(c as u32)[i] != 0x25,
        vstd::utf8::encode_scalar(c as u32)[i] != 0x2b,
{
    let u = c as u32;
    if u < 0x80 {
        assert(((u & 0x7F) as u8) as u32 == u) by (bit_vector)
            requires
                u < 0x80,
        ;
        vstd::utf8::char_u32_cast(c, u);
    } else {
        let b = vstd::utf8::encode_scalar(u);
        assert(forall|k: int| 0 <= k < b.len() ==> b[k] >= 0x80) by {
            vstd::utf8::char_is_scalar(c);
            lemma_wide_scalar_bytes(u);
        }
    }
}

proof fn lemma_wide_scalar_bytes(u: u32)
    requires
        0x80 <= u,
        vstd::utf8::is_scalar(u),
    ensures
        forall|k: int| 0 <= k < vstd::utf8::encode_scalar(u).len() ==> vstd::utf8::encode_scalar(u)[k] >= 0x80,
{
    let b = vstd::utf8::encode_scalar(u);
    if u < 0x800 {
        assert(vstd::utf8::leading_byte_width_2(u) >= 0x80 && vstd::utf8::last_continuation_byte(u) >= 0x80) by (bit_vector)
            requires
                0x80 <= u < 0x800,
        ;
    } else if u < 0x10000 {
        assert(vstd::utf8::leading_byte_width_3(u) >= 0x80 && vstd::utf8::second_last_continuation_byte(u) >= 0x80
            && vstd::utf8::last_continuation_byte(u) >= 0x80) by (bit_vector)
            requires
                0x800 <= u < 0x10000,
        ;
    } else {
        assert(vstd::utf8::leading_byte_width_4(u) >= 0x80 && vstd::utf8::third_last_continuation_byte(u) >= 0x80
            && vstd::utf8::second_last_continuation_byte(u) >= 0x80 && vstd::utf8::last_continuation_byte(u) >= 0x80)
            by (bit_vector)
            requires
                0x10000 <= u < 0x110000,
        ;
    }
}

proof fn lemma_url_bytes_plain(b: Seq<u8>, i: int)
    requires
        0 <= i <= b.len(),
        forall|k: int| 0 <= k < b.len() ==> #[trigger] b[k] != 0x25 && b[k] != 0x2b,
    ensures
        url_bytes(b, i) == b.skip(i),
    decreases b.len() - i,
{
    if i < b.len() {
        lemma_url_bytes_plain(b, i + 1);
        assert(seq![b[i]] + b.skip(i + 1) =~= b.skip(i));
    } else {
        assert(b.skip(i) =~= Seq::<u8>::empty());
    }
}

/// Bytes `p .. p + 4` of `b` are the blank line `\r\n\r\n` that ends a request head.
pub open spec fn blank_line_at(b: Seq<u8>, p: int) -> bool {
    &&& 0 <= p
    &&& p + 4 <= b.len()
    &&& b[p] == 13 && b[p + 1] == 10 && b[p + 2] == 13 && b[p + 3] == 10
}

/// Position of the first blank line in `buf`.
pub fn find_blank_line(buf: &[u8]) -> (r: Option<usize>)
    ensures
        match r {
            Some(p) => blank_line_at(buf@, p as int) && forall|q: int| 0 <= q < p ==> !blank_line_at(buf@, q),
            None => forall|q: int| !blank_line_at(buf@, q),
        },
{
    let n = buf.len();
    if n < 4 {
        return None;
    }
    let mut p: usize = 0;
    while p <= n - 4
        invariant
            n == buf@.len(),
            n >= 4,
            forall|q: int| 0 <= q < p ==> !blank_line_at(buf@, q),
        decreases n - p,
    {
        if buf[p] == 13 && buf[p + 1] == 10 && buf[p + 2] == 13 && buf[p + 3] == 10 {
            return Some(p);
        }
        p = p + 1;
    }
    None
}

/// The value of the first `Content-Length` header among `lines`, 0 when it
/// is absent or not a number.
pub open spec fn content_length_in(lines: Seq<Seq<char>>) -> int
    decreases lines.len(),
{
    if lines.len() == 0 {
        0
    } else {
        match split_once(lines[0], ':') {
            Some((k, v)) => if eq_ignore_case(k, "content-length"@) {
                match parse_int(trim(v), 10, false, 0, usize::MAX as int) {
                    Some(n) => n,
                    None => 0,
                }
            } else {
                content_length_in(lines.drop_first())
            },
            None => content_length_in(lines.drop_first()),
        }
    }
}

/// The request body's declared length, from the head.
pub fn content_length(head: &str) -> (n: usize)
    ensures
        n == content_length_in(lines_of(head@)),
{
    let hv = str_chars(head);
    let ls = lines_chars(hv.as_slice());
    let key = str_chars("content-length");
    let mut i: usize = 0;
    assert(char_views(ls@).skip(0) =~= char_views(ls@));
    while i < ls.len()
        invariant
            i <= ls@.len(),
            char_views(ls@) == lines_of(head@),
            key@ == "content-length"@,
            content_length_in(char_views(ls@).skip(i as int)) == content_length_in(lines_of(head@)),
        decreases ls@.len() - i,
    {
        let ghost rest = char_views(ls@).skip(i as int);
        assert(rest[0] == ls@[i as int]@);
        assert(rest.drop_first() =~= char_views(ls@).skip(i + 1));
        match split_once_chars(ls[i].as_slice(), ':') {
            Some((k, v)) => {
                if eq_ignore_case_chars(k.as_slice(), key.as_slice()) {
                    let t = trim_chars(v.as_slice());
                    return match parse_int_chars(t.as_slice(), 10, false, 0, usize::MAX as i128) {
                        Some(x) => x as usize,
                        None => 0,
                    };
                }
            },
            None => {},
        }
        i = i + 1;
    }
    assert(char_views(ls@).skip(i as int) =~= Seq::<Seq<char>>::empty());
    0
}

/// How far reading a request has got.
#[derive(Clone, Copy, Debug, PartialEq, Eq, Structural)]
pub enum HeadState {
    /// No blank line yet: read more.
    Incomplete,
    /// No blank line within `MAX_REQUEST` bytes: give up.
    TooLarge,
    /// The head ends at `head_end` (after its blank line) and announces a body of `content_len` bytes.
    Complete { head_end: usize, content_len: usize },
}

/// What has been read so far, `buf`, amounts to.
pub fn head_state(buf: &[u8]) -> (st: HeadState)
    ensures
        (exists|p: int| blank_line_at(buf@, p)) ==> (st matches HeadState::Complete { head_end, content_len }
            && blank_line_at(buf@, head_end - 4) && (forall|q: int| 0 <= q < head_end - 4 ==> !blank_line_at(buf@, q))
            && content_len == content_length_in(lines_of(lossy_text(buf@.take(head_end - 4))))),
        !(exists|p: int| blank_line_at(buf@, p)) ==> st == (if buf@.len() > MAX_REQUEST {
            HeadState::TooLarge
        } else {
            HeadState::Incomplete
        }),
{
    let n = buf.len();
    match find_blank_line(buf) {
        Some(p) => {
            assert(p + 4 <= n);
            let head = utf8_lossy(vstd::slice::slice_subrange(buf, 0, p));
            assert(buf@.subrange(0, p as int) =~= buf@.take(p as int));
            let cl = content_length(head.as_str());
            HeadState::Complete { head_end: p + 4, content_len: cl }
        },
        None => {
            if buf.len() > MAX_REQUEST {
                HeadState::TooLarge
            } else {
                HeadState::Incomplete
            }
        },
    }
}

/// Once the head is read, the body is read up to at most `MAX_REQUEST` bytes.
pub fn clamp_body(content_len: usize) -> (n: usize)
    ensures
        n == (if content_len < MAX_REQUEST { content_len } else { MAX_REQUEST }),
{
    if content_len < MAX_REQUEST {
        content_len
    } else {
        MAX_REQUEST
    }
}

/// The head (through its blank line) and the body (what arrived of
/// `content_len` bytes after it) as text.
pub fn request_text(buf: &[u8], head_end: usize, content_len: usize) -> (r: (String, String))
    requires
        head_end <= buf@.len(),
        head_end + content_len <= usize::MAX,
    ensures
        r.0@ == lossy_text(buf@.take(head_end as int)),
        r.1@ == lossy_text(buf@.subrange(head_end as int, if head_end + content_len < buf@.len() {
            head_end + content_len
        } else {
            buf@.len() as int
        })),
{
    let end: usize = if head_end + content_len < buf.len() { head_end + content_len } else { buf.len() };
    let head = utf8_lossy(vstd::slice::slice_subrange(buf, 0, head_end));
    assert(buf@.subrange(0, head_end as int) =~= buf@.take(head_end as int));
    let body = utf8_lossy(vstd::slice::slice_subrange(buf, head_end, end));
    (head, body)
}

/// Method and path of the request line: its first two words, `""` and `/` when missing.
pub open spec fn request_line(head: Seq<char>) -> (Seq<char>, Seq<char>) {
    let ls = lines_of(head);
    let first = if ls.len() > 0 { ls[0] } else { seq![] };
    let w = words(first);
    (if w.len() > 0 { w[0] } else { seq![] }, if w.len() > 1 { w[1] } else { "/"@ })
}

/// Name, address and command after the first `k` `key=value` pairs of a
/// registration: each known key takes its decoded value, the last one wins.
pub open spec fn form_after(segs: Seq<Seq<char>>, k: int) -> (Seq<char>, Seq<char>, Seq<char>)
    decreases k,
{
    if k <= 0 {
        (seq![], seq![], seq![])
    } else {
        let (n, s, c) = form_after(segs, k - 1);
        match split_once(segs[k - 1], '=') {
            Some((key, v)) => if key == "name"@ {
                (url_text(v), s, c)
            } else if key == "spec"@ {
                (n, url_text(v), c)
            } else if key == "cmd"@ {
                (n, s, url_text(v))
            } else {
                (n, s, c)
            },
            None => (n, s, c),
        }
    }
}

/// The fields of a registration body.
pub open spec fn form_fields(body: Seq<char>) -> (Seq<char>, Seq<char>, Seq<char>) {
    let segs = split_on(body, '&');
    form_after(segs, segs.len() as int)
}

/// Every value in the body can be decoded.
pub open spec fn form_safe(body: Seq<char>) -> bool {
    let segs = split_on(body, '&');
    forall|i: int| 0 <= i < segs.len() ==> (#[trigger] split_once(segs[i], '=') matches Some((k, v)) ==> url_safe(encode_utf8(v)))
}

/// Whether a registration body can be decoded.
pub fn form_safe_str(body: &str) -> (ok: bool)
    ensures
        ok == form_safe(body@),
{
    let bv = str_chars(body);
    let segs = split_chars(bv.as_slice(), '&');
    let mut i: usize = 0;
    while i < segs.len()
        invariant
            i <= segs@.len(),
            char_views(segs@) == split_on(body@, '&'),
            forall|j: int| 0 <= j < i ==> (#[trigger] split_once(char_views(segs@)[j], '=') matches Some((k, v)) ==> url_safe(encode_utf8(v))),
        decreases segs@.len() - i,
    {
        assert(char_views(segs@)[i as int] == segs@[i as int]@);
        match split_once_chars(segs[i].as_slice(), '=') {
            Some((_k, v)) => {
                let vs = chars_to_string(v.as_slice());
                if !url_safe_str(vs.as_str()) {
                    return false;
                }
            },
            None => {},
        }
        i = i + 1;
    }
    true
}

/// The fields of a registration body, decoded.
fn read_form(body: &str) -> (r: (String, String, String))
    requires
        form_safe(body@),
    ensures
        (r.0@, r.1@, r.2@) == form_fields(body@),
{
    let bv = str_chars(body);
    let segs = split_chars(bv.as_slice(), '&');
    let ghost sv = char_views(segs@);
    let mut name = String::new();
    let mut spec = String::new();
    let mut cmd = String::new();
    let name_key = str_chars("name");
    let spec_key = str_chars("spec");
    let cmd_key = str_chars("cmd");
    let mut i: usize = 0;
    while i < segs.len()
        invariant
            i <= segs@.len(),
            sv == char_views(segs@),
            sv == split_on(body@, '&'),
            form_safe(body@),
            name_key@ == "name"@,
            spec_key@ == "spec"@,
            cmd_key@ == "cmd"@,
            (name@, spec@, cmd@) == form_after(sv, i as int),
        decreases segs@.len() - i,
    {
        assert(sv[i as int] == segs@[i as int]@);
        assert(split_once(sv[i as int], '=') matches Some((k, v)) ==> url_safe(encode_utf8(v)));
        match split_once_chars(segs[i].as_slice(), '=') {
            Some((k, v)) => {
                let vs = chars_to_string(v.as_slice());
                let d = urldecode(vs.as_str());
                if chars_eq(k.as_slice(), name_key.as_slice()) {
                    name = d;
                } else if chars_eq(k.as_slice(), spec_key.as_slice()) {
                    spec = d;
                } else if chars_eq(k.as_slice(), cmd_key.as_slice()) {
                    cmd = d;
                }
            },
            None => {},
        }
        i = i + 1;
    }
    (name, spec, cmd)
}

/// Appends the characters of `t`.
pub fn push_str(s: &mut String, t: &str)
    ensures
        final(s)@ == old(s)@ + t@,
{
    let v = str_chars(t);
    let mut i: usize = 0;
    while i < v.len()
        invariant
            i <= v@.len(),
            v@ == t@,
            s@ == old(s)@ + v@.take(i as int),
        decreases v@.len() - i,
    {
        string_push(s, v[i]);
        assert(v@.take(i + 1) =~= v@.take(i as int).push(v@[i as int]));
        i = i + 1;
    }
    assert(v@.take(i as int) =~= v@);
}

/// What a request is answered: status line, content type, body, and the
/// machine it registers, if any.
pub open spec fn reply_spec(head: Seq<char>, body: Seq<char>, script: Seq<char>, pubkey: Seq<char>) -> (
    Seq<char>,
    Seq<char>,
    Seq<char>,
    Option<(Seq<char>, Seq<char>, Option<Seq<char>>)>,
) {
    let (m, p) = request_line(head);
    if m == "GET"@ && p == "/install.sh"@ {
        ("200 OK"@, "text/x-shellscript"@, script, None)
    } else if m == "GET"@ && p == "/key"@ {
        ("200 OK"@, "text/plain"@, pubkey.push('\n'), None)
    } else if m == "GET"@ && p == "/"@ {
        ("200 OK"@, "text/plain"@, index_text(), None)
    } else if m == "POST"@ && p == "/register"@ {
        let (n, s, c) = form_fields(body);
        if trim(n).len() == 0 || !s.contains('@') {
            ("400 Bad Request"@, "text/plain"@, "need name and spec=user@host\n"@, None)
        } else {
            (
                "200 OK"@,
                "text/plain"@,
                "registered\n"@,
                Some((trim(n), trim(s), if trim(c).len() == 0 { None } else { Some(trim(c)) })),
            )
        }
    } else {
        ("404 Not Found"@, "text/plain"@, "not found\n"@, None)
    }
}

/// The help text served at `/`.
pub open spec fn index_text() -> Seq<char> {
    "koboterm pairing server\n  GET /install.sh   host setup script\n  GET /key          this device's public key\n  POST /register    name=&spec=user@host&cmd=\n"@
}

/// The full HTTP response for a status, content type and body.
pub open spec fn response_text(status: Seq<char>, ctype: Seq<char>, out: Seq<char>) -> Seq<char> {
    "HTTP/1.1 "@ + status + "\r\nContent-Type: "@ + ctype + "\r\nContent-Length: "@ + decimal(encode_utf8(out).len())
        + "\r\nConnection: close\r\n\r\n"@ + out
}

/// A machine entry as plain values.
pub open spec fn entry_view(e: HostEntry) -> (Seq<char>, Seq<char>, Option<Seq<char>>) {
    (e.name@, e.spec@, match e.command {
        Some(c) => Some(c@),
        None => None,
    })
}

fn text_is(v: &Vec<char>, t: &str) -> (b: bool)
    ensures
        b == (v@ == t@),
{
    let tv = str_chars(t);
    chars_eq(v.as_slice(), tv.as_slice())
}

/// The answer to a request whose head and body are `head` and `body`: the
/// response bytes and the machine it registers, if any.
pub fn respond(head: &str, body: &str, script: &str, pubkey: &str) -> (r: (Vec<u8>, Option<HostEntry>))
    requires
        request_line(head@) == ("POST"@, "/register"@) ==> form_safe(body@),
    ensures
        ({
            let (st, ct, out, entry) = reply_spec(head@, body@, script@, pubkey@);
            &&& r.0@ == encode_utf8(response_text(st, ct, out))
            &&& match r.1 {
                Some(e) => entry == Some(entry_view(e)),
                None => entry is None,
            }
        }),
{
    let hv = str_chars(head);
    let ls = lines_chars(hv.as_slice());
    let first: Vec<char> = if ls.len() > 0 { crate::parse::copy_range(ls[0].as_slice(), 0, ls[0].len()) } else { Vec::new() };
    assert(ls@.len() > 0 ==> first@ == char_views(ls@)[0]);
    let w = words_chars(first.as_slice());
    let method: Vec<char> = if w.len() > 0 { crate::parse::copy_range(w[0].as_slice(), 0, w[0].len()) } else { Vec::new() };
    let path: Vec<char> = if w.len() > 1 { crate::parse::copy_range(w[1].as_slice(), 0, w[1].len()) } else { str_chars("/") };
    assert(w@.len() > 0 ==> method@ == char_views(w@)[0]);
    assert(w@.len() > 1 ==> path@ == char_views(w@)[1]);
    assert((method@, path@) == request_line(head@));
    let mut out = String::new();
    let mut entry: Option<HostEntry> = None;
    let status: &str;
    let ctype: &str;
    if text_is(&method, "GET") && text_is(&path, "/install.sh") {
        status = "200 OK";
        ctype = "text/x-shellscript";
        push_str(&mut out, script);
    } else if text_is(&method, "GET") && text_is(&path, "/key") {
        status = "200 OK";
        ctype = "text/plain";
        push_str(&mut out, pubkey);
        string_push(&mut out, '\n');
    } else if text_is(&method, "GET") && text_is(&path, "/") {
        status = "200 OK";
        ctype = "text/plain";
        push_str(
            &mut out,
            "koboterm pairing server\n  GET /install.sh   host setup script\n  GET /key          this device's public key\n  POST /register    name=&spec=user@host&cmd=\n",
        );
    } else if text_is(&method, "POST") && text_is(&path, "/register") {
        let (name, spec, cmd) = read_form(body);
        let nt = trim_chars(str_chars(name.as_str()).as_slice());
        let sv = str_chars(spec.as_str());
        if nt.len() == 0 || !chars_contain(sv.as_slice(), '@') {
            status = "400 Bad Request";
            ctype = "text/plain";
            push_str(&mut out, "need name and spec=user@host\n");
        } else {
            status = "200 OK";
            ctype = "text/plain";
            push_str(&mut out, "registered\n");
            let st = trim_chars(sv.as_slice());
            let ct = trim_chars(str_chars(cmd.as_str()).as_slice());
            let command = if ct.len() == 0 { None } else { Some(chars_to_string(ct.as_slice())) };
            entry = Some(HostEntry { name: chars_to_string(nt.as_slice()), spec: chars_to_string(st.as_slice()), command });
        }
    } else {
        status = "404 Not Found";
        ctype = "text/plain";
        push_str(&mut out, "not found\n");
    }
    let mut resp = String::new();
    push_str(&mut resp, "HTTP/1.1 ");
    push_str(&mut resp, status);
    push_str(&mut resp, "\r\nContent-Type: ");
    push_str(&mut resp, ctype);
    push_str(&mut resp, "\r\nContent-Length: ");
    let out_len = out.as_str().as_bytes().len();
    push_decimal(&mut resp, out_len as u64);
    push_str(&mut resp, "\r\nConnection: close\r\n\r\n");
    push_str(&mut resp, out.as_str());
    let bytes = vstd::slice::slice_to_vec(resp.as_str().as_bytes());
    (bytes, entry)
}

/// `s` with each occurrence of `from`, found left to right and not
/// overlapping, replaced by `to` (what `str::replace` documents). An empty
/// `from` leaves `s` as it is here; no caller passes one.
pub open spec fn replace_all(s: Seq<char>, from: Seq<char>, to: Seq<char>) -> Seq<char>
    decreases s.len(),
{
    if from.len() == 0 || s.len() < from.len() {
        s
    } else if s.take(from.len() as int) == from {
        to + replace_all(s.skip(from.len() as int), from, to)
    } else {
        seq![s[0]] + replace_all(s.skip(1), from, to)
    }
}

/// Whether `from` occurs in `s` at index `i`.
fn matches_at(s: &[char], i: usize, from: &[char]) -> (b: bool)
    requires
        i + from@.len() <= s@.len(),
    ensures
        b == (s@.subrange(i as int, i + from@.len()) == from@),
{
    let n = s.len();
    let mut k: usize = 0;
    while k < from.len()
        invariant
            n == s@.len(),
            i + from@.len() <= s@.len(),
            k <= from@.len(),
            forall|j: int| 0 <= j < k ==> s@[i + j] == from@[j],
        decreases from@.len() - k,
    {
        if s[i + k] != from[k] {
            assert(s@.subrange(i as int, i + from@.len())[k as int] != from@[k as int]);
            return false;
        }
        k = k + 1;
    }
    assert(s@.subrange(i as int, i + from@.len()) =~= from@);
    true
}

/// `s` with every occurrence of the non-empty `from`, found left to right and
/// not overlapping, replaced by `to`: what `str::replace` does.
pub fn replace_chars(s: &[char], from: &[char], to: &[char]) -> (r: Vec<char>)
    requires
        from@.len() > 0,
    ensures
        r@ == replace_all(s@, from@, to@),
{
    let n = s.len();
    let f = from.len();
    let mut out: Vec<char> = Vec::new();
    let mut i: usize = 0;
    assert(s@.skip(0) =~= s@);
    assert(out@ + replace_all(s@, from@, to@) =~= replace_all(s@, from@, to@));
    while i < n
        invariant
            n == s@.len(),
            f == from@.len() > 0,
            i <= n,
            out@ + replace_all(s@.skip(i as int), from@, to@) == replace_all(s@, from@, to@),
        decreases n - i,
    {
        let ghost t = s@.skip(i as int);
        if n - i < f {
            assert(replace_all(t, from@, to@) == t);
            let mut j = i;
            while j < n
                invariant
                    i <= j <= n,
                    n == s@.len(),
                    out@ + s@.skip(j as int) == replace_all(s@, from@, to@),
                decreases n - j,
            {
                assert(s@.skip(j as int) =~= seq![s@[j as int]] + s@.skip(j + 1));
                out.push(s[j]);
                j = j + 1;
            }
            assert(s@.skip(n as int) =~= Seq::<char>::empty());
            assert(out@ + Seq::<char>::empty() =~= out@);
            i = n;
            assert(s@.skip(i as int) =~= Seq::<char>::empty());
            assert(replace_all(Seq::<char>::empty(), from@, to@) =~= Seq::<char>::empty());
            assert(out@ + replace_all(s@.skip(i as int), from@, to@) =~= out@);
        } else if matches_at(s, i, from) {
            assert(t.take(f as int) =~= s@.subrange(i as int, i + f));
            assert(t.skip(f as int) =~= s@.skip(i + f));
            let ghost before = out@;
            let mut k: usize = 0;
            while k < to.len()
                invariant
                    k <= to@.len(),
                    out@ == before + to@.take(k as int),
                decreases to@.len() - k,
            {
                out.push(to[k]);
                assert(to@.take(k + 1) =~= to@.take(k as int).push(to@[k as int]));
                k = k + 1;
            }
            assert(to@.take(to@.len() as int) =~= to@);
            assert(before + (to@ + replace_all(s@.skip(i + f), from@, to@)) =~= out@ + replace_all(s@.skip(i + f), from@, to@));
            i = i + f;
        } else {
            assert(t.take(f as int) =~= s@.subrange(i as int, i + f));
            assert(t.skip(1) =~= s@.skip(i + 1));
            assert(t[0] == s@[i as int]);
            let ghost before = out@;
            out.push(s[i]);
            assert(before + (seq![s@[i as int]] + replace_all(s@.skip(i + 1), from@, to@)) =~= out@ + replace_all(s@.skip(i + 1), from@, to@));
            i = i + 1;
        }
    }
    assert(s@.skip(n as int) =~= Seq::<char>::empty());
    assert(out@ + Seq::<char>::empty() =~= out@);
    out
}

/// The host-setup script for this device: the template with its key and
/// URL placeholders filled in, the key trimmed.
pub fn install_script(template: &str, pubkey: &str, url: &str) -> (s: String)
    ensures
        s@ == replace_all(replace_all(template@, "__KOBO_KEY__"@, trim(pubkey@)), "__KOBO_URL__"@, url@),
{
    proof {
        reveal_strlit("__KOBO_KEY__");
        reveal_strlit("__KOBO_URL__");
    }
    let kv = str_chars(pubkey);
    let key = trim_chars(kv.as_slice());
    let tv = str_chars(template);
    let with_key = replace_chars(tv.as_slice(), str_chars("__KOBO_KEY__").as_slice(), key.as_slice());
    let uv = str_chars(url);
    let done = replace_chars(with_key.as_slice(), str_chars("__KOBO_URL__").as_slice(), uv.as_slice());
    chars_to_string(done.as_slice())
}

/// Method and path of a request's first line (`/` when there is no path).
pub fn request_line_str(head: &str) -> (r: (String, String))
    ensures
        (r.0@, r.1@) == request_line(head@),
{
    let hv = str_chars(head);
    let ls = lines_chars(hv.as_slice());
    let first: Vec<char> = if ls.len() > 0 {
        ls[0].clone()
    } else {
        Vec::new()
    };
    assert(first@ == (if lines_of(head@).len() > 0 { lines_of(head@)[0] } else { seq![] })) by {
        if ls@.len() > 0 {
            assert(char_views(ls@)[0] == ls@[0]@);
        }
    }
    let w = words_chars(first.as_slice());
    let method = if w.len() > 0 {
        chars_to_string(w[0].as_slice())
    } else {
        String::new()
    };
    let path = if w.len() > 1 {
        chars_to_string(w[1].as_slice())
    } else {
        let p = str_chars("/");
        chars_to_string(p.as_slice())
    };
    proof {
        if w@.len() > 0 {
            assert(char_views(w@)[0] == w@[0]@);
        }
        if w@.len() > 1 {
            assert(char_views(w@)[1] == w@[1]@);
        }
    }
    (method, path)
}

} // verus!
