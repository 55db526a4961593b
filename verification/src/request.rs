//! Reading an HTTP request's lines: the method and target of the request
//! line, and the byte range a `Range` header asks for.

use crate::serve::{parse_range, parse_range_spec};
use vstd::prelude::*;
use vstd::string::StrSliceExecFns;
use vstd::utf8::{encode_scalar, encode_utf8};
use crate::serve::ascii_lower;

verus! {

/// The characters that `char::is_whitespace` holds of: those with Unicode's
/// White_Space property.
pub open spec fn is_space(c: char) -> bool {
    let u: u32 = c as u32;
    ||| 0x09 <= u <= 0x0d
    ||| u == 0x20
    ||| u == 0x85
    ||| u == 0xa0
    ||| u == 0x1680
    ||| 0x2000 <= u <= 0x200a
    ||| u == 0x2028
    ||| u == 0x2029
    ||| u == 0x202f
    ||| u == 0x205f
    ||| u == 0x3000
}

/// The first position from `i` on that is not a space, or the end of `s`.
pub open spec fn skip_spaces(s: Seq<char>, i: int) -> int
    decreases s.len() - i,
{
    if i < 0 || i >= s.len() || !is_space(s[i]) {
        i
    } else {
        skip_spaces(s, i + 1)
    }
}

/// The end of the run of characters other than spaces that starts at `i`.
pub open spec fn token_end(s: Seq<char>, i: int) -> int
    decreases s.len() - i,
{
    if i < 0 || i >= s.len() || is_space(s[i]) {
        i
    } else {
        token_end(s, i + 1)
    }
}

/// One past the last character before `j`, and not before `i`, that is not
/// a space.
pub open spec fn trim_end(s: Seq<char>, i: int, j: int) -> int
    decreases j - i,
{
    if j <= i || j > s.len() || !is_space(s[j - 1]) {
        j
    } else {
        trim_end(s, i, j - 1)
    }
}

/// `s` without its leading and trailing spaces, as `str::trim` gives it.
pub open spec fn trimmed(s: Seq<char>) -> Seq<char> {
    let a: int = skip_spaces(s, 0);
    s.subrange(a, trim_end(s, a, s.len() as int))
}

/// The method of a request line: its first word, or nothing.
pub open spec fn request_method(s: Seq<char>) -> Seq<char> {
    let a: int = skip_spaces(s, 0);
    s.subrange(a, token_end(s, a))
}

/// The target of a request line: its second word, or nothing.
pub open spec fn request_target(s: Seq<char>) -> Seq<char> {
    let b: int = skip_spaces(s, token_end(s, skip_spaces(s, 0)));
    s.subrange(b, token_end(s, b))
}

/// `c` with an ASCII capital letter made small, as `to_ascii_lowercase`
/// does.
pub open spec fn lower_char(c: char) -> char {
    if 'A' <= c <= 'Z' {
        ((c as u32) + 32) as char
    } else {
        c
    }
}

/// The header name the range is read from, in small letters, with its colon.
pub open spec fn range_name() -> Seq<char> {
    seq!['r', 'a', 'n', 'g', 'e', ':']
}

/// The value of a `Range` header line, its letters made small: the line,
/// trimmed and in small letters, must begin with `range:`, and the value is
/// the rest, trimmed.
pub open spec fn range_header_value(s: Seq<char>) -> Option<Seq<char>> {
    let l = trimmed(s).map_values(|c: char| lower_char(c));
    if l.len() >= 6 && l.take(6) == range_name() {
        Some(trimmed(l.skip(6)))
    } else {
        None
    }
}

/// Each byte of a character's UTF-8 encoding that is not the whole of an
/// ASCII character is at least 0x80.
proof fn lemma_high_bytes(u: u32)
    requires
        u > 0x7f,
    ensures
        forall|k: int| 0 <= k < encode_scalar(u).len() ==> #[trigger] encode_scalar(u)[k] >= 0x80,
{
    let b2: u8 = ((u >> 6) & 0x1F) as u8;
    let b3: u8 = ((u >> 12) & 0x0F) as u8;
    let b4: u8 = ((u >> 18) & 0x7) as u8;
    let c0: u8 = (u & 0x3F) as u8;
    let c1: u8 = ((u >> 6) & 0x3F) as u8;
    let c2: u8 = ((u >> 12) & 0x3F) as u8;
    assert(0xC0u8 | b2 >= 0x80 && 0xE0u8 | b3 >= 0x80 && 0xF0u8 | b4 >= 0x80 && 0x80u8 | c0 >= 0x80 && 0x80u8 | c1
        >= 0x80 && 0x80u8 | c2 >= 0x80) by (bit_vector);
}

/// Making ASCII capitals small in the characters and in their UTF-8 bytes
/// agree, one character at a time.
proof fn lemma_lower_scalar(c: char)
    ensures
        encode_scalar(lower_char(c) as u32) =~= ascii_lower(encode_scalar(c as u32)),
{
    let u: u32 = c as u32;
    if u <= 0x7f {
        let x: u32 = u;
        assert(x <= 0x7f ==> x & 0x7f == x) by (bit_vector);
        if 'A' <= c <= 'Z' {
            let y: u32 = (u + 32) as u32;
            assert(y <= 0x7f ==> y & 0x7f == y) by (bit_vector);
        }
    } else {
        lemma_high_bytes(u);
    }
}

/// Making ASCII capitals small in the characters and in their UTF-8 bytes
/// agree.
proof fn lemma_lower_encoding(s: Seq<char>)
    ensures
        encode_utf8(s.map_values(|c: char| lower_char(c))) == ascii_lower(encode_utf8(s)),
    decreases s.len(),
{
    if s.len() > 0 {
        let m = s.map_values(|c: char| lower_char(c));
        lemma_lower_encoding(s.drop_first());
        assert(m.drop_first() =~= s.drop_first().map_values(|c: char| lower_char(c)));
        lemma_lower_scalar(s[0]);
        let a = encode_scalar(s[0] as u32);
        let b = encode_utf8(s.drop_first());
        assert(ascii_lower(a + b) =~= ascii_lower(a) + ascii_lower(b));
    }
}

/// `s` with its ASCII capital letters made small, as `str::to_ascii_lowercase`
/// gives it: each character mapped by `lower_char`.
fn ascii_lowercase(s: &str) -> (r: String)
    ensures
        r@ == s@.map_values(|c: char| lower_char(c)),
{
    let b = s.as_bytes();
    let mut low: Vec<u8> = Vec::new();
    let mut i: usize = 0;
    while i < b.len()
        invariant
            0 <= i <= b@.len(),
            low@ == ascii_lower(b@.take(i as int)),
        decreases b@.len() - i,
    {
        let c: u8 = b[i];
        let l: u8 = if 65 <= c && c <= 90 {
            c + 32
        } else {
            c
        };
        low.push(l);
        assert(ascii_lower(b@.take(i + 1)) =~= ascii_lower(b@.take(i as int)).push(l));
        i = i + 1;
    }
    proof {
        assert(b@.take(b@.len() as int) =~= b@);
        lemma_lower_encoding(s@);
        let m = s@.map_values(|c: char| lower_char(c));
        vstd::utf8::encode_utf8_valid_utf8(m);
        vstd::utf8::encode_utf8_decode_utf8(m);
        reveal(crate::text::lossy_utf8);
    }
    crate::text::lossy_string(low.as_slice())
}

/// Whether `c` is a space.
fn space(c: char) -> (r: bool)
    ensures
        r == is_space(c),
{
    let u: u32 = c as u32;
    (0x09 <= u && u <= 0x0d) || u == 0x20 || u == 0x85 || u == 0xa0 || u == 0x1680 || (0x2000 <= u && u
        <= 0x200a) || u == 0x2028 || u == 0x2029 || u == 0x202f || u == 0x205f || u == 0x3000
}

/// The first position of `s` from `i` on that is not a space.
fn skip_spaces_from(s: &str, n: usize, i: usize) -> (r: usize)
    requires
        n == s@.len(),
        i <= n,
    ensures
        r == skip_spaces(s@, i as int),
        i <= r <= n,
{
    let mut k: usize = i;
    while k < n && space(s.get_char(k))
        invariant
            n == s@.len(),
            i <= k <= n,
            skip_spaces(s@, k as int) == skip_spaces(s@, i as int),
        decreases n - k,
    {
        k = k + 1;
    }
    k
}

/// The end of the word of `s` that starts at `i`.
fn token_end_from(s: &str, n: usize, i: usize) -> (r: usize)
    requires
        n == s@.len(),
        i <= n,
    ensures
        r == token_end(s@, i as int),
        i <= r <= n,
{
    let mut k: usize = i;
    while k < n && !space(s.get_char(k))
        invariant
            n == s@.len(),
            i <= k <= n,
            token_end(s@, k as int) == token_end(s@, i as int),
        decreases n - k,
    {
        k = k + 1;
    }
    k
}

/// `s` without its leading and trailing spaces.
fn trim_str(s: &str) -> (r: &str)
    ensures
        r@ == trimmed(s@),
{
    let n: usize = s.unicode_len();
    let a: usize = skip_spaces_from(s, n, 0);
    let mut j: usize = n;
    while j > a && space(s.get_char(j - 1))
        invariant
            n == s@.len(),
            a <= j <= n,
            trim_end(s@, a as int, j as int) == trim_end(s@, a as int, n as int),
        decreases j,
    {
        j = j - 1;
    }
    s.substring_char(a, j)
}

/// The method and target of the request line `line`: its first two words,
/// each empty where the line has fewer, as `split_whitespace` gives them.
pub fn request_line(line: &str) -> (r: (String, String))
    ensures
        r.0@ == request_method(line@),
        r.1@ == request_target(line@),
{
    let n: usize = line.unicode_len();
    let a0: usize = skip_spaces_from(line, n, 0);
    let a1: usize = token_end_from(line, n, a0);
    let b0: usize = skip_spaces_from(line, n, a1);
    let b1: usize = token_end_from(line, n, b0);
    (line.substring_char(a0, a1).to_owned(), line.substring_char(b0, b1).to_owned())
}

/// Whether the header line `line` is blank, the end of the headers.
pub fn is_blank_line(line: &str) -> (r: bool)
    ensures
        r == (trimmed(line@).len() == 0),
{
    trim_str(line).unicode_len() == 0
}

/// What the header line `line` says of the range: `None` where it is not a
/// `Range` header; otherwise the range its value gives, by `parse_range`,
/// or `Some(None)` where the value gives none.
pub fn header_range(line: &str) -> (r: Option<Option<(u64, u64)>>)
    ensures
        r == match range_header_value(line@) {
            None => None,
            Some(v) => Some(parse_range_spec(encode_utf8(v))),
        },
{
    let low = ascii_lowercase(trim_str(line));
    let l = low.as_str();
    let n: usize = l.unicode_len();
    if n < 6 {
        return None;
    }
    let is_range = l.get_char(0) == 'r' && l.get_char(1) == 'a' && l.get_char(2) == 'n' && l.get_char(3) == 'g'
        && l.get_char(4) == 'e' && l.get_char(5) == ':';
    if !is_range {
        proof {
            if l@.take(6) == range_name() {
                assert(l@[0] == l@.take(6)[0]);
                assert(l@[1] == l@.take(6)[1]);
                assert(l@[2] == l@.take(6)[2]);
                assert(l@[3] == l@.take(6)[3]);
                assert(l@[4] == l@.take(6)[4]);
                assert(l@[5] == l@.take(6)[5]);
            }
        }
        return None;
    }
    assert(l@.take(6) =~= range_name());
    let rest = l.substring_char(6, n);
    assert(rest@ =~= l@.skip(6));
    let v = trim_str(rest);
    Some(parse_range(v))
}

} // verus!
