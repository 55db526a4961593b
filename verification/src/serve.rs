//! Serving an archive over HTTP: reading a request's target and range, and
//! the responses sent back. Every function works on bytes; the socket is
//! the caller's.

use crate::codec::bytes_eq;
use crate::format::{NAMESPACE_CONTENT, NO_MAIN_PAGE};
use crate::reader::{cache_within_limit, dirent_at_index_spec, get_range_spec, get_spec, hdr, BlobView, Reader};
use crate::{Error, Fault};
use crate::message::fault_text;
use crate::text::{decimal, lossy_string, lossy_utf8, push_bytes};
use vstd::prelude::*;
use vstd::utf8::encode_utf8;

verus! {

/// `i` is the first position of byte `c` in `s`.
pub open spec fn is_first_of(s: Seq<u8>, c: u8, i: int) -> bool {
    &&& 0 <= i < s.len()
    &&& s[i] == c
    &&& forall|j: int| 0 <= j < i ==> s[j] != c
}

/// `i` is the last position of byte `c` in `s`.
pub open spec fn is_last_of(s: Seq<u8>, c: u8, i: int) -> bool {
    &&& 0 <= i < s.len()
    &&& s[i] == c
    &&& forall|j: int| i < j < s.len() ==> s[j] != c
}

/// `s` holds byte `c`.
pub open spec fn has_byte(s: Seq<u8>, c: u8) -> bool {
    exists|i: int| 0 <= i < s.len() && s[i] == c
}

/// The first position of `c` in `s`.
pub open spec fn first_of(s: Seq<u8>, c: u8) -> int {
    choose|i: int| is_first_of(s, c, i)
}

/// The last position of `c` in `s`.
pub open spec fn last_of(s: Seq<u8>, c: u8) -> int {
    choose|i: int| is_last_of(s, c, i)
}

/// `s` split at its first `c`, the `c` dropped.
pub open spec fn split_first(s: Seq<u8>, c: u8) -> Option<(Seq<u8>, Seq<u8>)> {
    if has_byte(s, c) {
        Some((s.take(first_of(s, c)), s.skip(first_of(s, c) + 1)))
    } else {
        None
    }
}

/// What follows the last `c` of `s`, or all of `s` where it has none.
pub open spec fn after_last(s: Seq<u8>, c: u8) -> Seq<u8> {
    if has_byte(s, c) {
        s.skip(last_of(s, c) + 1)
    } else {
        s
    }
}

/// What precedes the first `c` of `s`, or all of `s` where it has none.
pub open spec fn before_first(s: Seq<u8>, c: u8) -> Seq<u8> {
    if has_byte(s, c) {
        s.take(first_of(s, c))
    } else {
        s
    }
}

/// The position of the first byte of `s` other than `c`, or its length.
pub open spec fn run_end(s: Seq<u8>, c: u8, k: int) -> bool {
    &&& 0 <= k <= s.len()
    &&& forall|j: int| 0 <= j < k ==> s[j] == c
    &&& k < s.len() ==> s[k] != c
}

/// `s` without its leading bytes `c`.
pub open spec fn strip_leading(s: Seq<u8>, c: u8) -> Seq<u8> {
    s.skip(choose|k: int| run_end(s, c, k))
}

pub proof fn lemma_first_of(s: Seq<u8>, c: u8, i: int)
    requires
        is_first_of(s, c, i),
    ensures
        has_byte(s, c),
        first_of(s, c) == i,
{
    let f = first_of(s, c);
    assert(is_first_of(s, c, f));
}

pub proof fn lemma_last_of(s: Seq<u8>, c: u8, i: int)
    requires
        is_last_of(s, c, i),
    ensures
        has_byte(s, c),
        last_of(s, c) == i,
{
    let f = last_of(s, c);
    assert(is_last_of(s, c, f));
}

proof fn lemma_run_end(s: Seq<u8>, c: u8, k: int)
    requires
        run_end(s, c, k),
    ensures
        strip_leading(s, c) == s.skip(k),
{
    let f = choose|f: int| run_end(s, c, f);
    assert(run_end(s, c, f));
    if f < k {
        assert(s[f] == c);
    } else if f > k {
        assert(s[k] == c);
    }
}

/// The position of the first `c` in `s`.
fn find_first(s: &[u8], c: u8) -> (r: Option<usize>)
    ensures
        match r {
            Some(i) => is_first_of(s@, c, i as int),
            None => !has_byte(s@, c),
        },
{
    let mut i: usize = 0;
    while i < s.len()
        invariant
            0 <= i <= s@.len(),
            forall|j: int| 0 <= j < i ==> s@[j] != c,
        decreases s@.len() - i,
    {
        if s[i] == c {
            return Some(i);
        }
        i = i + 1;
    }
    None
}

/// The position of the last `c` in `s`.
fn find_last(s: &[u8], c: u8) -> (r: Option<usize>)
    ensures
        match r {
            Some(i) => is_last_of(s@, c, i as int),
            None => !has_byte(s@, c),
        },
{
    let mut i: usize = s.len();
    while i > 0
        invariant
            0 <= i <= s@.len(),
            forall|j: int| i <= j < s@.len() ==> s@[j] != c,
        decreases i,
    {
        if s[i - 1] == c {
            return Some(i - 1);
        }
        i = i - 1;
    }
    None
}

/// `s` without its leading bytes `c`.
fn skip_leading<'a>(s: &'a [u8], c: u8) -> (r: &'a [u8])
    ensures
        r@ == strip_leading(s@, c),
{
    let mut k: usize = 0;
    while k < s.len() && s[k] == c
        invariant
            0 <= k <= s@.len(),
            forall|j: int| 0 <= j < k ==> s@[j] == c,
        decreases s@.len() - k,
    {
        k = k + 1;
    }
    proof {
        lemma_run_end(s@, c, k as int);
    }
    let r = vstd::slice::slice_subrange(s, k, s.len());
    assert(r@ =~= s@.skip(k as int));
    r
}

/// The value of the decimal digits `d`.
pub open spec fn digits_value(d: Seq<u8>) -> nat
    decreases d.len(),
{
    if d.len() == 0 {
        0
    } else {
        digits_value(d.drop_last()) * 10 + (d.last() - 48) as nat
    }
}

/// Every byte of `d` is an ASCII digit.
pub open spec fn all_digits(d: Seq<u8>) -> bool {
    forall|i: int| 0 <= i < d.len() ==> 48 <= #[trigger] d[i] <= 57
}

/// What `u64::from_str` gives for the text `s`: an optional `+`, then one
/// or more ASCII digits whose value fits in 64 bits.
pub open spec fn parse_u64_spec(s: Seq<u8>) -> Option<u64> {
    let d = if s.len() > 0 && s[0] == 43 {
        s.drop_first()
    } else {
        s
    };
    if d.len() > 0 && all_digits(d) && digits_value(d) <= u64::MAX {
        Some(digits_value(d) as u64)
    } else {
        None
    }
}

/// Parses a decimal number as `u64::from_str` does.
pub fn parse_u64(s: &[u8]) -> (r: Option<u64>)
    ensures
        r == parse_u64_spec(s@),
{
    let d = if s.len() > 0 && s[0] == 43 {
        vstd::slice::slice_subrange(s, 1, s.len())
    } else {
        s
    };
    assert(d@ =~= (if s@.len() > 0 && s@[0] == 43 {
        s@.drop_first()
    } else {
        s@
    }));
    if d.len() == 0 {
        return None;
    }
    let mut v: u64 = 0;
    let mut i: usize = 0;
    while i < d.len()
        invariant
            0 <= i <= d@.len(),
            d@ == (if s@.len() > 0 && s@[0] == 43 {
                s@.drop_first()
            } else {
                s@
            }),
            all_digits(d@.take(i as int)),
            v == digits_value(d@.take(i as int)),
        decreases d@.len() - i,
    {
        let b = d[i];
        assert(d@.take(i + 1).drop_last() =~= d@.take(i as int));
        if b < 48 || b > 57 {
            assert(!all_digits(d@)) by {
                assert(d@[i as int] == b);
            }
            return None;
        }
        let digit = (b - 48) as u64;
        assert(all_digits(d@.take(i + 1))) by {
            assert forall|j: int| 0 <= j < i + 1 implies 48 <= #[trigger] d@.take(i + 1)[j] <= 57 by {
                if j < i {
                    assert(d@.take(i + 1)[j] == d@.take(i as int)[j]);
                }
            }
        }
        match v.checked_mul(10) {
            Some(m) => match m.checked_add(digit) {
                Some(n) => {
                    v = n;
                },
                None => {
                    proof {
                        lemma_digits_prefix(d@, i + 1);
                    }
                    return None;
                },
            },
            None => {
                proof {
                    lemma_digits_prefix(d@, i + 1);
                }
                return None;
            },
        }
        i = i + 1;
    }
    assert(d@.take(d@.len() as int) =~= d@);
    Some(v)
}

/// The value of a prefix of digits is no larger than that of all of them.
proof fn lemma_digits_prefix(d: Seq<u8>, k: int)
    requires
        0 <= k <= d.len(),
        all_digits(d.take(k)),
    ensures
        all_digits(d) ==> digits_value(d.take(k)) <= digits_value(d),
    decreases d.len() - k,
{
    if k < d.len() && all_digits(d) {
        assert(d.take(k + 1).drop_last() =~= d.take(k));
        assert(all_digits(d.take(k + 1)));
        lemma_digits_prefix(d, k + 1);
    } else if k == d.len() {
        assert(d.take(k) =~= d);
    }
}

/// The bytes of `bytes=`.
pub open spec fn bytes_prefix() -> Seq<u8> {
    seq![98u8, 121, 116, 101, 115, 61]
}

/// What a `Range` header value `bytes=N-M` asks for: both ends given as
/// numbers, the start no later than the end. A suffix (`bytes=-N`) or an
/// open end (`bytes=N-`) is not taken.
pub open spec fn parse_range_spec(v: Seq<u8>) -> Option<(u64, u64)> {
    let p = bytes_prefix();
    if v.len() < p.len() || v.take(p.len() as int) != p {
        None
    } else {
        match split_first(v.skip(p.len() as int), 45u8) {
            None => None,
            Some((a, b)) => if a.len() == 0 || b.len() == 0 {
                None
            } else {
                match (parse_u64_spec(a), parse_u64_spec(b)) {
                    (Some(s), Some(e)) => if s > e {
                        None
                    } else {
                        Some((s, e))
                    },
                    _ => None,
                }
            },
        }
    }
}

/// Parses a single `bytes=N-M` range. Returns (start, end) inclusive,
/// clamped to the content length later.
pub fn parse_range(val: &str) -> (r: Option<(u64, u64)>)
    ensures
        r == parse_range_spec(encode_utf8(val@)),
{
    let v = val.as_bytes();
    let p: [u8; 6] = [98, 121, 116, 101, 115, 61];
    assert(p@ =~= bytes_prefix());
    if v.len() < 6 {
        return None;
    }
    let head = vstd::slice::slice_subrange(v, 0, 6);
    assert(head@ =~= v@.take(6));
    if !crate::codec::bytes_eq(head, p.as_slice()) {
        return None;
    }
    let rest = vstd::slice::slice_subrange(v, 6, v.len());
    assert(rest@ =~= v@.skip(6));
    let i = match find_first(rest, 45u8) {
        Some(i) => i,
        None => {
            return None;
        },
    };
    proof {
        lemma_first_of(rest@, 45u8, i as int);
    }
    let a = vstd::slice::slice_subrange(rest, 0, i);
    let b = vstd::slice::slice_subrange(rest, i + 1, rest.len());
    assert(a@ =~= rest@.take(i as int));
    assert(b@ =~= rest@.skip(i + 1));
    if a.len() == 0 || b.len() == 0 {
        return None;
    }
    let start = match parse_u64(a) {
        Some(x) => x,
        None => {
            return None;
        },
    };
    let end = match parse_u64(b) {
        Some(x) => x,
        None => {
            return None;
        },
    };
    if start > end {
        return None;
    }
    Some((start, end))
}

/// The value of the hex digit `b`.
pub open spec fn hex_spec(b: u8) -> Option<u8> {
    if 48 <= b <= 57 {
        Some((b - 48) as u8)
    } else if 97 <= b <= 102 {
        Some((b - 97 + 10) as u8)
    } else if 65 <= b <= 70 {
        Some((b - 65 + 10) as u8)
    } else {
        None
    }
}

/// The value of the hex digit `b`.
pub fn hex(b: u8) -> (r: Option<u8>)
    ensures
        r == hex_spec(b),
{
    if 48 <= b && b <= 57 {
        Some(b - 48)
    } else if 97 <= b && b <= 102 {
        Some(b - 97 + 10)
    } else if 65 <= b && b <= 70 {
        Some(b - 65 + 10)
    } else {
        None
    }
}

/// The bytes of `b` from position `i` on, with each `%` followed by two hex
/// digits replaced by the byte they give.
pub open spec fn percent_decoded(b: Seq<u8>, i: int) -> Seq<u8>
    decreases b.len() - i,
{
    if i < 0 || i >= b.len() {
        Seq::empty()
    } else if b[i] == 37 && i + 2 < b.len() && hex_spec(b[i + 1]) is Some && hex_spec(
        b[i + 2],
    ) is Some {
        seq![(hex_spec(b[i + 1])->0 << 4u8) | hex_spec(b[i + 2])->0] + percent_decoded(b, i + 3)
    } else {
        seq![b[i]] + percent_decoded(b, i + 1)
    }
}

/// Decodes `%XX` escapes in the bytes `b`.
fn percent_decode_bytes(b: &[u8]) -> (out: Vec<u8>)
    ensures
        out@ == percent_decoded(b@, 0),
{
    let mut out: Vec<u8> = Vec::new();
    let mut i: usize = 0;
    while i < b.len()
        invariant
            0 <= i <= b@.len(),
            out@ + percent_decoded(b@, i as int) == percent_decoded(b@, 0),
        decreases b@.len() - i,
    {
        if b[i] == 37 && b.len() - i > 2 {
            match (hex(b[i + 1]), hex(b[i + 2])) {
                (Some(x), Some(y)) => {
                    let ghost old_out = out@;
                    out.push(x << 4u8 | y);
                    assert(out@ + percent_decoded(b@, i + 3) =~= old_out + percent_decoded(
                        b@,
                        i as int,
                    ));
                    i = i + 3;
                    continue;
                },
                _ => {},
            }
        }
        let ghost old_out = out@;
        out.push(b[i]);
        assert(out@ + percent_decoded(b@, i + 1) =~= old_out + percent_decoded(b@, i as int));
        i = i + 1;
    }
    assert(out@ =~= out@ + percent_decoded(b@, i as int));
    out
}

/// Decodes `%XX` escapes in `input`; the bytes that result are read as
/// UTF-8, invalid sequences replaced.
pub fn percent_decode(input: &str) -> (s: String)
    ensures
        s@ == lossy_utf8(percent_decoded(encode_utf8(input@), 0)),
{
    let out = percent_decode_bytes(input.as_bytes());
    lossy_string(out.as_slice())
}

/// The URL a request target names: the path before any `?`, without its
/// leading slashes, `%XX` escapes decoded.
pub open spec fn target_url_bytes(t: Seq<u8>) -> Seq<u8> {
    percent_decoded(strip_leading(before_first(t, 63u8), 47u8), 0)
}

/// The URL a request target names: the path before any `?`, without its
/// leading slashes, `%XX` escapes decoded.
pub fn request_target_to_url(target: &str) -> (s: String)
    ensures
        s@ == lossy_utf8(target_url_bytes(encode_utf8(target@))),
{
    let t = target.as_bytes();
    let path = match find_first(t, 63u8) {
        Some(i) => {
            proof {
                lemma_first_of(t@, 63u8, i as int);
            }
            let p = vstd::slice::slice_subrange(t, 0, i);
            assert(p@ =~= t@.take(i as int));
            p
        },
        None => t,
    };
    let trimmed = skip_leading(path, 47u8);
    let out = percent_decode_bytes(trimmed);
    lossy_string(out.as_slice())
}

/// The bytes of `HTTP/1.1 `.
pub open spec fn http_prefix() -> Seq<u8> {
    seq![72u8, 84, 84, 80, 47, 49, 46, 49, 32]
}

/// The bytes of `\r\nContent-Length: `.
pub open spec fn content_length_text() -> Seq<u8> {
    seq![13u8, 10, 67, 111, 110, 116, 101, 110, 116, 45, 76, 101, 110, 103, 116, 104, 58, 32]
}

/// The bytes of `\r\nContent-Type: `.
pub open spec fn content_type_text() -> Seq<u8> {
    seq![13u8, 10, 67, 111, 110, 116, 101, 110, 116, 45, 84, 121, 112, 101, 58, 32]
}

/// The bytes of `\r\nAccept-Ranges: bytes`.
pub open spec fn accept_ranges_text() -> Seq<u8> {
    seq![13u8, 10, 65, 99, 99, 101, 112, 116, 45, 82, 97, 110, 103, 101, 115, 58, 32, 98, 121, 116, 101, 115]
}

/// The bytes of `\r\nConnection: close\r\n\r\n`.
pub open spec fn connection_close_text() -> Seq<u8> {
    seq![13u8, 10, 67, 111, 110, 110, 101, 99, 116, 105, 111, 110, 58, 32, 99, 108, 111, 115, 101, 13, 10, 13, 10]
}

/// The bytes of `HTTP/1.1 416 Range Not Satisfiable\r\nContent-Range: bytes */`.
pub open spec fn unsatisfiable_text() -> Seq<u8> {
    seq![72u8, 84, 84, 80, 47, 49, 46, 49, 32, 52, 49, 54, 32, 82, 97, 110, 103, 101, 32, 78, 111, 116, 32, 83, 97, 116, 105, 115, 102, 105, 97, 98, 108, 101, 13, 10, 67, 111, 110, 116, 101, 110, 116, 45, 82, 97, 110, 103, 101, 58, 32, 98, 121, 116, 101, 115, 32, 42, 47]
}

/// The bytes of `HTTP/1.1 206 Partial Content\r\nContent-Length: `.
pub open spec fn partial_text() -> Seq<u8> {
    seq![72u8, 84, 84, 80, 47, 49, 46, 49, 32, 50, 48, 54, 32, 80, 97, 114, 116, 105, 97, 108, 32, 67, 111, 110, 116, 101, 110, 116, 13, 10, 67, 111, 110, 116, 101, 110, 116, 45, 76, 101, 110, 103, 116, 104, 58, 32]
}

/// The bytes of `\r\nContent-Range: bytes `.
pub open spec fn content_range_text() -> Seq<u8> {
    seq![13u8, 10, 67, 111, 110, 116, 101, 110, 116, 45, 82, 97, 110, 103, 101, 58, 32, 98, 121, 116, 101, 115, 32]
}

/// The bytes of `index.html`.
pub open spec fn index_html_text() -> Seq<u8> {
    seq![105u8, 110, 100, 101, 120, 46, 104, 116, 109, 108]
}

/// The bytes of `/index.html`.
pub open spec fn slash_index_html_text() -> Seq<u8> {
    seq![47u8, 105, 110, 100, 101, 120, 46, 104, 116, 109, 108]
}

/// The bytes of `not found`.
pub open spec fn not_found_body() -> Seq<u8> {
    seq![110u8, 111, 116, 32, 102, 111, 117, 110, 100]
}

/// The bytes of `method not allowed`.
pub open spec fn not_allowed_body() -> Seq<u8> {
    seq![109u8, 101, 116, 104, 111, 100, 32, 110, 111, 116, 32, 97, 108, 108, 111, 119, 101, 100]
}

/// The bytes of `archive error: `.
pub open spec fn archive_error_text() -> Seq<u8> {
    seq![97u8, 114, 99, 104, 105, 118, 101, 32, 101, 114, 114, 111, 114, 58, 32]
}

/// The bytes of `GET`.
pub open spec fn get_method() -> Seq<u8> {
    seq![71u8, 69, 84]
}

/// The bytes of `HEAD`.
pub open spec fn head_method() -> Seq<u8> {
    seq![72u8, 69, 65, 68]
}

/// The MIME type served for a file extension.
pub open spec fn ext_mime(ext: Seq<u8>) -> Seq<char> {
    if ext == seq![99u8, 115, 115] {
        "text/css"@
    } else if ext == seq![103u8, 105, 102] {
        "image/gif"@
    } else if ext == seq![104u8, 116, 109] {
        "text/html"@
    } else if ext == seq![104u8, 116, 109, 108] {
        "text/html"@
    } else if ext == seq![106u8, 112, 101, 103] {
        "image/jpeg"@
    } else if ext == seq![106u8, 112, 103] {
        "image/jpeg"@
    } else if ext == seq![106u8, 115] {
        "application/javascript"@
    } else if ext == seq![109u8, 106, 115] {
        "application/javascript"@
    } else if ext == seq![106u8, 115, 111, 110] {
        "application/json"@
    } else if ext == seq![112u8, 110, 103] {
        "image/png"@
    } else if ext == seq![115u8, 118, 103] {
        "image/svg+xml"@
    } else if ext == seq![116u8, 120, 116] {
        "text/plain"@
    } else if ext == seq![119u8, 97, 115, 109] {
        "application/wasm"@
    } else if ext == seq![119u8, 101, 98, 112] {
        "image/webp"@
    } else if ext == seq![120u8, 109, 108] {
        "application/xml"@
    } else {
        "application/octet-stream"@
    }
}

/// The MIME type served for the file extension `ext`.
fn mime_for_ext_bytes(ext: &[u8]) -> (r: &'static str)
    ensures
        r@ == ext_mime(ext@),
{
    let e_css: [u8; 3] = [99, 115, 115];
    assert(e_css@ =~= seq![99u8, 115, 115]);
    if bytes_eq(ext, e_css.as_slice()) {
        return "text/css";
    }
    let e_gif: [u8; 3] = [103, 105, 102];
    assert(e_gif@ =~= seq![103u8, 105, 102]);
    if bytes_eq(ext, e_gif.as_slice()) {
        return "image/gif";
    }
    let e_htm: [u8; 3] = [104, 116, 109];
    assert(e_htm@ =~= seq![104u8, 116, 109]);
    if bytes_eq(ext, e_htm.as_slice()) {
        return "text/html";
    }
    let e_html: [u8; 4] = [104, 116, 109, 108];
    assert(e_html@ =~= seq![104u8, 116, 109, 108]);
    if bytes_eq(ext, e_html.as_slice()) {
        return "text/html";
    }
    let e_jpeg: [u8; 4] = [106, 112, 101, 103];
    assert(e_jpeg@ =~= seq![106u8, 112, 101, 103]);
    if bytes_eq(ext, e_jpeg.as_slice()) {
        return "image/jpeg";
    }
    let e_jpg: [u8; 3] = [106, 112, 103];
    assert(e_jpg@ =~= seq![106u8, 112, 103]);
    if bytes_eq(ext, e_jpg.as_slice()) {
        return "image/jpeg";
    }
    let e_js: [u8; 2] = [106, 115];
    assert(e_js@ =~= seq![106u8, 115]);
    if bytes_eq(ext, e_js.as_slice()) {
        return "application/javascript";
    }
    let e_mjs: [u8; 3] = [109, 106, 115];
    assert(e_mjs@ =~= seq![109u8, 106, 115]);
    if bytes_eq(ext, e_mjs.as_slice()) {
        return "application/javascript";
    }
    let e_json: [u8; 4] = [106, 115, 111, 110];
    assert(e_json@ =~= seq![106u8, 115, 111, 110]);
    if bytes_eq(ext, e_json.as_slice()) {
        return "application/json";
    }
    let e_png: [u8; 3] = [112, 110, 103];
    assert(e_png@ =~= seq![112u8, 110, 103]);
    if bytes_eq(ext, e_png.as_slice()) {
        return "image/png";
    }
    let e_svg: [u8; 3] = [115, 118, 103];
    assert(e_svg@ =~= seq![115u8, 118, 103]);
    if bytes_eq(ext, e_svg.as_slice()) {
        return "image/svg+xml";
    }
    let e_txt: [u8; 3] = [116, 120, 116];
    assert(e_txt@ =~= seq![116u8, 120, 116]);
    if bytes_eq(ext, e_txt.as_slice()) {
        return "text/plain";
    }
    let e_wasm: [u8; 4] = [119, 97, 115, 109];
    assert(e_wasm@ =~= seq![119u8, 97, 115, 109]);
    if bytes_eq(ext, e_wasm.as_slice()) {
        return "application/wasm";
    }
    let e_webp: [u8; 4] = [119, 101, 98, 112];
    assert(e_webp@ =~= seq![119u8, 101, 98, 112]);
    if bytes_eq(ext, e_webp.as_slice()) {
        return "image/webp";
    }
    let e_xml: [u8; 3] = [120, 109, 108];
    assert(e_xml@ =~= seq![120u8, 109, 108]);
    if bytes_eq(ext, e_xml.as_slice()) {
        return "application/xml";
    }
    "application/octet-stream"
}

/// The MIME type served for a request target: by the extension of its last
/// path segment.
pub open spec fn target_mime(t: Seq<u8>) -> Seq<char> {
    ext_mime(after_last(after_last(t, 47u8), 46u8))
}

/// What follows the last `c` of `s`, or all of `s`.
pub(crate) fn tail_after<'a>(s: &'a [u8], c: u8) -> (r: &'a [u8])
    ensures
        r@ == after_last(s@, c),
{
    match find_last(s, c) {
        Some(i) => {
            proof {
                lemma_last_of(s@, c, i as int);
            }
            let n = s.len();
            let r = vstd::slice::slice_subrange(s, i + 1, n);
            assert(r@ =~= s@.skip(i + 1));
            r
        },
        None => s,
    }
}

/// Returns a MIME type for an HTTP request target based on its extension.
pub fn mime_for_target(target: &str) -> (r: &'static str)
    ensures
        r@ == target_mime(encode_utf8(target@)),
{
    let url = tail_after(target.as_bytes(), 47u8);
    let ext = tail_after(url, 46u8);
    mime_for_ext_bytes(ext)
}

/// `s` with ASCII capitals made small.
pub open spec fn ascii_lower(s: Seq<u8>) -> Seq<u8> {
    s.map_values(|b: u8| if 65 <= b <= 90 { (b + 32) as u8 } else { b })
}

/// The MIME type for the bytes of a file name extension, its ASCII letters
/// taken without regard to case.
pub(crate) fn lower_mime(b: &[u8]) -> (r: &'static str)
    ensures
        r@ == ext_mime(ascii_lower(b@)),
{
    let mut low: Vec<u8> = Vec::new();
    let mut i: usize = 0;
    while i < b.len()
        invariant
            0 <= i <= b@.len(),
            low@ == ascii_lower(b@.take(i as int)),
        decreases b@.len() - i,
    {
        let c = b[i];
        let l = if 65 <= c && c <= 90 {
            c + 32
        } else {
            c
        };
        low.push(l);
        assert(ascii_lower(b@.take(i + 1)) =~= ascii_lower(b@.take(i as int)).push(l));
        i = i + 1;
    }
    assert(b@.take(b@.len() as int) =~= b@);
    mime_for_ext_bytes(low.as_slice())
}

/// The content type sent for a blob: its MIME type, or
/// `application/octet-stream` where it has none.
pub fn content_type(mime_type: &str) -> (r: &str)
    ensures
        r@ == (if mime_type@.len() == 0 {
            "application/octet-stream"@
        } else {
            mime_type@
        }),
{
    if mime_type.is_empty() {
        "application/octet-stream"
    } else {
        mime_type
    }
}

/// The reason phrase sent with an HTTP status.
pub open spec fn status_reason_spec(status: u16) -> Seq<char> {
    if status == 200 {
        "OK"@
    } else if status == 206 {
        "Partial Content"@
    } else if status == 404 {
        "Not Found"@
    } else if status == 405 {
        "Method Not Allowed"@
    } else if status == 416 {
        "Range Not Satisfiable"@
    } else if status == 500 {
        "Internal Server Error"@
    } else {
        "OK"@
    }
}

/// The reason phrase sent with an HTTP status.
pub fn status_reason(status: u16) -> (r: &'static str)
    ensures
        r@ == status_reason_spec(status),
{
    if status == 200 {
        "OK"
    } else if status == 206 {
        "Partial Content"
    } else if status == 404 {
        "Not Found"
    } else if status == 405 {
        "Method Not Allowed"
    } else if status == 416 {
        "Range Not Satisfiable"
    } else if status == 500 {
        "Internal Server Error"
    } else {
        "OK"
    }
}

/// The status line and headers of a response, `Accept-Ranges` included
/// where `accept_ranges` holds.
pub open spec fn response_head(status: u16, ct: Seq<u8>, len: nat, accept_ranges: bool) -> Seq<u8> {
    http_prefix() + decimal(status as nat) + seq![32u8] + encode_utf8(status_reason_spec(status))
        + content_length_text() + decimal(len) + content_type_text() + ct + (if accept_ranges {
        accept_ranges_text()
    } else {
        Seq::empty()
    }) + connection_close_text()
}

/// A response: its head, then its body unless only the head was asked for.
pub open spec fn response_spec(status: u16, ct: Seq<u8>, body: Seq<u8>, head_only: bool, accept_ranges: bool) -> Seq<u8> {
    response_head(status, ct, body.len(), accept_ranges) + if head_only {
        Seq::empty()
    } else {
        body
    }
}

/// The bytes of a response with status `status`.
pub fn response(status: u16, content_type: &str, body: &[u8], head_only: bool, accept_ranges: bool) -> (r: Vec<u8>)
    ensures
        r@ == response_spec(status, encode_utf8(content_type@), body@, head_only, accept_ranges),
{
    let mut out: Vec<u8> = Vec::new();
    let lit: [u8; 9] = [72, 84, 84, 80, 47, 49, 46, 49, 32];
    assert(lit@ =~= http_prefix());
    push_bytes(&mut out, lit.as_slice());
    crate::text::push_decimal(&mut out, status as u64);
    out.push(32u8);
    push_bytes(&mut out, status_reason(status).as_bytes());
    let lit1: [u8; 18] = [13, 10, 67, 111, 110, 116, 101, 110, 116, 45, 76, 101, 110, 103, 116, 104, 58, 32];
    assert(lit1@ =~= content_length_text());
    push_bytes(&mut out, lit1.as_slice());
    crate::text::push_decimal(&mut out, body.len() as u64);
    let lit2: [u8; 16] = [13, 10, 67, 111, 110, 116, 101, 110, 116, 45, 84, 121, 112, 101, 58, 32];
    assert(lit2@ =~= content_type_text());
    push_bytes(&mut out, lit2.as_slice());
    push_bytes(&mut out, content_type.as_bytes());
    if accept_ranges {
        let lit: [u8; 22] = [13, 10, 65, 99, 99, 101, 112, 116, 45, 82, 97, 110, 103, 101, 115, 58, 32, 98, 121, 116, 101, 115];
        assert(lit@ =~= accept_ranges_text());
        push_bytes(&mut out, lit.as_slice());
    }
    let lit3: [u8; 23] = [13, 10, 67, 111, 110, 110, 101, 99, 116, 105, 111, 110, 58, 32, 99, 108, 111, 115, 101, 13, 10, 13, 10];
    assert(lit3@ =~= connection_close_text());
    push_bytes(&mut out, lit3.as_slice());
    if !head_only {
        push_bytes(&mut out, body);
    }
    assert(out@ =~= response_spec(status, encode_utf8(content_type@), body@, head_only, accept_ranges));
    out
}

/// `a - b`, or 0 where `b` is larger.
pub open spec fn sat_sub(a: u64, b: u64) -> u64 {
    if a >= b {
        (a - b) as u64
    } else {
        0
    }
}

/// The answer to a range request of the bytes `start..=end` of a blob of
/// `total` bytes, `body` being those fetched: the end is clamped to the
/// blob; a range that starts at or past the end of the blob, or past its
/// clamped end, is not satisfiable.
pub open spec fn range_response_spec(ct: Seq<u8>, body: Seq<u8>, total: u64, start: u64, end: u64, head_only: bool) -> Seq<u8> {
    let e = if end < sat_sub(total, 1) {
        end
    } else {
        sat_sub(total, 1)
    };
    if start >= total || start > e {
        unsatisfiable_text() + decimal(total as nat) + connection_close_text()
    } else {
        partial_text() + decimal(body.len()) + content_type_text() + ct + content_range_text()
            + decimal(start as nat) + seq![45u8] + decimal(e as nat) + seq![47u8] + decimal(
            total as nat,
        ) + accept_ranges_text() + connection_close_text() + if head_only {
            Seq::empty()
        } else {
            body
        }
    }
}

/// The bytes of the answer to a range request.
pub fn range_response(content_type: &str, body: &[u8], total: u64, start: u64, end: u64, head_only: bool) -> (r: Vec<u8>)
    ensures
        r@ == range_response_spec(encode_utf8(content_type@), body@, total, start, end, head_only),
{
    let last = if total >= 1 {
        total - 1
    } else {
        0
    };
    let e = if end < last {
        end
    } else {
        last
    };
    let mut out: Vec<u8> = Vec::new();
    if start >= total || start > e {
        let lit: [u8; 59] = [72, 84, 84, 80, 47, 49, 46, 49, 32, 52, 49, 54, 32, 82, 97, 110, 103, 101, 32, 78, 111, 116, 32, 83, 97, 116, 105, 115, 102, 105, 97, 98, 108, 101, 13, 10, 67, 111, 110, 116, 101, 110, 116, 45, 82, 97, 110, 103, 101, 58, 32, 98, 121, 116, 101, 115, 32, 42, 47];
        assert(lit@ =~= unsatisfiable_text());
        push_bytes(&mut out, lit.as_slice());
        crate::text::push_decimal(&mut out, total);
        let lit2: [u8; 23] = [13, 10, 67, 111, 110, 110, 101, 99, 116, 105, 111, 110, 58, 32, 99, 108, 111, 115, 101, 13, 10, 13, 10];
        assert(lit2@ =~= connection_close_text());
        push_bytes(&mut out, lit2.as_slice());
        assert(out@ =~= range_response_spec(encode_utf8(content_type@), body@, total, start, end, head_only));
        return out;
    }
    let lit: [u8; 46] = [72, 84, 84, 80, 47, 49, 46, 49, 32, 50, 48, 54, 32, 80, 97, 114, 116, 105, 97, 108, 32, 67, 111, 110, 116, 101, 110, 116, 13, 10, 67, 111, 110, 116, 101, 110, 116, 45, 76, 101, 110, 103, 116, 104, 58, 32];
    assert(lit@ =~= partial_text());
    push_bytes(&mut out, lit.as_slice());
    crate::text::push_decimal(&mut out, body.len() as u64);
    let lit1: [u8; 16] = [13, 10, 67, 111, 110, 116, 101, 110, 116, 45, 84, 121, 112, 101, 58, 32];
    assert(lit1@ =~= content_type_text());
    push_bytes(&mut out, lit1.as_slice());
    push_bytes(&mut out, content_type.as_bytes());
    let lit2: [u8; 23] = [13, 10, 67, 111, 110, 116, 101, 110, 116, 45, 82, 97, 110, 103, 101, 58, 32, 98, 121, 116, 101, 115, 32];
    assert(lit2@ =~= content_range_text());
    push_bytes(&mut out, lit2.as_slice());
    crate::text::push_decimal(&mut out, start);
    out.push(45u8);
    crate::text::push_decimal(&mut out, e);
    out.push(47u8);
    crate::text::push_decimal(&mut out, total);
    let lit3: [u8; 22] = [13, 10, 65, 99, 99, 101, 112, 116, 45, 82, 97, 110, 103, 101, 115, 58, 32, 98, 121, 116, 101, 115];
    assert(lit3@ =~= accept_ranges_text());
    push_bytes(&mut out, lit3.as_slice());
    let lit4: [u8; 23] = [13, 10, 67, 111, 110, 110, 101, 99, 116, 105, 111, 110, 58, 32, 99, 108, 111, 115, 101, 13, 10, 13, 10];
    assert(lit4@ =~= connection_close_text());
    push_bytes(&mut out, lit4.as_slice());
    if !head_only {
        push_bytes(&mut out, body);
    }
    assert(out@ =~= range_response_spec(encode_utf8(content_type@), body@, total, start, end, head_only));
    out
}


/// The main page's namespace and URL, as `Reader::main_page_ref` gives them.
pub open spec fn main_ref_spec(s: Seq<u8>) -> Result<Option<(u8, Seq<char>)>, Fault> {
    if hdr(s).main_page == NO_MAIN_PAGE {
        Ok(None)
    } else {
        match dirent_at_index_spec(s, hdr(s).main_page) {
            Ok(d) => Ok(Some((d.namespace, d.url))),
            Err(e) => Err(e),
        }
    }
}

/// A blob's data and MIME type.
pub open spec fn data_and_mime(r: Result<BlobView, Fault>) -> Result<(Seq<u8>, Seq<char>), Fault> {
    match r {
        Ok(b) => Ok((b.data, b.mime_type)),
        Err(e) => Err(e),
    }
}

/// The URL a request target names, as the characters of a string.
pub open spec fn target_url(t: Seq<char>) -> Seq<char> {
    lossy_utf8(target_url_bytes(encode_utf8(t)))
}

/// How a request target is looked up, `look` giving the result for a
/// namespace and URL: `/` is the main page; any other target names a URL in
/// namespace `C`, and where that fails, the same URL with `index.html`
/// after a final slash, or with `/index.html` after a URL without a dot.
pub open spec fn resolve_target<T>(
    s: Seq<u8>,
    t: Seq<char>,
    look: spec_fn(u8, Seq<char>) -> Result<T, Fault>,
) -> Result<T, Fault> {
    if encode_utf8(t) == seq![47u8] {
        match main_ref_spec(s) {
            Err(e) => Err(e),
            Ok(None) => Err(Fault::NotFound { namespace: 0, url: Seq::empty() }),
            Ok(Some((ns, u))) => look(ns, u),
        }
    } else {
        let u = target_url(t);
        let ub = encode_utf8(u);
        match look(NAMESPACE_CONTENT, u) {
            Ok(v) => Ok(v),
            Err(err) => if ub.len() > 0 && ub.last() == 47 {
                look(NAMESPACE_CONTENT, lossy_utf8(ub + index_html_text()))
            } else if !has_byte(ub, 46u8) {
                look(NAMESPACE_CONTENT, lossy_utf8(ub + slash_index_html_text()))
            } else {
                Err(err)
            },
        }
    }
}

/// What fetching the blob a request target names gives: its data and MIME type.
pub open spec fn fetch_spec(s: Seq<u8>, t: Seq<char>) -> Result<(Seq<u8>, Seq<char>), Fault> {
    resolve_target(s, t, |ns: u8, u: Seq<char>| data_and_mime(get_spec(s, ns, u)))
}

/// What fetching `len` bytes from `offset` of the blob a request target
/// names gives: those bytes and the blob's size.
pub open spec fn fetch_range_spec(s: Seq<u8>, t: Seq<char>, offset: u64, len: u64) -> Result<(Seq<u8>, u64), Fault> {
    resolve_target(s, t, |ns: u8, u: Seq<char>| get_range_spec(s, ns, u, offset, len))
}

/// `u` with the bytes `suffix` after it, read back as a string.
fn with_suffix(u: &str, suffix: &[u8]) -> (r: String)
    ensures
        r@ == lossy_utf8(encode_utf8(u@) + suffix@),
{
    let mut b: Vec<u8> = Vec::new();
    push_bytes(&mut b, u.as_bytes());
    push_bytes(&mut b, suffix);
    lossy_string(b.as_slice())
}

/// The main page's namespace and URL.
fn main_ref(reader: &Reader) -> (r: Result<Option<(u8, String)>, Error>)
    requires
        reader.wf(),
    ensures
        match r {
            Ok(Some((ns, u))) => main_ref_spec(reader.bytes()) == Ok::<Option<(u8, Seq<char>)>, Fault>(Some((ns, u@))),
            Ok(None) => main_ref_spec(reader.bytes()) == Ok::<Option<(u8, Seq<char>)>, Fault>(None),
            Err(e) => main_ref_spec(reader.bytes()) == Err::<Option<(u8, Seq<char>)>, Fault>(e@),
        },
{
    reader.main_page_ref()
}

/// Fetches the data and MIME type of the blob a request target names.
pub fn fetch(reader: &mut Reader, target: &str) -> (r: Result<(Vec<u8>, String), Error>)
    requires
        old(reader).wf(),
    ensures
        final(reader).wf(),
        final(reader).bytes() == old(reader).bytes(),
        final(reader).limit() == old(reader).limit(),
        cache_within_limit(*old(reader), *final(reader)),
        match r {
            Ok((d, m)) => fetch_spec(old(reader).bytes(), target@) == Ok::<(Seq<u8>, Seq<char>), Fault>((d@, m@)),
            Err(e) => fetch_spec(old(reader).bytes(), target@) == Err::<(Seq<u8>, Seq<char>), Fault>(e@),
        },
{
    let ghost s = reader.bytes();
    let t = target.as_bytes();
    if t.len() == 1 && t[0] == 47 {
        assert(t@ =~= seq![47u8]);
        let (ns, u) = match main_ref(reader) {
            Err(e) => {
                return Err(e);
            },
            Ok(None) => {
                return Err(Error::NotFound { namespace: 0, url: String::new() });
            },
            Ok(Some(p)) => p,
        };
        return match reader.get(ns, u.as_str()) {
            Ok(b) => Ok((b.data, b.mime_type)),
            Err(e) => Err(e),
        };
    }
    assert(encode_utf8(target@) != seq![47u8]) by {
        if encode_utf8(target@) == seq![47u8] {
            assert(t@ =~= seq![47u8]);
        }
    }
    let url = request_target_to_url(target);
    let first = reader.get(NAMESPACE_CONTENT, url.as_str());
    match first {
        Ok(b) => Ok((b.data, b.mime_type)),
        Err(err) => {
            let ub = url.as_str().as_bytes();
            if ub.len() > 0 && ub[ub.len() - 1] == 47 {
                let lit: [u8; 10] = [105, 110, 100, 101, 120, 46, 104, 116, 109, 108];
                assert(lit@ =~= index_html_text());
                                let alt = with_suffix(url.as_str(), lit.as_slice());
                match reader.get(NAMESPACE_CONTENT, alt.as_str()) {
                    Ok(b) => Ok((b.data, b.mime_type)),
                    Err(e) => Err(e),
                }
            } else if find_first(ub, 46u8).is_none() {
                let lit: [u8; 11] = [47, 105, 110, 100, 101, 120, 46, 104, 116, 109, 108];
                assert(lit@ =~= slash_index_html_text());
                                let alt = with_suffix(url.as_str(), lit.as_slice());
                match reader.get(NAMESPACE_CONTENT, alt.as_str()) {
                    Ok(b) => Ok((b.data, b.mime_type)),
                    Err(e) => Err(e),
                }
            } else {
                Err(err)
            }
        },
    }
}

/// Fetches `len` bytes from `offset` of the blob a request target names,
/// with the blob's size.
pub fn fetch_range(reader: &mut Reader, target: &str, offset: u64, len: u64) -> (r: Result<(Vec<u8>, u64), Error>)
    requires
        old(reader).wf(),
    ensures
        final(reader).wf(),
        final(reader).bytes() == old(reader).bytes(),
        final(reader).limit() == old(reader).limit(),
        cache_within_limit(*old(reader), *final(reader)),
        match r {
            Ok((d, n)) => fetch_range_spec(old(reader).bytes(), target@, offset, len) == Ok::<(Seq<u8>, u64), Fault>((d@, n)),
            Err(e) => fetch_range_spec(old(reader).bytes(), target@, offset, len) == Err::<(Seq<u8>, u64), Fault>(e@),
        },
{
    let t = target.as_bytes();
    if t.len() == 1 && t[0] == 47 {
        assert(t@ =~= seq![47u8]);
        let (ns, u) = match main_ref(reader) {
            Err(e) => {
                return Err(e);
            },
            Ok(None) => {
                return Err(Error::NotFound { namespace: 0, url: String::new() });
            },
            Ok(Some(p)) => p,
        };
        return reader.get_range(ns, u.as_str(), offset, len);
    }
    assert(encode_utf8(target@) != seq![47u8]) by {
        if encode_utf8(target@) == seq![47u8] {
            assert(t@ =~= seq![47u8]);
        }
    }
    let url = request_target_to_url(target);
    match reader.get_range(NAMESPACE_CONTENT, url.as_str(), offset, len) {
        Ok(v) => Ok(v),
        Err(err) => {
            let ub = url.as_str().as_bytes();
            if ub.len() > 0 && ub[ub.len() - 1] == 47 {
                let lit: [u8; 10] = [105, 110, 100, 101, 120, 46, 104, 116, 109, 108];
                assert(lit@ =~= index_html_text());
                                let alt = with_suffix(url.as_str(), lit.as_slice());
                reader.get_range(NAMESPACE_CONTENT, alt.as_str(), offset, len)
            } else if find_first(ub, 46u8).is_none() {
                let lit: [u8; 11] = [47, 105, 110, 100, 101, 120, 46, 104, 116, 109, 108];
                assert(lit@ =~= slash_index_html_text());
                                let alt = with_suffix(url.as_str(), lit.as_slice());
                reader.get_range(NAMESPACE_CONTENT, alt.as_str(), offset, len)
            } else {
                Err(err)
            }
        },
    }
}


/// The content type sent for a blob of MIME type `m`.
pub open spec fn content_type_spec(m: Seq<char>) -> Seq<char> {
    if m.len() == 0 {
        "application/octet-stream"@
    } else {
        m
    }
}

/// `a + b`, or `u64::MAX` where that is larger.
pub open spec fn sat_add(a: u64, b: u64) -> u64 {
    if a + b > u64::MAX {
        u64::MAX
    } else {
        (a + b) as u64
    }
}

/// The answer to a lookup that failed with `e`: `404` for a missing entry,
/// else `500` with the error's text: the text `fault_text` fixes, and
/// `text` for an I/O or compression error, whose text the view does not keep.
pub open spec fn error_response_spec(e: Fault, head_only: bool, text: Seq<u8>) -> Seq<u8> {
    if e is NotFound {
        response_spec(404, encode_utf8("text/plain"@), not_found_body(), head_only, false)
    } else {
        response_spec(
            500,
            encode_utf8("text/plain"@),
            archive_error_text() + match fault_text(e) {
                Some(m) => m,
                None => text,
            },
            head_only,
            false,
        )
    }
}

/// The answer to a request with method `m` for target `t`, with the range
/// `range` where it asked for one: only `GET` and `HEAD` are served, `HEAD`
/// without a body; a range request gets the bytes it asks for, another gets
/// the whole blob. `text` is the text of the error where a lookup fails
/// with an I/O or compression error.
pub open spec fn respond_spec(
    s: Seq<u8>,
    m: Seq<u8>,
    t: Seq<char>,
    range: Option<(u64, u64)>,
    text: Seq<u8>,
) -> Seq<u8> {
    let head = m == head_method();
    if m != get_method() && !head {
        response_spec(405, encode_utf8("text/plain"@), not_allowed_body(), head, false)
    } else {
        match range {
            Some((start, end)) => match fetch_range_spec(s, t, start, sat_add(sat_sub(end, start), 1)) {
                Ok((d, total)) => range_response_spec(
                    encode_utf8(target_mime(encode_utf8(t))),
                    d,
                    total,
                    start,
                    end,
                    head,
                ),
                Err(e) => error_response_spec(e, head, text),
            },
            None => match fetch_spec(s, t) {
                Ok((d, mime)) => response_spec(
                    200,
                    encode_utf8(content_type_spec(mime)),
                    d,
                    head,
                    true,
                ),
                Err(e) => error_response_spec(e, head, text),
            },
        }
    }
}

/// The answer to a lookup that failed with `e`.
fn error_response(e: &Error, head_only: bool) -> (r: Vec<u8>)
    ensures
        exists|text: Seq<u8>| r@ == error_response_spec(e@, head_only, text),
{
    if e.is_not_found() {
        let body: [u8; 9] = [110, 111, 116, 32, 102, 111, 117, 110, 100];
        assert(body@ =~= not_found_body());
        let r = response(404, "text/plain", body.as_slice(), head_only, false);
        assert(r@ == error_response_spec(e@, head_only, Seq::empty()));
        r
    } else {
        let mut body: Vec<u8> = Vec::new();
        let lit: [u8; 15] = [97, 114, 99, 104, 105, 118, 101, 32, 101, 114, 114, 111, 114, 58, 32];
        assert(lit@ =~= archive_error_text());
        push_bytes(&mut body, lit.as_slice());
        let msg = e.message();
        let ghost text = encode_utf8(msg@);
        proof {
            if !(*e is Io) && !(*e is Compression) {
                crate::message::lemma_message_of_fault(*e);
            }
        }
        push_bytes(&mut body, msg.as_str().as_bytes());
        let r = response(500, "text/plain", body.as_slice(), head_only, false);
        assert(r@ == error_response_spec(e@, head_only, text));
        r
    }
}

/// Answers an HTTP request with method `method` for `target`, with the
/// byte range `range` where the request asked for one.
pub fn respond(reader: &mut Reader, method: &str, target: &str, range: Option<(u64, u64)>) -> (r: Vec<u8>)
    requires
        old(reader).wf(),
    ensures
        final(reader).wf(),
        final(reader).bytes() == old(reader).bytes(),
        final(reader).limit() == old(reader).limit(),
        cache_within_limit(*old(reader), *final(reader)),
        exists|text: Seq<u8>| r@ == respond_spec(old(reader).bytes(), encode_utf8(method@), target@, range, text),
{
    let ghost s = reader.bytes();
    let m = method.as_bytes();
    let get: [u8; 3] = [71, 69, 84];
    let headm: [u8; 4] = [72, 69, 65, 68];
    assert(get@ =~= get_method());
    assert(headm@ =~= head_method());
    let head = bytes_eq(m, headm.as_slice());
    if !bytes_eq(m, get.as_slice()) && !head {
        let body: [u8; 18] = [109, 101, 116, 104, 111, 100, 32, 110, 111, 116, 32, 97, 108, 108, 111, 119, 101, 100];
        assert(body@ =~= not_allowed_body());
        let r = response(405, "text/plain", body.as_slice(), head, false);
        assert(r@ == respond_spec(s, m@, target@, range, Seq::empty()));
        return r;
    }
    match range {
        Some((start, end)) => {
            let d = if end >= start {
                end - start
            } else {
                0
            };
            let len = if d == u64::MAX {
                u64::MAX
            } else {
                d + 1
            };
            assert(len == sat_add(sat_sub(end, start), 1));
            match fetch_range(reader, target, start, len) {
                Ok((data, total)) => {
                    let ct = mime_for_target(target);
                    let r = range_response(ct, data.as_slice(), total, start, end, head);
                    assert(r@ == respond_spec(s, m@, target@, range, Seq::empty()));
                    r
                },
                Err(e) => {
                    let r = error_response(&e, head);
                    let ghost text = choose|text: Seq<u8>| r@ == error_response_spec(e@, head, text);
                    assert(r@ == respond_spec(s, m@, target@, range, text));
                    r
                },
            }
        },
        None => match fetch(reader, target) {
            Ok((data, mime)) => {
                let ct = content_type(mime.as_str());
                let r = response(200, ct, data.as_slice(), head, true);
                assert(r@ == respond_spec(s, m@, target@, range, Seq::empty()));
                r
            },
            Err(e) => {
                let r = error_response(&e, head);
                let ghost text = choose|text: Seq<u8>| r@ == error_response_spec(e@, head, text);
                assert(r@ == respond_spec(s, m@, target@, range, text));
                r
            },
        },
    }
}


/// The answer to a request whose method is neither `GET` nor `HEAD`, or
/// `None` for those two, which the archive answers.
pub fn refuse_method(method: &str) -> (r: Option<Vec<u8>>)
    ensures
        match r {
            Some(v) => encode_utf8(method@) != get_method() && encode_utf8(method@) != head_method()
                && v@ == response_spec(405, encode_utf8("text/plain"@), not_allowed_body(), false, false),
            None => encode_utf8(method@) == get_method() || encode_utf8(method@) == head_method(),
        },
{
    let m = method.as_bytes();
    let get: [u8; 3] = [71, 69, 84];
    let headm: [u8; 4] = [72, 69, 65, 68];
    assert(get@ =~= get_method());
    assert(headm@ =~= head_method());
    if bytes_eq(m, get.as_slice()) || bytes_eq(m, headm.as_slice()) {
        None
    } else {
        let body: [u8; 18] = [109, 101, 116, 104, 111, 100, 32, 110, 111, 116, 32, 97, 108, 108, 111, 119, 101, 100];
        assert(body@ =~= not_allowed_body());
        Some(response(405, "text/plain", body.as_slice(), false, false))
    }
}

} // verus!
