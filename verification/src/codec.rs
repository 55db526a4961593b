//! Cluster compression and the choice of which entries to compress.

use crate::{Error, Fault};
use vstd::prelude::*;
use vstd::utf8::encode_utf8;

verus! {

/// The bytes that zstd at `level` makes of `input`, or `None` where it
/// reports an error.
pub uninterp spec fn zstd_compressed(level: i32, input: Seq<u8>) -> Option<Seq<u8>>;

/// The bytes that zstd decodes `input` to, or `None` where it reports an
/// error.
pub uninterp spec fn zstd_decompressed(input: Seq<u8>) -> Option<Seq<u8>>;

/// Compresses with `zstd::bulk::compress`. The contract claims that the
/// result is `zstd_compressed` of the level and input, and, as zstd
/// documents of its frames, that decoding the output gives back the input.
#[verifier::external_body]
fn zstd_bulk_compress(p: &[u8], level: i32) -> (r: Result<Vec<u8>, std::io::Error>)
    ensures
        match r {
            Ok(v) => zstd_compressed(level, p@) == Some(v@) && zstd_decompressed(v@) == Some(
                p@,
            ),
            Err(_) => zstd_compressed(level, p@) is None,
        },
{
    zstd::bulk::compress(p, level)
}

/// Decompresses with `zstd::stream::decode_all`. The contract claims that
/// the result is `zstd_decompressed` of the input.
#[verifier::external_body]
fn zstd_decode_all(p: &[u8]) -> (r: Result<Vec<u8>, std::io::Error>)
    ensures
        match r {
            Ok(v) => zstd_decompressed(p@) == Some(v@),
            Err(_) => zstd_decompressed(p@) is None,
        },
{
    zstd::stream::decode_all(p)
}

/// Renders an I/O error with its `Display` impl. An `io::Error` has no view
/// here for a contract to speak of, so nothing is stated of the text.
#[verifier::external_body]
pub(crate) fn io_error_text(e: &std::io::Error) -> String {
    e.to_string()
}

/// The zstd level used where none is chosen.
pub const DEFAULT_LEVEL: i32 = 9;

/// Compresses with zstd at `level`.
pub fn zstd_encode(p: &[u8], level: i32) -> (r: Result<Vec<u8>, Error>)
    ensures
        match r {
            Ok(v) => zstd_compressed(level, p@) == Some(v@) && zstd_decompressed(v@) == Some(
                p@,
            ),
            Err(e) => zstd_compressed(level, p@) is None && e@ == Fault::Compression,
        },
{
    match zstd_bulk_compress(p, level) {
        Ok(v) => Ok(v),
        Err(err) => Err(Error::Compression(io_error_text(&err))),
    }
}

/// Compresses bytes with the same zstd level the writer uses for text clusters.
pub fn compress(p: &[u8]) -> (r: Result<Vec<u8>, Error>)
    ensures
        match r {
            Ok(v) => zstd_compressed(DEFAULT_LEVEL, p@) == Some(v@) && zstd_decompressed(v@)
                == Some(p@),
            Err(e) => zstd_compressed(DEFAULT_LEVEL, p@) is None && e@ == Fault::Compression,
        },
{
    zstd_encode(p, DEFAULT_LEVEL)
}

/// Decompresses one zstd cluster body.
pub fn zstd_decode(p: &[u8]) -> (r: Result<Vec<u8>, Error>)
    ensures
        match r {
            Ok(v) => zstd_decompressed(p@) == Some(v@),
            Err(e) => zstd_decompressed(p@) is None && e@ == Fault::Compression,
        },
{
    match zstd_decode_all(p) {
        Ok(v) => Ok(v),
        Err(err) => Err(Error::Compression(io_error_text(&err))),
    }
}

/// `b` begins with `p`.
pub open spec fn starts_with(b: Seq<u8>, p: Seq<u8>) -> bool {
    p.len() <= b.len() && b.subrange(0, p.len() as int) == p
}

/// `b` ends with `p`.
pub open spec fn ends_with(b: Seq<u8>, p: Seq<u8>) -> bool {
    p.len() <= b.len() && b.subrange(b.len() - p.len(), b.len() as int) == p
}

pub open spec fn json_mime() -> Seq<u8> {
    seq![97u8, 112, 112, 108, 105, 99, 97, 116, 105, 111, 110, 47, 106, 115, 111, 110]
}

pub open spec fn xml_mime() -> Seq<u8> {
    seq![97u8, 112, 112, 108, 105, 99, 97, 116, 105, 111, 110, 47, 120, 109, 108]
}

pub open spec fn js_mime() -> Seq<u8> {
    seq![
        97u8, 112, 112, 108, 105, 99, 97, 116, 105, 111, 110, 47, 106, 97, 118,
        97, 115, 99, 114, 105, 112, 116,
    ]
}

pub open spec fn x_js_mime() -> Seq<u8> {
    seq![
        97u8, 112, 112, 108, 105, 99, 97, 116, 105, 111, 110, 47, 120, 45, 106,
        97, 118, 97, 115, 99, 114, 105, 112, 116,
    ]
}

pub open spec fn text_prefix() -> Seq<u8> {
    seq![116u8, 101, 120, 116, 47]
}

pub open spec fn xml_suffix() -> Seq<u8> {
    seq![43u8, 120, 109, 108]
}

/// The MIME types, given by their UTF-8 bytes, whose clusters are
/// compressed: `application/json`, `application/xml`,
/// `application/javascript`, `application/x-javascript`, every type that
/// starts with `text/` and every type that ends with `+xml`.
pub open spec fn is_text_mime_spec(m: Seq<u8>) -> bool {
    ||| m == json_mime()
    ||| m == xml_mime()
    ||| m == js_mime()
    ||| m == x_js_mime()
    ||| starts_with(m, text_prefix())
    ||| ends_with(m, xml_suffix())
}

/// `a` equals `b`.
pub fn bytes_eq(a: &[u8], b: &[u8]) -> (r: bool)
    ensures
        r == (a@ == b@),
{
    if a.len() != b.len() {
        return false;
    }
    let mut i: usize = 0;
    while i < a.len()
        invariant
            a@.len() == b@.len(),
            0 <= i <= a@.len(),
            forall|k: int| 0 <= k < i ==> a@[k] == b@[k],
        decreases a@.len() - i,
    {
        if a[i] != b[i] {
            return false;
        }
        i = i + 1;
    }
    assert(a@ =~= b@);
    true
}

/// `b` begins with `p`.
pub fn has_prefix(b: &[u8], p: &[u8]) -> (r: bool)
    ensures
        r == starts_with(b@, p@),
{
    if p.len() > b.len() {
        return false;
    }
    let head = &b[0..p.len()];
    bytes_eq(head, p)
}

/// `b` ends with `p`.
pub fn has_suffix(b: &[u8], p: &[u8]) -> (r: bool)
    ensures
        r == ends_with(b@, p@),
{
    if p.len() > b.len() {
        return false;
    }
    let tail = &b[b.len() - p.len()..b.len()];
    bytes_eq(tail, p)
}

/// Whether entries of MIME type `mime` go into compressed clusters.
pub fn is_text_mime(mime: &str) -> (r: bool)
    ensures
        r == is_text_mime_spec(encode_utf8(mime@)),
{
    let m = mime.as_bytes();
    let json: [u8; 16] = [
        97, 112, 112, 108, 105, 99, 97, 116, 105, 111, 110, 47, 106, 115, 111,
        110,
    ];
    let xml: [u8; 15] = [
        97, 112, 112, 108, 105, 99, 97, 116, 105, 111, 110, 47, 120, 109, 108,
    ];
    let js: [u8; 22] = [
        97, 112, 112, 108, 105, 99, 97, 116, 105, 111, 110, 47, 106, 97, 118,
        97, 115, 99, 114, 105, 112, 116,
    ];
    let xjs: [u8; 24] = [
        97, 112, 112, 108, 105, 99, 97, 116, 105, 111, 110, 47, 120, 45, 106,
        97, 118, 97, 115, 99, 114, 105, 112, 116,
    ];
    let text: [u8; 5] = [116, 101, 120, 116, 47];
    let plus_xml: [u8; 4] = [43, 120, 109, 108];
    assert(json@ =~= json_mime());
    assert(xml@ =~= xml_mime());
    assert(js@ =~= js_mime());
    assert(xjs@ =~= x_js_mime());
    assert(text@ =~= text_prefix());
    assert(plus_xml@ =~= xml_suffix());
    bytes_eq(m, json.as_slice()) || bytes_eq(m, xml.as_slice()) || bytes_eq(m, js.as_slice())
        || bytes_eq(m, xjs.as_slice()) || has_prefix(m, text.as_slice()) || has_suffix(
        m,
        plus_xml.as_slice(),
    )
}

} // verus!
