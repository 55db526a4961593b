//! The text of each error, as its `Display` would print it.

use crate::layout::ns_key_bytes;
use crate::text::{decimal, lossy_string, lossy_utf8, push_bytes, push_decimal};
use crate::{Error, Fault};
use vstd::prelude::*;
use vstd::utf8::encode_utf8;

verus! {

/// The bytes of `zim: bad magic, not a ZIM file`.
pub open spec fn bad_magic_text() -> Seq<u8> {
    seq![122u8, 105, 109, 58, 32, 98, 97, 100, 32, 109, 97, 103, 105, 99, 44, 32, 110, 111, 116, 32, 97, 32, 90, 73, 77, 32, 102, 105, 108, 101]
}

/// The bytes of `zim: unsupported major version `.
pub open spec fn unsupported_version_text() -> Seq<u8> {
    seq![122u8, 105, 109, 58, 32, 117, 110, 115, 117, 112, 112, 111, 114, 116, 101, 100, 32, 109, 97, 106, 111, 114, 32, 118, 101, 114, 115, 105, 111, 110, 32]
}

/// The bytes of `zim: short header: `.
pub open spec fn short_header_text() -> Seq<u8> {
    seq![122u8, 105, 109, 58, 32, 115, 104, 111, 114, 116, 32, 104, 101, 97, 100, 101, 114, 58, 32]
}

/// The bytes of ` bytes`.
pub open spec fn bytes_suffix_text() -> Seq<u8> {
    seq![32u8, 98, 121, 116, 101, 115]
}

/// The bytes of `zim: inconsistent header offsets`.
pub open spec fn inconsistent_offsets_text() -> Seq<u8> {
    seq![122u8, 105, 109, 58, 32, 105, 110, 99, 111, 110, 115, 105, 115, 116, 101, 110, 116, 32, 104, 101, 97, 100, 101, 114, 32, 111, 102, 102, 115, 101, 116, 115]
}

/// The bytes of `zim: no main page`.
pub open spec fn no_main_page_text() -> Seq<u8> {
    seq![122u8, 105, 109, 58, 32, 110, 111, 32, 109, 97, 105, 110, 32, 112, 97, 103, 101]
}

/// The bytes of `zim: not found: `.
pub open spec fn not_found_text() -> Seq<u8> {
    seq![122u8, 105, 109, 58, 32, 110, 111, 116, 32, 102, 111, 117, 110, 100, 58, 32]
}

/// The bytes of `zim: redirect loop`.
pub open spec fn redirect_loop_text() -> Seq<u8> {
    seq![122u8, 105, 109, 58, 32, 114, 101, 100, 105, 114, 101, 99, 116, 32, 108, 111, 111, 112]
}

/// The bytes of `zim: redirect `.
pub open spec fn redirect_text() -> Seq<u8> {
    seq![122u8, 105, 109, 58, 32, 114, 101, 100, 105, 114, 101, 99, 116, 32]
}

/// The bytes of ` points at missing target `.
pub open spec fn points_at_missing_text() -> Seq<u8> {
    seq![32u8, 112, 111, 105, 110, 116, 115, 32, 97, 116, 32, 109, 105, 115, 115, 105, 110, 103, 32, 116, 97, 114, 103, 101, 116, 32]
}

/// The bytes of `zim: unterminated url at `.
pub open spec fn unterminated_url_text() -> Seq<u8> {
    seq![122u8, 105, 109, 58, 32, 117, 110, 116, 101, 114, 109, 105, 110, 97, 116, 101, 100, 32, 117, 114, 108, 32, 97, 116, 32]
}

/// The bytes of `zim: unterminated title at `.
pub open spec fn unterminated_title_text() -> Seq<u8> {
    seq![122u8, 105, 109, 58, 32, 117, 110, 116, 101, 114, 109, 105, 110, 97, 116, 101, 100, 32, 116, 105, 116, 108, 101, 32, 97, 116, 32]
}

/// The bytes of `zim: bad cluster bounds for `.
pub open spec fn bad_cluster_bounds_text() -> Seq<u8> {
    seq![122u8, 105, 109, 58, 32, 98, 97, 100, 32, 99, 108, 117, 115, 116, 101, 114, 32, 98, 111, 117, 110, 100, 115, 32, 102, 111, 114, 32]
}

/// The bytes of `zim: blob `.
pub open spec fn blob_text() -> Seq<u8> {
    seq![122u8, 105, 109, 58, 32, 98, 108, 111, 98, 32]
}

/// The bytes of ` out of range in cluster `.
pub open spec fn out_of_range_text() -> Seq<u8> {
    seq![32u8, 111, 117, 116, 32, 111, 102, 32, 114, 97, 110, 103, 101, 32, 105, 110, 32, 99, 108, 117, 115, 116, 101, 114, 32]
}

/// The bytes of `zim: bad blob offsets in cluster `.
pub open spec fn bad_blob_offsets_text() -> Seq<u8> {
    seq![122u8, 105, 109, 58, 32, 98, 97, 100, 32, 98, 108, 111, 98, 32, 111, 102, 102, 115, 101, 116, 115, 32, 105, 110, 32, 99, 108, 117, 115, 116, 101, 114, 32]
}

/// The bytes of `zim: unknown compression `.
pub open spec fn unknown_compression_text() -> Seq<u8> {
    seq![122u8, 105, 109, 58, 32, 117, 110, 107, 110, 111, 119, 110, 32, 99, 111, 109, 112, 114, 101, 115, 115, 105, 111, 110, 32]
}

/// The bytes of `zim: xz clusters are not supported for reading`.
pub open spec fn xz_text() -> Seq<u8> {
    seq![122u8, 105, 109, 58, 32, 120, 122, 32, 99, 108, 117, 115, 116, 101, 114, 115, 32, 97, 114, 101, 32, 110, 111, 116, 32, 115, 117, 112, 112, 111, 114, 116, 101, 100, 32, 102, 111, 114, 32, 114, 101, 97, 100, 105, 110, 103]
}

/// The bytes of `zim: negative read length`.
pub open spec fn negative_length_text() -> Seq<u8> {
    seq![122u8, 105, 109, 58, 32, 110, 101, 103, 97, 116, 105, 118, 101, 32, 114, 101, 97, 100, 32, 108, 101, 110, 103, 116, 104]
}

/// The bytes of `zim: archive size is too large for this platform`.
pub open spec fn size_overflow_text() -> Seq<u8> {
    seq![122u8, 105, 109, 58, 32, 97, 114, 99, 104, 105, 118, 101, 32, 115, 105, 122, 101, 32, 105, 115, 32, 116, 111, 111, 32, 108, 97, 114, 103, 101, 32, 102, 111, 114, 32, 116, 104, 105, 115, 32, 112, 108, 97, 116, 102, 111, 114, 109]
}

/// The bytes of `zim: compression error: `.
pub open spec fn compression_error_text() -> Seq<u8> {
    seq![122u8, 105, 109, 58, 32, 99, 111, 109, 112, 114, 101, 115, 115, 105, 111, 110, 32, 101, 114, 114, 111, 114, 58, 32]
}

/// What `{:?}` prints for a string: the string quoted, its special
/// characters escaped.
pub uninterp spec fn debug_str(s: Seq<char>) -> Seq<char>;

/// Quotes `s` with `format!("{s:?}")`. The contract claims that the result
/// is `debug_str` of the string.
#[verifier::external_body]
fn debug_quoted(s: &str) -> (r: String)
    ensures
        r@ == debug_str(s@),
{
    format!("{s:?}")
}

/// The bytes of the text of `e`; an I/O error's own text is not described.
pub open spec fn message_bytes(e: Error) -> Seq<u8> {
    match e {
        Error::Io(_) => Seq::empty(),
        Error::BadMagic => bad_magic_text(),
        Error::UnsupportedVersion(v) => unsupported_version_text() + decimal(v as nat),
        Error::ShortHeader(n) => short_header_text() + decimal(n as nat) + bytes_suffix_text(),
        Error::InconsistentHeaderOffsets => inconsistent_offsets_text(),
        Error::NoMainPage => no_main_page_text(),
        Error::NotFound { namespace, url } => not_found_text() + ns_key_bytes(namespace) + seq![47u8]
            + encode_utf8(url@),
        Error::RedirectLoop => redirect_loop_text(),
        Error::MissingRedirectTarget { redirect, target } => redirect_text() + encode_utf8(
            debug_str(redirect@),
        ) + points_at_missing_text() + encode_utf8(debug_str(target@)),
        Error::UnterminatedUrl(o) => unterminated_url_text() + decimal(o as nat),
        Error::UnterminatedTitle(o) => unterminated_title_text() + decimal(o as nat),
        Error::BadClusterBounds(c) => bad_cluster_bounds_text() + decimal(c as nat),
        Error::BlobOutOfRange { cluster, blob } => blob_text() + decimal(blob as nat)
            + out_of_range_text() + decimal(cluster as nat),
        Error::BadBlobOffsets(c) => bad_blob_offsets_text() + decimal(c as nat),
        Error::UnsupportedCompression(c) => unknown_compression_text() + decimal(c as nat),
        Error::UnsupportedXz => xz_text(),
        Error::InvalidReadLength => negative_length_text(),
        Error::SizeOverflow => size_overflow_text(),
        Error::Compression(s) => compression_error_text() + encode_utf8(s@),
    }
}

/// The bytes of the text of an error that says `f`: for an I/O error
/// nothing, and for a compression error only its head, since the view
/// keeps neither text.
pub open spec fn fault_message_bytes(f: Fault) -> Seq<u8> {
    match f {
        Fault::Io => Seq::empty(),
        Fault::BadMagic => bad_magic_text(),
        Fault::UnsupportedVersion(v) => unsupported_version_text() + decimal(v as nat),
        Fault::ShortHeader(n) => short_header_text() + decimal(n as nat) + bytes_suffix_text(),
        Fault::InconsistentHeaderOffsets => inconsistent_offsets_text(),
        Fault::NoMainPage => no_main_page_text(),
        Fault::NotFound { namespace, url } => not_found_text() + ns_key_bytes(namespace) + seq![47u8]
            + encode_utf8(url),
        Fault::RedirectLoop => redirect_loop_text(),
        Fault::MissingRedirectTarget { redirect, target } => redirect_text() + encode_utf8(debug_str(redirect))
            + points_at_missing_text() + encode_utf8(debug_str(target)),
        Fault::UnterminatedUrl(o) => unterminated_url_text() + decimal(o as nat),
        Fault::UnterminatedTitle(o) => unterminated_title_text() + decimal(o as nat),
        Fault::BadClusterBounds(c) => bad_cluster_bounds_text() + decimal(c as nat),
        Fault::BlobOutOfRange { cluster, blob } => blob_text() + decimal(blob as nat) + out_of_range_text()
            + decimal(cluster as nat),
        Fault::BadBlobOffsets(c) => bad_blob_offsets_text() + decimal(c as nat),
        Fault::UnsupportedCompression(c) => unknown_compression_text() + decimal(c as nat),
        Fault::UnsupportedXz => xz_text(),
        Fault::InvalidReadLength => negative_length_text(),
        Fault::SizeOverflow => size_overflow_text(),
        Fault::Compression => compression_error_text(),
    }
}

/// The UTF-8 bytes of the message of an error that says `f`, where the
/// view fixes it: for every error but an I/O or a compression error.
pub open spec fn fault_text(f: Fault) -> Option<Seq<u8>> {
    if f is Io || f is Compression {
        None
    } else {
        Some(encode_utf8(lossy_utf8(fault_message_bytes(f))))
    }
}

/// The text of an error other than an I/O or compression error is fixed by
/// what it says.
pub proof fn lemma_message_of_fault(e: Error)
    requires
        !(e is Io),
        !(e is Compression),
    ensures
        fault_text(e@) == Some(encode_utf8(lossy_utf8(message_bytes(e)))),
{
}

impl Error {
    /// The text of the error, as its `Display` would print it. An I/O
    /// error prints its own text, of which nothing is stated.
    pub fn message(&self) -> (r: String)
        ensures
            !(*self is Io) ==> r@ == lossy_utf8(message_bytes(*self)),
    {
        let mut b: Vec<u8> = Vec::new();
        match self {
            Error::Io(err) => {
                return crate::codec::io_error_text(err);
            },
            Error::BadMagic => {
                let lit: [u8; 30] = [122, 105, 109, 58, 32, 98, 97, 100, 32, 109, 97, 103, 105, 99, 44, 32, 110, 111, 116, 32, 97, 32, 90, 73, 77, 32, 102, 105, 108, 101];
                assert(lit@ =~= bad_magic_text());
                push_bytes(&mut b, lit.as_slice());
                assert(b@ =~= message_bytes(*self));
            },
            Error::UnsupportedVersion(v) => {
                let lit: [u8; 31] = [122, 105, 109, 58, 32, 117, 110, 115, 117, 112, 112, 111, 114, 116, 101, 100, 32, 109, 97, 106, 111, 114, 32, 118, 101, 114, 115, 105, 111, 110, 32];
                assert(lit@ =~= unsupported_version_text());
                push_bytes(&mut b, lit.as_slice());
                push_decimal(&mut b, *v as u64);
                assert(b@ =~= message_bytes(*self));
            },
            Error::ShortHeader(n) => {
                let a: [u8; 19] = [122, 105, 109, 58, 32, 115, 104, 111, 114, 116, 32, 104, 101, 97, 100, 101, 114, 58, 32];
                assert(a@ =~= short_header_text());
                push_bytes(&mut b, a.as_slice());
                push_decimal(&mut b, *n as u64);
                let c: [u8; 6] = [32, 98, 121, 116, 101, 115];
                assert(c@ =~= bytes_suffix_text());
                push_bytes(&mut b, c.as_slice());
                assert(b@ =~= message_bytes(*self));
            },
            Error::InconsistentHeaderOffsets => {
                let lit: [u8; 32] = [122, 105, 109, 58, 32, 105, 110, 99, 111, 110, 115, 105, 115, 116, 101, 110, 116, 32, 104, 101, 97, 100, 101, 114, 32, 111, 102, 102, 115, 101, 116, 115];
                assert(lit@ =~= inconsistent_offsets_text());
                push_bytes(&mut b, lit.as_slice());
                assert(b@ =~= message_bytes(*self));
            },
            Error::NoMainPage => {
                let lit: [u8; 17] = [122, 105, 109, 58, 32, 110, 111, 32, 109, 97, 105, 110, 32, 112, 97, 103, 101];
                assert(lit@ =~= no_main_page_text());
                push_bytes(&mut b, lit.as_slice());
                assert(b@ =~= message_bytes(*self));
            },
            Error::NotFound { namespace, url } => {
                let lit: [u8; 16] = [122, 105, 109, 58, 32, 110, 111, 116, 32, 102, 111, 117, 110, 100, 58, 32];
                assert(lit@ =~= not_found_text());
                push_bytes(&mut b, lit.as_slice());
                crate::layout::push_ns_char(&mut b, *namespace);
                b.push(47u8);
                push_bytes(&mut b, url.as_str().as_bytes());
                assert(b@ =~= message_bytes(*self));
            },
            Error::RedirectLoop => {
                let lit: [u8; 18] = [122, 105, 109, 58, 32, 114, 101, 100, 105, 114, 101, 99, 116, 32, 108, 111, 111, 112];
                assert(lit@ =~= redirect_loop_text());
                push_bytes(&mut b, lit.as_slice());
                assert(b@ =~= message_bytes(*self));
            },
            Error::MissingRedirectTarget { redirect, target } => {
                let a: [u8; 14] = [122, 105, 109, 58, 32, 114, 101, 100, 105, 114, 101, 99, 116, 32];
                assert(a@ =~= redirect_text());
                push_bytes(&mut b, a.as_slice());
                let r = debug_quoted(redirect.as_str());
                push_bytes(&mut b, r.as_str().as_bytes());
                let c: [u8; 26] = [32, 112, 111, 105, 110, 116, 115, 32, 97, 116, 32, 109, 105, 115, 115, 105, 110, 103, 32, 116, 97, 114, 103, 101, 116, 32];
                assert(c@ =~= points_at_missing_text());
                push_bytes(&mut b, c.as_slice());
                let t = debug_quoted(target.as_str());
                push_bytes(&mut b, t.as_str().as_bytes());
                assert(b@ =~= message_bytes(*self));
            },
            Error::UnterminatedUrl(o) => {
                let lit: [u8; 25] = [122, 105, 109, 58, 32, 117, 110, 116, 101, 114, 109, 105, 110, 97, 116, 101, 100, 32, 117, 114, 108, 32, 97, 116, 32];
                assert(lit@ =~= unterminated_url_text());
                push_bytes(&mut b, lit.as_slice());
                push_decimal(&mut b, *o);
                assert(b@ =~= message_bytes(*self));
            },
            Error::UnterminatedTitle(o) => {
                let lit: [u8; 27] = [122, 105, 109, 58, 32, 117, 110, 116, 101, 114, 109, 105, 110, 97, 116, 101, 100, 32, 116, 105, 116, 108, 101, 32, 97, 116, 32];
                assert(lit@ =~= unterminated_title_text());
                push_bytes(&mut b, lit.as_slice());
                push_decimal(&mut b, *o);
                assert(b@ =~= message_bytes(*self));
            },
            Error::BadClusterBounds(c) => {
                let lit: [u8; 28] = [122, 105, 109, 58, 32, 98, 97, 100, 32, 99, 108, 117, 115, 116, 101, 114, 32, 98, 111, 117, 110, 100, 115, 32, 102, 111, 114, 32];
                assert(lit@ =~= bad_cluster_bounds_text());
                push_bytes(&mut b, lit.as_slice());
                push_decimal(&mut b, *c as u64);
                assert(b@ =~= message_bytes(*self));
            },
            Error::BlobOutOfRange { cluster, blob } => {
                let a: [u8; 10] = [122, 105, 109, 58, 32, 98, 108, 111, 98, 32];
                assert(a@ =~= blob_text());
                push_bytes(&mut b, a.as_slice());
                push_decimal(&mut b, *blob as u64);
                let c: [u8; 25] = [32, 111, 117, 116, 32, 111, 102, 32, 114, 97, 110, 103, 101, 32, 105, 110, 32, 99, 108, 117, 115, 116, 101, 114, 32];
                assert(c@ =~= out_of_range_text());
                push_bytes(&mut b, c.as_slice());
                push_decimal(&mut b, *cluster as u64);
                assert(b@ =~= message_bytes(*self));
            },
            Error::BadBlobOffsets(c) => {
                let lit: [u8; 33] = [122, 105, 109, 58, 32, 98, 97, 100, 32, 98, 108, 111, 98, 32, 111, 102, 102, 115, 101, 116, 115, 32, 105, 110, 32, 99, 108, 117, 115, 116, 101, 114, 32];
                assert(lit@ =~= bad_blob_offsets_text());
                push_bytes(&mut b, lit.as_slice());
                push_decimal(&mut b, *c as u64);
                assert(b@ =~= message_bytes(*self));
            },
            Error::UnsupportedCompression(c) => {
                let lit: [u8; 25] = [122, 105, 109, 58, 32, 117, 110, 107, 110, 111, 119, 110, 32, 99, 111, 109, 112, 114, 101, 115, 115, 105, 111, 110, 32];
                assert(lit@ =~= unknown_compression_text());
                push_bytes(&mut b, lit.as_slice());
                push_decimal(&mut b, *c as u64);
                assert(b@ =~= message_bytes(*self));
            },
            Error::UnsupportedXz => {
                let lit: [u8; 46] = [122, 105, 109, 58, 32, 120, 122, 32, 99, 108, 117, 115, 116, 101, 114, 115, 32, 97, 114, 101, 32, 110, 111, 116, 32, 115, 117, 112, 112, 111, 114, 116, 101, 100, 32, 102, 111, 114, 32, 114, 101, 97, 100, 105, 110, 103];
                assert(lit@ =~= xz_text());
                push_bytes(&mut b, lit.as_slice());
                assert(b@ =~= message_bytes(*self));
            },
            Error::InvalidReadLength => {
                let lit: [u8; 25] = [122, 105, 109, 58, 32, 110, 101, 103, 97, 116, 105, 118, 101, 32, 114, 101, 97, 100, 32, 108, 101, 110, 103, 116, 104];
                assert(lit@ =~= negative_length_text());
                push_bytes(&mut b, lit.as_slice());
                assert(b@ =~= message_bytes(*self));
            },
            Error::SizeOverflow => {
                let lit: [u8; 48] = [122, 105, 109, 58, 32, 97, 114, 99, 104, 105, 118, 101, 32, 115, 105, 122, 101, 32, 105, 115, 32, 116, 111, 111, 32, 108, 97, 114, 103, 101, 32, 102, 111, 114, 32, 116, 104, 105, 115, 32, 112, 108, 97, 116, 102, 111, 114, 109];
                assert(lit@ =~= size_overflow_text());
                push_bytes(&mut b, lit.as_slice());
                assert(b@ =~= message_bytes(*self));
            },
            Error::Compression(s) => {
                let lit: [u8; 24] = [122, 105, 109, 58, 32, 99, 111, 109, 112, 114, 101, 115, 115, 105, 111, 110, 32, 101, 114, 114, 111, 114, 58, 32];
                assert(lit@ =~= compression_error_text());
                push_bytes(&mut b, lit.as_slice());
                push_bytes(&mut b, s.as_str().as_bytes());
                assert(b@ =~= message_bytes(*self));
            },
        }
        lossy_string(b.as_slice())
    }
}

} // verus!
