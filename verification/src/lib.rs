//! Reading and writing ZIM archives.

pub mod le;
pub mod format;
pub mod text;
pub mod codec;
pub mod cache;
pub mod reader;
pub mod sort;
pub mod writer;
pub mod layout;
pub mod serve;
pub mod request;
pub mod progress;
pub mod message;
pub mod args;
pub mod directory;
pub mod readback;

pub use codec::compress;
pub use format::{MAGIC, NAMESPACE_CONTENT, NAMESPACE_LISTING, NAMESPACE_METADATA, NAMESPACE_WELL_KNOWN};
pub use reader::{Blob, Entry, Reader};
pub use writer::Writer;

use vstd::prelude::*;

verus! {

#[verifier::external_type_specification]
#[verifier::external_body]
pub struct ExIoError(std::io::Error);

/// Errors returned while reading or writing ZIM archives.
#[derive(Debug)]
pub enum Error {
    Io(std::io::Error),
    BadMagic,
    UnsupportedVersion(u16),
    ShortHeader(usize),
    InconsistentHeaderOffsets,
    NoMainPage,
    NotFound { namespace: u8, url: String },
    RedirectLoop,
    MissingRedirectTarget { redirect: String, target: String },
    UnterminatedUrl(u64),
    UnterminatedTitle(u64),
    BadClusterBounds(u32),
    BlobOutOfRange { cluster: u32, blob: u32 },
    BadBlobOffsets(u32),
    UnsupportedCompression(u8),
    UnsupportedXz,
    InvalidReadLength,
    SizeOverflow,
    Compression(String),
}

/// What an [`Error`] says, with its strings taken as characters and an
/// I/O error taken as the mere fact of one.
pub enum Fault {
    Io,
    BadMagic,
    UnsupportedVersion(u16),
    ShortHeader(usize),
    InconsistentHeaderOffsets,
    NoMainPage,
    NotFound { namespace: u8, url: Seq<char> },
    RedirectLoop,
    MissingRedirectTarget { redirect: Seq<char>, target: Seq<char> },
    UnterminatedUrl(u64),
    UnterminatedTitle(u64),
    BadClusterBounds(u32),
    BlobOutOfRange { cluster: u32, blob: u32 },
    BadBlobOffsets(u32),
    UnsupportedCompression(u8),
    UnsupportedXz,
    InvalidReadLength,
    SizeOverflow,
    Compression,
}

impl View for Error {
    type V = Fault;

    open spec fn view(&self) -> Fault {
        match self {
            Error::Io(_) => Fault::Io,
            Error::BadMagic => Fault::BadMagic,
            Error::UnsupportedVersion(v) => Fault::UnsupportedVersion(*v),
            Error::ShortHeader(n) => Fault::ShortHeader(*n),
            Error::InconsistentHeaderOffsets => Fault::InconsistentHeaderOffsets,
            Error::NoMainPage => Fault::NoMainPage,
            Error::NotFound { namespace, url } => Fault::NotFound {
                namespace: *namespace,
                url: url@,
            },
            Error::RedirectLoop => Fault::RedirectLoop,
            Error::MissingRedirectTarget { redirect, target } => Fault::MissingRedirectTarget {
                redirect: redirect@,
                target: target@,
            },
            Error::UnterminatedUrl(o) => Fault::UnterminatedUrl(*o),
            Error::UnterminatedTitle(o) => Fault::UnterminatedTitle(*o),
            Error::BadClusterBounds(c) => Fault::BadClusterBounds(*c),
            Error::BlobOutOfRange { cluster, blob } => Fault::BlobOutOfRange {
                cluster: *cluster,
                blob: *blob,
            },
            Error::BadBlobOffsets(c) => Fault::BadBlobOffsets(*c),
            Error::UnsupportedCompression(c) => Fault::UnsupportedCompression(*c),
            Error::UnsupportedXz => Fault::UnsupportedXz,
            Error::InvalidReadLength => Fault::InvalidReadLength,
            Error::SizeOverflow => Fault::SizeOverflow,
            Error::Compression(_) => Fault::Compression,
        }
    }
}

impl Error {
    /// Returns true when this error represents a missing entry lookup.
    pub fn is_not_found(&self) -> (r: bool)
        ensures
            r == (self@ is NotFound),
    {
        match self {
            Error::NotFound { .. } => true,
            _ => false,
        }
    }
}

/// Builds the I/O error that a read past the end of the archive reports.
#[verifier::external_body]
pub(crate) fn unexpected_eof() -> std::io::Error {
    std::io::Error::from(std::io::ErrorKind::UnexpectedEof)
}

} // verus!
