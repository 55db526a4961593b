//! The archive header and the constants of the format.

use crate::le::{
    le_u16, le_u32, le_u64, lemma_u16_round_trip, lemma_u32_round_trip, lemma_split_prefix, lemma_u64_round_trip,
    put_u16, put_u32, put_u64, u16_at, u16_bytes, u32_at, u32_bytes, u64_at, u64_bytes,
};
use crate::{Error, Fault};
use vstd::prelude::*;

verus! {

pub const MAGIC: u32 = 0x44D495A;

pub const MAJOR_VERSION: u16 = 5;

pub const MINOR_VERSION: u16 = 1;

pub const HEADER_LEN: usize = 80;

pub const NAMESPACE_CONTENT: u8 = 67;

pub const NAMESPACE_METADATA: u8 = 77;

pub const NAMESPACE_WELL_KNOWN: u8 = 87;

pub const NAMESPACE_LISTING: u8 = 88;

pub const COMP_NONE: u8 = 1;

pub const COMP_XZ: u8 = 4;

pub const COMP_ZSTD: u8 = 5;

pub const EXTENDED_FLAG: u8 = 0x10;

pub const REDIRECT_ENTRY: u16 = 0xffff;

pub const NO_MAIN_PAGE: u32 = 0xffffffff;

/// The fixed-size header at the start of every archive.
#[derive(Clone, Copy)]
pub struct Header {
    pub uuid: [u8; 16],
    pub article_count: u32,
    pub cluster_count: u32,
    pub url_ptr_pos: u64,
    pub title_ptr_pos: u64,
    pub cluster_ptr_pos: u64,
    pub mime_list_pos: u64,
    pub main_page: u32,
    pub layout_page: u32,
    pub checksum_pos: u64,
}

/// A header's fields, its uuid taken as a sequence.
pub struct HeaderView {
    pub uuid: Seq<u8>,
    pub article_count: u32,
    pub cluster_count: u32,
    pub url_ptr_pos: u64,
    pub title_ptr_pos: u64,
    pub cluster_ptr_pos: u64,
    pub mime_list_pos: u64,
    pub main_page: u32,
    pub layout_page: u32,
    pub checksum_pos: u64,
}

impl View for Header {
    type V = HeaderView;

    open spec fn view(&self) -> HeaderView {
        HeaderView {
            uuid: self.uuid@,
            article_count: self.article_count,
            cluster_count: self.cluster_count,
            url_ptr_pos: self.url_ptr_pos,
            title_ptr_pos: self.title_ptr_pos,
            cluster_ptr_pos: self.cluster_ptr_pos,
            mime_list_pos: self.mime_list_pos,
            main_page: self.main_page,
            layout_page: self.layout_page,
            checksum_pos: self.checksum_pos,
        }
    }
}

/// The 80 bytes that store header `h`, written as format version 5.1.
pub open spec fn header_bytes(h: HeaderView) -> Seq<u8> {
    u32_bytes(MAGIC) + u16_bytes(MAJOR_VERSION) + u16_bytes(MINOR_VERSION) + h.uuid + u32_bytes(
        h.article_count,
    ) + u32_bytes(h.cluster_count) + u64_bytes(h.url_ptr_pos) + u64_bytes(h.title_ptr_pos)
        + u64_bytes(h.cluster_ptr_pos) + u64_bytes(h.mime_list_pos) + u32_bytes(h.main_page)
        + u32_bytes(h.layout_page) + u64_bytes(h.checksum_pos)
}

/// The header fields stored in the first 80 bytes of `b`.
pub open spec fn header_fields(b: Seq<u8>) -> HeaderView {
    HeaderView {
        uuid: b.subrange(8, 24),
        article_count: u32_at(b, 24),
        cluster_count: u32_at(b, 28),
        url_ptr_pos: u64_at(b, 32),
        title_ptr_pos: u64_at(b, 40),
        cluster_ptr_pos: u64_at(b, 48),
        mime_list_pos: u64_at(b, 56),
        main_page: u32_at(b, 64),
        layout_page: u32_at(b, 68),
        checksum_pos: u64_at(b, 72),
    }
}

/// What reading a header from `b` gives: a short buffer, a wrong magic
/// number and a major version other than 5 or 6 are refused.
pub open spec fn parse_header_spec(b: Seq<u8>) -> Result<HeaderView, Fault> {
    if b.len() < HEADER_LEN {
        Err(Fault::ShortHeader(b.len() as usize))
    } else if u32_at(b, 0) != MAGIC {
        Err(Fault::BadMagic)
    } else if u16_at(b, 4) != 5 && u16_at(b, 4) != 6 {
        Err(Fault::UnsupportedVersion(u16_at(b, 4)))
    } else {
        Ok(header_fields(b))
    }
}

impl Header {
    /// Serializes the header as format version 5.1.
    pub fn marshal(self) -> (b: [u8; 80])
        ensures
            b@ == header_bytes(self@),
    {
        let mut v: Vec<u8> = Vec::with_capacity(HEADER_LEN);
        put_u32(&mut v, MAGIC);
        put_u16(&mut v, MAJOR_VERSION);
        put_u16(&mut v, MINOR_VERSION);
        let mut i: usize = 0;
        while i < 16
            invariant
                0 <= i <= 16,
                v@ == u32_bytes(MAGIC) + u16_bytes(MAJOR_VERSION) + u16_bytes(MINOR_VERSION)
                    + self.uuid@.subrange(0, i as int),
            decreases 16 - i,
        {
            v.push(self.uuid[i]);
            i = i + 1;
            assert(self.uuid@.subrange(0, i as int) =~= self.uuid@.subrange(0, i - 1).push(
                self.uuid@[i - 1],
            ));
        }
        assert(self.uuid@.subrange(0, 16) =~= self.uuid@);
        put_u32(&mut v, self.article_count);
        put_u32(&mut v, self.cluster_count);
        put_u64(&mut v, self.url_ptr_pos);
        put_u64(&mut v, self.title_ptr_pos);
        put_u64(&mut v, self.cluster_ptr_pos);
        put_u64(&mut v, self.mime_list_pos);
        put_u32(&mut v, self.main_page);
        put_u32(&mut v, self.layout_page);
        put_u64(&mut v, self.checksum_pos);
        assert(v@ == header_bytes(self@));
        let mut b = [0u8; 80];
        let mut j: usize = 0;
        while j < 80
            invariant
                0 <= j <= 80,
                v@.len() == 80,
                forall|k: int| 0 <= k < j ==> b@[k] == v@[k],
            decreases 80 - j,
        {
            b[j] = v[j];
            j = j + 1;
        }
        assert(b@ =~= v@);
        b
    }
}

/// Reads the header at the start of `b`.
pub fn parse_header(b: &[u8]) -> (r: Result<Header, Error>)
    ensures
        match r {
            Ok(h) => parse_header_spec(b@) == Ok::<HeaderView, Fault>(h@),
            Err(e) => parse_header_spec(b@) == Err::<HeaderView, Fault>(e@),
        },
{
    if b.len() < HEADER_LEN {
        return Err(Error::ShortHeader(b.len()));
    }
    if le_u32(b, 0) != MAGIC {
        return Err(Error::BadMagic);
    }
    let major_version = le_u16(b, 4);
    if major_version != 5 && major_version != 6 {
        return Err(Error::UnsupportedVersion(major_version));
    }
    let mut uuid = [0u8; 16];
    let mut i: usize = 0;
    while i < 16
        invariant
            0 <= i <= 16,
            b@.len() >= HEADER_LEN,
            forall|k: int| 0 <= k < i ==> uuid@[k] == b@[8 + k],
        decreases 16 - i,
    {
        uuid[i] = b[8 + i];
        i = i + 1;
    }
    assert(uuid@ =~= b@.subrange(8, 24));
    Ok(
        Header {
            uuid,
            article_count: le_u32(b, 24),
            cluster_count: le_u32(b, 28),
            url_ptr_pos: le_u64(b, 32),
            title_ptr_pos: le_u64(b, 40),
            cluster_ptr_pos: le_u64(b, 48),
            mime_list_pos: le_u64(b, 56),
            main_page: le_u32(b, 64),
            layout_page: le_u32(b, 68),
            checksum_pos: le_u64(b, 72),
        },
    )
}

/// A serialized header reads back as the same header.
pub proof fn lemma_header_round_trip(h: HeaderView, b: Seq<u8>)
    requires
        h.uuid.len() == 16,
        b.len() >= HEADER_LEN,
        b.subrange(0, HEADER_LEN as int) == header_bytes(h),
    ensures
        parse_header_spec(b) == Ok::<HeaderView, Fault>(h),
{
    let p0 = u32_bytes(MAGIC);
    let p1 = p0 + u16_bytes(MAJOR_VERSION);
    let p2 = p1 + u16_bytes(MINOR_VERSION);
    let p3 = p2 + h.uuid;
    let p4 = p3 + u32_bytes(h.article_count);
    let p5 = p4 + u32_bytes(h.cluster_count);
    let p6 = p5 + u64_bytes(h.url_ptr_pos);
    let p7 = p6 + u64_bytes(h.title_ptr_pos);
    let p8 = p7 + u64_bytes(h.cluster_ptr_pos);
    let p9 = p8 + u64_bytes(h.mime_list_pos);
    let p10 = p9 + u32_bytes(h.main_page);
    let p11 = p10 + u32_bytes(h.layout_page);
    assert(header_bytes(h) == p11 + u64_bytes(h.checksum_pos));
    lemma_split_prefix(b, p11, u64_bytes(h.checksum_pos));
    lemma_split_prefix(b, p10, u32_bytes(h.layout_page));
    lemma_split_prefix(b, p9, u32_bytes(h.main_page));
    lemma_split_prefix(b, p8, u64_bytes(h.mime_list_pos));
    lemma_split_prefix(b, p7, u64_bytes(h.cluster_ptr_pos));
    lemma_split_prefix(b, p6, u64_bytes(h.title_ptr_pos));
    lemma_split_prefix(b, p5, u64_bytes(h.url_ptr_pos));
    lemma_split_prefix(b, p4, u32_bytes(h.cluster_count));
    lemma_split_prefix(b, p3, u32_bytes(h.article_count));
    lemma_split_prefix(b, p2, h.uuid);
    lemma_split_prefix(b, p1, u16_bytes(MINOR_VERSION));
    lemma_split_prefix(b, p0, u16_bytes(MAJOR_VERSION));
    assert(b.subrange(0, 4) == p0);
    lemma_u32_round_trip(b, 0, MAGIC);
    lemma_u16_round_trip(b, 4, MAJOR_VERSION);
    lemma_u32_round_trip(b, 24, h.article_count);
    lemma_u32_round_trip(b, 28, h.cluster_count);
    lemma_u64_round_trip(b, 32, h.url_ptr_pos);
    lemma_u64_round_trip(b, 40, h.title_ptr_pos);
    lemma_u64_round_trip(b, 48, h.cluster_ptr_pos);
    lemma_u64_round_trip(b, 56, h.mime_list_pos);
    lemma_u32_round_trip(b, 64, h.main_page);
    lemma_u32_round_trip(b, 68, h.layout_page);
    lemma_u64_round_trip(b, 72, h.checksum_pos);
    assert(header_fields(b) == h);
}

/// The MD5 digest of `input`.
pub uninterp spec fn md5_digest(input: Seq<u8>) -> Seq<u8>;

/// Computes the MD5 digest with `md5::compute`. The contract claims that the
/// digest is `md5_digest` of the input.
#[verifier::external_body]
fn md5_compute(input: &[u8]) -> (d: [u8; 16])
    ensures
        d@ == md5_digest(input@),
{
    md5::compute(input).0
}

/// The MD5 digest of `input`, as the archive's checksum and uuid use it.
pub fn md5(input: &[u8]) -> (d: [u8; 16])
    ensures
        d@ == md5_digest(input@),
{
    md5_compute(input)
}

/// A header of 80 bytes or more that starts with the magic number is read
/// for major versions 5 and 6 alike, stored version 6 (bytes `6, 0`)
/// included, giving the fields stored in it; it is refused as an
/// unsupported version exactly when its major version is neither.
pub proof fn lemma_header_versions(b: Seq<u8>)
    requires
        b.len() >= HEADER_LEN,
        u32_at(b, 0) == MAGIC,
    ensures
        (u16_at(b, 4) == 5 || u16_at(b, 4) == 6) ==> parse_header_spec(b) == Ok::<HeaderView, Fault>(
            header_fields(b),
        ),
        (b[4] == 5u8 || b[4] == 6u8) && b[5] == 0u8 ==> parse_header_spec(b) is Ok,
        (parse_header_spec(b) matches Err(Fault::UnsupportedVersion(v)) && v == u16_at(b, 4)) <==> (u16_at(b, 4)
            != 5 && u16_at(b, 4) != 6),
        parse_header_spec(b) matches Ok(h) ==> h.uuid == b.subrange(8, 24) && h.article_count == u32_at(b, 24)
            && h.main_page == u32_at(b, 64) && h.checksum_pos == u64_at(b, 72),
{
    let lo = b[4];
    let hi = b[5];
    assert((lo == 5u8 || lo == 6u8) && hi == 0u8 ==> ((lo as u16) | ((hi as u16) << 8u16)) == 5u16 || ((lo as u16)
        | ((hi as u16) << 8u16)) == 6u16) by (bit_vector);
    assert(u16_at(b, 4) == ((lo as u16) | ((hi as u16) << 8u16)));
}

} // verus!
