//! Random-access reading of an archive held in memory.

use crate::cache::{
    cache_clear, cache_get, cache_insert, cache_len, cache_new, empty_cache, CacheEntry,
};
use crate::codec::{bytes_eq, starts_with, zstd_decode, zstd_decompressed};
use crate::format::{
    header_fields, md5, md5_digest, parse_header, parse_header_spec, Header, HeaderView, COMP_NONE, COMP_XZ,
    COMP_ZSTD, EXTENDED_FLAG, HEADER_LEN, NO_MAIN_PAGE, REDIRECT_ENTRY,
};
use crate::le::{le_u16, le_u32, le_u64, u16_at, u32_at, u64_at};
use crate::text::{
    compare_bytes, compare_keys, find_nul, first_nul, has_nul, is_first_nul, key_lt, lemma_first_nul,
    lex_lt, lossy_string, lossy_utf8, KeyOrder,
};
use crate::{unexpected_eof, Error, Fault};
use rustc_hash::FxHashMap;
use vstd::prelude::*;
use vstd::utf8::encode_utf8;

verus! {

/// The result of a lookup: resolved entry bytes and metadata.
#[derive(Clone, Debug, PartialEq, Eq)]
pub struct Blob {
    pub namespace: u8,
    pub url: String,
    pub title: String,
    pub mime_type: String,
    pub data: Vec<u8>,
}

/// A blob's fields, its strings taken as characters.
pub struct BlobView {
    pub namespace: u8,
    pub url: Seq<char>,
    pub title: Seq<char>,
    pub mime_type: Seq<char>,
    pub data: Seq<u8>,
}

impl View for Blob {
    type V = BlobView;

    open spec fn view(&self) -> BlobView {
        BlobView {
            namespace: self.namespace,
            url: self.url@,
            title: self.title@,
            mime_type: self.mime_type@,
            data: self.data@,
        }
    }
}

/// One directory entry as stored in the archive.
///
/// Redirect entries keep `data` empty and name their target in
/// `redirect_namespace` and `redirect_url`. Unlike [`Reader::get`],
/// [`Reader::entry_at`] does not follow redirects.
#[derive(Clone, Debug, PartialEq, Eq)]
pub struct Entry {
    pub namespace: u8,
    pub url: String,
    pub title: String,
    pub mime_type: String,
    pub redirect: bool,
    pub redirect_namespace: u8,
    pub redirect_url: String,
    pub data: Vec<u8>,
}

/// An entry's fields, its strings taken as characters.
pub struct EntryView {
    pub namespace: u8,
    pub url: Seq<char>,
    pub title: Seq<char>,
    pub mime_type: Seq<char>,
    pub redirect: bool,
    pub redirect_namespace: u8,
    pub redirect_url: Seq<char>,
    pub data: Seq<u8>,
}

impl View for Entry {
    type V = EntryView;

    open spec fn view(&self) -> EntryView {
        EntryView {
            namespace: self.namespace,
            url: self.url@,
            title: self.title@,
            mime_type: self.mime_type@,
            redirect: self.redirect,
            redirect_namespace: self.redirect_namespace,
            redirect_url: self.redirect_url@,
            data: self.data@,
        }
    }
}

/// One directory entry as parsed, before its blob is fetched.
pub struct Dirent {
    pub mime_idx: u16,
    pub namespace: u8,
    pub url: String,
    pub title: String,
    pub cluster: u32,
    pub blob: u32,
    pub redirect: bool,
    pub target_index: u32,
}

pub struct DirentView {
    pub mime_idx: u16,
    pub namespace: u8,
    pub url: Seq<char>,
    pub title: Seq<char>,
    pub cluster: u32,
    pub blob: u32,
    pub redirect: bool,
    pub target_index: u32,
}

impl View for Dirent {
    type V = DirentView;

    open spec fn view(&self) -> DirentView {
        DirentView {
            mime_idx: self.mime_idx,
            namespace: self.namespace,
            url: self.url@,
            title: self.title@,
            cluster: self.cluster,
            blob: self.blob,
            redirect: self.redirect,
            target_index: self.target_index,
        }
    }
}

/// The widest window of bytes in which a directory entry's strings are
/// looked for: the reader starts at 512 bytes and grows the window fourfold
/// until the strings end in it, it reaches past the end of the archive, or
/// it is at least 1 MiB wide; 512 * 4^6 is the last window tried.
pub const MAX_WINDOW: u64 = 2097152;

/// How many redirects a lookup follows before it gives up.
pub const MAX_REDIRECT_HOPS: u8 = 16;

/// The default number of decoded clusters kept in memory.
pub const DEFAULT_CACHE_LIMIT: usize = 64;

pub open spec fn min_int(a: int, b: int) -> int {
    if a < b {
        a
    } else {
        b
    }
}

/// The NUL-terminated string that starts at `start` in `b`: its bytes and
/// the position after its NUL, or `None` where it is not terminated.
pub open spec fn c_string_at(b: Seq<u8>, start: int) -> Option<(Seq<u8>, int)> {
    if start > b.len() || !has_nul(b.skip(start)) {
        None
    } else {
        let i = first_nul(b.skip(start));
        Some((b.subrange(start, start + i), start + i + 1))
    }
}

/// The directory entry stored at the start of `w`, where `off` is where `w`
/// starts in the archive (reported in errors). A content entry has a 16-byte
/// head (MIME index, namespace at byte 3, cluster, blob), a redirect a 12-byte
/// one (MIME index 0xffff, namespace, target index); the URL and the title
/// follow, each ended by a NUL byte.
#[verifier::opaque]
pub open spec fn dirent_in(w: Seq<u8>, off: u64) -> Result<DirentView, Fault> {
    if w.len() < 16 {
        Err(Fault::UnterminatedUrl(off))
    } else {
        let mime = u16_at(w, 0);
        let redirect = mime == REDIRECT_ENTRY;
        let p: int = if redirect {
            12
        } else {
            16
        };
        match c_string_at(w, p) {
            None => Err(Fault::UnterminatedUrl(off)),
            Some((url, n1)) => match c_string_at(w, n1) {
                None => Err(Fault::UnterminatedTitle(off)),
                Some((title, _)) => Ok(
                    DirentView {
                        mime_idx: mime,
                        namespace: w[3],
                        url: lossy_utf8(url),
                        title: lossy_utf8(title),
                        cluster: if redirect {
                            0
                        } else {
                            u32_at(w, 8)
                        },
                        blob: if redirect {
                            0
                        } else {
                            u32_at(w, 12)
                        },
                        redirect,
                        target_index: if redirect {
                            u32_at(w, 8)
                        } else {
                            0
                        },
                    },
                ),
            },
        }
    }
}

/// The bytes of `s` from `off`, at most `w` of them.
pub open spec fn window(s: Seq<u8>, off: int, w: int) -> Seq<u8> {
    s.subrange(off, min_int(off + w, s.len() as int))
}

/// The directory entry stored at offset `off` of archive `s`.
pub open spec fn dirent_at_spec(s: Seq<u8>, off: u64) -> Result<DirentView, Fault> {
    if off > s.len() {
        Err(Fault::Io)
    } else {
        dirent_in(window(s, off as int, MAX_WINDOW as int), off)
    }
}

/// The header of archive `s`.
pub open spec fn hdr(s: Seq<u8>) -> HeaderView {
    header_fields(s)
}

/// The directory entry that the URL pointer table of archive `s` lists at `idx`.
pub open spec fn dirent_at_index_spec(s: Seq<u8>, idx: u32) -> Result<DirentView, Fault> {
    let p = hdr(s).url_ptr_pos + 8 * idx;
    if p + 8 > s.len() {
        Err(Fault::Io)
    } else {
        dirent_at_spec(s, u64_at(s, p))
    }
}

/// The MIME types listed in `mb`: NUL-terminated strings, ended by an empty
/// one or by the last NUL.
pub open spec fn mime_list(mb: Seq<u8>) -> Seq<Seq<char>>
    decreases mb.len(),
{
    if !has_nul(mb) {
        seq![]
    } else {
        let i = first_nul(mb);
        if i <= 0 || i >= mb.len() {
            seq![]
        } else {
            seq![lossy_utf8(mb.subrange(0, i))] + mime_list(mb.skip(i + 1))
        }
    }
}

/// The MIME types of archive `s`.
pub open spec fn mimes_of(s: Seq<u8>) -> Seq<Seq<char>> {
    mime_list(s.subrange(hdr(s).mime_list_pos as int, hdr(s).url_ptr_pos as int))
}

/// What opening archive `s` reports: a short header, a bad header, or offsets
/// that put the MIME list out of order or the URL table past the end.
pub open spec fn open_spec(s: Seq<u8>) -> Result<(), Fault> {
    if s.len() < HEADER_LEN {
        Err(Fault::ShortHeader(s.len() as usize))
    } else {
        match parse_header_spec(s.subrange(0, HEADER_LEN as int)) {
            Err(e) => Err(e),
            Ok(h) => if h.mime_list_pos > h.url_ptr_pos || h.url_ptr_pos > s.len() {
                Err(Fault::InconsistentHeaderOffsets)
            } else {
                Ok(())
            },
        }
    }
}

/// The offset at which cluster `c` starts, from the cluster pointer table.
pub open spec fn cluster_offset_spec(s: Seq<u8>, c: u32) -> Result<u64, Fault> {
    let p = hdr(s).cluster_ptr_pos + 8 * c;
    if p + 8 > s.len() {
        Err(Fault::Io)
    } else {
        Ok(u64_at(s, p))
    }
}

/// The offset at which cluster `c` ends: where the next cluster starts, or
/// the checksum for the last one.
pub open spec fn cluster_end_spec(s: Seq<u8>, c: u32) -> Result<u64, Fault> {
    if c + 1 < hdr(s).cluster_count {
        cluster_offset_spec(s, (c + 1) as u32)
    } else {
        Ok(hdr(s).checksum_pos)
    }
}

/// A decoded cluster: the bytes of its blob table and blobs, and whether the
/// table's offsets are eight bytes wide.
pub struct ClusterView {
    pub data: Seq<u8>,
    pub extended: bool,
}

/// The decoded cluster `c` of archive `s`. Its first byte gives the
/// compression in the low four bits (0 and 1 uncompressed, 5 zstd, 4 xz,
/// which is refused) and the extended flag 0x10.
#[verifier::opaque]
pub open spec fn cluster_spec(s: Seq<u8>, c: u32) -> Result<ClusterView, Fault> {
    match cluster_offset_spec(s, c) {
        Err(e) => Err(e),
        Ok(start) => match cluster_end_spec(s, c) {
            Err(e) => Err(e),
            Ok(end) => if start >= end || end > s.len() {
                Err(Fault::BadClusterBounds(c))
            } else {
                let info = s[start as int];
                let comp = info & 0x0f;
                let extended = info & EXTENDED_FLAG != 0;
                let body = s.subrange(start + 1, end as int);
                if comp == 0 || comp == COMP_NONE {
                    Ok(ClusterView { data: body, extended })
                } else if comp == COMP_ZSTD {
                    match zstd_decompressed(body) {
                        Some(d) => Ok(ClusterView { data: d, extended }),
                        None => Err(Fault::Compression),
                    }
                } else if comp == COMP_XZ {
                    Err(Fault::UnsupportedXz)
                } else {
                    Err(Fault::UnsupportedCompression(comp))
                }
            },
        },
    }
}

/// The blob-table entry of width `width` at `off` in `d`.
pub open spec fn read_uint_spec(d: Seq<u8>, off: int, width: int) -> u64 {
    if width == 8 {
        u64_at(d, off)
    } else {
        u32_at(d, off) as u64
    }
}

/// Where blob `b` of a decoded cluster starts and ends: the table of
/// offsets at the start of the cluster gives them as entries `b` and `b + 1`.
pub open spec fn blob_bounds_spec(cl: ClusterView, c: u32, b: u32) -> Result<(int, int), Fault> {
    let width: int = if cl.extended {
        8
    } else {
        4
    };
    let need = (b + 2) * width;
    if need > usize::MAX {
        Err(Fault::SizeOverflow)
    } else if need > cl.data.len() {
        Err(Fault::BlobOutOfRange { cluster: c, blob: b })
    } else {
        let o0 = read_uint_spec(cl.data, b * width, width);
        let o1 = read_uint_spec(cl.data, (b + 1) * width, width);
        if o0 > usize::MAX || o1 > usize::MAX {
            Err(Fault::SizeOverflow)
        } else if o0 > o1 || o1 > cl.data.len() {
            Err(Fault::BadBlobOffsets(c))
        } else {
            Ok((o0 as int, o1 as int))
        }
    }
}

/// The bytes of blob `b` of cluster `c` of archive `s`.
pub open spec fn blob_data_spec(s: Seq<u8>, c: u32, b: u32) -> Result<Seq<u8>, Fault> {
    match cluster_spec(s, c) {
        Err(e) => Err(e),
        Ok(cl) => match blob_bounds_spec(cl, c, b) {
            Err(e) => Err(e),
            Ok((o0, o1)) => Ok(cl.data.subrange(o0, o1)),
        },
    }
}

/// The MIME type at `idx` of the archive's list, or the empty string past its end.
pub open spec fn mime_at(s: Seq<u8>, idx: u16) -> Seq<char> {
    if idx < mimes_of(s).len() {
        mimes_of(s)[idx as int]
    } else {
        seq![]
    }
}

/// The blob that the entry at URL index `idx` resolves to, following at most
/// `MAX_REDIRECT_HOPS - hop` redirects.
#[verifier::opaque]
pub open spec fn blob_at_spec(s: Seq<u8>, idx: u32, hop: u8) -> Result<BlobView, Fault>
    decreases MAX_REDIRECT_HOPS + 1 - hop,
{
    if hop > MAX_REDIRECT_HOPS {
        Err(Fault::RedirectLoop)
    } else {
        match dirent_at_index_spec(s, idx) {
            Err(e) => Err(e),
            Ok(d) => if d.redirect {
                blob_at_spec(s, d.target_index, (hop + 1) as u8)
            } else {
                match blob_data_spec(s, d.cluster, d.blob) {
                    Err(e) => Err(e),
                    Ok(bytes) => Ok(
                        BlobView {
                            namespace: d.namespace,
                            url: d.url,
                            title: d.title,
                            mime_type: mime_at(s, d.mime_idx),
                            data: bytes,
                        },
                    ),
                }
            },
        }
    }
}

/// The binary search of the URL table of archive `s`, between `lo` and
/// `hi`, for the entry whose namespace is `ns` and whose URL has the bytes
/// `url`: its index, `None` where the search ends empty, or the first error
/// met on the way.
pub open spec fn find_url_spec(s: Seq<u8>, ns: u8, url: Seq<u8>, lo: u32, hi: u32) -> Result<
    Option<u32>,
    Fault,
>
    decreases hi - lo,
{
    if lo >= hi {
        Ok(None)
    } else {
        let mid = (lo + (hi - lo) / 2) as u32;
        match dirent_at_index_spec(s, mid) {
            Err(e) => Err(e),
            Ok(d) => if key_lt(d.namespace, encode_utf8(d.url), ns, url) {
                find_url_spec(s, ns, url, (mid + 1) as u32, hi)
            } else if key_lt(ns, url, d.namespace, encode_utf8(d.url)) {
                find_url_spec(s, ns, url, lo, mid)
            } else {
                Ok(Some(mid))
            },
        }
    }
}

/// What looking up `(ns, url)` in archive `s` gives.
pub open spec fn get_spec(s: Seq<u8>, ns: u8, url: Seq<char>) -> Result<BlobView, Fault> {
    match find_url_spec(s, ns, encode_utf8(url), 0, hdr(s).article_count) {
        Err(e) => Err(e),
        Ok(None) => Err(Fault::NotFound { namespace: ns, url }),
        Ok(Some(i)) => blob_at_spec(s, i, 0),
    }
}

/// Reading from `before` to `after` left the cache as it was, or, where the
/// limit is not 0, holding at most the limit: a full cache is emptied before
/// a cluster is added.
pub open spec fn cache_within_limit(before: Reader, after: Reader) -> bool {
    ||| after.cached() == before.cached()
    ||| (after.limit() > 0 ==> after.cached() <= after.limit())
}

/// Random-access reader for ZIM archives.
pub struct Reader {
    data: Vec<u8>,
    size: u64,
    hdr: Header,
    mimes: Vec<String>,
    cache: FxHashMap<u32, CacheEntry>,
    max_cache: usize,
}

impl Reader {
    /// The bytes of the archive.
    pub closed spec fn bytes(&self) -> Seq<u8> {
        self.data@
    }

    /// The cache limit.
    pub closed spec fn limit(&self) -> usize {
        self.max_cache
    }

    /// How many decoded clusters the cache holds.
    pub closed spec fn cached(&self) -> nat {
        self.cache@.dom().len()
    }

    /// The clusters the cache holds decoded.
    pub closed spec fn cached_clusters(&self) -> Set<u32> {
        self.cache@.dom()
    }

    /// The cache is full: it has a limit, and holds that many clusters.
    pub open spec fn cache_full(&self) -> bool {
        self.limit() > 0 && self.cached() >= self.limit()
    }

    /// The reader is consistent: it holds an archive that opened, the header
    /// and MIME list read from it, and only correctly decoded clusters.
    pub closed spec fn wf(&self) -> bool {
        &&& open_spec(self.data@) is Ok
        &&& self.cache@.dom().finite()
        &&& self.size == self.data@.len()
        &&& self.hdr@ == hdr(self.data@)
        &&& self.mimes@.map_values(|m: String| m@) == mimes_of(self.data@)
        &&& forall|c: u32| #[trigger]
            self.cache@.contains_key(c) ==> cluster_spec(self.data@, c) == Ok::<
                ClusterView,
                Fault,
            >(ClusterView { data: self.cache@[c].data@, extended: self.cache@[c].extended })
    }
}

/// The header read from the first bytes of an archive equals the fields of the whole.
proof fn lemma_header_prefix(s: Seq<u8>)
    requires
        s.len() >= HEADER_LEN,
    ensures
        header_fields(s.subrange(0, HEADER_LEN as int)) == header_fields(s),
{
    let t = s.subrange(0, HEADER_LEN as int);
    assert(t.subrange(8, 24) =~= s.subrange(8, 24));
    assert forall|k: int| 0 <= k < 80 implies t[k] == s[k] by {}
}

impl Reader {
    /// Creates a reader from an in-memory byte buffer.
    pub fn from_bytes(data: Vec<u8>) -> (r: Result<Reader, Error>)
        ensures
            match r {
                Ok(rd) => open_spec(data@) is Ok && rd.wf() && rd.bytes() == data@ && rd.limit()
                    == DEFAULT_CACHE_LIMIT,
                Err(e) => open_spec(data@) == Err::<(), Fault>(e@),
            },
    {
        let size = data.len() as u64;
        if data.len() < HEADER_LEN {
            return Err(Error::ShortHeader(data.len()));
        }
        let hb = &data.as_slice()[0..HEADER_LEN];
        let hdr = match parse_header(hb) {
            Ok(h) => h,
            Err(e) => return Err(e),
        };
        proof {
            lemma_header_prefix(data@);
        }
        if hdr.mime_list_pos > hdr.url_ptr_pos || hdr.url_ptr_pos > size {
            return Err(Error::InconsistentHeaderOffsets);
        }
        let mime_start = hdr.mime_list_pos as usize;
        let mime_end = hdr.url_ptr_pos as usize;
        let mb = &data.as_slice()[mime_start..mime_end];
        let mimes = read_mime_list(mb);
        Ok(
            Reader {
                data,
                size,
                hdr,
                mimes,
                cache: cache_new(),
                max_cache: DEFAULT_CACHE_LIMIT,
            },
        )
    }
}

/// Reads the NUL-terminated MIME strings of `mb`.
fn read_mime_list(mb: &[u8]) -> (mimes: Vec<String>)
    ensures
        mimes@.map_values(|m: String| m@) == mime_list(mb@),
{
    let mut mimes: Vec<String> = Vec::new();
    let mut start: usize = 0;
    assert(mb@.skip(0) =~= mb@);
    loop
        invariant
            start <= mb@.len(),
            mime_list(mb@) == mimes@.map_values(|m: String| m@) + mime_list(mb@.skip(start as int)),
        decreases mb@.len() - start,
    {
        let ghost rest = mb@.skip(start as int);
        match find_nul(mb, start) {
            None => {
                assert(mimes@.map_values(|m: String| m@) + seq![] =~= mimes@.map_values(
                    |m: String| m@,
                ));
                return mimes;
            },
            Some(end) => {
                proof {
                    lemma_first_nul(rest);
                }
                if end == start {
                    assert(mimes@.map_values(|m: String| m@) + seq![] =~= mimes@.map_values(
                        |m: String| m@,
                    ));
                    return mimes;
                }
                assert(end - start < rest.len());
                let n = mb.len();
                assert(end < n);
                let ghost old_mimes = mimes@;
                let m = lossy_string(&mb[start..end]);
                assert(mb@.subrange(start as int, end as int) =~= rest.subrange(
                    0,
                    end - start,
                ));
                mimes.push(m);
                assert(rest.skip(end - start + 1) =~= mb@.skip(end + 1));
                assert(mimes@.map_values(|m: String| m@) =~= old_mimes.map_values(|m: String| m@)
                    + seq![lossy_utf8(rest.subrange(0, end - start))]);
                start = end + 1;
            },
        }
    }
}

} // verus!

verus! {

/// A prefix of `b` that holds a terminated string at `start` holds the same
/// string as `b`.
proof fn lemma_c_string_prefix(a: Seq<u8>, b: Seq<u8>, start: int)
    requires
        0 <= start,
        a.len() <= b.len(),
        b.subrange(0, a.len() as int) == a,
        c_string_at(a, start) is Some,
    ensures
        c_string_at(b, start) == c_string_at(a, start),
{
    let ra = a.skip(start);
    let rb = b.skip(start);
    lemma_first_nul(ra);
    let i = first_nul(ra);
    assert(rb.subrange(0, ra.len() as int) =~= ra);
    crate::text::lemma_first_nul_extend(ra, rb, i);
    assert(has_nul(rb));
    lemma_first_nul(rb);
    assert(b.subrange(start, start + i) =~= a.subrange(start, start + i));
}

/// The entry parsed from a window also comes out of every wider window.
proof fn lemma_dirent_wider(s: Seq<u8>, off: int, w1: int, w2: int)
    requires
        0 <= off <= s.len(),
        0 <= w1 <= w2,
        0 <= off,
        off <= u64::MAX,
        dirent_in(window(s, off, w1), off as u64) is Ok,
    ensures
        dirent_in(window(s, off, w2), off as u64) == dirent_in(window(s, off, w1), off as u64),
{
    reveal(dirent_in);
    let a = window(s, off, w1);
    let b = window(s, off, w2);
    assert(b.subrange(0, a.len() as int) =~= a);
    assert forall|k: int| 0 <= k < a.len() implies b[k] == a[k] by {
        assert(b[k] == b.subrange(0, a.len() as int)[k]);
    }
    let redirect = u16_at(a, 0) == REDIRECT_ENTRY;
    let p: int = if redirect {
        12
    } else {
        16
    };
    lemma_c_string_prefix(a, b, p);
    lemma_first_nul(a.skip(p));
    let n1 = c_string_at(a, p).unwrap().1;
    lemma_c_string_prefix(a, b, n1);
}

/// Where a window reaches the end of the archive, every wider one holds the
/// same bytes.
proof fn lemma_window_at_end(s: Seq<u8>, off: int, w1: int, w2: int)
    requires
        0 <= off <= s.len(),
        0 <= w1 <= w2,
        off + w1 >= s.len(),
    ensures
        window(s, off, w2) == window(s, off, w1),
{
}

/// Reads the NUL-terminated string at `start`, decoding it lossily.
fn read_c_string(b: &[u8], start: usize) -> (r: Option<(String, usize)>)
    ensures
        match (r, c_string_at(b@, start as int)) {
            (Some((st, n)), Some((u, m))) => st@ == lossy_utf8(u) && n == m,
            (None, None) => true,
            _ => false,
        },
{
    if start > b.len() {
        return None;
    }
    match find_nul(b, start) {
        None => None,
        Some(i) => {
            proof {
                lemma_first_nul(b@.skip(start as int));
            }
            let n = b.len();
            assert(i < n);
            let st = lossy_string(&b[start..i]);
            assert(b@.subrange(start as int, i as int) =~= b@.subrange(
                start as int,
                start + (i - start),
            ));
            Some((st, i + 1))
        },
    }
}

/// Parses the directory entry at the start of `b`; `off` is where `b`
/// starts in the archive.
fn parse_dirent(b: &[u8], off: u64) -> (r: Result<Dirent, Error>)
    requires
        b@.len() >= 16,
    ensures
        match r {
            Ok(d) => dirent_in(b@, off) == Ok::<DirentView, Fault>(d@),
            Err(e) => dirent_in(b@, off) == Err::<DirentView, Fault>(e@),
        },
{
    reveal(dirent_in);
    let mime_idx = le_u16(b, 0);
    let namespace = b[3];
    let redirect = mime_idx == REDIRECT_ENTRY;
    let mut cluster: u32 = 0;
    let mut blob: u32 = 0;
    let mut target_index: u32 = 0;
    let p: usize;
    if redirect {
        target_index = le_u32(b, 8);
        p = 12;
    } else {
        cluster = le_u32(b, 8);
        blob = le_u32(b, 12);
        p = 16;
    }
    match read_c_string(b, p) {
        None => Err(Error::UnterminatedUrl(off)),
        Some((url, n1)) => match read_c_string(b, n1) {
            None => Err(Error::UnterminatedTitle(off)),
            Some((title, _)) => Ok(
                Dirent {
                    mime_idx,
                    namespace,
                    url,
                    title,
                    cluster,
                    blob,
                    redirect,
                    target_index,
                },
            ),
        },
    }
}

/// Reads the little-endian integer of `width` bytes (8, or else 4) at `off`.
fn read_uint(b: &[u8], off: usize, width: usize) -> (v: u64)
    requires
        off + width <= b@.len(),
        width == 4 || width == 8,
    ensures
        v == read_uint_spec(b@, off as int, width as int),
{
    if width == 8 {
        le_u64(b, off)
    } else {
        le_u32(b, off) as u64
    }
}

impl Reader {
    /// Returns the number of directory entries.
    pub fn count(&self) -> (n: u32)
        requires
            self.wf(),
        ensures
            n == hdr(self.bytes()).article_count,
    {
        self.hdr.article_count
    }

    /// Returns the archive's MIME-type list.
    pub fn mime_types(&self) -> (m: &[String])
        requires
            self.wf(),
        ensures
            m@.map_values(|x: String| x@) == mimes_of(self.bytes()),
    {
        self.mimes.as_slice()
    }

    /// Sets the maximum number of decompressed clusters kept in memory.
    ///
    /// When the cache reaches this size, it is cleared before inserting the
    /// next entry.  The default is 64.  Pass 0 for unbounded (not recommended
    /// for long-running servers).
    pub fn set_cache_limit(&mut self, limit: usize)
        requires
            old(self).wf(),
        ensures
            final(self).wf(),
            final(self).bytes() == old(self).bytes(),
            final(self).limit() == limit,
    {
        self.max_cache = limit;
    }

    /// Returns the current cache limit (0 means unbounded).
    pub fn cache_limit(&self) -> (n: usize)
        ensures
            n == self.limit(),
    {
        self.max_cache
    }

    /// The directory entry at offset `off`.
    fn dirent_at(&self, off: u64) -> (r: Result<Dirent, Error>)
        requires
            self.wf(),
        ensures
            match r {
                Ok(d) => dirent_at_spec(self.bytes(), off) == Ok::<DirentView, Fault>(d@),
                Err(e) => dirent_at_spec(self.bytes(), off) == Err::<DirentView, Fault>(e@),
            },
    {
        reveal(dirent_in);
        let mut width: usize = 512;
        loop
            invariant
                self.wf(),
                width == 512 || width == 2048 || width == 8192 || width == 32768 || width
                    == 131072 || width == 524288 || width == 2097152,
            decreases MAX_WINDOW - width,
        {
            if off > self.size {
                return Err(Error::Io(unexpected_eof()));
            }
            let start = off as usize;
            let data = self.data.as_slice();
            let end = if start.saturating_add(width) < data.len() {
                start.saturating_add(width)
            } else {
                data.len()
            };
            let b = &data[start..end];
            assert(b@ == window(self.bytes(), off as int, width as int));
            if b.len() < 16 {
                proof {
                    reveal(dirent_in);
                    lemma_window_at_end(self.bytes(), off as int, width as int, MAX_WINDOW as int);
                }
                return Err(Error::UnterminatedUrl(off));
            }
            match parse_dirent(b, off) {
                Ok(d) => {
                    proof {
                        lemma_dirent_wider(
                            self.bytes(),
                            off as int,
                            width as int,
                            MAX_WINDOW as int,
                        );
                    }
                    return Ok(d);
                },
                Err(e) => {
                    if width >= 1048576 || width as u64 >= self.size - off {
                        proof {
                            if width < 1048576 {
                                lemma_window_at_end(
                                    self.bytes(),
                                    off as int,
                                    width as int,
                                    MAX_WINDOW as int,
                                );
                            }
                        }
                        return Err(e);
                    }
                    width = width * 4;
                },
            }
        }
    }

    /// The directory entry that the URL table lists at `idx`.
    fn dirent_at_index(&self, idx: u32) -> (r: Result<Dirent, Error>)
        requires
            self.wf(),
        ensures
            match r {
                Ok(d) => dirent_at_index_spec(self.bytes(), idx) == Ok::<DirentView, Fault>(d@),
                Err(e) => dirent_at_index_spec(self.bytes(), idx) == Err::<DirentView, Fault>(
                    e@,
                ),
            },
    {
        let base = self.hdr.url_ptr_pos;
        let step = 8 * (idx as u64);
        if base > self.size || step > self.size - base || self.size - base - step < 8 {
            return Err(Error::Io(unexpected_eof()));
        }
        let n = self.data.len();
        let off = le_u64(self.data.as_slice(), (base + step) as usize);
        self.dirent_at(off)
    }

    /// The offset at which cluster `c` starts.
    fn cluster_offset(&self, c: u32) -> (r: Result<u64, Error>)
        requires
            self.wf(),
        ensures
            match r {
                Ok(v) => cluster_offset_spec(self.bytes(), c) == Ok::<u64, Fault>(v),
                Err(e) => cluster_offset_spec(self.bytes(), c) == Err::<u64, Fault>(e@),
            },
    {
        let base = self.hdr.cluster_ptr_pos;
        let step = 8 * (c as u64);
        if base > self.size || step > self.size - base || self.size - base - step < 8 {
            return Err(Error::Io(unexpected_eof()));
        }
        let n = self.data.len();
        Ok(le_u64(self.data.as_slice(), (base + step) as usize))
    }
}

} // verus!

verus! {

/// Copies a string slice into an owned `String`.
pub fn owned(s: &str) -> (r: String)
    ensures
        r@ == s@,
{
    broadcast use vstd::string::to_string_from_display_ensures_for_str;

    s.to_string()
}

/// What `main_page` gives for archive `s`.
pub open spec fn main_page_spec(s: Seq<u8>) -> Result<BlobView, Fault> {
    if hdr(s).main_page == NO_MAIN_PAGE {
        Err(Fault::NoMainPage)
    } else {
        blob_at_spec(s, hdr(s).main_page, 0)
    }
}

/// The stored entry at URL index `idx` of archive `s`: a redirect names its
/// target, a content entry carries its blob and MIME type.
#[verifier::opaque]
pub open spec fn entry_at_spec(s: Seq<u8>, idx: u32) -> Result<EntryView, Fault> {
    match dirent_at_index_spec(s, idx) {
        Err(e) => Err(e),
        Ok(d) => if d.redirect {
            match dirent_at_index_spec(s, d.target_index) {
                Err(e) => Err(e),
                Ok(t) => Ok(
                    EntryView {
                        namespace: d.namespace,
                        url: d.url,
                        title: d.title,
                        mime_type: seq![],
                        redirect: true,
                        redirect_namespace: t.namespace,
                        redirect_url: t.url,
                        data: seq![],
                    },
                ),
            }
        } else {
            match blob_data_spec(s, d.cluster, d.blob) {
                Err(e) => Err(e),
                Ok(bytes) => Ok(
                    EntryView {
                        namespace: d.namespace,
                        url: d.url,
                        title: d.title,
                        mime_type: mime_at(s, d.mime_idx),
                        redirect: false,
                        redirect_namespace: 0,
                        redirect_url: seq![],
                        data: bytes,
                    },
                ),
            }
        },
    }
}

impl Reader {
    /// Makes sure cluster `c` is decoded in the cache.
    fn cluster_data(&mut self, c: u32) -> (r: Result<(), Error>)
        requires
            old(self).wf(),
        ensures
            final(self).wf(),
            final(self).bytes() == old(self).bytes(),
            final(self).limit() == old(self).limit(),
            cache_within_limit(*old(self), *final(self)),
            old(self).cached_clusters().contains(c) ==> r is Ok && final(self).cached_clusters()
                == old(self).cached_clusters(),
            !old(self).cached_clusters().contains(c) ==> final(self).cached_clusters() == (if old(
                self,
            ).cache_full() {
                Set::<u32>::empty()
            } else {
                old(self).cached_clusters()
            }) + (if r is Ok {
                set![c]
            } else {
                Set::<u32>::empty()
            }),
            match r {
                Ok(_) => final(self).cache@.contains_key(c),
                Err(e) => cluster_spec(old(self).bytes(), c) == Err::<ClusterView, Fault>(e@),
            },
    {
        reveal(cluster_spec);
        if cache_get(&self.cache, c).is_some() {
            return Ok(());
        }
        // Evict all entries when the cache fills up.

        if self.max_cache > 0 && cache_len(&self.cache) >= self.max_cache {
            cache_clear(&mut self.cache);
        }
        let start = self.cluster_offset(c)?;
        let end = if (c as u64) + 1 < self.hdr.cluster_count as u64 {
            self.cluster_offset(c + 1)?
        } else {
            self.hdr.checksum_pos
        };
        if start >= end || end > self.size {
            return Err(Error::BadClusterBounds(c));
        }
        let n = self.data.len();
        let raw = &self.data.as_slice()[start as usize..end as usize];
        let info = raw[0];
        let comp = info & 0x0f;
        let extended = info & EXTENDED_FLAG != 0;
        let body = &raw[1..raw.len()];
        assert(body@ =~= self.bytes().subrange(start + 1, end as int));
        let data = if comp == 0 || comp == COMP_NONE {
            vstd::slice::slice_to_vec(body)
        } else if comp == COMP_ZSTD {
            zstd_decode(body)?
        } else if comp == COMP_XZ {
            return Err(Error::UnsupportedXz);
        } else {
            return Err(Error::UnsupportedCompression(comp));
        };
        assert(cluster_spec(self.bytes(), c) == Ok::<ClusterView, Fault>(
            ClusterView { data: data@, extended },
        ));
        cache_insert(&mut self.cache, c, CacheEntry { data, extended });
        Ok(())
    }

    /// The bytes of blob `b` of cluster `c`.
    fn blob_data(&mut self, c: u32, b: u32) -> (r: Result<Vec<u8>, Error>)
        requires
            old(self).wf(),
        ensures
            final(self).wf(),
            final(self).bytes() == old(self).bytes(),
            final(self).limit() == old(self).limit(),
            cache_within_limit(*old(self), *final(self)),
            match r {
                Ok(v) => blob_data_spec(old(self).bytes(), c, b) == Ok::<Seq<u8>, Fault>(v@),
                Err(e) => blob_data_spec(old(self).bytes(), c, b) == Err::<Seq<u8>, Fault>(e@),
            },
    {
        self.cluster_data(c)?;
        let entry = cache_get(&self.cache, c).unwrap();
        let data = entry.data.as_slice();
        let width: usize = if entry.extended {
            8
        } else {
            4
        };
        let need = (b as u64 + 2) * (width as u64);
        if need > usize::MAX as u64 {
            return Err(Error::SizeOverflow);
        }
        if need as usize > data.len() {
            return Err(Error::BlobOutOfRange { cluster: c, blob: b });
        }
        assert((b as int + 1) * (width as int) + width == (b as int + 2) * (width as int)) by (nonlinear_arith);
        assert((b as int) * (width as int) + width == (b as int + 1) * (width as int)) by (nonlinear_arith);
        let o0 = read_uint(data, b as usize * width, width);
        let o1 = read_uint(data, (b as usize + 1) * width, width);
        if o0 > usize::MAX as u64 || o1 > usize::MAX as u64 {
            return Err(Error::SizeOverflow);
        }
        if o0 > o1 || o1 as usize > data.len() {
            return Err(Error::BadBlobOffsets(c));
        }
        Ok(vstd::slice::slice_to_vec(&data[o0 as usize..o1 as usize]))
    }

    /// The blob that the entry at URL index `idx` resolves to, following
    /// redirects; `hop` redirects have been followed already.
    fn blob_at_index(&mut self, idx: u32, hop: u8) -> (r: Result<Blob, Error>)
        requires
            old(self).wf(),
            hop <= MAX_REDIRECT_HOPS + 1,
        ensures
            final(self).wf(),
            final(self).bytes() == old(self).bytes(),
            final(self).limit() == old(self).limit(),
            cache_within_limit(*old(self), *final(self)),
            match r {
                Ok(v) => blob_at_spec(old(self).bytes(), idx, hop) == Ok::<BlobView, Fault>(v@),
                Err(e) => blob_at_spec(old(self).bytes(), idx, hop) == Err::<BlobView, Fault>(
                    e@,
                ),
            },
        decreases MAX_REDIRECT_HOPS + 1 - hop,
    {
        reveal(blob_at_spec);
        if hop > MAX_REDIRECT_HOPS {
            return Err(Error::RedirectLoop);
        }
        let d = self.dirent_at_index(idx)?;
        if d.redirect {
            return self.blob_at_index(d.target_index, hop + 1);
        }
        let data = self.blob_data(d.cluster, d.blob)?;
        let mime_type = self.mime_of(d.mime_idx);
        Ok(
            Blob {
                namespace: d.namespace,
                url: d.url,
                title: d.title,
                mime_type,
                data,
            },
        )
    }

    /// The MIME type at `idx` of the list, or the empty string past its end.
    fn mime_of(&self, idx: u16) -> (m: String)
        requires
            self.wf(),
        ensures
            m@ == mime_at(self.bytes(), idx),
    {
        if (idx as usize) < self.mimes.len() {
            assert(self.mimes@.map_values(|m: String| m@)[idx as int] == self.mimes@[idx as int]@);
            self.mimes[idx as usize].clone()
        } else {
            String::new()
        }
    }

    /// Resolves the entry at `(namespace, url)`, following redirects.
    pub fn get(&mut self, namespace: u8, url: &str) -> (r: Result<Blob, Error>)
        requires
            old(self).wf(),
        ensures
            final(self).wf(),
            final(self).bytes() == old(self).bytes(),
            final(self).limit() == old(self).limit(),
            cache_within_limit(*old(self), *final(self)),
            match r {
                Ok(v) => get_spec(old(self).bytes(), namespace, url@) == Ok::<BlobView, Fault>(v@),
                Err(e) => get_spec(old(self).bytes(), namespace, url@) == Err::<BlobView, Fault>(
                    e@,
                ),
            },
    {
        match self.find_url(namespace, url) {
            Err(e) => Err(e),
            Ok(None) => Err(Error::NotFound { namespace, url: owned(url) }),
            Ok(Some(i)) => self.blob_at_index(i, 0),
        }
    }

    /// Binary-searches the URL table for `(namespace, url)`.
    fn find_url(&self, namespace: u8, url: &str) -> (r: Result<Option<u32>, Error>)
        requires
            self.wf(),
        ensures
            match r {
                Ok(v) => find_url_spec(
                    self.bytes(),
                    namespace,
                    encode_utf8(url@),
                    0,
                    hdr(self.bytes()).article_count,
                ) == Ok::<Option<u32>, Fault>(v),
                Err(e) => find_url_spec(
                    self.bytes(),
                    namespace,
                    encode_utf8(url@),
                    0,
                    hdr(self.bytes()).article_count,
                ) == Err::<Option<u32>, Fault>(e@),
            },
    {
        let target = url.as_bytes();
        let ghost t = encode_utf8(url@);
        let mut lo: u32 = 0;
        let mut hi: u32 = self.hdr.article_count;
        while lo < hi
            invariant
                self.wf(),
                target@ == t,
                t == encode_utf8(url@),
                lo <= hi,
                find_url_spec(self.bytes(), namespace, t, 0, hdr(self.bytes()).article_count)
                    == find_url_spec(self.bytes(), namespace, t, lo, hi),
            decreases hi - lo,
        {
            let mid = lo + (hi - lo) / 2;
            let d = match self.dirent_at_index(mid) {
                Ok(d) => d,
                Err(e) => {
                    assert(find_url_spec(self.bytes(), namespace, t, lo, hi) == Err::<
                        Option<u32>,
                        Fault,
                    >(e@));
                    return Err(e);
                },
            };
            let db = d.url.as_str().as_bytes();
            assert(db@ == encode_utf8(d.url@));
            match compare_keys(d.namespace, db, namespace, target) {
                KeyOrder::Less => lo = mid + 1,
                KeyOrder::Greater => hi = mid,
                KeyOrder::Equal => return Ok(Some(mid)),
            }
        }
        Ok(None)
    }

    /// Returns the archive's entry point, or an error if none is set.
    pub fn main_page(&mut self) -> (r: Result<Blob, Error>)
        requires
            old(self).wf(),
        ensures
            final(self).wf(),
            final(self).bytes() == old(self).bytes(),
            final(self).limit() == old(self).limit(),
            cache_within_limit(*old(self), *final(self)),
            match r {
                Ok(v) => main_page_spec(old(self).bytes()) == Ok::<BlobView, Fault>(v@),
                Err(e) => main_page_spec(old(self).bytes()) == Err::<BlobView, Fault>(e@),
            },
    {
        if self.hdr.main_page == NO_MAIN_PAGE {
            return Err(Error::NoMainPage);
        }
        self.blob_at_index(self.hdr.main_page, 0)
    }

    /// Returns the namespace and URL of the archive's entry point.
    pub fn main_page_ref(&self) -> (r: Result<Option<(u8, String)>, Error>)
        requires
            self.wf(),
        ensures
            hdr(self.bytes()).main_page == NO_MAIN_PAGE ==> r matches Ok(None),
            hdr(self.bytes()).main_page != NO_MAIN_PAGE ==> match r {
                Ok(Some((ns, u))) => dirent_at_index_spec(self.bytes(), hdr(self.bytes()).main_page)
                    matches Ok(d) && d.namespace == ns && d.url == u@,
                Ok(None) => false,
                Err(e) => dirent_at_index_spec(self.bytes(), hdr(self.bytes()).main_page)
                    == Err::<DirentView, Fault>(e@),
            },
    {
        if self.hdr.main_page == NO_MAIN_PAGE {
            return Ok(None);
        }
        let d = self.dirent_at_index(self.hdr.main_page)?;
        Ok(Some((d.namespace, d.url)))
    }

    /// Returns one stored directory entry in URL order.
    pub fn entry_at(&mut self, idx: u32) -> (r: Result<Entry, Error>)
        requires
            old(self).wf(),
        ensures
            final(self).wf(),
            final(self).bytes() == old(self).bytes(),
            final(self).limit() == old(self).limit(),
            cache_within_limit(*old(self), *final(self)),
            match r {
                Ok(v) => entry_at_spec(old(self).bytes(), idx) == Ok::<EntryView, Fault>(v@),
                Err(e) => entry_at_spec(old(self).bytes(), idx) == Err::<EntryView, Fault>(e@),
            },
    {
        reveal(entry_at_spec);
        let d = self.dirent_at_index(idx)?;
        if d.redirect {
            let td = self.dirent_at_index(d.target_index)?;
            return Ok(
                Entry {
                    namespace: d.namespace,
                    url: d.url,
                    title: d.title,
                    mime_type: String::new(),
                    redirect: true,
                    redirect_namespace: td.namespace,
                    redirect_url: td.url,
                    data: Vec::new(),
                },
            );
        }
        let data = self.blob_data(d.cluster, d.blob)?;
        let mime_type = self.mime_of(d.mime_idx);
        Ok(
            Entry {
                namespace: d.namespace,
                url: d.url,
                title: d.title,
                mime_type,
                redirect: false,
                redirect_namespace: 0,
                redirect_url: String::new(),
                data,
            },
        )
    }
}

} // verus!

verus! {

/// The archive's checksum verifies: the 16 bytes at the checksum position
/// are the MD5 digest of everything before them.
pub open spec fn check_spec(s: Seq<u8>) -> bool {
    let cp = hdr(s).checksum_pos;
    cp + 16 <= s.len() && md5_digest(s.subrange(0, cp as int)) == s.subrange(
        cp as int,
        cp + 16,
    )
}

/// `a + b`, capped at `usize::MAX`.
pub open spec fn sat_add(a: int, b: int) -> int {
    if a + b > usize::MAX {
        usize::MAX as int
    } else {
        a + b
    }
}

/// The part of the blob `d[o0..o1]` that a range read of `len` bytes from
/// `offset` gives, with the blob's size; a range that starts at or past the
/// end of the blob gives nothing.
pub open spec fn range_in(d: Seq<u8>, o0: int, o1: int, offset: u64, len: u64) -> (Seq<u8>, u64) {
    let size = (o1 - o0) as u64;
    let bs = sat_add(o0, (offset as usize) as int);
    let be = min_int(o1, sat_add(bs, (len as usize) as int));
    if bs >= be || bs >= d.len() {
        (seq![], size)
    } else {
        (d.subrange(bs, be), size)
    }
}

/// The non-redirect entry that URL index `idx` leads to, following at most
/// `MAX_REDIRECT_HOPS - hop` redirects.
pub open spec fn resolve_spec(s: Seq<u8>, idx: u32, hop: u8) -> Result<DirentView, Fault>
    decreases MAX_REDIRECT_HOPS - hop,
{
    match dirent_at_index_spec(s, idx) {
        Err(e) => Err(e),
        Ok(d) => if !d.redirect {
            Ok(d)
        } else if hop >= MAX_REDIRECT_HOPS {
            Err(Fault::RedirectLoop)
        } else {
            resolve_spec(s, d.target_index, (hop + 1) as u8)
        },
    }
}

/// What a range read of blob `b` of cluster `c` gives.
pub open spec fn blob_range_spec(s: Seq<u8>, c: u32, b: u32, offset: u64, len: u64) -> Result<
    (Seq<u8>, u64),
    Fault,
> {
    match cluster_spec(s, c) {
        Err(e) => Err(e),
        Ok(cl) => match blob_bounds_spec(cl, c, b) {
            Err(e) => Err(e),
            Ok((o0, o1)) => Ok(range_in(cl.data, o0, o1, offset, len)),
        },
    }
}

/// What `get_range` gives for `(ns, url)` in archive `s`.
pub open spec fn get_range_spec(s: Seq<u8>, ns: u8, url: Seq<char>, offset: u64, len: u64) -> Result<
    (Seq<u8>, u64),
    Fault,
> {
    match find_url_spec(s, ns, encode_utf8(url), 0, hdr(s).article_count) {
        Err(e) => Err(e),
        Ok(None) => Err(Fault::NotFound { namespace: ns, url }),
        Ok(Some(i)) => match resolve_spec(s, i, 0) {
            Err(e) => Err(e),
            Ok(d) => blob_range_spec(s, d.cluster, d.blob, offset, len),
        },
    }
}

impl Reader {
    /// Verifies the trailing MD5 checksum against the archive body.
    pub fn check(&self) -> (r: Result<bool, Error>)
        requires
            self.wf(),
        ensures
            r matches Ok(ok) && ok == check_spec(self.bytes()),
    {
        let cp = self.hdr.checksum_pos;
        if cp > self.size || self.size - cp < 16 {
            return Ok(false);
        }
        let n = self.data.len();
        let data = self.data.as_slice();
        let digest = md5(&data[0..cp as usize]);
        let expected = &data[cp as usize..cp as usize + 16];
        Ok(bytes_eq(digest.as_slice(), expected))
    }

    /// Reads a byte range `[offset, offset+len)` from a blob.
    ///
    /// For uncompressed clusters the range is sliced directly from the
    /// backing store without decompressing. For compressed clusters the
    /// containing cluster is decompressed and cached as usual, then the
    /// range is extracted.
    pub fn get_range(&mut self, namespace: u8, url: &str, offset: u64, len: u64) -> (r: Result<
        (Vec<u8>, u64),
        Error,
    >)
        requires
            old(self).wf(),
        ensures
            final(self).wf(),
            final(self).bytes() == old(self).bytes(),
            final(self).limit() == old(self).limit(),
            cache_within_limit(*old(self), *final(self)),
            match r {
                Ok((v, n)) => get_range_spec(old(self).bytes(), namespace, url@, offset, len) == Ok::<
                    (Seq<u8>, u64),
                    Fault,
                >((v@, n)),
                Err(e) => get_range_spec(old(self).bytes(), namespace, url@, offset, len) == Err::<
                    (Seq<u8>, u64),
                    Fault,
                >(e@),
            },
    {
        let idx = match self.find_url(namespace, url) {
            Err(e) => return Err(e),
            Ok(None) => return Err(Error::NotFound { namespace, url: owned(url) }),
            Ok(Some(i)) => i,
        };
        let d = self.resolve(idx, 0)?;
        self.blob_data_range(d.cluster, d.blob, offset, len)
    }

    /// Follows redirects from URL index `idx` to a content entry.
    fn resolve(&self, idx: u32, hop: u8) -> (r: Result<Dirent, Error>)
        requires
            self.wf(),
            hop <= MAX_REDIRECT_HOPS,
        ensures
            match r {
                Ok(d) => resolve_spec(self.bytes(), idx, hop) == Ok::<DirentView, Fault>(d@),
                Err(e) => resolve_spec(self.bytes(), idx, hop) == Err::<DirentView, Fault>(e@),
            },
        decreases MAX_REDIRECT_HOPS - hop,
    {
        let d = self.dirent_at_index(idx)?;
        if !d.redirect {
            return Ok(d);
        }
        if hop >= MAX_REDIRECT_HOPS {
            return Err(Error::RedirectLoop);
        }
        self.resolve(d.target_index, hop + 1)
    }

    /// Like `blob_data` but returns only the requested byte range.
    fn blob_data_range(&mut self, c: u32, b: u32, offset: u64, len: u64) -> (r: Result<
        (Vec<u8>, u64),
        Error,
    >)
        requires
            old(self).wf(),
        ensures
            final(self).wf(),
            final(self).bytes() == old(self).bytes(),
            final(self).limit() == old(self).limit(),
            cache_within_limit(*old(self), *final(self)),
            match r {
                Ok((v, n)) => blob_range_spec(old(self).bytes(), c, b, offset, len) == Ok::<
                    (Seq<u8>, u64),
                    Fault,
                >((v@, n)),
                Err(e) => blob_range_spec(old(self).bytes(), c, b, offset, len) == Err::<
                    (Seq<u8>, u64),
                    Fault,
                >(e@),
            },
    {
        reveal(cluster_spec);
        let start = self.cluster_offset(c)?;
        let end = if (c as u64) + 1 < self.hdr.cluster_count as u64 {
            self.cluster_offset(c + 1)?
        } else {
            self.hdr.checksum_pos
        };
        if start >= end || end > self.size {
            return Err(Error::BadClusterBounds(c));
        }
        let n = self.data.len();
        let info = self.data[start as usize];
        let comp = info & 0x0f;
        let extended = info & EXTENDED_FLAG != 0;
        let width: usize = if extended {
            8
        } else {
            4
        };
        if comp == 0 || comp == COMP_NONE {
            // For uncompressed clusters, read the offset table and slice the
            // requested range directly from the archive bytes.
            let body = &self.data.as_slice()[start as usize + 1..end as usize];
            assert(body@ =~= self.bytes().subrange(start + 1, end as int));
            assert(cluster_spec(self.bytes(), c) == Ok::<ClusterView, Fault>(
                ClusterView { data: body@, extended },
            ));
            return range_of_blob(body, c, b, width, offset, len);
        }
        // For compressed clusters, decompress and cache, then slice.

        self.cluster_data(c)?;
        let entry = cache_get(&self.cache, c).unwrap();
        assert(entry.extended == extended);
        range_of_blob(entry.data.as_slice(), c, b, width, offset, len)
    }
}

/// Slices `len` bytes from `offset` out of blob `b` of the decoded cluster
/// `data` (cluster `c`, offsets `width` bytes wide).
fn range_of_blob(data: &[u8], c: u32, b: u32, width: usize, offset: u64, len: u64) -> (r: Result<
    (Vec<u8>, u64),
    Error,
>)
    requires
        width == 4 || width == 8,
    ensures
        ({
            let cl = ClusterView { data: data@, extended: width == 8 };
            match r {
                Ok((v, n)) => match blob_bounds_spec(cl, c, b) {
                    Ok((o0, o1)) => range_in(data@, o0, o1, offset, len) == (v@, n),
                    Err(_) => false,
                },
                Err(e) => blob_bounds_spec(cl, c, b) == Err::<(int, int), Fault>(e@),
            }
        }),
{
    let need = (b as u64 + 2) * (width as u64);
    if need > usize::MAX as u64 {
        return Err(Error::SizeOverflow);
    }
    if need as usize > data.len() {
        return Err(Error::BlobOutOfRange { cluster: c, blob: b });
    }
    let o0 = read_uint(data, b as usize * width, width);
    let o1 = read_uint(data, (b as usize + 1) * width, width);
    if o0 > usize::MAX as u64 || o1 > usize::MAX as u64 {
        return Err(Error::SizeOverflow);
    }
    if o0 > o1 || o1 as usize > data.len() {
        return Err(Error::BadBlobOffsets(c));
    }
    let blob_size = o1 - o0;
    let blob_start = (o0 as usize).saturating_add(offset as usize);
    let blob_end = if (o1 as usize) < blob_start.saturating_add(len as usize) {
        o1 as usize
    } else {
        blob_start.saturating_add(len as usize)
    };
    if blob_start >= blob_end || blob_start >= data.len() {
        return Ok((Vec::new(), blob_size));
    }
    Ok((vstd::slice::slice_to_vec(&data[blob_start..blob_end]), blob_size))
}

} // verus!

verus! {

/// The size of the title pointer table as a title lookup computes it: the
/// bytes from the title table to the cluster table, none if they are out of
/// order.
pub open spec fn title_table_size_spec(s: Seq<u8>) -> Result<int, Fault> {
    let h = hdr(s);
    let d: int = if h.cluster_ptr_pos > h.title_ptr_pos {
        h.cluster_ptr_pos - h.title_ptr_pos
    } else {
        0
    };
    if d > usize::MAX {
        Err(Fault::SizeOverflow)
    } else {
        Ok(d)
    }
}

/// The URL index at position `i` of a title table of `tps` bytes. An entry
/// past the table, or a table past the end of the archive, is an I/O error.
pub open spec fn title_entry_spec(s: Seq<u8>, tps: int, i: u32) -> Result<u32, Fault> {
    let tp = hdr(s).title_ptr_pos;
    if tp + tps > s.len() || 4 * i + 4 > tps {
        Err(Fault::Io)
    } else {
        Ok(u32_at(s, tp + 4 * i))
    }
}

/// The URL index at position `i` of the title table, which runs from the
/// title pointer position to the cluster pointer position.
pub open spec fn title_index_spec(s: Seq<u8>, i: u32) -> Result<u32, Fault> {
    let h = hdr(s);
    if h.title_ptr_pos > h.cluster_ptr_pos {
        Err(Fault::Io)
    } else {
        title_entry_spec(s, h.cluster_ptr_pos - h.title_ptr_pos, i)
    }
}

/// The directory entry at position `i` of the title table.
pub open spec fn dirent_at_title_index_spec(s: Seq<u8>, i: u32) -> Result<DirentView, Fault> {
    match title_index_spec(s, i) {
        Err(e) => Err(e),
        Ok(u) => dirent_at_index_spec(s, u),
    }
}

/// The binary search of the title table (of `tps` bytes) between `lo` and
/// `hi` for the first position whose key is not below `(ns, t)`.
pub open spec fn lower_bound_spec(s: Seq<u8>, ns: u8, t: Seq<u8>, tps: int, lo: u32, hi: u32) -> Result<
    u32,
    Fault,
>
    decreases hi - lo,
{
    if lo >= hi {
        Ok(lo)
    } else {
        let mid = (lo + (hi - lo) / 2) as u32;
        match title_entry_spec(s, tps, mid) {
            Err(e) => Err(e),
            Ok(u) => match dirent_at_index_spec(s, u) {
                Err(e) => Err(e),
                Ok(d) => if key_lt(d.namespace, encode_utf8(d.title), ns, t) {
                    lower_bound_spec(s, ns, t, tps, (mid + 1) as u32, hi)
                } else {
                    lower_bound_spec(s, ns, t, tps, lo, mid)
                },
            },
        }
    }
}

/// The first title position whose key is not below `(ns, t)`.
pub open spec fn lower_bound_title_spec(s: Seq<u8>, ns: u8, t: Seq<u8>, tps: int) -> Result<
    u32,
    Fault,
> {
    if hdr(s).title_ptr_pos + tps > s.len() {
        Err(Fault::Io)
    } else {
        lower_bound_spec(s, ns, t, tps, 0, hdr(s).article_count)
    }
}

/// The first title position, from `i` on, whose title has the bytes `t`.
pub open spec fn title_scan_spec(s: Seq<u8>, t: Seq<u8>, i: u32) -> Result<Option<u32>, Fault>
    decreases hdr(s).article_count - i,
{
    if i >= hdr(s).article_count {
        Ok(None)
    } else {
        match dirent_at_title_index_spec(s, i) {
            Err(e) => Err(e),
            Ok(d) => if encode_utf8(d.title) == t {
                Ok(Some(i))
            } else {
                title_scan_spec(s, t, (i + 1) as u32)
            },
        }
    }
}

/// What `get_by_title` gives for `(ns, title)` in archive `s`. Namespace 0
/// stands for any namespace: the first entry in title order with that title.
pub open spec fn get_by_title_spec(s: Seq<u8>, ns: u8, title: Seq<char>) -> Result<BlobView, Fault> {
    let t = encode_utf8(title);
    let count = hdr(s).article_count;
    let not_found = Fault::NotFound { namespace: ns, url: title };
    if ns == 0 {
        match title_scan_spec(s, t, 0) {
            Err(e) => Err(e),
            Ok(None) => Err(not_found),
            Ok(Some(i)) => match title_index_spec(s, i) {
                Err(e) => Err(e),
                Ok(u) => blob_at_spec(s, u, 0),
            },
        }
    } else {
        let tps = if count > 0 {
            title_table_size_spec(s)
        } else {
            Ok(0)
        };
        match tps {
            Err(e) => Err(e),
            Ok(tps) => match lower_bound_title_spec(s, ns, t, tps) {
                Err(e) => Err(e),
                Ok(lo) => if lo >= count {
                    Err(not_found)
                } else {
                    match dirent_at_title_index_spec(s, lo) {
                        Err(e) => Err(e),
                        Ok(d) => if d.namespace == ns && encode_utf8(d.title) == t {
                            match title_index_spec(s, lo) {
                                Err(e) => Err(e),
                                Ok(u) => blob_at_spec(s, u, 0),
                            }
                        } else {
                            Err(not_found)
                        },
                    }
                },
            },
        }
    }
}

/// The entries, from title position `i` on, whose title starts with the
/// bytes `p`, in any namespace.
pub open spec fn prefix_scan_any_spec(s: Seq<u8>, p: Seq<u8>, i: u32) -> Result<Seq<EntryView>, Fault>
    decreases hdr(s).article_count - i,
{
    if i >= hdr(s).article_count {
        Ok(seq![])
    } else {
        match dirent_at_title_index_spec(s, i) {
            Err(e) => Err(e),
            Ok(d) => if starts_with(encode_utf8(d.title), p) {
                match title_index_spec(s, i) {
                    Err(e) => Err(e),
                    Ok(u) => match entry_at_spec(s, u) {
                        Err(e) => Err(e),
                        Ok(ev) => match prefix_scan_any_spec(s, p, (i + 1) as u32) {
                            Err(e) => Err(e),
                            Ok(rest) => Ok(seq![ev] + rest),
                        },
                    },
                }
            } else {
                prefix_scan_any_spec(s, p, (i + 1) as u32)
            },
        }
    }
}

/// The entries of namespace `ns`, from title position `i` on, whose title
/// starts with `p`, up to the first title past the prefix's range.
pub open spec fn prefix_scan_spec(s: Seq<u8>, ns: u8, p: Seq<u8>, i: u32) -> Result<
    Seq<EntryView>,
    Fault,
>
    decreases hdr(s).article_count - i,
{
    if i >= hdr(s).article_count {
        Ok(seq![])
    } else {
        match dirent_at_title_index_spec(s, i) {
            Err(e) => Err(e),
            Ok(d) => if d.namespace != ns || !starts_with(encode_utf8(d.title), p) {
                if d.namespace > ns || (d.namespace == ns && lex_lt(p, encode_utf8(d.title))) {
                    Ok(seq![])
                } else {
                    prefix_scan_spec(s, ns, p, (i + 1) as u32)
                }
            } else {
                match title_index_spec(s, i) {
                    Err(e) => Err(e),
                    Ok(u) => match entry_at_spec(s, u) {
                        Err(e) => Err(e),
                        Ok(ev) => match prefix_scan_spec(s, ns, p, (i + 1) as u32) {
                            Err(e) => Err(e),
                            Ok(rest) => Ok(seq![ev] + rest),
                        },
                    },
                }
            },
        }
    }
}

/// What `entries_by_title_prefix` gives for `(ns, prefix)` in archive `s`.
pub open spec fn entries_by_title_prefix_spec(s: Seq<u8>, ns: u8, prefix: Seq<char>) -> Result<
    Seq<EntryView>,
    Fault,
> {
    let p = encode_utf8(prefix);
    if hdr(s).article_count == 0 {
        Ok(seq![])
    } else {
        match title_table_size_spec(s) {
            Err(e) => Err(e),
            Ok(tps) => if ns == 0 {
                prefix_scan_any_spec(s, p, 0)
            } else {
                match lower_bound_title_spec(s, ns, p, tps) {
                    Err(e) => Err(e),
                    Ok(lo) => prefix_scan_spec(s, ns, p, lo),
                }
            },
        }
    }
}

impl Reader {
    /// The URL index at position `i` of the title table of `tps` bytes.
    fn title_entry(&self, tps: usize, i: u32) -> (r: Result<u32, Error>)
        requires
            self.wf(),
        ensures
            match r {
                Ok(u) => title_entry_spec(self.bytes(), tps as int, i) == Ok::<u32, Fault>(u),
                Err(e) => title_entry_spec(self.bytes(), tps as int, i) == Err::<u32, Fault>(e@),
            },
    {
        let tp = self.hdr.title_ptr_pos;
        if tp > self.size || tps as u64 > self.size - tp || 4 * (i as u64) + 4 > tps as u64 {
            return Err(Error::Io(unexpected_eof()));
        }
        let n = self.data.len();
        Ok(le_u32(self.data.as_slice(), (tp + 4 * (i as u64)) as usize))
    }

    /// The URL index at position `i` of the title table.
    fn title_index_to_url_index(&self, i: u32) -> (r: Result<u32, Error>)
        requires
            self.wf(),
        ensures
            match r {
                Ok(u) => title_index_spec(self.bytes(), i) == Ok::<u32, Fault>(u),
                Err(e) => title_index_spec(self.bytes(), i) == Err::<u32, Fault>(e@),
            },
    {
        if self.hdr.title_ptr_pos > self.hdr.cluster_ptr_pos {
            return Err(Error::Io(unexpected_eof()));
        }
        let d = self.hdr.cluster_ptr_pos - self.hdr.title_ptr_pos;
        let n = self.data.len();
        if d > self.size {
            return Err(Error::Io(unexpected_eof()));
        }
        self.title_entry(d as usize, i)
    }

    /// The directory entry at position `i` of the title table.
    fn dirent_at_title_index(&self, i: u32) -> (r: Result<Dirent, Error>)
        requires
            self.wf(),
        ensures
            match r {
                Ok(d) => dirent_at_title_index_spec(self.bytes(), i) == Ok::<DirentView, Fault>(
                    d@,
                ),
                Err(e) => dirent_at_title_index_spec(self.bytes(), i) == Err::<DirentView, Fault>(
                    e@,
                ),
            },
    {
        let u = self.title_index_to_url_index(i)?;
        self.dirent_at_index(u)
    }

    /// The size of the title table as lookups compute it.
    fn title_table_size(&self) -> (r: Result<usize, Error>)
        requires
            self.wf(),
        ensures
            match r {
                Ok(n) => title_table_size_spec(self.bytes()) == Ok::<int, Fault>(n as int),
                Err(e) => title_table_size_spec(self.bytes()) == Err::<int, Fault>(e@),
            },
    {
        let d = self.hdr.cluster_ptr_pos.saturating_sub(self.hdr.title_ptr_pos);
        if d > usize::MAX as u64 {
            return Err(Error::SizeOverflow);
        }
        Ok(d as usize)
    }

    /// Returns the first title index whose key is not below `(ns, target)`.
    fn lower_bound_title(&self, ns: u8, target: &[u8], tps: usize) -> (r: Result<u32, Error>)
        requires
            self.wf(),
        ensures
            match r {
                Ok(v) => lower_bound_title_spec(self.bytes(), ns, target@, tps as int) == Ok::<
                    u32,
                    Fault,
                >(v),
                Err(e) => lower_bound_title_spec(self.bytes(), ns, target@, tps as int) == Err::<
                    u32,
                    Fault,
                >(e@),
            },
    {
        let tp = self.hdr.title_ptr_pos;
        if tp > self.size || tps as u64 > self.size - tp {
            return Err(Error::Io(unexpected_eof()));
        }
        let mut lo: u32 = 0;
        let mut hi: u32 = self.hdr.article_count;
        while lo < hi
            invariant
                self.wf(),
                lo <= hi,
                hdr(self.bytes()).title_ptr_pos + tps <= self.bytes().len(),
                lower_bound_title_spec(self.bytes(), ns, target@, tps as int)
                    == lower_bound_spec(self.bytes(), ns, target@, tps as int, lo, hi),
            decreases hi - lo,
        {
            let mid = lo + (hi - lo) / 2;
            let u = self.title_entry(tps, mid)?;
            let d = self.dirent_at_index(u)?;
            let db = d.title.as_str().as_bytes();
            match compare_keys(d.namespace, db, ns, target) {
                KeyOrder::Less => lo = mid + 1,
                _ => hi = mid,
            }
        }
        Ok(lo)
    }

    /// The first title position whose title has the bytes `t`, scanning the
    /// whole title table.
    fn scan_title(&self, t: &[u8]) -> (r: Result<Option<u32>, Error>)
        requires
            self.wf(),
        ensures
            match r {
                Ok(v) => title_scan_spec(self.bytes(), t@, 0) == Ok::<Option<u32>, Fault>(v),
                Err(e) => title_scan_spec(self.bytes(), t@, 0) == Err::<Option<u32>, Fault>(e@),
            },
    {
        let count = self.hdr.article_count;
        let mut i: u32 = 0;
        while i < count
            invariant
                self.wf(),
                count == hdr(self.bytes()).article_count,
                title_scan_spec(self.bytes(), t@, 0) == title_scan_spec(self.bytes(), t@, i),
            decreases count - i,
        {
            let d = self.dirent_at_title_index(i)?;
            if bytes_eq(d.title.as_str().as_bytes(), t) {
                return Ok(Some(i));
            }
            i = i + 1;
        }
        Ok(None)
    }

    /// The title position that a lookup of `(namespace, t)` in a namespace
    /// other than 0 lands on, if its entry has that namespace and title.
    fn find_title_in(&self, namespace: u8, t: &[u8]) -> (r: Result<Option<u32>, Error>)
        requires
            self.wf(),
            namespace != 0,
        ensures
            ({
                let s = self.bytes();
                let count = hdr(s).article_count;
                let tps = if count > 0 {
                    title_table_size_spec(s)
                } else {
                    Ok(0)
                };
                match r {
                    Ok(None) => match tps {
                        Ok(tps) => match lower_bound_title_spec(s, namespace, t@, tps) {
                            Ok(lo) => lo >= count || match dirent_at_title_index_spec(s, lo) {
                                Ok(d) => !(d.namespace == namespace && encode_utf8(d.title) == t@),
                                Err(_) => false,
                            },
                            Err(_) => false,
                        },
                        Err(_) => false,
                    },
                    Ok(Some(lo)) => match tps {
                        Ok(tps) => lower_bound_title_spec(s, namespace, t@, tps) == Ok::<
                            u32,
                            Fault,
                        >(lo) && lo < count && match dirent_at_title_index_spec(s, lo) {
                            Ok(d) => d.namespace == namespace && encode_utf8(d.title) == t@,
                            Err(_) => false,
                        },
                        Err(_) => false,
                    },
                    Err(e) => match tps {
                        Err(e2) => e2 == e@,
                        Ok(tps) => match lower_bound_title_spec(s, namespace, t@, tps) {
                            Err(e2) => e2 == e@,
                            Ok(lo) => lo < count && dirent_at_title_index_spec(s, lo) == Err::<
                                DirentView,
                                Fault,
                            >(e@),
                        },
                    },
                }
            }),
    {
        let count = self.hdr.article_count;
        let tps = if count > 0 {
            self.title_table_size()?
        } else {
            0
        };
        let lo = self.lower_bound_title(namespace, t, tps)?;
        if lo >= count {
            return Ok(None);
        }
        let d = self.dirent_at_title_index(lo)?;
        if d.namespace == namespace && bytes_eq(d.title.as_str().as_bytes(), t) {
            return Ok(Some(lo));
        }
        Ok(None)
    }

    /// Resolves an entry by title using the title pointer table.
    ///
    /// Returns the first entry whose title matches (case-sensitive).
    /// If there are multiple entries with the same title in different
    /// namespaces, `namespace` disambiguates; pass `namespace` from
    /// a prior listing to pick a specific one, or use `0` for any.
    pub fn get_by_title(&mut self, namespace: u8, title: &str) -> (r: Result<Blob, Error>)
        requires
            old(self).wf(),
        ensures
            final(self).wf(),
            final(self).bytes() == old(self).bytes(),
            final(self).limit() == old(self).limit(),
            cache_within_limit(*old(self), *final(self)),
            match r {
                Ok(v) => get_by_title_spec(old(self).bytes(), namespace, title@) == Ok::<
                    BlobView,
                    Fault,
                >(v@),
                Err(e) => get_by_title_spec(old(self).bytes(), namespace, title@) == Err::<
                    BlobView,
                    Fault,
                >(e@),
            },
    {
        let target = title.as_bytes();
        let found = if namespace == 0 {
            self.scan_title(target)
        } else {
            self.find_title_in(namespace, target)
        };
        match found {
            Err(e) => Err(e),
            Ok(None) => Err(Error::NotFound { namespace, url: owned(title) }),
            Ok(Some(i)) => {
                let u = self.title_index_to_url_index(i)?;
                self.blob_at_index(u, 0)
            },
        }
    }

    /// The entries, from title position `i` on, whose title starts with `p`,
    /// in any namespace.
    fn prefix_scan_any(&mut self, p: &[u8], i: u32) -> (r: Result<Vec<Entry>, Error>)
        requires
            old(self).wf(),
        ensures
            final(self).wf(),
            final(self).bytes() == old(self).bytes(),
            final(self).limit() == old(self).limit(),
            cache_within_limit(*old(self), *final(self)),
            match r {
                Ok(v) => prefix_scan_any_spec(old(self).bytes(), p@, i) == Ok::<
                    Seq<EntryView>,
                    Fault,
                >(v@.map_values(|e: Entry| e@)),
                Err(e) => prefix_scan_any_spec(old(self).bytes(), p@, i) == Err::<
                    Seq<EntryView>,
                    Fault,
                >(e@),
            },
        decreases hdr(old(self).bytes()).article_count - i,
    {
        if i >= self.hdr.article_count {
            let v: Vec<Entry> = Vec::new();
            assert(v@.map_values(|e: Entry| e@) =~= Seq::<EntryView>::empty());
            return Ok(v);
        }
        let d = self.dirent_at_title_index(i)?;
        if crate::codec::has_prefix(d.title.as_str().as_bytes(), p) {
            let u = self.title_index_to_url_index(i)?;
            let e = self.entry_at(u)?;
            let rest = self.prefix_scan_any(p, i + 1)?;
            let mut out: Vec<Entry> = Vec::new();
            out.push(e);
            let mut rest = rest;
            let ghost rv = rest@.map_values(|e: Entry| e@);
            out.append(&mut rest);
            assert(out@.map_values(|e: Entry| e@) =~= seq![out@[0]@] + rv);
            Ok(out)
        } else {
            self.prefix_scan_any(p, i + 1)
        }
    }

    /// The entries of namespace `ns`, from title position `i` on, whose
    /// title starts with `p`, up to the first title past the prefix's range.
    fn prefix_scan(&mut self, ns: u8, p: &[u8], i: u32) -> (r: Result<Vec<Entry>, Error>)
        requires
            old(self).wf(),
        ensures
            final(self).wf(),
            final(self).bytes() == old(self).bytes(),
            final(self).limit() == old(self).limit(),
            cache_within_limit(*old(self), *final(self)),
            match r {
                Ok(v) => prefix_scan_spec(old(self).bytes(), ns, p@, i) == Ok::<
                    Seq<EntryView>,
                    Fault,
                >(v@.map_values(|e: Entry| e@)),
                Err(e) => prefix_scan_spec(old(self).bytes(), ns, p@, i) == Err::<
                    Seq<EntryView>,
                    Fault,
                >(e@),
            },
        decreases hdr(old(self).bytes()).article_count - i,
    {
        if i >= self.hdr.article_count {
            let v: Vec<Entry> = Vec::new();
            assert(v@.map_values(|e: Entry| e@) =~= Seq::<EntryView>::empty());
            return Ok(v);
        }
        let d = self.dirent_at_title_index(i)?;
        let db = d.title.as_str().as_bytes();
        if d.namespace != ns || !crate::codec::has_prefix(db, p) {
            if d.namespace > ns {
                let v: Vec<Entry> = Vec::new();
                assert(v@.map_values(|e: Entry| e@) =~= Seq::<EntryView>::empty());
                return Ok(v);
            }
            if d.namespace == ns {
                if let KeyOrder::Less = compare_bytes(p, db) {
                    let v: Vec<Entry> = Vec::new();
                    assert(v@.map_values(|e: Entry| e@) =~= Seq::<EntryView>::empty());
                    return Ok(v);
                }
            }
            return self.prefix_scan(ns, p, i + 1);
        }
        let u = self.title_index_to_url_index(i)?;
        let e = self.entry_at(u)?;
        let rest = self.prefix_scan(ns, p, i + 1)?;
        let mut out: Vec<Entry> = Vec::new();
        out.push(e);
        let mut rest = rest;
        let ghost rv = rest@.map_values(|e: Entry| e@);
        out.append(&mut rest);
        assert(out@.map_values(|e: Entry| e@) =~= seq![out@[0]@] + rv);
        Ok(out)
    }

    /// Returns all entries whose title starts with `prefix` (case-sensitive).
    pub fn entries_by_title_prefix(&mut self, namespace: u8, prefix: &str) -> (r: Result<
        Vec<Entry>,
        Error,
    >)
        requires
            old(self).wf(),
        ensures
            final(self).wf(),
            final(self).bytes() == old(self).bytes(),
            final(self).limit() == old(self).limit(),
            cache_within_limit(*old(self), *final(self)),
            match r {
                Ok(v) => entries_by_title_prefix_spec(old(self).bytes(), namespace, prefix@)
                    == Ok::<Seq<EntryView>, Fault>(v@.map_values(|e: Entry| e@)),
                Err(e) => entries_by_title_prefix_spec(old(self).bytes(), namespace, prefix@)
                    == Err::<Seq<EntryView>, Fault>(e@),
            },
    {
        let p = prefix.as_bytes();
        let count = self.hdr.article_count;
        if count == 0 {
            let v: Vec<Entry> = Vec::new();
            assert(v@.map_values(|e: Entry| e@) =~= Seq::<EntryView>::empty());
            return Ok(v);
        }
        let tps = self.title_table_size()?;
        // For namespace 0 every entry is scanned: the title table is sorted
        // by namespace first, so one range would miss later namespaces.
        if namespace == 0 {
            return self.prefix_scan_any(p, 0);
        }
        let lo = self.lower_bound_title(namespace, p, tps)?;
        self.prefix_scan(namespace, p, lo)
    }
}

/// The checksum of an archive verifies only where the 16 bytes at the
/// checksum position are there and are the MD5 digest of everything
/// before them; an archive too short to hold them never verifies.
pub proof fn lemma_check_needs_digest(s: Seq<u8>)
    ensures
        check_spec(s) ==> hdr(s).checksum_pos + 16 <= s.len() && s.subrange(
            hdr(s).checksum_pos as int,
            hdr(s).checksum_pos + 16,
        ) == md5_digest(s.subrange(0, hdr(s).checksum_pos as int)),
        s.len() < hdr(s).checksum_pos + 16 ==> !check_spec(s),
        hdr(s).checksum_pos + 16 <= s.len() && s.subrange(hdr(s).checksum_pos as int, hdr(s).checksum_pos + 16)
            == md5_digest(s.subrange(0, hdr(s).checksum_pos as int)) ==> check_spec(s),
{
}

/// Cutting an archive short, keeping its header but not the whole of its
/// checksum, leaves an archive whose checksum does not verify.
pub proof fn lemma_truncated_fails_check(s: Seq<u8>, n: int)
    requires
        HEADER_LEN <= n <= s.len(),
        n < hdr(s).checksum_pos + 16,
    ensures
        !check_spec(s.take(n)),
{
    let t = s.take(n);
    assert(t.subrange(8, 24) =~= s.subrange(8, 24));
    assert(hdr(t) == hdr(s));
}

} // verus!
