//! Collecting entries and serializing them as an archive.

use crate::codec::{bytes_eq, zstd_decode, zstd_decompressed, zstd_encode, DEFAULT_LEVEL};
use crate::reader::owned;
use crate::format::NAMESPACE_METADATA;
use crate::text::{ascii_string, decimal, is_ascii_bytes, lemma_decimal_ascii, push_bytes, push_decimal};
use crate::text::{key_lt, lemma_lex_asymmetric, lemma_lex_irreflexive, lemma_lex_transitive};
use crate::layout::{
    answered, answers_decode_back, custom_answers, result_view, archive_entries, archive_entry_list, builtin_write_answers, main_view, opt_views, sealed, write_archive,
    write_result,
};
use crate::readback::{added_found, main_reads_back, readable_archive, reads_back, stored_blob};
use crate::reader::{get_spec, hdr, BlobView};
use crate::format::md5_digest;
use crate::layout::uuid_body;
use crate::layout::{dangling, lemma_write_ignores_data, is_generated_key, lacks_data, lemma_missing_target_iff, lemma_missing_target_iff_answers, refuses_no_target};
use crate::text::lossy_utf8;
use crate::{Error, Fault};
use vstd::prelude::*;
use vstd::utf8::encode_utf8;

verus! {

/// A cluster compressor that replaces the built-in zstd one.
pub trait Compressor {
    /// `r` is an answer that this compressor can give for the bytes `p`.
    spec fn answers(&self, p: Seq<u8>, r: Result<Seq<u8>, Fault>) -> bool;

    /// Compresses `p`; the result is an answer the compressor can give.
    fn compress(&self, p: &[u8]) -> (r: Result<Vec<u8>, Error>)
        ensures
            self.answers(p@, result_view(r)),
    ;
}

/// `r` is an answer that checking the closure `f` can give for the bytes
/// `p`: an output of `f` that decodes as zstd back to `p`, an error of `f`,
/// or a compression error for an output that does not decode back.
pub open spec fn checked_answers<F: Fn(&[u8]) -> Result<Vec<u8>, Error>>(
    f: F,
    p: Seq<u8>,
    r: Result<Seq<u8>, Fault>,
) -> bool {
    match r {
        Ok(z) => fn_answers(f, p, Ok(z)) && zstd_decompressed(z) == Some(p),
        Err(e) => fn_answers(f, p, Err(e)) || e is Compression,
    }
}

/// A closure used as a compressor whose outputs are checked to decode back
/// to its inputs; it accepts every input.
pub struct CheckedCompressor<F: Fn(&[u8]) -> Result<Vec<u8>, Error>> {
    f: F,
}

impl<F: Fn(&[u8]) -> Result<Vec<u8>, Error>> CheckedCompressor<F> {
    #[verifier::type_invariant]
    spec fn total(self) -> bool {
        forall|p: &[u8]| #[trigger] self.f.requires((p,))
    }
}

impl<F: Fn(&[u8]) -> Result<Vec<u8>, Error>> Compressor for CheckedCompressor<F> {
    closed spec fn answers(&self, p: Seq<u8>, r: Result<Seq<u8>, Fault>) -> bool {
        checked_answers(self.f, p, r)
    }

    /// Compresses `p` by calling the closure, then decodes what it gave and
    /// refuses it where that is not `p`.
    fn compress(&self, p: &[u8]) -> (r: Result<Vec<u8>, Error>) {
        proof {
            use_type_invariant(self);
        }
        let r = (self.f)(p);
        assert(self.f.ensures((p,), r));
        match r {
            Ok(z) => match zstd_decode(z.as_slice()) {
                Ok(d) => if bytes_eq(d.as_slice(), p) {
                    proof {
                        assert(fn_answers(self.f, p@, Ok::<Seq<u8>, Fault>(z@)));
                    }
                    Ok(z)
                } else {
                    Err(Error::Compression(owned("compressor output does not decode to its input")))
                },
                Err(e) => Err(e),
            },
            Err(e) => {
                proof {
                    assert(fn_answers(self.f, p@, result_view(Err::<Vec<u8>, Error>(e))));
                }
                Err(e)
            },
        }
    }
}

/// `r` is the view of an answer that the closure `f` can give for the
/// bytes `p`.
pub open spec fn fn_answers<F: Fn(&[u8]) -> Result<Vec<u8>, Error>>(
    f: F,
    p: Seq<u8>,
    r: Result<Seq<u8>, Fault>,
) -> bool {
    exists|s: &[u8], x: Result<Vec<u8>, Error>| s@ == p && #[trigger] f.ensures((s,), x) && result_view(x) == r
}

/// A closure used as a compressor; it accepts every input.
pub struct FnCompressor<F: Fn(&[u8]) -> Result<Vec<u8>, Error>> {
    f: F,
}

impl<F: Fn(&[u8]) -> Result<Vec<u8>, Error>> FnCompressor<F> {
    #[verifier::type_invariant]
    spec fn total(self) -> bool {
        forall|p: &[u8]| #[trigger] self.f.requires((p,))
    }

    /// `r` is an answer that the closure can give for `p`.
    pub closed spec fn closure_gives(&self, p: &[u8], r: Result<Vec<u8>, Error>) -> bool {
        self.f.ensures((p,), r)
    }
}

impl<F: Fn(&[u8]) -> Result<Vec<u8>, Error>> Compressor for FnCompressor<F> {
    closed spec fn answers(&self, p: Seq<u8>, r: Result<Seq<u8>, Fault>) -> bool {
        fn_answers(self.f, p, r)
    }

    /// Compresses `p` by calling the closure: the result is one that the
    /// closure gives for `p`.
    fn compress(&self, p: &[u8]) -> (r: Result<Vec<u8>, Error>)
        ensures
            self.closure_gives(p, r),
    {
        proof {
            use_type_invariant(self);
        }
        let r = (self.f)(p);
        assert(self.f.ensures((p,), r));
        r
    }
}

/// One entry as the writer holds it.
pub struct WriterEntry {
    namespace: u8,
    url: String,
    title: String,
    mime: String,
    data: Vec<u8>,
    data_len: u64,
    redirect: bool,
    target_namespace: u8,
    target_url: String,
}

/// An entry's fields, its strings given by their UTF-8 bytes.
pub struct EntrySpec {
    pub namespace: u8,
    pub url: Seq<u8>,
    pub title: Seq<u8>,
    pub mime: Seq<u8>,
    pub data: Seq<u8>,
    pub data_len: u64,
    pub redirect: bool,
    pub target_namespace: u8,
    pub target_url: Seq<u8>,
}

impl View for WriterEntry {
    type V = EntrySpec;

    closed spec fn view(&self) -> EntrySpec {
        EntrySpec {
            namespace: self.namespace,
            url: encode_utf8(self.url@),
            title: encode_utf8(self.title@),
            mime: encode_utf8(self.mime@),
            data: self.data@,
            data_len: self.data_len,
            redirect: self.redirect,
            target_namespace: self.target_namespace,
            target_url: encode_utf8(self.target_url@),
        }
    }
}

/// The URL and title of an entry are UTF-8 encodings of strings.
pub proof fn lemma_text_valid(e: WriterEntry)
    ensures
        vstd::utf8::valid_utf8(e@.url),
        vstd::utf8::valid_utf8(e@.title),
{
    vstd::utf8::encode_utf8_valid_utf8(e.url@);
    vstd::utf8::encode_utf8_valid_utf8(e.title@);
}

/// The URLs and titles of entries are UTF-8 encodings of strings.
pub proof fn lemma_views_text_valid(v: Seq<WriterEntry>)
    ensures
        forall|i: int| 0 <= i < v.len() ==> vstd::utf8::valid_utf8(#[trigger] views(v)[i].url),
        forall|i: int| 0 <= i < v.len() ==> vstd::utf8::valid_utf8(#[trigger] views(v)[i].title),
{
    assert forall|i: int| 0 <= i < v.len() implies vstd::utf8::valid_utf8(#[trigger] views(v)[i].url) by {
        lemma_text_valid(v[i]);
    }
    assert forall|i: int| 0 <= i < v.len() implies vstd::utf8::valid_utf8(#[trigger] views(v)[i].title) by {
        lemma_text_valid(v[i]);
    }
}

/// The entries of `v`, taken as values.
pub open spec fn views(v: Seq<WriterEntry>) -> Seq<EntrySpec> {
    v.map_values(|e: WriterEntry| e@)
}

impl WriterEntry {
    /// An entry with data, made from its fields.
    pub(crate) fn stored(ns: u8, url: String, title: String, mime: String, data: Vec<u8>) -> (e: WriterEntry)
        ensures
            e@ == (EntrySpec {
                namespace: ns,
                url: encode_utf8(url@),
                title: encode_utf8(title@),
                mime: encode_utf8(mime@),
                data: data@,
                data_len: 0,
                redirect: false,
                target_namespace: 0,
                target_url: encode_utf8(Seq::<char>::empty()),
            }),
    {
        WriterEntry {
            namespace: ns,
            url,
            title,
            mime,
            data,
            data_len: 0,
            redirect: false,
            target_namespace: 0,
            target_url: String::new(),
        }
    }

    pub(crate) fn namespace(&self) -> (r: u8)
        ensures
            r == self@.namespace,
    {
        self.namespace
    }

    pub(crate) fn url_bytes(&self) -> (r: &[u8])
        ensures
            r@ == self@.url,
    {
        self.url.as_str().as_bytes()
    }

    pub(crate) fn url_string(&self) -> (r: String)
        ensures
            encode_utf8(r@) == self@.url,
    {
        self.url.clone()
    }

    pub(crate) fn title_bytes(&self) -> (r: &[u8])
        ensures
            r@ == self@.title,
    {
        self.title.as_str().as_bytes()
    }

    pub(crate) fn mime_bytes(&self) -> (r: &[u8])
        ensures
            r@ == self@.mime,
    {
        self.mime.as_str().as_bytes()
    }

    pub(crate) fn mime_str(&self) -> (r: &str)
        ensures
            encode_utf8(r@) == self@.mime,
    {
        self.mime.as_str()
    }

    pub(crate) fn data(&self) -> (r: &[u8])
        ensures
            r@ == self@.data,
    {
        self.data.as_slice()
    }

    pub(crate) fn declared_len(&self) -> (r: u64)
        ensures
            r == self@.data_len,
    {
        self.data_len
    }

    pub(crate) fn is_redirect(&self) -> (r: bool)
        ensures
            r == self@.redirect,
    {
        self.redirect
    }

    pub(crate) fn target_namespace(&self) -> (r: u8)
        ensures
            r == self@.target_namespace,
    {
        self.target_namespace
    }

    pub(crate) fn target_url_bytes(&self) -> (r: &[u8])
        ensures
            r@ == self@.target_url,
    {
        self.target_url.as_str().as_bytes()
    }
}

/// `after` is `before` with the archive `w` written at its end, and `r`
/// reports its length; or `w` is a refusal that `r` reports and `after` is
/// `before`.
pub open spec fn written(r: Result<u64, Error>, before: Seq<u8>, after: Seq<u8>, w: Result<Seq<u8>, Fault>) -> bool {
    match w {
        Ok(b) => r matches Ok(n) && after == before + b && n == b.len(),
        Err(f) => r matches Err(e) && e@ == f && after == before,
    }
}

/// What writing the archive of `w` at the end of `before`, with `pv` the
/// data of the entries declared without it, did: with the built-in
/// compressor, exactly what `write_result` describes for zstd's answers;
/// with the caller's, what it describes for answers that compressor gives
/// for the bodies of the clusters it is asked for; and an archive written
/// opens, its checksum verifies, and its entries and its main page read
/// back.
pub open spec fn writes_archive(w: Writer, pv: Seq<Option<Seq<u8>>>, r: Result<u64, Error>, before: Seq<u8>, after: Seq<u8>) -> bool {
    &&& !w.has_custom_compressor() ==> written(
        r,
        before,
        after,
        write_result(
            w.entry_seq(),
            w.main_key(),
            w.stores_uncompressed(),
            pv,
            builtin_write_answers(w.entry_seq(), pv, w.zstd_level()),
        ),
    )
    &&& w.has_custom_compressor() ==> exists|rs: Seq<Result<Seq<u8>, Fault>>|
        written(r, before, after, write_result(w.entry_seq(), w.main_key(), w.stores_uncompressed(), pv, rs))
            && answered(w.compressor_answers(), w.entry_seq(), pv, w.stores_uncompressed(), rs)
    &&& r is Ok ==> sealed(after.subrange(before.len() as int, after.len() as int))
    &&& r is Ok ==> hdr(after.subrange(before.len() as int, after.len() as int)).uuid == md5_digest(
        uuid_body(archive_entries(w.entry_seq())),
    )
    &&& r is Ok ==> forall|i: int|
        0 <= i < archive_entries(w.entry_seq()).len() ==> vstd::utf8::valid_utf8(
            #[trigger] archive_entries(w.entry_seq())[i].url,
        )
    &&& r is Ok ==> reads_back(
        archive_entries(w.entry_seq()),
        pv,
        after.subrange(before.len() as int, after.len() as int),
    ) && main_reads_back(
        archive_entries(w.entry_seq()),
        pv,
        w.main_key(),
        after.subrange(before.len() as int, after.len() as int),
    ) && contents_found(w, after.subrange(before.len() as int, after.len() as int))
}

/// Each entry of `w` given with its data is found by its key in an archive
/// where every such entry of its sequence is.
proof fn lemma_contents_found(w: Writer, b: Seq<u8>)
    requires
        w.wf(),
        added_found(w.entry_seq(), b),
    ensures
        contents_found(w, b),
{
    if readable_archive(archive_entries(w.entry_seq())) {
        assert forall|k: (u8, Seq<u8>)|
            #[trigger] w.contents().contains_key(k) && !is_generated_key(k) && !w.contents()[k].redirect
                && !lacks_data(w.contents()[k]) implies get_spec(b, k.0, lossy_utf8(k.1)) == Ok::<BlobView, Fault>(
            stored_blob(w.contents()[k]),
        ) by {
            let x = w.contents()[k];
            crate::layout::lemma_key_in_map(w.entry_seq(), k);
            crate::layout::lemma_contains_in_map(w.entry_seq(), x);
        }
    }
}

/// A write of `w` refuses with a missing redirect target exactly where some
/// redirect of the archive's entries points at a key that no entry of it
/// has, whenever its compressor never refuses with one itself; and a
/// refused write leaves the output as it was.
pub proof fn lemma_write_missing_target(
    w: Writer,
    pv: Seq<Option<Seq<u8>>>,
    r: Result<u64, Error>,
    before: Seq<u8>,
    after: Seq<u8>,
)
    requires
        writes_archive(w, pv, r, before, after),
        !w.has_custom_compressor() || refuses_no_target(w.compressor_answers()),
    ensures
        (r matches Err(e) && e@ is MissingRedirectTarget) <==> exists|i: int|
            0 <= i < archive_entries(w.entry_seq()).len() && dangling(archive_entries(w.entry_seq()), i),
        r is Err ==> after == before,
{
    let s = w.entry_seq();
    if w.has_custom_compressor() {
        let rs = choose|rs: Seq<Result<Seq<u8>, Fault>>|
            written(r, before, after, write_result(s, w.main_key(), w.stores_uncompressed(), pv, rs))
                && answered(w.compressor_answers(), s, pv, w.stores_uncompressed(), rs);
        lemma_missing_target_iff_answers(w.compressor_answers(), s, w.main_key(), w.stores_uncompressed(), pv, rs);
    } else {
        lemma_missing_target_iff(s, w.main_key(), w.stores_uncompressed(), pv, w.zstd_level());
    }
}

/// With the built-in compressor, where no entry of the archive lacks its
/// data, a streaming write gives the same bytes and the same outcome as a
/// plain write, whatever data it is handed.
pub proof fn lemma_streaming_as_plain(
    w: Writer,
    pv: Seq<Option<Seq<u8>>>,
    before: Seq<u8>,
    r1: Result<u64, Error>,
    after1: Seq<u8>,
    r2: Result<u64, Error>,
    after2: Seq<u8>,
)
    requires
        !w.has_custom_compressor(),
        forall|i: int|
            0 <= i < archive_entries(w.entry_seq()).len() ==> !lacks_data(#[trigger] archive_entries(w.entry_seq())[i]),
        writes_archive(w, pv, r1, before, after1),
        writes_archive(w, Seq::empty(), r2, before, after2),
    ensures
        after1 == after2,
        r1 is Ok <==> r2 is Ok,
        r1 is Ok ==> r1 == r2,
        r1 is Err ==> r1->Err_0@ == r2->Err_0@,
{
    let s = w.entry_seq();
    let e: Seq<Option<Seq<u8>>> = Seq::empty();
    lemma_write_ignores_data(s, w.main_key(), w.stores_uncompressed(), pv, e, builtin_write_answers(s, pv, w.zstd_level()), w.zstd_level());
}

/// Where no entry of its archive lacks its data, a streaming write of `w`
/// gives what a plain write of `w` describes, whatever data it is handed:
/// with the built-in compressor the plain write's bytes and outcome, with
/// the caller's compressor bytes and an outcome that the plain write could
/// give with answers that compressor gives.
pub proof fn lemma_streaming_outcome_is_plain(
    w: Writer,
    pv: Seq<Option<Seq<u8>>>,
    r: Result<u64, Error>,
    before: Seq<u8>,
    after: Seq<u8>,
)
    requires
        forall|i: int|
            0 <= i < archive_entries(w.entry_seq()).len() ==> !lacks_data(#[trigger] archive_entries(w.entry_seq())[i]),
        writes_archive(w, pv, r, before, after),
    ensures
        !w.has_custom_compressor() ==> written(
            r,
            before,
            after,
            write_result(
                w.entry_seq(),
                w.main_key(),
                w.stores_uncompressed(),
                Seq::empty(),
                builtin_write_answers(w.entry_seq(), Seq::empty(), w.zstd_level()),
            ),
        ),
        w.has_custom_compressor() ==> exists|rs: Seq<Result<Seq<u8>, Fault>>|
            written(r, before, after, write_result(w.entry_seq(), w.main_key(), w.stores_uncompressed(), Seq::empty(), rs))
                && answered(w.compressor_answers(), w.entry_seq(), Seq::empty(), w.stores_uncompressed(), rs),
{
    let s = w.entry_seq();
    let e: Seq<Option<Seq<u8>>> = Seq::empty();
    let nc = w.stores_uncompressed();
    if w.has_custom_compressor() {
        let rs = choose|rs: Seq<Result<Seq<u8>, Fault>>|
            written(r, before, after, write_result(s, w.main_key(), nc, pv, rs))
                && answered(w.compressor_answers(), s, pv, nc, rs);
        lemma_write_ignores_data(s, w.main_key(), nc, pv, e, rs, w.zstd_level());
        assert(answered(w.compressor_answers(), s, pv, nc, rs) == answered(w.compressor_answers(), s, e, nc, rs));
    } else {
        lemma_write_ignores_data(s, w.main_key(), nc, pv, e, builtin_write_answers(s, pv, w.zstd_level()), w.zstd_level());
    }
}

/// The writer's compressor is the built-in one, or every success that the
/// caller's compressor can give decodes as zstd back to its input, as the
/// writer requires of it.
pub open spec fn compressor_decodes(w: Writer) -> bool {
    !w.has_custom_compressor() || answers_decode_back(w.compressor_answers())
}

/// In the archive `b` written from `w`, each entry of `w` that was given
/// with its data, not as a redirect and under a key that the writer does not
/// generate, is found by its key with its title, MIME type and data.
pub open spec fn contents_found(w: Writer, b: Seq<u8>) -> bool {
    readable_archive(archive_entries(w.entry_seq())) ==> forall|k: (u8, Seq<u8>)|
        #[trigger] w.contents().contains_key(k) && !is_generated_key(k) && !w.contents()[k].redirect && !lacks_data(
            w.contents()[k],
        ) ==> get_spec(b, k.0, lossy_utf8(k.1)) == Ok::<BlobView, Fault>(stored_blob(w.contents()[k]))
}

/// The key an entry is stored and looked up under.
pub open spec fn key_of(e: EntrySpec) -> (u8, Seq<u8>) {
    (e.namespace, e.url)
}

/// The entries of `s` by key, later entries replacing earlier ones.
pub open spec fn to_map(s: Seq<EntrySpec>) -> Map<(u8, Seq<u8>), EntrySpec>
    decreases s.len(),
{
    if s.len() == 0 {
        Map::empty()
    } else {
        to_map(s.drop_last()).insert(key_of(s.last()), s.last())
    }
}

/// No two entries of `s` share a key.
pub open spec fn keys_distinct(s: Seq<EntrySpec>) -> bool {
    forall|i: int, j: int| 0 <= i < j < s.len() ==> key_of(s[i]) != key_of(s[j])
}

/// Replacing the entry at `i` by one with the same key updates the map at that key.
proof fn lemma_to_map_update(s: Seq<EntrySpec>, i: int, e: EntrySpec)
    requires
        keys_distinct(s),
        0 <= i < s.len(),
        key_of(s[i]) == key_of(e),
    ensures
        to_map(s.update(i, e)) == to_map(s).insert(key_of(e), e),
    decreases s.len(),
{
    let t = s.update(i, e);
    if i == s.len() - 1 {
        assert(t.drop_last() =~= s.drop_last());
        assert(to_map(t) =~= to_map(s).insert(key_of(e), e));
    } else {
        assert(t.drop_last() =~= s.drop_last().update(i, e));
        lemma_to_map_update(s.drop_last(), i, e);
        assert(key_of(s.last()) != key_of(e));
        assert(to_map(t) =~= to_map(s).insert(key_of(e), e));
    }
}

/// Pushing an entry adds it at its key.
proof fn lemma_to_map_push(s: Seq<EntrySpec>, e: EntrySpec)
    ensures
        to_map(s.push(e)) == to_map(s).insert(key_of(e), e),
{
    assert(s.push(e).drop_last() =~= s);
}

/// The keys of the map are those of the sequence.
proof fn lemma_to_map_keys(s: Seq<EntrySpec>, k: (u8, Seq<u8>))
    ensures
        to_map(s).contains_key(k) <==> exists|i: int| 0 <= i < s.len() && key_of(s[i]) == k,
    decreases s.len(),
{
    if s.len() > 0 {
        lemma_to_map_keys(s.drop_last(), k);
        if to_map(s).contains_key(k) && key_of(s.last()) != k {
            let i = choose|i: int| 0 <= i < s.drop_last().len() && key_of(s.drop_last()[i]) == k;
            assert(key_of(s[i]) == k);
        }
        if exists|i: int| 0 <= i < s.len() && key_of(s[i]) == k {
            let i = choose|i: int| 0 <= i < s.len() && key_of(s[i]) == k;
            if i < s.len() - 1 {
                assert(key_of(s.drop_last()[i]) == k);
            }
        }
    }
}

/// The bytes of `application/octet-stream`.
pub open spec fn octet_stream_bytes() -> Seq<u8> {
    seq![97u8, 112, 112, 108, 105, 99, 97, 116, 105, 111, 110, 47, 111, 99, 116, 101, 116, 45, 115, 116, 114, 101, 97, 109]
}

/// The string `application/octet-stream`.
fn octet_stream_string() -> (s: String)
    ensures
        encode_utf8(s@) == octet_stream_bytes(),
{
    let b: [u8; 24] = [97, 112, 112, 108, 105, 99, 97, 116, 105, 111, 110, 47, 111, 99, 116, 101, 116, 45, 115, 116, 114, 101, 97, 109];
    assert(b@ =~= octet_stream_bytes());
    ascii_string(b.as_slice())
}

/// The bytes of `text/plain`.
pub open spec fn text_plain_bytes() -> Seq<u8> {
    seq![116u8, 101, 120, 116, 47, 112, 108, 97, 105, 110]
}

/// The string `text/plain`.
pub(crate) fn text_plain_string() -> (s: String)
    ensures
        encode_utf8(s@) == text_plain_bytes(),
{
    let b: [u8; 10] = [116, 101, 120, 116, 47, 112, 108, 97, 105, 110];
    assert(b@ =~= text_plain_bytes());
    ascii_string(b.as_slice())
}

/// The bytes of `image/png`.
pub open spec fn image_png_bytes() -> Seq<u8> {
    seq![105u8, 109, 97, 103, 101, 47, 112, 110, 103]
}

/// The string `image/png`.
fn image_png_string() -> (s: String)
    ensures
        encode_utf8(s@) == image_png_bytes(),
{
    let b: [u8; 9] = [105, 109, 97, 103, 101, 47, 112, 110, 103];
    assert(b@ =~= image_png_bytes());
    ascii_string(b.as_slice())
}

/// The bytes of `Illustration_`.
pub open spec fn illustration_prefix_bytes() -> Seq<u8> {
    seq![73u8, 108, 108, 117, 115, 116, 114, 97, 116, 105, 111, 110, 95]
}

/// The string `Illustration_`.
fn illustration_prefix_string() -> (s: String)
    ensures
        encode_utf8(s@) == illustration_prefix_bytes(),
{
    let b: [u8; 13] = [73, 108, 108, 117, 115, 116, 114, 97, 116, 105, 111, 110, 95];
    assert(b@ =~= illustration_prefix_bytes());
    ascii_string(b.as_slice())
}

/// The bytes of `Counter`.
pub open spec fn counter_name_bytes() -> Seq<u8> {
    seq![67u8, 111, 117, 110, 116, 101, 114]
}

/// The string `Counter`.
pub(crate) fn counter_name_string() -> (s: String)
    ensures
        encode_utf8(s@) == counter_name_bytes(),
{
    let b: [u8; 7] = [67, 111, 117, 110, 116, 101, 114];
    assert(b@ =~= counter_name_bytes());
    ascii_string(b.as_slice())
}

/// The bytes of `listing/titleOrdered/v1`.
pub open spec fn listing_url_bytes() -> Seq<u8> {
    seq![108u8, 105, 115, 116, 105, 110, 103, 47, 116, 105, 116, 108, 101, 79, 114, 100, 101, 114, 101, 100, 47, 118, 49]
}

/// The string `listing/titleOrdered/v1`.
pub(crate) fn listing_url_string() -> (s: String)
    ensures
        encode_utf8(s@) == listing_url_bytes(),
{
    let b: [u8; 23] = [108, 105, 115, 116, 105, 110, 103, 47, 116, 105, 116, 108, 101, 79, 114, 100, 101, 114, 101, 100, 47, 118, 49];
    assert(b@ =~= listing_url_bytes());
    ascii_string(b.as_slice())
}

/// Accumulates entries and serializes them as a ZIM file.
pub struct Writer {
    entries: Vec<WriterEntry>,
    main: Option<(u8, String)>,
    no_compress: bool,
    level: i32,
    custom: Option<Box<dyn Compressor>>,
}

impl Default for Writer {
    /// An empty writer, as `Writer::new` makes it.
    fn default() -> (w: Writer)
        ensures
            w.wf(),
            w.contents() == Map::<(u8, Seq<u8>), EntrySpec>::empty(),
            w.main_key() is None,
            !w.stores_uncompressed(),
            w.zstd_level() == DEFAULT_LEVEL,
            !w.has_custom_compressor(),
    {
        Writer::new()
    }
}

impl Writer {
    /// The writer's entries, in the order they were first added.
    pub closed spec fn entry_seq(&self) -> Seq<EntrySpec> {
        views(self.entries@)
    }

    /// The writer's entries by key.
    pub closed spec fn contents(&self) -> Map<(u8, Seq<u8>), EntrySpec> {
        to_map(self.entry_seq())
    }

    /// The entry point: a namespace and the bytes of a URL.
    pub closed spec fn main_key(&self) -> Option<(u8, Seq<u8>)> {
        match self.main {
            None => None,
            Some((ns, u)) => Some((ns, encode_utf8(u@))),
        }
    }

    /// Whether every cluster is stored uncompressed.
    pub closed spec fn stores_uncompressed(&self) -> bool {
        self.no_compress
    }

    /// The zstd level of the built-in compressor.
    pub closed spec fn zstd_level(&self) -> i32 {
        self.level
    }

    /// Whether a compressor given by the caller replaces the built-in one.
    pub closed spec fn has_custom_compressor(&self) -> bool {
        self.custom is Some
    }

    /// The answers that the caller's compressor can give, for each input;
    /// none where there is no such compressor.
    pub closed spec fn compressor_answers(&self) -> spec_fn(Seq<u8>, Result<Seq<u8>, Fault>) -> bool {
        match self.custom {
            Some(c) => custom_answers(&c),
            None => |p: Seq<u8>, r: Result<Seq<u8>, Fault>| false,
        }
    }

    /// The writer is consistent: no two entries share a key, and its
    /// compressor is the built-in one or one whose answers decode back.
    pub closed spec fn wf(&self) -> bool {
        &&& keys_distinct(self.entry_seq())
        &&& compressor_decodes(*self)
    }

    /// Returns an empty writer.
    pub fn new() -> (w: Writer)
        ensures
            w.wf(),
            w.contents() == Map::<(u8, Seq<u8>), EntrySpec>::empty(),
            w.main_key() is None,
            !w.stores_uncompressed(),
            w.zstd_level() == DEFAULT_LEVEL,
            !w.has_custom_compressor(),
    {
        let w = Writer {
            entries: Vec::new(),
            main: None,
            no_compress: false,
            level: DEFAULT_LEVEL,
            custom: None,
        };
        assert(w.entry_seq() =~= Seq::<EntrySpec>::empty());
        w
    }

    /// Adds `e`, replacing the entry with the same key if there is one.
    fn put(&mut self, e: WriterEntry)
        requires
            old(self).wf(),
        ensures
            final(self).wf(),
            final(self).contents() == old(self).contents().insert(key_of(e@), e@),
            final(self).main_key() == old(self).main_key(),
            final(self).stores_uncompressed() == old(self).stores_uncompressed(),
            final(self).zstd_level() == old(self).zstd_level(),
            final(self).has_custom_compressor() == old(self).has_custom_compressor(),
            final(self).compressor_answers() == old(self).compressor_answers(),
    {
        let ghost k = key_of(e@);
        let ghost old_seq = self.entry_seq();
        let mut i: usize = 0;
        while i < self.entries.len()
            invariant
                self.entry_seq() == old_seq,
                old(self).entry_seq() == old_seq,
                self.main_key() == old(self).main_key(),
                self.stores_uncompressed() == old(self).stores_uncompressed(),
                self.zstd_level() == old(self).zstd_level(),
                self.has_custom_compressor() == old(self).has_custom_compressor(),
                self.compressor_answers() == old(self).compressor_answers(),
                compressor_decodes(*old(self)),
                keys_distinct(old_seq),
                0 <= i <= self.entries@.len(),
                k == key_of(e@),
                forall|j: int| 0 <= j < i ==> key_of(old_seq[j]) != k,
            decreases self.entries@.len() - i,
        {
            let same = self.entries[i].namespace == e.namespace && crate::codec::bytes_eq(
                self.entries[i].url.as_str().as_bytes(),
                e.url.as_str().as_bytes(),
            );
            if same {
                assert(key_of(old_seq[i as int]) == k);
                let ghost ev = e@;
                self.entries.set(i, e);
                assert(self.entry_seq() =~= old_seq.update(i as int, ev));
                proof {
                    lemma_to_map_update(old_seq, i as int, ev);
                    assert forall|a: int, b: int|
                        0 <= a < b < self.entry_seq().len() implies key_of(self.entry_seq()[a])
                        != key_of(self.entry_seq()[b]) by {}
                }
                return;
            }
            i = i + 1;
        }
        let ghost ev = e@;
        self.entries.push(e);
        assert(self.entry_seq() =~= old_seq.push(ev));
        proof {
            lemma_to_map_push(old_seq, ev);
        }
    }
}

/// A content entry as `add_content` stores it: an empty title stands for
/// the URL and an empty MIME type for `application/octet-stream`.
pub open spec fn content_entry(ns: u8, url: Seq<char>, title: Seq<char>, mime: Seq<char>, data: Seq<u8>, data_len: u64) -> EntrySpec {
    EntrySpec {
        namespace: ns,
        url: encode_utf8(url),
        title: if title.len() == 0 {
            encode_utf8(url)
        } else {
            encode_utf8(title)
        },
        mime: if mime.len() == 0 {
            octet_stream_bytes()
        } else {
            encode_utf8(mime)
        },
        data,
        data_len,
        redirect: false,
        target_namespace: 0,
        target_url: seq![],
    }
}

/// A metadata entry: in namespace `M`, titled by its name.
pub open spec fn metadata_entry(name: Seq<char>, mime: Seq<u8>, data: Seq<u8>) -> EntrySpec {
    EntrySpec {
        namespace: NAMESPACE_METADATA,
        url: encode_utf8(name),
        title: encode_utf8(name),
        mime,
        data,
        data_len: 0,
        redirect: false,
        target_namespace: 0,
        target_url: seq![],
    }
}

/// A redirect entry: an empty title stands for the URL.
pub open spec fn redirect_entry(ns: u8, url: Seq<char>, title: Seq<char>, target_ns: u8, target_url: Seq<char>) -> EntrySpec {
    EntrySpec {
        namespace: ns,
        url: encode_utf8(url),
        title: if title.len() == 0 {
            encode_utf8(url)
        } else {
            encode_utf8(title)
        },
        mime: seq![],
        data: seq![],
        data_len: 0,
        redirect: true,
        target_namespace: target_ns,
        target_url: encode_utf8(target_url),
    }
}

/// The name `Illustration_{width}x{height}@{scale}`, as bytes.
pub open spec fn illustration_name(width: u32, height: u32, scale: u32) -> Seq<u8> {
    illustration_prefix_bytes() + decimal(width as nat) + seq![120u8] + decimal(height as nat)
        + seq![64u8] + decimal(scale as nat)
}

/// `s`, or `fallback` where `s` is empty.
fn or_default(s: &str, fallback: String) -> (r: String)
    ensures
        r@ == (if s@.len() == 0 {
            fallback@
        } else {
            s@
        }),
{
    if s.is_empty() {
        fallback
    } else {
        crate::reader::owned(s)
    }
}

impl Writer {
    /// Adds or replaces a content entry.
    pub fn add_content(&mut self, namespace: u8, url: &str, title: &str, mime: &str, data: Vec<u8>)
        requires
            old(self).wf(),
        ensures
            final(self).wf(),
            final(self).contents() == old(self).contents().insert(
                (namespace, encode_utf8(url@)),
                content_entry(namespace, url@, title@, mime@, data@, 0),
            ),
            final(self).main_key() == old(self).main_key(),
            final(self).stores_uncompressed() == old(self).stores_uncompressed(),
            final(self).zstd_level() == old(self).zstd_level(),
            final(self).has_custom_compressor() == old(self).has_custom_compressor(),
            final(self).compressor_answers() == old(self).compressor_answers(),
    {
        let url_s = crate::reader::owned(url);
        let title_s = or_default(title, crate::reader::owned(url));
        let mime_s = if mime.is_empty() {
            octet_stream_string()
        } else {
            crate::reader::owned(mime)
        };
        let e = WriterEntry {
            namespace,
            url: url_s,
            title: title_s,
            mime: mime_s,
            data,
            data_len: 0,
            redirect: false,
            target_namespace: 0,
            target_url: String::new(),
        };
        assert(e@ == content_entry(namespace, url@, title@, mime@, e.data@, 0));
        self.put(e);
    }

    /// Declares an entry without storing its data.
    ///
    /// The data is provided later, when the archive is written with a data
    /// provider. `data_len` is the uncompressed byte count and must match
    /// the actual data length.
    pub fn add_entry(&mut self, namespace: u8, url: &str, title: &str, mime: &str, data_len: u64)
        requires
            old(self).wf(),
        ensures
            final(self).wf(),
            final(self).contents() == old(self).contents().insert(
                (namespace, encode_utf8(url@)),
                content_entry(namespace, url@, title@, mime@, seq![], data_len),
            ),
            final(self).main_key() == old(self).main_key(),
            final(self).stores_uncompressed() == old(self).stores_uncompressed(),
            final(self).zstd_level() == old(self).zstd_level(),
            final(self).has_custom_compressor() == old(self).has_custom_compressor(),
            final(self).compressor_answers() == old(self).compressor_answers(),
    {
        let url_s = crate::reader::owned(url);
        let title_s = or_default(title, crate::reader::owned(url));
        let mime_s = if mime.is_empty() {
            octet_stream_string()
        } else {
            crate::reader::owned(mime)
        };
        let e = WriterEntry {
            namespace,
            url: url_s,
            title: title_s,
            mime: mime_s,
            data: Vec::new(),
            data_len,
            redirect: false,
            target_namespace: 0,
            target_url: String::new(),
        };
        assert(e@ == content_entry(namespace, url@, title@, mime@, seq![], data_len));
        self.put(e);
    }

    /// Adds a text metadata entry in the `M` namespace.
    pub fn add_metadata(&mut self, name: &str, value: &str)
        requires
            old(self).wf(),
        ensures
            final(self).wf(),
            final(self).contents() == old(self).contents().insert(
                (NAMESPACE_METADATA, encode_utf8(name@)),
                metadata_entry(name@, text_plain_bytes(), encode_utf8(value@)),
            ),
            final(self).main_key() == old(self).main_key(),
            final(self).stores_uncompressed() == old(self).stores_uncompressed(),
            final(self).zstd_level() == old(self).zstd_level(),
            final(self).has_custom_compressor() == old(self).has_custom_compressor(),
            final(self).compressor_answers() == old(self).compressor_answers(),
    {
        let e = WriterEntry {
            namespace: NAMESPACE_METADATA,
            url: crate::reader::owned(name),
            title: crate::reader::owned(name),
            mime: text_plain_string(),
            data: vstd::slice::slice_to_vec(value.as_bytes()),
            data_len: 0,
            redirect: false,
            target_namespace: 0,
            target_url: String::new(),
        };
        assert(e@ == metadata_entry(name@, text_plain_bytes(), encode_utf8(value@)));
        self.put(e);
    }

    /// Adds a metadata entry with an explicit MIME type.
    pub fn add_metadata_bytes(&mut self, name: &str, mime: &str, data: Vec<u8>)
        requires
            old(self).wf(),
        ensures
            final(self).wf(),
            final(self).contents() == old(self).contents().insert(
                (NAMESPACE_METADATA, encode_utf8(name@)),
                metadata_entry(
                    name@,
                    if mime@.len() == 0 {
                        octet_stream_bytes()
                    } else {
                        encode_utf8(mime@)
                    },
                    data@,
                ),
            ),
            final(self).main_key() == old(self).main_key(),
            final(self).stores_uncompressed() == old(self).stores_uncompressed(),
            final(self).zstd_level() == old(self).zstd_level(),
            final(self).has_custom_compressor() == old(self).has_custom_compressor(),
            final(self).compressor_answers() == old(self).compressor_answers(),
    {
        let mime_s = if mime.is_empty() {
            octet_stream_string()
        } else {
            crate::reader::owned(mime)
        };
        let ghost d = data@;
        let e = WriterEntry {
            namespace: NAMESPACE_METADATA,
            url: crate::reader::owned(name),
            title: crate::reader::owned(name),
            mime: mime_s,
            data,
            data_len: 0,
            redirect: false,
            target_namespace: 0,
            target_url: String::new(),
        };
        self.put(e);
    }

    /// Adds a redirect from `(namespace, url)` to `(target_namespace, target_url)`.
    pub fn add_redirect(
        &mut self,
        namespace: u8,
        url: &str,
        title: &str,
        target_namespace: u8,
        target_url: &str,
    )
        requires
            old(self).wf(),
        ensures
            final(self).wf(),
            final(self).contents() == old(self).contents().insert(
                (namespace, encode_utf8(url@)),
                redirect_entry(namespace, url@, title@, target_namespace, target_url@),
            ),
            final(self).main_key() == old(self).main_key(),
            final(self).stores_uncompressed() == old(self).stores_uncompressed(),
            final(self).zstd_level() == old(self).zstd_level(),
            final(self).has_custom_compressor() == old(self).has_custom_compressor(),
            final(self).compressor_answers() == old(self).compressor_answers(),
    {
        let e = WriterEntry {
            namespace,
            url: crate::reader::owned(url),
            title: or_default(title, crate::reader::owned(url)),
            mime: String::new(),
            data: Vec::new(),
            data_len: 0,
            redirect: true,
            target_namespace,
            target_url: crate::reader::owned(target_url),
        };
        assert(e@ == redirect_entry(namespace, url@, title@, target_namespace, target_url@));
        self.put(e);
    }

    /// Adds the archive illustration `Illustration_{width}x{height}@{scale}`,
    /// a PNG image; adding the same size again replaces it.
    pub fn add_illustration(&mut self, width: u32, height: u32, scale: u32, png: Vec<u8>)
        requires
            old(self).wf(),
        ensures
            final(self).wf(),
            final(self).contents() == old(self).contents().insert(
                (NAMESPACE_METADATA, illustration_name(width, height, scale)),
                EntrySpec {
                    namespace: NAMESPACE_METADATA,
                    url: illustration_name(width, height, scale),
                    title: illustration_name(width, height, scale),
                    mime: image_png_bytes(),
                    data: png@,
                    data_len: 0,
                    redirect: false,
                    target_namespace: 0,
                    target_url: seq![],
                },
            ),
            final(self).main_key() == old(self).main_key(),
            final(self).stores_uncompressed() == old(self).stores_uncompressed(),
            final(self).zstd_level() == old(self).zstd_level(),
            final(self).has_custom_compressor() == old(self).has_custom_compressor(),
            final(self).compressor_answers() == old(self).compressor_answers(),
    {
        let b: [u8; 13] = [73, 108, 108, 117, 115, 116, 114, 97, 116, 105, 111, 110, 95];
        assert(b@ =~= illustration_prefix_bytes());
        let mut name: Vec<u8> = Vec::new();
        push_bytes(&mut name, b.as_slice());
        push_decimal(&mut name, width as u64);
        name.push(120u8);
        push_decimal(&mut name, height as u64);
        name.push(64u8);
        push_decimal(&mut name, scale as u64);
        assert(name@ =~= illustration_name(width, height, scale));
        proof {
            lemma_decimal_ascii(width as nat);
            lemma_decimal_ascii(height as nat);
            lemma_decimal_ascii(scale as nat);
            assert(is_ascii_bytes(illustration_prefix_bytes()));
            assert forall|i: int| 0 <= i < name@.len() implies name@[i] < 0x80 by {
                let p = illustration_prefix_bytes();
                let w = decimal(width as nat);
                let h = decimal(height as nat);
                let c = decimal(scale as nat);
                if i < p.len() {
                } else if i < p.len() + w.len() {
                    assert(name@[i] == w[i - p.len()]);
                } else if i < p.len() + w.len() + 1 {
                } else if i < p.len() + w.len() + 1 + h.len() {
                    assert(name@[i] == h[i - p.len() - w.len() - 1]);
                } else if i < p.len() + w.len() + 2 + h.len() {
                } else {
                    assert(name@[i] == c[i - p.len() - w.len() - 2 - h.len()]);
                }
            }
        }
        let e = WriterEntry {
            namespace: NAMESPACE_METADATA,
            url: ascii_string(name.as_slice()),
            title: ascii_string(name.as_slice()),
            mime: image_png_string(),
            data: png,
            data_len: 0,
            redirect: false,
            target_namespace: 0,
            target_url: String::new(),
        };
        self.put(e);
    }

    /// Marks an entry as the archive's entry point.
    pub fn set_main_page(&mut self, namespace: u8, url: &str)
        ensures
            final(self).main_key() == Some((namespace, encode_utf8(url@))),
            final(self).contents() == old(self).contents(),
            final(self).wf() == old(self).wf(),
            final(self).stores_uncompressed() == old(self).stores_uncompressed(),
            final(self).zstd_level() == old(self).zstd_level(),
            final(self).has_custom_compressor() == old(self).has_custom_compressor(),
            final(self).compressor_answers() == old(self).compressor_answers(),
    {
        self.main = Some((namespace, crate::reader::owned(url)));
    }

    /// Stores every cluster uncompressed.
    pub fn set_no_compress(&mut self, v: bool)
        ensures
            final(self).stores_uncompressed() == v,
            final(self).contents() == old(self).contents(),
            final(self).wf() == old(self).wf(),
            final(self).main_key() == old(self).main_key(),
            final(self).zstd_level() == old(self).zstd_level(),
            final(self).has_custom_compressor() == old(self).has_custom_compressor(),
            final(self).compressor_answers() == old(self).compressor_answers(),
    {
        self.no_compress = v;
    }

    /// Sets the zstd level of the built-in compressor.
    pub fn set_compression_level(&mut self, level: i32)
        ensures
            final(self).zstd_level() == level,
            final(self).contents() == old(self).contents(),
            final(self).wf() == old(self).wf(),
            final(self).main_key() == old(self).main_key(),
            final(self).stores_uncompressed() == old(self).stores_uncompressed(),
            final(self).has_custom_compressor() == old(self).has_custom_compressor(),
            final(self).compressor_answers() == old(self).compressor_answers(),
    {
        self.level = level;
    }

    /// Replaces the cluster compressor.
    ///
    /// The function must return zstd-compressed bytes because the writer marks
    /// compressed text clusters as zstd: each of its outputs must decode back
    /// to its input. `set_compress_checked` checks that of each output.
    pub fn set_compress<F>(&mut self, f: F)
        where F: Fn(&[u8]) -> Result<Vec<u8>, Error> + Send + Sync + 'static
        requires
            forall|p: &[u8]| #[trigger] f.requires((p,)),
            forall|p: &[u8], z: Vec<u8>| #[trigger] f.ensures((p,), Ok(z)) ==> zstd_decompressed(z@) == Some(p@),
        ensures
            final(self).has_custom_compressor(),
            compressor_decodes(*final(self)),
            forall|p: Seq<u8>, r: Result<Seq<u8>, Fault>|
                #[trigger] (final(self).compressor_answers())(p, r) == fn_answers(f, p, r),
            final(self).contents() == old(self).contents(),
            old(self).wf() ==> final(self).wf(),
            final(self).main_key() == old(self).main_key(),
            final(self).stores_uncompressed() == old(self).stores_uncompressed(),
            final(self).zstd_level() == old(self).zstd_level(),
    {
        self.custom = Some(Box::new(FnCompressor { f }));
    }

    /// Replaces the cluster compressor with `f`, checking each of its
    /// outputs: one that does not decode as zstd back to the bytes it was
    /// given is refused with a compression error, so the archive reads back
    /// whatever `f` does.
    pub fn set_compress_checked<F>(&mut self, f: F)
        where F: Fn(&[u8]) -> Result<Vec<u8>, Error> + Send + Sync + 'static
        requires
            forall|p: &[u8]| #[trigger] f.requires((p,)),
        ensures
            final(self).has_custom_compressor(),
            compressor_decodes(*final(self)),
            forall|p: Seq<u8>, r: Result<Seq<u8>, Fault>|
                #[trigger] (final(self).compressor_answers())(p, r) ==> checked_answers(f, p, r),
            final(self).contents() == old(self).contents(),
            old(self).wf() ==> final(self).wf(),
            final(self).main_key() == old(self).main_key(),
            final(self).stores_uncompressed() == old(self).stores_uncompressed(),
            final(self).zstd_level() == old(self).zstd_level(),
    {
        let c = CheckedCompressor { f };
        let g = move |p: &[u8]| -> (r: Result<Vec<u8>, Error>)
            ensures
                c.answers(p@, result_view(r)),
        { c.compress(p) };
        assert forall|p: &[u8], z: Vec<u8>| #[trigger] g.ensures((p,), Ok(z)) implies zstd_decompressed(z@) == Some(
            p@,
        ) by {
            assert(c.answers(p@, result_view(Ok::<Vec<u8>, Error>(z))));
        }
        self.set_compress(g);
        assert forall|p: Seq<u8>, r: Result<Seq<u8>, Fault>|
            #[trigger] (self.compressor_answers())(p, r) implies checked_answers(f, p, r) by {
            let (sl, x) = choose|sl: &[u8], x: Result<Vec<u8>, Error>|
                sl@ == p && #[trigger] g.ensures((sl,), x) && result_view(x) == r;
            assert(c.answers(sl@, result_view(x)));
        }
    }

    /// Serializes the archive at the end of `out` and returns the number of
    /// bytes written; on an error `out` is left as it was.
    ///
    /// With the built-in compressor the bytes are exactly those of
    /// `write_result` for the writer's entries, main page and settings, with
    /// zstd at the writer's level answering for each compressed cluster;
    /// with a compressor of the caller's, they are those of `write_result`
    /// for the answers it gave. An entry declared without data is refused.
    pub fn write_to(&mut self, out: &mut Vec<u8>) -> (r: Result<u64, Error>)
        requires
            old(self).wf(),
        ensures
            *final(self) == *old(self),
            writes_archive(*old(self), Seq::empty(), r, old(out)@, final(out)@),
    {
        let none: Vec<Option<Vec<u8>>> = Vec::new();
        assert(opt_views(none@) =~= Seq::<Option<Seq<u8>>>::empty());
        self.write_with(&none, out)
    }

    /// Serializes the archive at the end of `out`, as `write_to` does, with
    /// the data of the entries declared without it given by `data`: at the
    /// position of each such entry among the archive's entries in URL
    /// order, as `archive_keys` lists them.
    pub fn write_to_streaming(&mut self, data: &Vec<Option<Vec<u8>>>, out: &mut Vec<u8>) -> (r: Result<u64, Error>)
        requires
            old(self).wf(),
        ensures
            *final(self) == *old(self),
            writes_archive(*old(self), opt_views(data@), r, old(out)@, final(out)@),
    {
        self.write_with(data, out)
    }

    #[verifier::spinoff_prover]
    #[verifier::rlimit(30)]
    fn write_with(&self, data: &Vec<Option<Vec<u8>>>, out: &mut Vec<u8>) -> (r: Result<u64, Error>)
        requires
            self.wf(),
        ensures
            writes_archive(*self, opt_views(data@), r, old(out)@, final(out)@),
    {
        let main: Option<(u8, &[u8])> = match &self.main {
            Some((ns, u)) => Some((*ns, u.as_str().as_bytes())),
            None => None,
        };
        let (r, Ghost(rs)) = write_archive(
            &self.entries,
            main,
            self.no_compress,
            data,
            &self.custom,
            self.level,
            out,
        );
        let ghost pw = opt_views(data@);
        assert(main_view(main) == self.main_key());
        assert(written(r, old(out)@, final(out)@, write_result(self.entry_seq(), self.main_key(), self.no_compress, pw, rs)));
        proof {
            if r is Ok {
                let b = write_result(self.entry_seq(), self.main_key(), self.no_compress, pw, rs)->Ok_0;
                assert(final(out)@.subrange(old(out)@.len() as int, final(out)@.len() as int) =~= b);
            }
            if r is Ok {
                let b = final(out)@.subrange(old(out)@.len() as int, final(out)@.len() as int);
                assert(match &self.custom {
                    Some(cc) => answers_decode_back(custom_answers(cc)),
                    None => true,
                });
                assert(added_found(self.entry_seq(), b));
                lemma_contents_found(*self, b);
            }
            if self.custom is Some {
                assert(answered(self.compressor_answers(), self.entry_seq(), pw, self.no_compress, rs));
                assert(written(r, old(out)@, final(out)@, write_result(self.entry_seq(), self.main_key(), self.stores_uncompressed(), pw, rs)));
            }
        }
        r
    }

    /// The keys of the archive's entries, in the order they are stored.
    pub fn archive_keys(&self) -> (keys: Vec<(u8, String)>)
        requires
            self.wf(),
        ensures
            keys@.len() == archive_entries(self.entry_seq()).len(),
            forall|i: int|
                0 <= i < keys@.len() ==> (#[trigger] keys@[i]).0 == archive_entries(self.entry_seq())[i].namespace
                    && encode_utf8(keys@[i].1@) == archive_entries(self.entry_seq())[i].url,
    {
        let t = archive_entry_list(&self.entries);
        let mut keys: Vec<(u8, String)> = Vec::new();
        let mut i: usize = 0;
        while i < t.len()
            invariant
                0 <= i <= t@.len(),
                views(t@) == archive_entries(self.entry_seq()),
                keys@.len() == i,
                forall|k: int|
                    0 <= k < i ==> (#[trigger] keys@[k]).0 == views(t@)[k].namespace && encode_utf8(keys@[k].1@)
                        == views(t@)[k].url,
            decreases t@.len() - i,
        {
            let e = &t[i];
            assert(views(t@)[i as int] == e@);
            keys.push((e.namespace(), e.url_string()));
            i = i + 1;
        }
        keys
    }

    /// Restores the built-in zstd compressor.
    pub fn reset_compress(&mut self)
        ensures
            !final(self).has_custom_compressor(),
            final(self).contents() == old(self).contents(),
            old(self).wf() ==> final(self).wf(),
            final(self).main_key() == old(self).main_key(),
            final(self).stores_uncompressed() == old(self).stores_uncompressed(),
            final(self).zstd_level() == old(self).zstd_level(),
    {
        self.custom = None;
    }
}

} // verus!

verus! {

/// `a` sorts strictly before `b` by key: namespace byte, then URL bytes.
pub open spec fn entry_lt(a: EntrySpec, b: EntrySpec) -> bool {
    key_lt(a.namespace, a.url, b.namespace, b.url)
}

/// `s` is in strictly increasing key order.
pub open spec fn url_sorted(s: Seq<EntrySpec>) -> bool {
    forall|i: int, j: int| 0 <= i < j < s.len() ==> entry_lt(s[i], s[j])
}

/// `t` holds exactly the entries of `s`, in key order; with distinct keys
/// there is exactly one such sequence.
pub open spec fn arranges(t: Seq<EntrySpec>, s: Seq<EntrySpec>) -> bool {
    &&& url_sorted(t)
    &&& forall|x: EntrySpec| t.contains(x) <==> s.contains(x)
}

/// The entries of `s` in key order.
pub open spec fn arrange(s: Seq<EntrySpec>) -> Seq<EntrySpec> {
    choose|t: Seq<EntrySpec>| arranges(t, s)
}

pub proof fn lemma_entry_lt_transitive(a: EntrySpec, b: EntrySpec, c: EntrySpec)
    requires
        entry_lt(a, b),
        entry_lt(b, c),
    ensures
        entry_lt(a, c),
{
    if a.namespace == b.namespace && b.namespace == c.namespace {
        lemma_lex_transitive(a.url, b.url, c.url);
    }
}

pub proof fn lemma_entry_lt_asymmetric(a: EntrySpec, b: EntrySpec)
    ensures
        !(entry_lt(a, b) && entry_lt(b, a)),
        !entry_lt(a, a),
{
    lemma_lex_asymmetric(a.url, b.url);
    lemma_lex_irreflexive(a.url);
}

/// Two sequences in strictly increasing key order that hold the same
/// entries are equal.
pub proof fn lemma_arrangement_unique(a: Seq<EntrySpec>, b: Seq<EntrySpec>)
    requires
        url_sorted(a),
        url_sorted(b),
        forall|x: EntrySpec| a.contains(x) <==> b.contains(x),
    ensures
        a == b,
    decreases a.len() + b.len(),
{
    if a.len() == 0 {
        if b.len() > 0 {
            assert(b.contains(b[0]));
        }
        assert(a =~= b);
    } else if b.len() == 0 {
        assert(a.contains(a[0]));
    } else {
        assert(a.contains(a[0]));
        assert(b.contains(b[0]));
        let p = choose|p: int| 0 <= p < a.len() && a[p] == b[0];
        let q = choose|q: int| 0 <= q < b.len() && b[q] == a[0];
        lemma_entry_lt_asymmetric(a[0], b[0]);
        if a[0] != b[0] {
            assert(p > 0 && q > 0);
            assert(entry_lt(a[0], b[0]));
            assert(entry_lt(b[0], a[0]));
        }
        let a1 = a.drop_first();
        let b1 = b.drop_first();
        assert forall|x: EntrySpec| a1.contains(x) <==> b1.contains(x) by {
            if a1.contains(x) {
                let i = choose|i: int| 0 <= i < a1.len() && a1[i] == x;
                assert(a[i + 1] == x);
                lemma_entry_lt_asymmetric(a[0], x);
                assert(b.contains(x));
                let j = choose|j: int| 0 <= j < b.len() && b[j] == x;
                assert(j != 0);
                assert(b1[j - 1] == x);
            }
            if b1.contains(x) {
                let i = choose|i: int| 0 <= i < b1.len() && b1[i] == x;
                assert(b[i + 1] == x);
                lemma_entry_lt_asymmetric(b[0], x);
                assert(a.contains(x));
                let j = choose|j: int| 0 <= j < a.len() && a[j] == x;
                assert(j != 0);
                assert(a1[j - 1] == x);
            }
        }
        lemma_arrangement_unique(a1, b1);
        assert(a =~= seq![a[0]] + a1);
        assert(b =~= seq![b[0]] + b1);
    }
}

/// A sequence that arranges `s` is its arrangement.
pub proof fn lemma_arrange(t: Seq<EntrySpec>, s: Seq<EntrySpec>)
    requires
        arranges(t, s),
    ensures
        arrange(s) == t,
{
    let a = arrange(s);
    assert(arranges(a, s));
    lemma_arrangement_unique(a, t);
}

/// Copies an entry.
pub(crate) fn clone_entry(e: &WriterEntry) -> (r: WriterEntry)
    ensures
        r@ == e@,
{
    WriterEntry {
        namespace: e.namespace,
        url: e.url.clone(),
        title: e.title.clone(),
        mime: e.mime.clone(),
        data: vstd::slice::slice_to_vec(e.data.as_slice()),
        data_len: e.data_len,
        redirect: e.redirect,
        target_namespace: e.target_namespace,
        target_url: e.target_url.clone(),
    }
}


/// Two writers that hold the same entry under each key write the same
/// archive, whatever order their entries were added in: the same entries,
/// and, with the same main page, settings, data given for entries declared
/// without it, and compressor's answers, the same bytes; a compressor may
/// give the same answers for both.
pub proof fn lemma_writers_same_archive(a: Writer, b: Writer)
    requires
        a.wf(),
        b.wf(),
        a.contents() == b.contents(),
    ensures
        archive_entries(a.entry_seq()) == archive_entries(b.entry_seq()),
        forall|main: Option<(u8, Seq<u8>)>, nc: bool, pv: Seq<Option<Seq<u8>>>, rs: Seq<Result<Seq<u8>, Fault>>|
            write_result(a.entry_seq(), main, nc, pv, rs) == write_result(b.entry_seq(), main, nc, pv, rs),
        forall|pv: Seq<Option<Seq<u8>>>, level: i32|
            builtin_write_answers(a.entry_seq(), pv, level) == builtin_write_answers(b.entry_seq(), pv, level),
        forall|ans: spec_fn(Seq<u8>, Result<Seq<u8>, Fault>) -> bool, pv: Seq<Option<Seq<u8>>>, nc: bool, rs: Seq<Result<Seq<u8>, Fault>>|
            #[trigger] answered(ans, a.entry_seq(), pv, nc, rs) == answered(ans, b.entry_seq(), pv, nc, rs),
{
    crate::layout::lemma_archive_entries_by_contents(a.entry_seq(), b.entry_seq());
}

} // verus!
