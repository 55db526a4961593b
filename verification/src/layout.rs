//! How an archive is laid out: the order of its entries, the entries the
//! writer generates, the MIME table, the packing of blobs into clusters, the
//! pointer tables and the checksum.

use crate::codec::{is_text_mime_spec, zstd_compressed, zstd_decompressed};
use crate::readback::{added_found, lemma_added_found, answers_decode, lemma_archive_reads_back, lemma_laid_out, main_reads_back, reads_back};
use crate::format::{
    parse_header_spec, header_bytes, md5, md5_digest, Header, HeaderView, COMP_NONE, COMP_ZSTD, HEADER_LEN, NAMESPACE_LISTING,
    NAMESPACE_METADATA, NO_MAIN_PAGE, REDIRECT_ENTRY,
};
use crate::le::{put_u16, put_u32, put_u64, u16_bytes, u32_bytes, u64_bytes};
use crate::codec::{bytes_eq, zstd_encode};
use crate::sort::{
    idx_lt, in_range, key_views, lemma_idx_lt_irreflexive, lemma_idx_order, lemma_sorted_unique,
    positions, sort_positions, sorted_idx, SortKey,
};
use crate::text::{compare_keys, decimal, key_lt, lemma_lex_total, lex_lt, lossy_utf8, KeyOrder};
use crate::writer::{
    arrange, clone_entry, counter_name_bytes, entry_lt, key_of, keys_distinct, lemma_arrange,
    lemma_arrangement_unique, lemma_entry_lt_transitive, listing_url_bytes, text_plain_bytes,
    url_sorted, views, Compressor, EntrySpec, WriterEntry, listing_url_string, counter_name_string,
    text_plain_string, arranges,
};
use vstd::utf8::encode_utf8;
use crate::reader::{check_spec, hdr, open_spec};
use crate::{Error, Fault};
use vstd::prelude::*;

verus! {

/// A cluster is closed once the entries packed into it reach this many bytes.
pub const MAX_CLUSTER_CONTENT: u64 = 2097152;

/// The concatenation of `ss`.
pub open spec fn concat(ss: Seq<Seq<u8>>) -> Seq<u8>
    decreases ss.len(),
{
    if ss.len() == 0 {
        Seq::empty()
    } else {
        concat(ss.drop_last()) + ss.last()
    }
}

/// The UTF-8 bytes of the character whose code is `ns`.
pub open spec fn ns_key_bytes(ns: u8) -> Seq<u8> {
    if ns < 0x80 {
        seq![ns]
    } else {
        seq![0xc0u8 | (ns >> 6u8), 0x80u8 | (ns & 0x3fu8)]
    }
}

/// The bytes of an entry's key string: its namespace character, then its URL.
pub open spec fn key_bytes(ns: u8, url: Seq<u8>) -> Seq<u8> {
    ns_key_bytes(ns) + url
}

/// An entry declared with a length but given no data.
pub open spec fn lacks_data(e: EntrySpec) -> bool {
    e.data.len() == 0 && e.data_len > 0
}

/// The size an entry counts for when clusters are filled: the declared length
/// of an entry given without data, else the length of its data.
pub open spec fn entry_size(e: EntrySpec) -> int {
    if lacks_data(e) {
        e.data_len as int
    } else {
        e.data.len() as int
    }
}

/// The key of the title-ordered listing the writer generates.
pub open spec fn listing_key() -> (u8, Seq<u8>) {
    (NAMESPACE_LISTING, listing_url_bytes())
}

/// The key of the MIME counter the writer generates.
pub open spec fn counter_key() -> (u8, Seq<u8>) {
    (NAMESPACE_METADATA, counter_name_bytes())
}

/// A key under which the writer stores an entry of its own.
pub open spec fn is_generated_key(k: (u8, Seq<u8>)) -> bool {
    k == listing_key() || k == counter_key()
}

/// `t` holds the entries of `s` that are not under a generated key, in key order.
pub open spec fn orders_user_entries(t: Seq<EntrySpec>, s: Seq<EntrySpec>) -> bool {
    &&& url_sorted(t)
    &&& forall|x: EntrySpec| t.contains(x) <==> (s.contains(x) && !is_generated_key(key_of(x)))
}

/// The entries of `s` that are not under a generated key, in key order.
pub open spec fn user_order(s: Seq<EntrySpec>) -> Seq<EntrySpec> {
    choose|t: Seq<EntrySpec>| orders_user_entries(t, s)
}

/// The namespace and title of each entry.
pub open spec fn title_keys(s: Seq<EntrySpec>) -> Seq<(u8, Seq<u8>)> {
    s.map_values(|e: EntrySpec| (e.namespace, e.title))
}

/// `p` lists the positions of `s` by namespace and title, then by position.
pub open spec fn orders_titles(p: Seq<usize>, s: Seq<EntrySpec>) -> bool {
    &&& sorted_idx(title_keys(s), p)
    &&& p.to_multiset() == positions(s.len()).to_multiset()
}

/// The positions of `s` by namespace and title, then by position.
pub open spec fn title_order(s: Seq<EntrySpec>) -> Seq<usize> {
    choose|p: Seq<usize>| orders_titles(p, s)
}

/// The titles of the entries of `s` at positions `p`, one per line.
pub open spec fn title_lines(s: Seq<EntrySpec>, p: Seq<usize>) -> Seq<u8>
    decreases p.len(),
{
    if p.len() == 0 {
        Seq::empty()
    } else {
        title_lines(s, p.drop_last()) + s[p.last() as int].title + seq![10u8]
    }
}

/// The listing the writer generates for the entries `u`: their titles in
/// title order, one per line, as a `text/plain` entry in namespace `X`.
pub open spec fn listing_entry(u: Seq<EntrySpec>) -> EntrySpec {
    EntrySpec {
        namespace: NAMESPACE_LISTING,
        url: listing_url_bytes(),
        title: listing_url_bytes(),
        mime: text_plain_bytes(),
        data: title_lines(u, title_order(u)),
        data_len: 0,
        redirect: false,
        target_namespace: 0,
        target_url: Seq::empty(),
    }
}

/// The number of entries of `s` other than redirects with MIME type `m`.
pub open spec fn mime_count(s: Seq<EntrySpec>, m: Seq<u8>) -> nat
    decreases s.len(),
{
    if s.len() == 0 {
        0
    } else {
        mime_count(s.drop_last(), m) + if !s.last().redirect && s.last().mime == m {
            1nat
        } else {
            0nat
        }
    }
}

/// Some entry of `s` other than a redirect has MIME type `m`.
pub open spec fn has_mime(s: Seq<EntrySpec>, m: Seq<u8>) -> bool {
    exists|i: int| 0 <= i < s.len() && !s[i].redirect && s[i].mime == m
}

/// `ms` holds the MIME types of `s` in increasing byte order.
pub open spec fn orders_mimes(ms: Seq<Seq<u8>>, s: Seq<EntrySpec>) -> bool {
    &&& forall|a: int, b: int| 0 <= a < b < ms.len() ==> lex_lt(ms[a], ms[b])
    &&& forall|m: Seq<u8>| ms.contains(m) <==> has_mime(s, m)
}

/// The MIME types of the entries of `s` other than redirects, in increasing
/// byte order.
pub open spec fn mimes_in_order(s: Seq<EntrySpec>) -> Seq<Seq<u8>> {
    choose|ms: Seq<Seq<u8>>| orders_mimes(ms, s)
}

/// One `mime=count` line for each MIME type of `ms`.
pub open spec fn counter_lines(s: Seq<EntrySpec>, ms: Seq<Seq<u8>>) -> Seq<u8>
    decreases ms.len(),
{
    if ms.len() == 0 {
        Seq::empty()
    } else {
        counter_lines(s, ms.drop_last()) + ms.last() + seq![61u8] + decimal(
            mime_count(s, ms.last()),
        ) + seq![10u8]
    }
}

/// The MIME counter the writer generates for the entries `s`: one
/// `mime=count` line per MIME type in byte order, as the metadata entry
/// `Counter`.
pub open spec fn counter_entry(s: Seq<EntrySpec>) -> EntrySpec {
    EntrySpec {
        namespace: NAMESPACE_METADATA,
        url: counter_name_bytes(),
        title: counter_name_bytes(),
        mime: text_plain_bytes(),
        data: counter_lines(s, mimes_in_order(s)),
        data_len: 0,
        redirect: false,
        target_namespace: 0,
        target_url: Seq::empty(),
    }
}

/// The entries an archive of the writer's entries `s` holds, in key order:
/// those of `s` not under a generated key, the listing and the counter.
pub open spec fn archive_entries(s: Seq<EntrySpec>) -> Seq<EntrySpec> {
    let u = user_order(s);
    let l = listing_entry(u);
    arrange(u.push(l).push(counter_entry(u.push(l))))
}

/// Some entry of `t` has key `k`.
pub open spec fn has_key(t: Seq<EntrySpec>, k: (u8, Seq<u8>)) -> bool {
    exists|j: int| 0 <= j < t.len() && key_of(t[j]) == k
}

/// The position of the entry of `t` with key `k`.
pub open spec fn key_index(t: Seq<EntrySpec>, k: (u8, Seq<u8>)) -> int {
    choose|j: int| 0 <= j < t.len() && key_of(t[j]) == k
}

/// The key a redirect points at.
pub open spec fn target_key(e: EntrySpec) -> (u8, Seq<u8>) {
    (e.target_namespace, e.target_url)
}

/// Entry `i` of `t` is a redirect whose target is not in `t`.
pub open spec fn dangling(t: Seq<EntrySpec>, i: int) -> bool {
    t[i].redirect && !has_key(t, target_key(t[i]))
}

/// `i` is the first position of `t` with a dangling redirect.
pub open spec fn is_first_dangling(t: Seq<EntrySpec>, i: int) -> bool {
    &&& 0 <= i < t.len()
    &&& dangling(t, i)
    &&& forall|j: int| 0 <= j < i ==> !dangling(t, j)
}

/// The first position of `t` with a dangling redirect, if there is one.
pub open spec fn first_dangling(t: Seq<EntrySpec>) -> Option<int> {
    if exists|i: int| 0 <= i < t.len() && dangling(t, i) {
        Some(choose|i: int| is_first_dangling(t, i))
    } else {
        None
    }
}

/// The MIME types of the entries of `t` other than redirects, each once, in
/// the order they first occur.
pub open spec fn mime_table(t: Seq<EntrySpec>) -> Seq<Seq<u8>>
    decreases t.len(),
{
    if t.len() == 0 {
        Seq::empty()
    } else {
        let m = mime_table(t.drop_last());
        let e = t.last();
        if !e.redirect && !m.contains(e.mime) {
            m.push(e.mime)
        } else {
            m
        }
    }
}

/// The position of `x` in the MIME table `m`.
pub open spec fn mime_pos(m: Seq<Seq<u8>>, x: Seq<u8>) -> int {
    choose|i: int| 0 <= i < m.len() && m[i] == x
}

/// Each string of `m` followed by a NUL byte.
pub open spec fn nul_terminated(m: Seq<Seq<u8>>) -> Seq<u8>
    decreases m.len(),
{
    if m.len() == 0 {
        Seq::empty()
    } else {
        nul_terminated(m.drop_last()) + m.last() + seq![0u8]
    }
}

/// The stored MIME list: each type NUL-terminated, then an empty string.
pub open spec fn mime_list_bytes(m: Seq<Seq<u8>>) -> Seq<u8> {
    nul_terminated(m) + seq![0u8]
}

/// How entries are packed into clusters so far.
pub struct Packing {
    /// For each cluster, the positions of the entries whose blobs it holds.
    pub members: Seq<Seq<int>>,
    /// For each cluster, its compression.
    pub comps: Seq<u8>,
    /// For each cluster, the size its entries count for.
    pub fill: Seq<int>,
    /// The open cluster for compressible entries.
    pub text: Option<int>,
    /// The open cluster for other entries.
    pub bin: Option<int>,
    /// For each entry, its cluster and blob (both 0 for a redirect).
    pub loc: Seq<(int, int)>,
}

/// Packing entry `i`, `e`: a redirect gets no blob; another entry goes into
/// the open cluster of its kind, which is opened first if there is none and
/// closed once its entries count for `MAX_CLUSTER_CONTENT` bytes or more.
pub open spec fn pack_step(st: Packing, e: EntrySpec, i: int) -> Packing {
    if e.redirect {
        Packing {
            members: st.members,
            comps: st.comps,
            fill: st.fill,
            text: st.text,
            bin: st.bin,
            loc: st.loc.push((0, 0)),
        }
    } else {
        let text = is_text_mime_spec(e.mime);
        let cur = if text {
            st.text
        } else {
            st.bin
        };
        let opened = cur is None;
        let ci = if opened {
            st.members.len() as int
        } else {
            cur->0
        };
        let members = if opened {
            st.members.push(Seq::empty())
        } else {
            st.members
        };
        let comps = if opened {
            st.comps.push(
                if text {
                    COMP_ZSTD
                } else {
                    COMP_NONE
                },
            )
        } else {
            st.comps
        };
        let fill = if opened {
            st.fill.push(0)
        } else {
            st.fill
        };
        let size = fill[ci] + entry_size(e);
        let next = if size >= MAX_CLUSTER_CONTENT {
            None
        } else {
            Some(ci)
        };
        Packing {
            members: members.update(ci, members[ci].push(i)),
            comps,
            fill: fill.update(ci, size),
            text: if text {
                next
            } else {
                st.text
            },
            bin: if text {
                st.bin
            } else {
                next
            },
            loc: st.loc.push((ci, members[ci].len() as int)),
        }
    }
}

/// The packing of the first `n` entries of `t`.
pub open spec fn pack(t: Seq<EntrySpec>, n: nat) -> Packing
    decreases n,
{
    if n == 0 {
        Packing {
            members: Seq::empty(),
            comps: Seq::empty(),
            fill: Seq::empty(),
            text: None,
            bin: None,
            loc: Seq::empty(),
        }
    } else {
        pack_step(pack(t, (n - 1) as nat), t[n - 1], n - 1)
    }
}

/// The blob of entry `i` of `t`: its data, or, for an entry declared
/// without data, the data `pv` gives for its position, if any.
pub open spec fn blob_of(t: Seq<EntrySpec>, pv: Seq<Option<Seq<u8>>>, i: int) -> Option<Seq<u8>> {
    if lacks_data(t[i]) {
        if 0 <= i < pv.len() {
            pv[i]
        } else {
            None
        }
    } else {
        Some(t[i].data)
    }
}

/// The blobs of the entries of `t` at positions `mem`.
pub open spec fn blob_datas(t: Seq<EntrySpec>, pv: Seq<Option<Seq<u8>>>, mem: Seq<int>) -> Seq<Seq<u8>> {
    mem.map_values(|i: int| blob_of(t, pv, i)->0)
}

/// The data given for entries declared without data, taken by views.
pub open spec fn opt_views(pv: Seq<Option<Vec<u8>>>) -> Seq<Option<Seq<u8>>> {
    pv.map_values(|o: Option<Vec<u8>>| match o {
        Some(v) => Some(v@),
        None => None,
    })
}

/// The offset table of a cluster whose blobs `ds` start at `base`: where
/// each blob starts, then where the last one ends, each as a `u32`.
pub open spec fn offset_table(base: int, ds: Seq<Seq<u8>>) -> Seq<u8>
    decreases ds.len(),
{
    if ds.len() == 0 {
        u32_bytes(base as u32)
    } else {
        offset_table(base, ds.drop_last()) + u32_bytes((base + concat(ds).len()) as u32)
    }
}

/// The size of the offset table of a cluster with `n` blobs.
pub open spec fn table_len(n: int) -> int {
    4 * (n + 1)
}

/// The uncompressed body of the cluster holding the entries of `t` at `mem`.
pub open spec fn raw_cluster(t: Seq<EntrySpec>, pv: Seq<Option<Seq<u8>>>, mem: Seq<int>) -> Seq<u8> {
    let ds = blob_datas(t, pv, mem);
    offset_table(table_len(mem.len() as int), ds) + concat(ds)
}

/// The cluster's offsets would not fit in 32 bits.
pub open spec fn raw_too_big(t: Seq<EntrySpec>, pv: Seq<Option<Seq<u8>>>, mem: Seq<int>) -> bool {
    table_len(mem.len() as int) + concat(blob_datas(t, pv, mem)).len() > u32::MAX
}

/// Some entry of the cluster has no blob.
pub open spec fn some_lacks_data(t: Seq<EntrySpec>, pv: Seq<Option<Seq<u8>>>, mem: Seq<int>) -> bool {
    exists|k: int| 0 <= k < mem.len() && blob_of(t, pv, mem[k]) is None
}

/// What storing the cluster of the entries of `t` at `mem` gives: an entry
/// without data and offsets beyond 32 bits are refused; a cluster of
/// compressible entries, unless compression is off, is its compression
/// byte and `compressed`, the compressor's answer for its body; any other
/// is stored uncompressed.
pub open spec fn encode_cluster(
    t: Seq<EntrySpec>,
    pv: Seq<Option<Seq<u8>>>,
    mem: Seq<int>,
    comp: u8,
    no_compress: bool,
    compressed: Result<Seq<u8>, Fault>,
) -> Result<Seq<u8>, Fault> {
    if some_lacks_data(t, pv, mem) {
        Err(Fault::Io)
    } else if raw_too_big(t, pv, mem) {
        Err(Fault::SizeOverflow)
    } else if !no_compress && comp == COMP_ZSTD {
        match compressed {
            Ok(p) => Ok(seq![COMP_ZSTD] + p),
            Err(f) => Err(f),
        }
    } else {
        Ok(seq![COMP_NONE] + raw_cluster(t, pv, mem))
    }
}

/// The first `n` clusters of `pk`, stored, or the first refusal; `rs` gives
/// the compressor's answer for each cluster.
pub open spec fn encode_clusters(
    t: Seq<EntrySpec>,
    pv: Seq<Option<Seq<u8>>>,
    pk: Packing,
    no_compress: bool,
    rs: Seq<Result<Seq<u8>, Fault>>,
    n: nat,
) -> Result<Seq<Seq<u8>>, Fault>
    decreases n,
{
    if n == 0 {
        Ok(Seq::empty())
    } else {
        match encode_clusters(t, pv, pk, no_compress, rs, (n - 1) as nat) {
            Err(f) => Err(f),
            Ok(done) => match encode_cluster(
                t,
                pv,
                pk.members[n - 1],
                pk.comps[n - 1],
                no_compress,
                rs[n - 1],
            ) {
                Err(f) => Err(f),
                Ok(c) => Ok(done.push(c)),
            },
        }
    }
}

/// What zstd at `level` answers for `raw`.
pub open spec fn zstd_answer(level: i32, raw: Seq<u8>) -> Result<Seq<u8>, Fault> {
    match zstd_compressed(level, raw) {
        Some(v) => Ok(v),
        None => Err(Fault::Compression),
    }
}

/// The built-in compressor's answer for each cluster of `pk`.
pub open spec fn builtin_answers(t: Seq<EntrySpec>, pv: Seq<Option<Seq<u8>>>, pk: Packing, level: i32) -> Seq<
    Result<Seq<u8>, Fault>,
> {
    pk.members.map_values(|mem: Seq<int>| zstd_answer(level, raw_cluster(t, pv, mem)))
}

/// The directory entry of `e`.
pub open spec fn dirent_bytes(e: EntrySpec, mime_idx: u16, cluster: u32, blob: u32, target: u32) -> Seq<u8> {
    let head = if e.redirect {
        u16_bytes(REDIRECT_ENTRY) + seq![0u8, e.namespace] + u32_bytes(0) + u32_bytes(target)
    } else {
        u16_bytes(mime_idx) + seq![0u8, e.namespace] + u32_bytes(0) + u32_bytes(cluster)
            + u32_bytes(blob)
    };
    head + e.url + seq![0u8] + e.title + seq![0u8]
}

/// The directory entry of entry `i` of `t`.
pub open spec fn dirent_of(t: Seq<EntrySpec>, i: int, mt: Seq<Seq<u8>>, pk: Packing) -> Seq<u8> {
    dirent_bytes(
        t[i],
        mime_pos(mt, t[i].mime) as u16,
        pk.loc[i].0 as u32,
        pk.loc[i].1 as u32,
        key_index(t, target_key(t[i])) as u32,
    )
}

/// The directory entries of `t`.
pub open spec fn dirents(t: Seq<EntrySpec>, mt: Seq<Seq<u8>>, pk: Packing) -> Seq<Seq<u8>> {
    Seq::new(t.len(), |i: int| dirent_of(t, i, mt, pk))
}

/// A table of 64-bit pointers to the sections `ss` laid out from `base`.
pub open spec fn pointer_table(base: int, ss: Seq<Seq<u8>>) -> Seq<u8>
    decreases ss.len(),
{
    if ss.len() == 0 {
        Seq::empty()
    } else {
        pointer_table(base, ss.drop_last()) + u64_bytes((base + concat(ss.drop_last()).len()) as u64)
    }
}

/// The title pointer table: the positions `p`, each as a `u32`.
pub open spec fn title_table(p: Seq<usize>) -> Seq<u8>
    decreases p.len(),
{
    if p.len() == 0 {
        Seq::empty()
    } else {
        title_table(p.drop_last()) + u32_bytes(p.last() as u32)
    }
}

/// What the archive's uuid is the MD5 digest of: for each entry its key,
/// its size as a `u64` and its data.
pub open spec fn uuid_body(t: Seq<EntrySpec>) -> Seq<u8>
    decreases t.len(),
{
    if t.len() == 0 {
        Seq::empty()
    } else {
        let e = t.last();
        uuid_body(t.drop_last()) + key_bytes(e.namespace, e.url) + u64_bytes(entry_size(e) as u64)
            + e.data
    }
}

/// The uuid input of two runs of entries, one after the other, is the input
/// of the first followed by that of the second.
pub proof fn lemma_uuid_body_concat(t1: Seq<EntrySpec>, t2: Seq<EntrySpec>)
    ensures
        uuid_body(t1 + t2) == uuid_body(t1) + uuid_body(t2),
    decreases t2.len(),
{
    if t2.len() == 0 {
        assert(t1 + t2 =~= t1);
        assert(uuid_body(t2) =~= Seq::<u8>::empty());
        assert(uuid_body(t1) + uuid_body(t2) =~= uuid_body(t1));
    } else {
        lemma_uuid_body_concat(t1, t2.drop_last());
        assert((t1 + t2).drop_last() =~= t1 + t2.drop_last());
        assert((t1 + t2).last() == t2.last());
        let e = t2.last();
        let piece = key_bytes(e.namespace, e.url) + u64_bytes(entry_size(e) as u64) + e.data;
        assert(uuid_body(t1 + t2) =~= uuid_body(t1) + uuid_body(t2.drop_last()) + piece);
        assert(uuid_body(t2) =~= uuid_body(t2.drop_last()) + piece);
        assert(uuid_body(t1) + uuid_body(t2) =~= uuid_body(t1) + uuid_body(t2.drop_last()) + piece);
    }
}

/// The uuid input of one entry is its key, its size as a little-endian
/// `u64`, and its data.
pub proof fn lemma_uuid_body_entry(e: EntrySpec)
    ensures
        uuid_body(seq![e]) == key_bytes(e.namespace, e.url) + u64_bytes(entry_size(e) as u64) + e.data,
{
    assert(seq![e].drop_last() =~= Seq::<EntrySpec>::empty());
    assert(uuid_body(Seq::<EntrySpec>::empty()) =~= Seq::<u8>::empty());
    assert(Seq::<u8>::empty() + key_bytes(e.namespace, e.url) =~= key_bytes(e.namespace, e.url));
}

/// Two runs of entries with the same keys in the same order, each entry
/// holding its data, have the same uuid input only where every entry has
/// the same data: archives that differ in some entry's data get different
/// uuid inputs.
pub proof fn lemma_uuid_body_tells_data(t1: Seq<EntrySpec>, t2: Seq<EntrySpec>)
    requires
        t1.len() == t2.len(),
        forall|i: int|
            0 <= i < t1.len() ==> (#[trigger] t1[i]).namespace == t2[i].namespace && t1[i].url == t2[i].url,
        forall|i: int| 0 <= i < t1.len() ==> !lacks_data(#[trigger] t1[i]) && t1[i].data.len() <= u64::MAX,
        forall|i: int| 0 <= i < t2.len() ==> !lacks_data(#[trigger] t2[i]) && t2[i].data.len() <= u64::MAX,
        uuid_body(t1) == uuid_body(t2),
    ensures
        forall|i: int| 0 <= i < t1.len() ==> (#[trigger] t1[i]).data == t2[i].data,
    decreases t1.len(),
{
    if t1.len() > 0 {
        let e1 = t1[0];
        let e2 = t2[0];
        let r1 = t1.drop_first();
        let r2 = t2.drop_first();
        assert(t1 =~= seq![e1] + r1);
        assert(t2 =~= seq![e2] + r2);
        lemma_uuid_body_concat(seq![e1], r1);
        lemma_uuid_body_concat(seq![e2], r2);
        lemma_uuid_body_entry(e1);
        lemma_uuid_body_entry(e2);
        let k = key_bytes(e1.namespace, e1.url);
        assert(k == key_bytes(e2.namespace, e2.url));
        let b = uuid_body(t1);
        let kl = k.len() as int;
        assert(b.subrange(kl, kl + 8) =~= u64_bytes(entry_size(e1) as u64));
        assert(uuid_body(t2).subrange(kl, kl + 8) =~= u64_bytes(entry_size(e2) as u64));
        crate::le::lemma_u64_round_trip(b, kl, entry_size(e1) as u64);
        crate::le::lemma_u64_round_trip(b, kl, entry_size(e2) as u64);
        assert(e1.data.len() == e2.data.len());
        let dl = e1.data.len() as int;
        assert(b.subrange(kl + 8, kl + 8 + dl) =~= e1.data);
        assert(uuid_body(t2).subrange(kl + 8, kl + 8 + dl) =~= e2.data);
        assert(b.subrange(kl + 8 + dl, b.len() as int) =~= uuid_body(r1));
        assert(uuid_body(t2).subrange(kl + 8 + dl, b.len() as int) =~= uuid_body(r2));
        assert forall|i: int| 0 <= i < r1.len() implies (#[trigger] r1[i]).namespace == r2[i].namespace && r1[i].url
            == r2[i].url by {
            assert(r1[i] == t1[i + 1] && r2[i] == t2[i + 1]);
        }
        assert forall|i: int| 0 <= i < r1.len() implies !lacks_data(#[trigger] r1[i]) && r1[i].data.len() <= u64::MAX by {
            assert(r1[i] == t1[i + 1]);
        }
        assert forall|i: int| 0 <= i < r2.len() implies !lacks_data(#[trigger] r2[i]) && r2[i].data.len() <= u64::MAX by {
            assert(r2[i] == t2[i + 1]);
        }
        lemma_uuid_body_tells_data(r1, r2);
        assert forall|i: int| 0 <= i < t1.len() implies (#[trigger] t1[i]).data == t2[i].data by {
            if i > 0 {
                assert(t1[i] == r1[i - 1] && t2[i] == r2[i - 1]);
            }
        }
    }
}

/// The position of the main page, or `NO_MAIN_PAGE` where none is set or
/// its entry is missing.
pub open spec fn main_index(t: Seq<EntrySpec>, main: Option<(u8, Seq<u8>)>) -> u32 {
    match main {
        Some(k) => if has_key(t, k) {
            key_index(t, k) as u32
        } else {
            NO_MAIN_PAGE
        },
        None => NO_MAIN_PAGE,
    }
}

/// Where the directory entries of an archive start.
pub open spec fn dirents_start(t: Seq<EntrySpec>, mt: Seq<Seq<u8>>, pk: Packing) -> int {
    HEADER_LEN + mime_list_bytes(mt).len() + 12 * t.len() + 8 * pk.members.len()
}

/// Where the clusters of an archive start.
pub open spec fn clusters_start(t: Seq<EntrySpec>, mt: Seq<Seq<u8>>, pk: Packing) -> int {
    dirents_start(t, mt, pk) + concat(dirents(t, mt, pk)).len()
}

/// Where the checksum of an archive with stored clusters `enc` starts.
pub open spec fn checksum_start(
    t: Seq<EntrySpec>,
    mt: Seq<Seq<u8>>,
    pk: Packing,
    enc: Seq<Seq<u8>>,
) -> int {
    clusters_start(t, mt, pk) + concat(enc).len()
}

/// The header of the archive.
pub open spec fn archive_header(
    t: Seq<EntrySpec>,
    mt: Seq<Seq<u8>>,
    pk: Packing,
    main: Option<(u8, Seq<u8>)>,
    enc: Seq<Seq<u8>>,
) -> HeaderView {
    let ml = mime_list_bytes(mt).len();
    HeaderView {
        uuid: md5_digest(uuid_body(t)),
        article_count: t.len() as u32,
        cluster_count: pk.members.len() as u32,
        url_ptr_pos: (HEADER_LEN + ml) as u64,
        title_ptr_pos: (HEADER_LEN + ml + 8 * t.len()) as u64,
        cluster_ptr_pos: (HEADER_LEN + ml + 12 * t.len()) as u64,
        mime_list_pos: HEADER_LEN as u64,
        main_page: main_index(t, main),
        layout_page: NO_MAIN_PAGE,
        checksum_pos: checksum_start(t, mt, pk, enc) as u64,
    }
}

/// The archive up to its checksum.
pub open spec fn archive_body(
    t: Seq<EntrySpec>,
    mt: Seq<Seq<u8>>,
    pk: Packing,
    main: Option<(u8, Seq<u8>)>,
    enc: Seq<Seq<u8>>,
) -> Seq<u8> {
    let ds = dirents(t, mt, pk);
    header_bytes(archive_header(t, mt, pk, main, enc)) + mime_list_bytes(mt) + pointer_table(
        dirents_start(t, mt, pk),
        ds,
    ) + title_table(title_order(t)) + pointer_table(clusters_start(t, mt, pk), enc) + concat(ds)
        + concat(enc)
}

/// What writing the writer's entries `s` gives: the archive's bytes, or the
/// first refusal. `main` is the main page's key, `no_compress` turns
/// compression off, `pv` gives the data of entries declared without it, by
/// their position in the archive, and `rs` gives the compressor's answer for
/// each cluster.
#[verifier::opaque]
pub open spec fn write_result(
    s: Seq<EntrySpec>,
    main: Option<(u8, Seq<u8>)>,
    no_compress: bool,
    pv: Seq<Option<Seq<u8>>>,
    rs: Seq<Result<Seq<u8>, Fault>>,
) -> Result<Seq<u8>, Fault> {
    let t = archive_entries(s);
    match first_dangling(t) {
        Some(i) => Err(
            Fault::MissingRedirectTarget {
                redirect: lossy_utf8(key_bytes(t[i].namespace, t[i].url)),
                target: lossy_utf8(key_bytes(t[i].target_namespace, t[i].target_url)),
            },
        ),
        None => {
            let mt = mime_table(t);
            let pk = pack(t, t.len());
            if clusters_start(t, mt, pk) > u64::MAX {
                Err(Fault::SizeOverflow)
            } else {
                match encode_clusters(t, pv, pk, no_compress, rs, pk.members.len()) {
                    Err(f) => Err(f),
                    Ok(enc) => if checksum_start(t, mt, pk, enc) + 16 > u64::MAX {
                        Err(Fault::SizeOverflow)
                    } else {
                        let b = archive_body(t, mt, pk, main, enc);
                        Ok(b + md5_digest(b))
                    },
                }
            }
        },
    }
}

/// The compressor's answers for the archive of `s` when it is zstd at `level`.
pub open spec fn builtin_write_answers(s: Seq<EntrySpec>, pv: Seq<Option<Seq<u8>>>, level: i32) -> Seq<Result<Seq<u8>, Fault>> {
    let t = archive_entries(s);
    builtin_answers(t, pv, pack(t, t.len()), level)
}


/// The entries `src[idx[k]]`, copied and put in key order.
fn sorted_picks(src: &Vec<WriterEntry>, idx: &Vec<usize>) -> (out: Vec<WriterEntry>)
    requires
        keys_distinct(views(src@)),
        forall|k: int| 0 <= k < idx@.len() ==> idx@[k] < src@.len(),
        forall|a: int, b: int| 0 <= a < b < idx@.len() ==> idx@[a] < idx@[b],
    ensures
        url_sorted(views(out@)),
        forall|x: EntrySpec|
            views(out@).contains(x) <==> exists|k: int|
                0 <= k < idx@.len() && views(src@)[idx@[k] as int] == x,
{
    let ghost sv = views(src@);
    let mut keys: Vec<SortKey> = Vec::new();
    let mut i: usize = 0;
    while i < idx.len()
        invariant
            0 <= i <= idx@.len(),
            sv == views(src@),
            forall|k: int| 0 <= k < idx@.len() ==> idx@[k] < src@.len(),
            keys@.len() == i,
            forall|k: int| 0 <= k < i ==> #[trigger] key_views(keys@)[k] == key_of(sv[idx@[k] as int]),
        decreases idx@.len() - i,
    {
        let ghost old_keys = keys@;
        let e = &src[idx[i]];
        let sk = SortKey { ns: e.namespace(), text: vstd::slice::slice_to_vec(e.url_bytes()) };
        keys.push(sk);
        assert forall|k: int| 0 <= k <= i implies #[trigger] key_views(keys@)[k] == key_of(
            sv[idx@[k] as int],
        ) by {
            if k < i {
                assert(key_views(keys@)[k] == key_views(old_keys)[k]);
            }
        }
        i = i + 1;
    }
    let perm = sort_positions(&keys);
    let ghost kv = key_views(keys@);
    proof {
        broadcast use vstd::seq_lib::group_to_multiset_ensures;

        assert(perm@.len() == idx@.len()) by {
            assert(perm@.to_multiset().len() == positions(keys@.len()).to_multiset().len());
        }
    }
    let mut out: Vec<WriterEntry> = Vec::new();
    let mut k: usize = 0;
    while k < perm.len()
        invariant
            0 <= k <= perm@.len(),
            perm@.len() == idx@.len(),
            kv == key_views(keys@),
            kv.len() == idx@.len(),
            in_range(kv, perm@),
            forall|j: int| 0 <= j < idx@.len() ==> idx@[j] < src@.len(),
            sv == views(src@),
            out@.len() == k,
            forall|j: int| 0 <= j < k ==> #[trigger] out@[j]@ == sv[idx@[perm@[j] as int] as int],
        decreases perm@.len() - k,
    {
        out.push(clone_entry(&src[idx[perm[k]]]));
        k = k + 1;
    }
    let ghost ov = views(out@);
    proof {
        broadcast use vstd::seq_lib::group_to_multiset_ensures;

        assert forall|a: int, b: int| 0 <= a < b < ov.len() implies entry_lt(ov[a], ov[b]) by {
            let pa = perm@[a] as int;
            let pb = perm@[b] as int;
            assert(idx_lt(kv, pa, pb));
            if !entry_lt(ov[a], ov[b]) {
                assert(kv[pa] == key_of(sv[idx@[pa] as int]));
                assert(kv[pb] == key_of(sv[idx@[pb] as int]));
                assert(pa != pb) by {
                    lemma_idx_lt_irreflexive(kv, pa);
                }
                if pa < pb {
                    assert(key_of(sv[idx@[pa] as int]) != key_of(sv[idx@[pb] as int]));
                } else {
                    assert(key_of(sv[idx@[pb] as int]) != key_of(sv[idx@[pa] as int]));
                }
            }
        }
        assert forall|x: EntrySpec|
            ov.contains(x) <==> exists|k: int|
                0 <= k < idx@.len() && sv[idx@[k] as int] == x by {
            if ov.contains(x) {
                let j = choose|j: int| 0 <= j < ov.len() && ov[j] == x;
                assert(sv[idx@[perm@[j] as int] as int] == x);
            }
            if exists|k: int| 0 <= k < idx@.len() && sv[idx@[k] as int] == x {
                let k = choose|k: int| 0 <= k < idx@.len() && sv[idx@[k] as int] == x;
                assert(positions(keys@.len())[k] == k as usize);
                assert(positions(keys@.len()).contains(k as usize));
                assert(perm@.to_multiset().count(k as usize) > 0);
                assert(perm@.contains(k as usize));
                let q = choose|q: int| 0 <= q < perm@.len() && perm@[q] == k as usize;
                assert(ov[q] == x);
            }
        }
    }
    out
}

/// Whether `e` is under a key the writer generates an entry for.
fn is_generated(e: &WriterEntry) -> (r: bool)
    ensures
        r == is_generated_key(key_of(e@)),
{
    let listing: [u8; 23] = [
        108, 105, 115, 116, 105, 110, 103, 47, 116, 105, 116, 108, 101, 79, 114, 100, 101, 114,
        101, 100, 47, 118, 49,
    ];
    let counter: [u8; 7] = [67, 111, 117, 110, 116, 101, 114];
    assert(listing@ =~= listing_url_bytes());
    assert(counter@ =~= counter_name_bytes());
    (e.namespace() == NAMESPACE_LISTING && bytes_eq(e.url_bytes(), listing.as_slice())) || (
    e.namespace() == NAMESPACE_METADATA && bytes_eq(e.url_bytes(), counter.as_slice()))
}

/// A sequence that orders the entries of `s` not under a generated key is
/// `user_order(s)`.
proof fn lemma_user_order(t: Seq<EntrySpec>, s: Seq<EntrySpec>)
    requires
        orders_user_entries(t, s),
    ensures
        user_order(s) == t,
{
    let u = user_order(s);
    assert(orders_user_entries(u, s));
    lemma_arrangement_unique(u, t);
}

/// The writer's entries that are not under a generated key, copied and put
/// in key order.
pub(crate) fn user_entries(src: &Vec<WriterEntry>) -> (out: Vec<WriterEntry>)
    requires
        keys_distinct(views(src@)),
    ensures
        views(out@) == user_order(views(src@)),
        orders_user_entries(views(out@), views(src@)),
{
    let ghost sv = views(src@);
    let mut idx: Vec<usize> = Vec::new();
    let mut i: usize = 0;
    while i < src.len()
        invariant
            0 <= i <= src@.len(),
            sv == views(src@),
            forall|k: int| 0 <= k < idx@.len() ==> idx@[k] < i,
            forall|a: int, b: int| 0 <= a < b < idx@.len() ==> idx@[a] < idx@[b],
            forall|j: int|
                0 <= j < i ==> (!is_generated_key(key_of(sv[j])) <==> exists|k: int|
                    0 <= k < idx@.len() && idx@[k] == j),
        decreases src@.len() - i,
    {
        let ghost old_idx = idx@;
        if !is_generated(&src[i]) {
            idx.push(i);
            assert forall|j: int|
                0 <= j <= i implies (!is_generated_key(key_of(sv[j])) <==> exists|k: int|
                    0 <= k < idx@.len() && idx@[k] == j) by {
                if j < i && exists|k: int| 0 <= k < idx@.len() && idx@[k] == j {
                    let k = choose|k: int| 0 <= k < idx@.len() && idx@[k] == j;
                    assert(k < old_idx.len());
                    assert(old_idx[k] == j);
                }
                if j < i && exists|k: int| 0 <= k < old_idx.len() && old_idx[k] == j {
                    let k = choose|k: int| 0 <= k < old_idx.len() && old_idx[k] == j;
                    assert(idx@[k] == j);
                }
                if j == i {
                    assert(idx@[old_idx.len() as int] == j);
                }
            }
        } else {
            assert forall|j: int|
                0 <= j <= i implies (!is_generated_key(key_of(sv[j])) <==> exists|k: int|
                    0 <= k < idx@.len() && idx@[k] == j) by {
                if j == i {
                    if exists|k: int| 0 <= k < idx@.len() && idx@[k] == j {
                        let k = choose|k: int| 0 <= k < idx@.len() && idx@[k] == j;
                        assert(idx@[k] < i);
                    }
                }
            }
        }
        i = i + 1;
    }
    let out = sorted_picks(src, &idx);
    proof {
        assert forall|x: EntrySpec|
            views(out@).contains(x) <==> (sv.contains(x) && !is_generated_key(key_of(x))) by {
            if views(out@).contains(x) {
                let k = choose|k: int| 0 <= k < idx@.len() && sv[idx@[k] as int] == x;
                assert(sv[idx@[k] as int] == x);
            }
            if sv.contains(x) && !is_generated_key(key_of(x)) {
                let j = choose|j: int| 0 <= j < sv.len() && sv[j] == x;
                let k = choose|k: int| 0 <= k < idx@.len() && idx@[k] == j;
                assert(sv[idx@[k] as int] == x);
            }
        }
        lemma_user_order(views(out@), sv);
    }
    out
}


/// A sequence that lists the positions of `s` in title order is `title_order(s)`.
pub proof fn lemma_title_order(p: Seq<usize>, s: Seq<EntrySpec>)
    requires
        orders_titles(p, s),
    ensures
        title_order(s) == p,
{
    broadcast use vstd::seq_lib::group_to_multiset_ensures;

    let q = title_order(s);
    assert(orders_titles(q, s));
    let kv = title_keys(s);
    lemma_idx_order(kv);
    assert forall|x: usize| q.contains(x) <==> p.contains(x) by {
        assert(q.to_multiset().count(x) == p.to_multiset().count(x));
    }
    lemma_sorted_unique(q, p, |i: usize, j: usize| idx_lt(kv, i as int, j as int));
}

/// The positions of `ents` in title order.
fn title_positions(ents: &Vec<WriterEntry>) -> (p: Vec<usize>)
    ensures
        p@ == title_order(views(ents@)),
        orders_titles(p@, views(ents@)),
        forall|k: int| 0 <= k < p@.len() ==> p@[k] < ents@.len(),
        p@.len() == ents@.len(),
{
    let ghost sv = views(ents@);
    let mut keys: Vec<SortKey> = Vec::new();
    let mut i: usize = 0;
    while i < ents.len()
        invariant
            0 <= i <= ents@.len(),
            sv == views(ents@),
            keys@.len() == i,
            forall|k: int| 0 <= k < i ==> #[trigger] key_views(keys@)[k] == title_keys(sv)[k],
        decreases ents@.len() - i,
    {
        let ghost old_keys = keys@;
        let e = &ents[i];
        keys.push(SortKey { ns: e.namespace(), text: vstd::slice::slice_to_vec(e.title_bytes()) });
        assert forall|k: int| 0 <= k <= i implies #[trigger] key_views(keys@)[k] == title_keys(
            sv,
        )[k] by {
            if k < i {
                assert(key_views(keys@)[k] == key_views(old_keys)[k]);
            }
        }
        i = i + 1;
    }
    assert(key_views(keys@) =~= title_keys(sv));
    let p = sort_positions(&keys);
    proof {
        broadcast use vstd::seq_lib::group_to_multiset_ensures;

        assert(p@.len() == sv.len()) by {
            assert(p@.to_multiset().len() == positions(keys@.len()).to_multiset().len());
        }
        lemma_title_order(p@, sv);
    }
    p
}

/// The titles of the entries `u`, in title order, one per line.
fn listing_data(u: &Vec<WriterEntry>) -> (d: Vec<u8>)
    ensures
        d@ == title_lines(views(u@), title_order(views(u@))),
{
    let ghost sv = views(u@);
    let p = title_positions(u);
    let mut d: Vec<u8> = Vec::new();
    let mut k: usize = 0;
    while k < p.len()
        invariant
            0 <= k <= p@.len(),
            sv == views(u@),
            p@ == title_order(sv),
            forall|j: int| 0 <= j < p@.len() ==> p@[j] < u@.len(),
            d@ == title_lines(sv, p@.take(k as int)),
        decreases p@.len() - k,
    {
        let t = u[p[k]].title_bytes();
        crate::text::push_bytes(&mut d, t);
        d.push(10u8);
        assert(p@.take(k + 1).drop_last() =~= p@.take(k as int));
        k = k + 1;
    }
    assert(p@.take(p@.len() as int) =~= p@);
    d
}

/// Inserts `e` into the entries `v`, which are in key order and do not hold
/// its key, keeping the order.
fn insert_by_key(v: &mut Vec<WriterEntry>, e: WriterEntry)
    requires
        url_sorted(views(old(v)@)),
        !has_key(views(old(v)@), key_of(e@)),
    ensures
        url_sorted(views(final(v)@)),
        forall|x: EntrySpec| views(final(v)@).contains(x) <==> (views(old(v)@).contains(x) || x == e@),
{
    let ghost sv = views(v@);
    let ghost ev = e@;
    let mut p: usize = 0;
    while p < v.len()
        invariant_except_break
            0 <= p <= v@.len(),
            sv == views(v@),
            ev == e@,
            !has_key(sv, key_of(ev)),
            forall|j: int| 0 <= j < p ==> entry_lt(sv[j], ev),
        ensures
            0 <= p <= v@.len(),
            sv == views(v@),
            forall|j: int| 0 <= j < p ==> entry_lt(sv[j], ev),
            p < v@.len() ==> entry_lt(ev, sv[p as int]),
        decreases v@.len() - p,
    {
        let w = &v[p];
        assert(sv[p as int] == w@);
        match compare_keys(e.namespace(), e.url_bytes(), w.namespace(), w.url_bytes()) {
            KeyOrder::Less => {
                break;
            },
            KeyOrder::Equal => {
                assert(key_of(sv[p as int]) == key_of(ev));
                assert(false);
            },
            KeyOrder::Greater => {},
        }
        p = p + 1;
    }
    v.insert(p, e);
    proof {
        assert(views(v@) =~= sv.insert(p as int, ev));
        let nv = views(v@);
        assert forall|a: int, b: int| 0 <= a < b < nv.len() implies entry_lt(nv[a], nv[b]) by {
            if b < p {
            } else if a < p && b == p {
            } else if a < p {
                assert(nv[b] == sv[b - 1]);
                if b - 1 > p {
                    lemma_entry_lt_transitive(ev, sv[p as int], sv[b - 1]);
                }
                lemma_entry_lt_transitive(nv[a], ev, nv[b]);
            } else if a == p {
                assert(nv[b] == sv[b - 1]);
                if b - 1 > p {
                    lemma_entry_lt_transitive(ev, sv[p as int], sv[b - 1]);
                }
            } else {
                assert(nv[a] == sv[a - 1]);
                assert(nv[b] == sv[b - 1]);
            }
        }
        assert forall|x: EntrySpec| nv.contains(x) <==> (sv.contains(x) || x == ev) by {
            if nv.contains(x) {
                let j = choose|j: int| 0 <= j < nv.len() && nv[j] == x;
                if j < p {
                    assert(sv[j] == x);
                } else if j > p {
                    assert(sv[j - 1] == x);
                }
            }
            if sv.contains(x) {
                let j = choose|j: int| 0 <= j < sv.len() && sv[j] == x;
                if j < p {
                    assert(nv[j] == x);
                } else {
                    assert(nv[j + 1] == x);
                }
            }
            if x == ev {
                assert(nv[p as int] == x);
            }
        }
    }
}


/// Counting over one more entry adds one where it has MIME type `m`.
proof fn lemma_mime_count_step(s: Seq<EntrySpec>, i: int, m: Seq<u8>)
    requires
        0 <= i < s.len(),
    ensures
        mime_count(s.take(i + 1), m) == mime_count(s.take(i), m) + if !s[i].redirect
            && s[i].mime == m {
            1nat
        } else {
            0nat
        },
        has_mime(s.take(i + 1), m) <==> (has_mime(s.take(i), m) || (!s[i].redirect && s[i].mime
            == m)),
{
    let t1 = s.take(i + 1);
    let t0 = s.take(i);
    assert(t1.drop_last() =~= t0);
    if has_mime(t1, m) && !(!s[i].redirect && s[i].mime == m) {
        let j = choose|j: int| 0 <= j < t1.len() && !t1[j].redirect && t1[j].mime == m;
        assert(t0[j] == s[j]);
    }
    if has_mime(t0, m) {
        let j = choose|j: int| 0 <= j < t0.len() && !t0[j].redirect && t0[j].mime == m;
        assert(t1[j] == s[j]);
    }
    if !s[i].redirect && s[i].mime == m {
        assert(t1[i] == s[i]);
    }
}

/// A MIME type that no entry has counts for nothing.
proof fn lemma_mime_count_absent(s: Seq<EntrySpec>, m: Seq<u8>)
    requires
        !has_mime(s, m),
    ensures
        mime_count(s, m) == 0,
    decreases s.len(),
{
    if s.len() > 0 {
        let d = s.drop_last();
        assert(!has_mime(d, m)) by {
            if has_mime(d, m) {
                let j = choose|j: int| 0 <= j < d.len() && !d[j].redirect && d[j].mime == m;
                assert(s[j] == d[j]);
            }
        }
        assert(!(!s.last().redirect && s.last().mime == m)) by {
            if !s.last().redirect && s.last().mime == m {
                assert(s[s.len() - 1] == s.last());
            }
        }
        lemma_mime_count_absent(d, m);
    }
}

/// A sequence that holds the MIME types of `s` in increasing byte order is
/// `mimes_in_order(s)`.
proof fn lemma_mimes_in_order(ms: Seq<Seq<u8>>, s: Seq<EntrySpec>)
    requires
        orders_mimes(ms, s),
    ensures
        mimes_in_order(s) == ms,
{
    let q = mimes_in_order(s);
    assert(orders_mimes(q, s));
    crate::sort::lemma_lex_order();
    lemma_sorted_unique(q, ms, |a: Seq<u8>, b: Seq<u8>| lex_lt(a, b));
}

/// The MIME counter's text for the entries `t`: one `mime=count` line per
/// MIME type, in byte order.
fn counter_data(t: &Vec<WriterEntry>) -> (d: Vec<u8>)
    ensures
        d@ == counter_lines(views(t@), mimes_in_order(views(t@))),
{
    let ghost s = views(t@);
    let mut names: Vec<Vec<u8>> = Vec::new();
    let mut counts: Vec<u64> = Vec::new();
    let mut i: usize = 0;
    while i < t.len()
        invariant
            0 <= i <= t@.len(),
            s == views(t@),
            counts@.len() == names@.len(),
            forall|a: int, b: int| 0 <= a < b < names@.len() ==> names@[a]@ != names@[b]@,
            forall|j: int| 0 <= j < names@.len() ==> has_mime(s.take(i as int), #[trigger] names@[j]@),
            forall|m: Seq<u8>|
                has_mime(s.take(i as int), m) ==> exists|j: int| 0 <= j < names@.len() && names@[j]@ == m,
            forall|j: int|
                0 <= j < names@.len() ==> #[trigger] counts@[j] == mime_count(s.take(i as int), names@[j]@),
            forall|j: int| 0 <= j < names@.len() ==> #[trigger] counts@[j] <= i,
        decreases t@.len() - i,
    {
        let e = &t[i];
        assert(s[i as int] == e@);
        let ghost t0 = s.take(i as int);
        let ghost t1 = s.take(i + 1);
        let ghost si = s[i as int];
        proof {
            assert forall|m: Seq<u8>| #[trigger] has_mime(t1, m) == (has_mime(t0, m) || (!si.redirect && si.mime == m)) by {
                lemma_mime_count_step(s, i as int, m);
            }
            assert forall|m: Seq<u8>| #[trigger] mime_count(t1, m) == mime_count(t0, m) + if !si.redirect && si.mime == m { 1nat } else { 0nat } by {
                lemma_mime_count_step(s, i as int, m);
            }
        }
        let ghost old_names = names@;
        let ghost old_counts = counts@;
        if !e.is_redirect() {
            let m = e.mime_bytes();
            let mut j: usize = 0;
            let mut found = false;
            while j < names.len()
                invariant_except_break
                    0 <= j <= names@.len(),
                    !found,
                    forall|k: int| 0 <= k < j ==> names@[k]@ != m@,
                ensures
                    0 <= j <= names@.len(),
                    found ==> j < names@.len() && names@[j as int]@ == m@,
                    !found ==> forall|k: int| 0 <= k < names@.len() ==> names@[k]@ != m@,
                decreases names@.len() - j,
            {
                if bytes_eq(names[j].as_slice(), m) {
                    found = true;
                    break;
                }
                j = j + 1;
            }
            if found {
                let c = counts[j] + 1;
                counts.set(j, c);
                proof {
                    assert forall|k: int| 0 <= k < names@.len() implies #[trigger] counts@[k] == mime_count(t1, names@[k]@) by {
                        if k != j {
                            assert(names@[k]@ != names@[j as int]@);
                        }
                    }
                    assert forall|mm: Seq<u8>| #[trigger] has_mime(t1, mm) implies exists|k: int|
                        0 <= k < names@.len() && names@[k]@ == mm by {
                        if has_mime(t0, mm) {
                            let k = choose|k: int| 0 <= k < old_names.len() && old_names[k]@ == mm;
                            assert(names@[k]@ == mm);
                        } else {
                            assert(names@[j as int]@ == mm);
                        }
                    }
                }
            } else {
                names.push(vstd::slice::slice_to_vec(m));
                counts.push(1);
                proof {
                    assert(has_mime(t1, m@));
                    assert(!has_mime(t0, m@));
                    lemma_mime_count_absent(t0, m@);
                    assert forall|k: int| 0 <= k < names@.len() implies #[trigger] counts@[k] == mime_count(t1, names@[k]@) by {
                        if k < old_names.len() {
                            assert(names@[k] == old_names[k]);
                            assert(counts@[k] == old_counts[k]);
                        }
                    }
                    assert forall|k: int| 0 <= k < names@.len() implies has_mime(t1, #[trigger] names@[k]@) by {
                        if k < old_names.len() {
                            assert(names@[k] == old_names[k]);
                        }
                    }
                    assert forall|mm: Seq<u8>| #[trigger] has_mime(t1, mm) implies exists|k: int|
                        0 <= k < names@.len() && names@[k]@ == mm by {
                        if has_mime(t0, mm) {
                            let k = choose|k: int| 0 <= k < old_names.len() && old_names[k]@ == mm;
                            assert(names@[k]@ == mm);
                        } else {
                            assert(names@[old_names.len() as int]@ == mm);
                        }
                    }
                }
            }
        }
        i = i + 1;
    }
    assert(s.take(s.len() as int) =~= s);
    let mut keys: Vec<SortKey> = Vec::new();
    let mut k: usize = 0;
    while k < names.len()
        invariant
            0 <= k <= names@.len(),
            keys@.len() == k,
            forall|j: int| 0 <= j < k ==> #[trigger] key_views(keys@)[j] == (0u8, names@[j]@),
        decreases names@.len() - k,
    {
        let ghost old_keys = keys@;
        keys.push(SortKey { ns: 0, text: vstd::slice::slice_to_vec(names[k].as_slice()) });
        assert forall|j: int| 0 <= j <= k implies #[trigger] key_views(keys@)[j] == (0u8, names@[j]@) by {
            if j < k {
                assert(key_views(keys@)[j] == key_views(old_keys)[j]);
            }
        }
        k = k + 1;
    }
    let perm = sort_positions(&keys);
    let ghost kv = key_views(keys@);
    let ghost ms = perm@.map_values(|p: usize| names@[p as int]@);
    proof {
        broadcast use vstd::seq_lib::group_to_multiset_ensures;

        assert(perm@.len() == names@.len()) by {
            assert(perm@.to_multiset().len() == positions(keys@.len()).to_multiset().len());
        }
        assert forall|a: int, b: int| 0 <= a < b < ms.len() implies lex_lt(ms[a], ms[b]) by {
            let pa = perm@[a] as int;
            let pb = perm@[b] as int;
            assert(idx_lt(kv, pa, pb));
            assert(kv[pa] == (0u8, names@[pa]@));
            assert(kv[pb] == (0u8, names@[pb]@));
            lemma_idx_lt_irreflexive(kv, pa);
            if pa < pb {
                assert(names@[pa]@ != names@[pb]@);
            } else if pb < pa {
                assert(names@[pb]@ != names@[pa]@);
            }
        }
        assert forall|m: Seq<u8>| ms.contains(m) <==> has_mime(s, m) by {
            if ms.contains(m) {
                let q = choose|q: int| 0 <= q < ms.len() && ms[q] == m;
                assert(has_mime(s, names@[perm@[q] as int]@));
            }
            if has_mime(s, m) {
                let j = choose|j: int| 0 <= j < names@.len() && names@[j]@ == m;
                assert(positions(keys@.len())[j] == j as usize);
                assert(positions(keys@.len()).contains(j as usize));
                assert(perm@.to_multiset().count(j as usize) > 0);
                assert(perm@.contains(j as usize));
                let q = choose|q: int| 0 <= q < perm@.len() && perm@[q] == j as usize;
                assert(ms[q] == m);
            }
        }
        lemma_mimes_in_order(ms, s);
    }
    let mut d: Vec<u8> = Vec::new();
    let mut q: usize = 0;
    while q < perm.len()
        invariant
            0 <= q <= perm@.len(),
            perm@.len() == names@.len(),
            counts@.len() == names@.len(),
            in_range(kv, perm@),
            kv.len() == names@.len(),
            ms == perm@.map_values(|p: usize| names@[p as int]@),
            forall|j: int| 0 <= j < names@.len() ==> #[trigger] counts@[j] == mime_count(s, names@[j]@),
            d@ == counter_lines(s, ms.take(q as int)),
        decreases perm@.len() - q,
    {
        let p = perm[q];
        crate::text::push_bytes(&mut d, names[p].as_slice());
        d.push(61u8);
        crate::text::push_decimal(&mut d, counts[p]);
        d.push(10u8);
        assert(ms.take(q + 1).drop_last() =~= ms.take(q as int));
        assert(ms[q as int] == names@[p as int]@);
        q = q + 1;
    }
    assert(ms.take(ms.len() as int) =~= ms);
    d
}


/// The entries of an archive of the writer's entries `src`, in key order:
/// those not under a generated key, the listing and the MIME counter.
pub(crate) fn archive_entry_list(src: &Vec<WriterEntry>) -> (t: Vec<WriterEntry>)
    requires
        keys_distinct(views(src@)),
    ensures
        views(t@) == archive_entries(views(src@)),
        url_sorted(views(t@)),
        forall|x: EntrySpec|
            views(src@).contains(x) && !is_generated_key(key_of(x)) ==> #[trigger] views(t@).contains(x),
{
    let ghost sv = views(src@);
    let mut u = user_entries(src);
    let ghost uv = views(u@);
    let ld = listing_data(&u);
    assert(encode_utf8(Seq::<char>::empty()) =~= Seq::<u8>::empty());
    let l = WriterEntry::stored(
        NAMESPACE_LISTING,
        listing_url_string(),
        listing_url_string(),
        text_plain_string(),
        ld,
    );
    let ghost lv = l@;
    assert(lv == listing_entry(uv));
    u.push(l);
    assert(views(u@) =~= uv.push(lv));
    let cd = counter_data(&u);
    let c = WriterEntry::stored(
        NAMESPACE_METADATA,
        counter_name_string(),
        counter_name_string(),
        text_plain_string(),
        cd,
    );
    let ghost cv = c@;
    assert(cv == counter_entry(uv.push(lv)));
    let popped = u.pop();
    assert(views(u@) =~= uv);
    match popped {
        Some(l2) => {
            assert(l2@ == lv);
            proof {
                if has_key(uv, key_of(lv)) {
                    let j = choose|j: int| 0 <= j < uv.len() && key_of(uv[j]) == key_of(lv);
                    assert(uv.contains(uv[j]));
                }
            }
            insert_by_key(&mut u, l2);
        },
        None => {
            assert(false);
        },
    }
    let ghost u1 = views(u@);
    proof {
        if has_key(u1, key_of(cv)) {
            let j = choose|j: int| 0 <= j < u1.len() && key_of(u1[j]) == key_of(cv);
            assert(u1.contains(u1[j]));
            if uv.contains(u1[j]) {
            } else {
                assert(u1[j] == lv);
            }
        }
    }
    insert_by_key(&mut u, c);
    proof {
        let all = uv.push(lv).push(cv);
        assert forall|x: EntrySpec| views(u@).contains(x) <==> all.contains(x) by {
            if all.contains(x) {
                let j = choose|j: int| 0 <= j < all.len() && all[j] == x;
                if j < uv.len() {
                    assert(uv[j] == x);
                    assert(uv.contains(x));
                }
            }
            if uv.contains(x) {
                let j = choose|j: int| 0 <= j < uv.len() && uv[j] == x;
                assert(all[j] == x);
            }
            if x == lv {
                assert(all[uv.len() as int] == x);
            }
            if x == cv {
                assert(all[uv.len() as int + 1] == x);
            }
        }
        assert(arranges(views(u@), all));
        lemma_arrange(views(u@), all);
        assert forall|x: EntrySpec| sv.contains(x) && !is_generated_key(key_of(x)) implies #[trigger] views(
            u@,
        ).contains(x) by {
            assert(uv.contains(x));
            let j = choose|j: int| 0 <= j < uv.len() && uv[j] == x;
            assert(all[j] == x);
        }
    }
    u
}


proof fn lemma_key_lt_transitive(a: (u8, Seq<u8>), b: (u8, Seq<u8>), c: (u8, Seq<u8>))
    requires
        key_lt(a.0, a.1, b.0, b.1),
        key_lt(b.0, b.1, c.0, c.1),
    ensures
        key_lt(a.0, a.1, c.0, c.1),
{
    if a.0 == b.0 && b.0 == c.0 {
        crate::text::lemma_lex_transitive(a.1, b.1, c.1);
    }
}

/// In a sequence in key order, no two entries share a key.
pub proof fn lemma_sorted_keys_distinct(t: Seq<EntrySpec>)
    requires
        url_sorted(t),
    ensures
        keys_distinct(t),
{
    assert forall|i: int, j: int| 0 <= i < j < t.len() implies key_of(t[i]) != key_of(t[j]) by {
        assert(entry_lt(t[i], t[j]));
        crate::text::lemma_lex_irreflexive(t[i].url);
    }
}

/// In a sequence in key order, the entry found with key `k` is the one at `key_index`.
proof fn lemma_key_index(t: Seq<EntrySpec>, j: int, k: (u8, Seq<u8>))
    requires
        url_sorted(t),
        0 <= j < t.len(),
        key_of(t[j]) == k,
    ensures
        has_key(t, k),
        key_index(t, k) == j,
{
    lemma_sorted_keys_distinct(t);
    let i = key_index(t, k);
    assert(key_of(t[i]) == k);
}

/// The position of the entry with key `(ns, url)` among the entries `t`,
/// which are in key order.
fn find_key(t: &Vec<WriterEntry>, ns: u8, url: &[u8]) -> (r: Option<usize>)
    requires
        url_sorted(views(t@)),
    ensures
        match r {
            Some(i) => i < t@.len() && key_of(views(t@)[i as int]) == (ns, url@),
            None => !has_key(views(t@), (ns, url@)),
        },
{
    let ghost sv = views(t@);
    let ghost k = (ns, url@);
    let mut lo: usize = 0;
    let mut hi: usize = t.len();
    while lo < hi
        invariant
            0 <= lo <= hi <= t@.len(),
            sv == views(t@),
            url_sorted(sv),
            k == (ns, url@),
            forall|j: int| 0 <= j < lo ==> key_lt(sv[j].namespace, sv[j].url, ns, url@),
            forall|j: int| hi <= j < sv.len() ==> key_lt(ns, url@, sv[j].namespace, sv[j].url),
        decreases hi - lo,
    {
        let mid = lo + (hi - lo) / 2;
        let e = &t[mid];
        assert(sv[mid as int] == e@);
        match compare_keys(e.namespace(), e.url_bytes(), ns, url) {
            KeyOrder::Less => {
                assert forall|j: int| 0 <= j < mid + 1 implies key_lt(sv[j].namespace, sv[j].url, ns, url@) by {
                    if j < mid {
                        assert(entry_lt(sv[j], sv[mid as int]));
                        lemma_key_lt_transitive(key_of(sv[j]), key_of(sv[mid as int]), k);
                    }
                }
                lo = mid + 1;
            },
            KeyOrder::Equal => {
                return Some(mid);
            },
            KeyOrder::Greater => {
                assert forall|j: int| mid <= j < sv.len() implies key_lt(ns, url@, sv[j].namespace, sv[j].url) by {
                    if j > mid {
                        assert(entry_lt(sv[mid as int], sv[j]));
                        lemma_key_lt_transitive(k, key_of(sv[mid as int]), key_of(sv[j]));
                    }
                }
                hi = mid;
            },
        }
    }
    proof {
        if has_key(sv, k) {
            let j = choose|j: int| 0 <= j < sv.len() && key_of(sv[j]) == k;
            crate::text::lemma_lex_irreflexive(url@);
        }
    }
    None
}

/// Appends the UTF-8 bytes of the character whose code is `ns`.
pub(crate) fn push_ns_char(out: &mut Vec<u8>, ns: u8)
    ensures
        final(out)@ == old(out)@ + ns_key_bytes(ns),
{
    if ns < 0x80 {
        out.push(ns);
    } else {
        out.push(0xc0u8 | (ns >> 6u8));
        out.push(0x80u8 | (ns & 0x3fu8));
    }
}

/// The key string of `(ns, url)`: the namespace character, then the URL.
fn make_key(ns: u8, url: &[u8]) -> (s: String)
    ensures
        s@ == lossy_utf8(key_bytes(ns, url@)),
{
    let mut b: Vec<u8> = Vec::new();
    push_ns_char(&mut b, ns);
    crate::text::push_bytes(&mut b, url);
    crate::text::lossy_string(b.as_slice())
}

/// The position each redirect of `t` points at (0 for other entries), or
/// the error for the first redirect whose target is missing.
fn resolve_targets(t: &Vec<WriterEntry>) -> (r: Result<Vec<u32>, Error>)
    requires
        url_sorted(views(t@)),
    ensures
        match r {
            Ok(v) => first_dangling(views(t@)) is None && v@.len() == t@.len() && forall|i: int|
                0 <= i < t@.len() && views(t@)[i].redirect ==> #[trigger] v@[i] == key_index(
                    views(t@),
                    target_key(views(t@)[i]),
                ) as u32,
            Err(e) => first_dangling(views(t@)) matches Some(i) && e@ == (
            Fault::MissingRedirectTarget {
                redirect: lossy_utf8(key_bytes(views(t@)[i].namespace, views(t@)[i].url)),
                target: lossy_utf8(
                    key_bytes(views(t@)[i].target_namespace, views(t@)[i].target_url),
                ),
            }),
        },
{
    let ghost sv = views(t@);
    let mut v: Vec<u32> = Vec::new();
    let mut i: usize = 0;
    while i < t.len()
        invariant
            0 <= i <= t@.len(),
            sv == views(t@),
            url_sorted(sv),
            v@.len() == i,
            forall|j: int| 0 <= j < i ==> !dangling(sv, j),
            forall|j: int|
                0 <= j < i && sv[j].redirect ==> #[trigger] v@[j] == key_index(sv, target_key(sv[j])) as u32,
        decreases t@.len() - i,
    {
        let e = &t[i];
        assert(sv[i as int] == e@);
        if e.is_redirect() {
            match find_key(t, e.target_namespace(), e.target_url_bytes()) {
                Some(j) => {
                    proof {
                        lemma_key_index(sv, j as int, target_key(sv[i as int]));
                    }
                    v.push(j as u32);
                },
                None => {
                    proof {
                        assert(dangling(sv, i as int));
                        assert(is_first_dangling(sv, i as int));
                        let f = choose|f: int| is_first_dangling(sv, f);
                        assert(f == i);
                    }
                    return Err(
                        Error::MissingRedirectTarget {
                            redirect: make_key(e.namespace(), e.url_bytes()),
                            target: make_key(e.target_namespace(), e.target_url_bytes()),
                        },
                    );
                },
            }
        } else {
            v.push(0);
        }
        i = i + 1;
    }
    Ok(v)
}


/// `mt` holds no string twice.
pub open spec fn distinct_strings(mt: Seq<Seq<u8>>) -> bool {
    forall|a: int, b: int| 0 <= a < b < mt.len() ==> mt[a] != mt[b]
}

/// The byte strings of `v`.
pub open spec fn strings(v: Seq<Vec<u8>>) -> Seq<Seq<u8>> {
    v.map_values(|b: Vec<u8>| b@)
}

/// A string of a table that holds no string twice is at its only position.
proof fn lemma_mime_pos(mt: Seq<Seq<u8>>, p: int)
    requires
        distinct_strings(mt),
        0 <= p < mt.len(),
    ensures
        mime_pos(mt, mt[p]) == p,
{
    let q = mime_pos(mt, mt[p]);
    assert(0 <= q < mt.len() && mt[q] == mt[p]);
}

/// The MIME table of `t`, and for each entry other than a redirect the
/// position of its MIME type in it.
fn mime_table_of(t: &Vec<WriterEntry>) -> (r: (Vec<Vec<u8>>, Vec<usize>))
    ensures
        strings(r.0@) == mime_table(views(t@)),
        distinct_strings(mime_table(views(t@))),
        r.1@.len() == t@.len(),
        forall|i: int|
            0 <= i < t@.len() && !views(t@)[i].redirect ==> #[trigger] r.1@[i] as int == mime_pos(
                mime_table(views(t@)),
                views(t@)[i].mime,
            ),
{
    let ghost sv = views(t@);
    let mut names: Vec<Vec<u8>> = Vec::new();
    let mut pos: Vec<usize> = Vec::new();
    let mut i: usize = 0;
    while i < t.len()
        invariant
            0 <= i <= t@.len(),
            sv == views(t@),
            strings(names@) == mime_table(sv.take(i as int)),
            distinct_strings(strings(names@)),
            pos@.len() == i,
            forall|j: int|
                0 <= j < i && !sv[j].redirect ==> #[trigger] pos@[j] < names@.len() && names@[pos@[j] as int]@
                    == sv[j].mime,
        decreases t@.len() - i,
    {
        let e = &t[i];
        assert(sv[i as int] == e@);
        assert(sv.take(i + 1).drop_last() =~= sv.take(i as int));
        let ghost old_names = names@;
        if e.is_redirect() {
            pos.push(0);
        } else {
            let m = e.mime_bytes();
            let mut j: usize = 0;
            let mut found = false;
            while j < names.len()
                invariant_except_break
                    0 <= j <= names@.len(),
                    !found,
                    forall|k: int| 0 <= k < j ==> names@[k]@ != m@,
                ensures
                    0 <= j <= names@.len(),
                    found ==> j < names@.len() && names@[j as int]@ == m@,
                    !found ==> forall|k: int| 0 <= k < names@.len() ==> names@[k]@ != m@,
                decreases names@.len() - j,
            {
                if bytes_eq(names[j].as_slice(), m) {
                    found = true;
                    break;
                }
                j = j + 1;
            }
            if found {
                assert(strings(names@).contains(m@)) by {
                    assert(strings(names@)[j as int] == m@);
                }
                pos.push(j);
            } else {
                assert(!strings(names@).contains(m@)) by {
                    if strings(names@).contains(m@) {
                        let k = choose|k: int| 0 <= k < strings(names@).len() && strings(names@)[k] == m@;
                        assert(names@[k]@ == m@);
                    }
                }
                pos.push(names.len());
                names.push(vstd::slice::slice_to_vec(m));
                assert(strings(names@) =~= strings(old_names).push(m@));
            }
        }
        assert forall|j: int|
            0 <= j <= i && !sv[j].redirect implies #[trigger] pos@[j] < names@.len() && names@[pos@[j] as int]@
                == sv[j].mime by {
            if j < i {
                assert(names@[pos@[j] as int] == old_names[pos@[j] as int]);
            }
        }
        i = i + 1;
    }
    assert(sv.take(sv.len() as int) =~= sv);
    proof {
        assert forall|j: int|
            0 <= j < sv.len() && !sv[j].redirect implies #[trigger] pos@[j] as int == mime_pos(
                mime_table(sv),
                sv[j].mime,
            ) by {
            assert(strings(names@)[pos@[j] as int] == sv[j].mime);
            lemma_mime_pos(strings(names@), pos@[j] as int);
        }
    }
    (names, pos)
}

/// The stored MIME list of the table `names`.
fn encode_mime_list(names: &Vec<Vec<u8>>) -> (b: Vec<u8>)
    ensures
        b@ == mime_list_bytes(strings(names@)),
{
    let mut b: Vec<u8> = Vec::new();
    let mut i: usize = 0;
    while i < names.len()
        invariant
            0 <= i <= names@.len(),
            b@ == nul_terminated(strings(names@).take(i as int)),
        decreases names@.len() - i,
    {
        crate::text::push_bytes(&mut b, names[i].as_slice());
        b.push(0u8);
        assert(strings(names@).take(i + 1).drop_last() =~= strings(names@).take(i as int));
        i = i + 1;
    }
    assert(strings(names@).take(names@.len() as int) =~= strings(names@));
    b.push(0u8);
    b
}


/// The positions of `v`, as integers.
pub open spec fn as_ints(v: Seq<usize>) -> Seq<int> {
    v.map_values(|x: usize| x as int)
}

/// The member lists of the clusters `m`, as integers.
pub open spec fn member_lists(m: Seq<Vec<usize>>) -> Seq<Seq<int>> {
    m.map_values(|v: Vec<usize>| as_ints(v@))
}

/// The locations `l`, as integers.
pub open spec fn loc_ints(l: Seq<(usize, usize)>) -> Seq<(int, int)> {
    l.map_values(|p: (usize, usize)| (p.0 as int, p.1 as int))
}

/// `o`, as an integer.
pub open spec fn opt_int(o: Option<usize>) -> Option<int> {
    match o {
        Some(x) => Some(x as int),
        None => None,
    }
}

/// The size entry `e` counts for when clusters are filled.
fn size_of_entry(e: &WriterEntry) -> (n: u64)
    ensures
        n as int == entry_size(e@),
{
    let d = e.data();
    if d.len() == 0 && e.declared_len() > 0 {
        e.declared_len()
    } else {
        d.len() as u64
    }
}

/// Packs the blobs of the entries `t` into clusters: for each cluster its
/// members and compression, and for each entry its cluster and blob.
fn pack_clusters(t: &Vec<WriterEntry>) -> (r: (Vec<Vec<usize>>, Vec<u8>, Vec<(usize, usize)>))
    ensures
        member_lists(r.0@) == pack(views(t@), t@.len()).members,
        r.1@ == pack(views(t@), t@.len()).comps,
        r.1@.len() == r.0@.len(),
        r.2@.len() == t@.len(),
        forall|c: int, k: int|
            0 <= c < r.0@.len() && 0 <= k < r.0@[c]@.len() ==> #[trigger] r.0@[c]@[k] < t@.len(),
        loc_ints(r.2@) == pack(views(t@), t@.len()).loc,
{
    let ghost sv = views(t@);
    let mut members: Vec<Vec<usize>> = Vec::new();
    let mut comps: Vec<u8> = Vec::new();
    let mut fill: Vec<u64> = Vec::new();
    let mut text: Option<usize> = None;
    let mut bin: Option<usize> = None;
    let mut loc: Vec<(usize, usize)> = Vec::new();
    let mut i: usize = 0;
    assert(member_lists(members@) =~= pack(sv, 0).members);
    assert(loc_ints(loc@) =~= pack(sv, 0).loc);
    while i < t.len()
        invariant
            0 <= i <= t@.len(),
            sv == views(t@),
            member_lists(members@) == pack(sv, i as nat).members,
            comps@ == pack(sv, i as nat).comps,
            loc_ints(loc@) == pack(sv, i as nat).loc,
            fill@.len() == members@.len(),
            comps@.len() == members@.len(),
            loc@.len() == i,
            pack(sv, i as nat).fill.len() == members@.len(),
            opt_int(text) == pack(sv, i as nat).text,
            opt_int(bin) == pack(sv, i as nat).bin,
            text matches Some(c) ==> c < members@.len() && fill@[c as int] as int == pack(
                sv,
                i as nat,
            ).fill[c as int] && fill@[c as int] < MAX_CLUSTER_CONTENT,
            bin matches Some(c) ==> c < members@.len() && fill@[c as int] as int == pack(
                sv,
                i as nat,
            ).fill[c as int] && fill@[c as int] < MAX_CLUSTER_CONTENT,
            forall|c: int| 0 <= c < members@.len() ==> members@[c]@.len() <= i,
            forall|c: int, k: int|
                0 <= c < members@.len() && 0 <= k < members@[c]@.len() ==> #[trigger] members@[c]@[k] < i,
            text matches Some(a) ==> bin matches Some(b) ==> a != b,
        decreases t@.len() - i,
    {
        let ghost st = pack(sv, i as nat);
        let e = &t[i];
        assert(sv[i as int] == e@);
        assert(pack(sv, (i + 1) as nat) == pack_step(st, e@, i as int));
        if e.is_redirect() {
            loc.push((0, 0));
            assert(loc_ints(loc@) =~= st.loc.push((0, 0)));
        } else {
            let is_text = crate::codec::is_text_mime(e.mime_str());
            let cur = if is_text {
                text
            } else {
                bin
            };
            let ghost old_members = members@;
            let ci = match cur {
                Some(c) => c,
                None => {
                    members.push(Vec::new());
                    comps.push(
                        if is_text {
                            COMP_ZSTD
                        } else {
                            COMP_NONE
                        },
                    );
                    fill.push(0);
                    members.len() - 1
                },
            };
            let ghost opened_members = member_lists(members@);
            assert(opened_members =~= (if cur is None {
                member_lists(old_members).push(Seq::empty())
            } else {
                member_lists(old_members)
            })) by {
                if cur is None {
                    assert(as_ints(members@[ci as int]@) =~= Seq::<int>::empty());
                }
            }
            let blob = members[ci].len();
            let size = size_of_entry(e);
            let closes = size >= MAX_CLUSTER_CONTENT - fill[ci];
            let ghost before = members@;
            members[ci].push(i);
            assert(member_lists(members@) =~= opened_members.update(
                ci as int,
                opened_members[ci as int].push(i as int),
            )) by {
                assert(as_ints(members@[ci as int]@) =~= as_ints(before[ci as int]@).push(i as int));
                assert forall|c: int| 0 <= c < members@.len() && c != ci implies members@[c] == before[c] by {}
            }
            assert forall|c: int, k: int|
                0 <= c < members@.len() && 0 <= k < members@[c]@.len() implies #[trigger] members@[c]@[k] < i + 1 by {
                if c != ci {
                    assert(members@[c] == before[c]);
                } else if k < before[c]@.len() {
                    assert(members@[c]@[k] == before[c]@[k]);
                }
            }
            let next = if closes {
                None
            } else {
                let nf = fill[ci] + size;
                fill.set(ci, nf);
                Some(ci)
            };
            if is_text {
                text = next;
            } else {
                bin = next;
            }
            loc.push((ci, blob));
            assert(loc_ints(loc@) =~= st.loc.push((ci as int, blob as int)));
        }
        i = i + 1;
    }
    (members, comps, loc)
}


/// The directory entry of `e`.
fn encode_dirent(e: &WriterEntry, mime_idx: u16, cluster: u32, blob: u32, target: u32) -> (d: Vec<u8>)
    ensures
        d@ == dirent_bytes(e@, mime_idx, cluster, blob, target),
{
    let mut d: Vec<u8> = Vec::new();
    if e.is_redirect() {
        put_u16(&mut d, REDIRECT_ENTRY);
        d.push(0u8);
        d.push(e.namespace());
        put_u32(&mut d, 0);
        put_u32(&mut d, target);
    } else {
        put_u16(&mut d, mime_idx);
        d.push(0u8);
        d.push(e.namespace());
        put_u32(&mut d, 0);
        put_u32(&mut d, cluster);
        put_u32(&mut d, blob);
    }
    crate::text::push_bytes(&mut d, e.url_bytes());
    d.push(0u8);
    crate::text::push_bytes(&mut d, e.title_bytes());
    d.push(0u8);
    assert(d@ =~= dirent_bytes(e@, mime_idx, cluster, blob, target));
    d
}

/// The directory entries of `t`, given the MIME positions, locations and
/// redirect targets of its entries.
fn dirent_list(
    t: &Vec<WriterEntry>,
    pos: &Vec<usize>,
    loc: &Vec<(usize, usize)>,
    targets: &Vec<u32>,
    Ghost(mt): Ghost<Seq<Seq<u8>>>,
    Ghost(pk): Ghost<Packing>,
) -> (ds: Vec<Vec<u8>>)
    requires
        pos@.len() == t@.len(),
        targets@.len() == t@.len(),
        loc_ints(loc@) == pk.loc,
        loc@.len() == t@.len(),
        forall|i: int|
            0 <= i < t@.len() && !views(t@)[i].redirect ==> #[trigger] pos@[i] as int == mime_pos(
                mt,
                views(t@)[i].mime,
            ),
        forall|i: int|
            0 <= i < t@.len() && views(t@)[i].redirect ==> #[trigger] targets@[i] == key_index(
                views(t@),
                target_key(views(t@)[i]),
            ) as u32,
    ensures
        strings(ds@) == dirents(views(t@), mt, pk),
{
    let ghost sv = views(t@);
    let mut ds: Vec<Vec<u8>> = Vec::new();
    let mut i: usize = 0;
    while i < t.len()
        invariant
            0 <= i <= t@.len(),
            sv == views(t@),
            pos@.len() == t@.len(),
            targets@.len() == t@.len(),
            loc_ints(loc@) == pk.loc,
            loc@.len() == t@.len(),
            forall|i: int|
                0 <= i < t@.len() && !sv[i].redirect ==> #[trigger] pos@[i] as int == mime_pos(
                    mt,
                    sv[i].mime,
                ),
            forall|i: int|
                0 <= i < t@.len() && sv[i].redirect ==> #[trigger] targets@[i] == key_index(
                    sv,
                    target_key(sv[i]),
                ) as u32,
            strings(ds@) == dirents(sv, mt, pk).take(i as int),
        decreases t@.len() - i,
    {
        let e = &t[i];
        assert(sv[i as int] == e@);
        let (c, b) = loc[i];
        assert(pk.loc[i as int] == (c as int, b as int));
        let d = encode_dirent(e, pos[i] as u16, c as u32, b as u32, targets[i]);
        assert(d@ == dirent_of(sv, i as int, mt, pk));
        let ghost old_ds = ds@;
        let ghost dv = d@;
        ds.push(d);
        assert(strings(ds@) =~= strings(old_ds).push(dv));
        assert(dirents(sv, mt, pk)[i as int] == dv);
        assert(strings(ds@) =~= dirents(sv, mt, pk).take(i + 1));
        i = i + 1;
    }
    assert(dirents(sv, mt, pk).take(sv.len() as int) =~= dirents(sv, mt, pk));
    ds
}

/// A prefix of sections is no longer than all of them.
proof fn lemma_concat_prefix(ss: Seq<Seq<u8>>, i: int)
    requires
        0 <= i <= ss.len(),
    ensures
        concat(ss.take(i)).len() <= concat(ss).len(),
    decreases ss.len() - i,
{
    if i < ss.len() {
        lemma_concat_prefix(ss, i + 1);
        assert(ss.take(i + 1).drop_last() =~= ss.take(i));
    } else {
        assert(ss.take(i) =~= ss);
    }
}

/// The 64-bit pointers to the sections `ss` laid out from `base`.
fn pointer_table_of(base: u64, ss: &Vec<Vec<u8>>) -> (b: Vec<u8>)
    requires
        base + concat(strings(ss@)).len() <= u64::MAX,
    ensures
        b@ == pointer_table(base as int, strings(ss@)),
{
    let ghost sv = strings(ss@);
    let mut b: Vec<u8> = Vec::new();
    let mut off: u64 = base;
    let mut i: usize = 0;
    while i < ss.len()
        invariant
            0 <= i <= ss@.len(),
            sv == strings(ss@),
            base + concat(sv).len() <= u64::MAX,
            off == base + concat(sv.take(i as int)).len(),
            b@ == pointer_table(base as int, sv.take(i as int)),
        decreases ss@.len() - i,
    {
        put_u64(&mut b, off);
        proof {
            assert(sv.take(i + 1).drop_last() =~= sv.take(i as int));
            lemma_concat_prefix(sv, i + 1);
        }
        off = off + ss[i].len() as u64;
        i = i + 1;
    }
    assert(sv.take(sv.len() as int) =~= sv);
    b
}

/// The title pointer table of the positions `p`.
fn encode_title_ptrs(p: &Vec<usize>) -> (b: Vec<u8>)
    ensures
        b@ == title_table(p@),
{
    let mut b: Vec<u8> = Vec::new();
    let mut i: usize = 0;
    while i < p.len()
        invariant
            0 <= i <= p@.len(),
            b@ == title_table(p@.take(i as int)),
        decreases p@.len() - i,
    {
        put_u32(&mut b, p[i] as u32);
        assert(p@.take(i + 1).drop_last() =~= p@.take(i as int));
        i = i + 1;
    }
    assert(p@.take(p@.len() as int) =~= p@);
    b
}

/// Appends each section of `ss`.
fn push_sections(out: &mut Vec<u8>, ss: &Vec<Vec<u8>>)
    ensures
        final(out)@ == old(out)@ + concat(strings(ss@)),
{
    let ghost sv = strings(ss@);
    let mut i: usize = 0;
    while i < ss.len()
        invariant
            0 <= i <= ss@.len(),
            sv == strings(ss@),
            out@ == old(out)@ + concat(sv.take(i as int)),
        decreases ss@.len() - i,
    {
        crate::text::push_bytes(out, ss[i].as_slice());
        assert(sv.take(i + 1).drop_last() =~= sv.take(i as int));
        i = i + 1;
    }
    assert(sv.take(sv.len() as int) =~= sv);
}

/// The total length of the sections `ss`, or `None` past `limit`.
fn sections_len(ss: &Vec<Vec<u8>>, start: u64) -> (r: Option<u64>)
    ensures
        match r {
            Some(n) => n == start + concat(strings(ss@)).len(),
            None => start + concat(strings(ss@)).len() > u64::MAX,
        },
{
    let ghost sv = strings(ss@);
    let mut total: u64 = start;
    let mut i: usize = 0;
    while i < ss.len()
        invariant
            0 <= i <= ss@.len(),
            sv == strings(ss@),
            total == start + concat(sv.take(i as int)).len(),
        decreases ss@.len() - i,
    {
        assert(sv.take(i + 1).drop_last() =~= sv.take(i as int));
        let n = ss[i].len() as u64;
        if n > u64::MAX - total {
            proof {
                lemma_concat_prefix(sv, i + 1);
            }
            return None;
        }
        total = total + n;
        i = i + 1;
    }
    assert(sv.take(sv.len() as int) =~= sv);
    Some(total)
}

/// What the uuid of an archive of the entries `t` is the MD5 digest of.
fn uuid_input(t: &Vec<WriterEntry>) -> (b: Vec<u8>)
    ensures
        b@ == uuid_body(views(t@)),
{
    let ghost sv = views(t@);
    let mut b: Vec<u8> = Vec::new();
    let mut i: usize = 0;
    while i < t.len()
        invariant
            0 <= i <= t@.len(),
            sv == views(t@),
            b@ == uuid_body(sv.take(i as int)),
        decreases t@.len() - i,
    {
        let e = &t[i];
        assert(sv[i as int] == e@);
        push_ns_char(&mut b, e.namespace());
        crate::text::push_bytes(&mut b, e.url_bytes());
        put_u64(&mut b, size_of_entry(e));
        crate::text::push_bytes(&mut b, e.data());
        assert(sv.take(i + 1).drop_last() =~= sv.take(i as int));
        assert(b@ =~= uuid_body(sv.take(i + 1)));
        i = i + 1;
    }
    assert(sv.take(sv.len() as int) =~= sv);
    b
}

/// The archive's uuid: the MD5 digest of each entry's key, size and data.
fn derive_uuid(t: &Vec<WriterEntry>) -> (d: [u8; 16])
    ensures
        d@ == md5_digest(uuid_body(views(t@))),
{
    let b = uuid_input(t);
    md5(b.as_slice())
}

/// The position of the main page `(ns, url)` among the entries `t`, if one
/// is set and present, else `NO_MAIN_PAGE`.
fn main_index_of(t: &Vec<WriterEntry>, main: Option<(u8, &[u8])>) -> (r: u32)
    requires
        url_sorted(views(t@)),
    ensures
        r == main_index(
            views(t@),
            match main {
                Some((ns, url)) => Some((ns, url@)),
                None => None,
            },
        ),
{
    match main {
        Some((ns, url)) => match find_key(t, ns, url) {
            Some(i) => {
                proof {
                    lemma_key_index(views(t@), i as int, (ns, url@));
                }
                i as u32
            },
            None => NO_MAIN_PAGE,
        },
        None => NO_MAIN_PAGE,
    }
}


/// What a computation of bytes gave, taken by views.
pub open spec fn result_view(r: Result<Vec<u8>, Error>) -> Result<Seq<u8>, Fault> {
    match r {
        Ok(v) => Ok(v@),
        Err(e) => Err(e@),
    }
}

/// An I/O error of kind `Other` with the message `msg`, built by
/// `std::io::Error::new`. std documents that such an error displays `msg`;
/// an `io::Error` has no view here for a contract to speak of, so that is
/// left unsaid.
#[verifier::external_body]
fn other_io_error(msg: String) -> std::io::Error {
    std::io::Error::new(std::io::ErrorKind::Other, msg)
}

/// The bytes of the message for an entry declared without data: `entry '`,
/// its URL, `' has no stored data; use write_to_streaming`.
pub open spec fn missing_data_text(url: Seq<u8>) -> Seq<u8> {
    seq![101u8, 110, 116, 114, 121, 32, 39] + url + seq![
        39u8, 32, 104, 97, 115, 32, 110, 111, 32, 115, 116, 111, 114, 101, 100, 32, 100, 97, 116, 97, 59, 32,
        117, 115, 101, 32, 119, 114, 105, 116, 101, 95, 116, 111, 95, 115, 116, 114, 101, 97, 109, 105, 110, 103,
    ]
}

/// The message for an entry declared without data, naming its URL.
fn missing_data_message(url: &[u8]) -> (r: String)
    ensures
        r@ == lossy_utf8(missing_data_text(url@)),
{
    let head: [u8; 7] = [101, 110, 116, 114, 121, 32, 39];
    let tail: [u8; 44] = [
        39, 32, 104, 97, 115, 32, 110, 111, 32, 115, 116, 111, 114, 101, 100, 32, 100, 97, 116, 97, 59, 32, 117,
        115, 101, 32, 119, 114, 105, 116, 101, 95, 116, 111, 95, 115, 116, 114, 101, 97, 109, 105, 110, 103,
    ];
    let mut b: Vec<u8> = Vec::new();
    crate::text::push_bytes(&mut b, head.as_slice());
    crate::text::push_bytes(&mut b, url);
    crate::text::push_bytes(&mut b, tail.as_slice());
    assert(b@ =~= missing_data_text(url@));
    crate::text::lossy_string(b.as_slice())
}

/// The blob of entry `i` of `t`.
fn blob_at<'a>(t: &'a Vec<WriterEntry>, pv: &'a Vec<Option<Vec<u8>>>, i: usize) -> (r: Option<&'a [u8]>)
    requires
        i < t@.len(),
    ensures
        match r {
            Some(b) => blob_of(views(t@), opt_views(pv@), i as int) == Some(b@),
            None => blob_of(views(t@), opt_views(pv@), i as int) is None,
        },
{
    let e = &t[i];
    assert(views(t@)[i as int] == e@);
    if e.data().len() == 0 && e.declared_len() > 0 {
        if i < pv.len() {
            match &pv[i] {
                Some(v) => Some(v.as_slice()),
                None => None,
            }
        } else {
            None
        }
    } else {
        Some(e.data())
    }
}

/// The uncompressed body of the cluster holding the entries of `t` at `mem`.
fn build_raw_cluster(t: &Vec<WriterEntry>, pv: &Vec<Option<Vec<u8>>>, mem: &Vec<usize>) -> (r: Result<Vec<u8>, Error>)
    requires
        forall|k: int| 0 <= k < mem@.len() ==> mem@[k] < t@.len(),
    ensures
        match r {
            Ok(v) => !some_lacks_data(views(t@), opt_views(pv@), as_ints(mem@)) && !raw_too_big(
                views(t@),
                opt_views(pv@),
                as_ints(mem@),
            ) && v@ == raw_cluster(views(t@), opt_views(pv@), as_ints(mem@)),
            Err(e) => if some_lacks_data(views(t@), opt_views(pv@), as_ints(mem@)) {
                e@ == Fault::Io
            } else {
                raw_too_big(views(t@), opt_views(pv@), as_ints(mem@)) && e@ == Fault::SizeOverflow
            },
        },
{
    let ghost sv = views(t@);
    let ghost pw = opt_views(pv@);
    let ghost mi = as_ints(mem@);
    let ghost ds = blob_datas(sv, pw, mi);
    let mut k: usize = 0;
    while k < mem.len()
        invariant
            0 <= k <= mem@.len(),
            sv == views(t@),
            pw == opt_views(pv@),
            mi == as_ints(mem@),
            forall|j: int| 0 <= j < mem@.len() ==> mem@[j] < t@.len(),
            forall|j: int| 0 <= j < k ==> #[trigger] blob_of(sv, pw, mi[j]) is Some,
        decreases mem@.len() - k,
    {
        if blob_at(t, pv, mem[k]).is_none() {
            assert(blob_of(sv, pw, mi[k as int]) is None);
            return Err(Error::Io(other_io_error(missing_data_message(t[mem[k]].url_bytes()))));
        }
        k = k + 1;
    }
    assert(!some_lacks_data(sv, pw, mi));
    let n = mem.len();
    assert(mi.len() == n);
    if n >= 1073741823 {
        return Err(Error::SizeOverflow);
    }
    let tl: u32 = (4 * (n + 1)) as u32;
    assert(tl as int == table_len(mi.len() as int));
    let mut off: u64 = tl as u64;
    k = 0;
    while k < mem.len()
        invariant
            0 <= k <= mem@.len(),
            sv == views(t@),
            pw == opt_views(pv@),
            mi == as_ints(mem@),
            ds == blob_datas(sv, pw, mi),
            forall|j: int| 0 <= j < mem@.len() ==> mem@[j] < t@.len(),
            tl as int == table_len(mi.len() as int),
            !some_lacks_data(sv, pw, mi),
            off == tl + concat(ds.take(k as int)).len(),
            off <= u32::MAX,
        decreases mem@.len() - k,
    {
        let b = match blob_at(t, pv, mem[k]) {
            Some(b) => b,
            None => {
                assert(blob_of(sv, pw, mi[k as int]) is None);
                return Err(Error::SizeOverflow);
            },
        };
        let len = b.len() as u64;
        assert(ds.take(k + 1).drop_last() =~= ds.take(k as int));
        assert(ds[k as int] == b@);
        if len > 0xffff_ffff - off {
            proof {
                lemma_concat_prefix(ds, k + 1);
            }
            return Err(Error::SizeOverflow);
        }
        off = off + len;
        k = k + 1;
    }
    assert(ds.take(ds.len() as int) =~= ds);
    let mut raw: Vec<u8> = Vec::new();
    put_u32(&mut raw, tl);
    let mut o: u32 = tl;
    k = 0;
    while k < mem.len()
        invariant
            0 <= k <= mem@.len(),
            sv == views(t@),
            pw == opt_views(pv@),
            mi == as_ints(mem@),
            ds == blob_datas(sv, pw, mi),
            !some_lacks_data(sv, pw, mi),
            forall|j: int| 0 <= j < mem@.len() ==> mem@[j] < t@.len(),
            tl + concat(ds).len() <= u32::MAX,
            o == tl + concat(ds.take(k as int)).len(),
            raw@ == offset_table(tl as int, ds.take(k as int)),
        decreases mem@.len() - k,
    {
        let b = match blob_at(t, pv, mem[k]) {
            Some(b) => b,
            None => {
                assert(blob_of(sv, pw, mi[k as int]) is None);
                return Err(Error::SizeOverflow);
            },
        };
        let len = b.len();
        assert(ds.take(k + 1).drop_last() =~= ds.take(k as int));
        assert(ds[k as int] == b@);
        proof {
            lemma_concat_prefix(ds, k + 1);
        }
        o = o + len as u32;
        put_u32(&mut raw, o);
        k = k + 1;
    }
    assert(ds.take(ds.len() as int) =~= ds);
    let ghost table = raw@;
    k = 0;
    while k < mem.len()
        invariant
            0 <= k <= mem@.len(),
            sv == views(t@),
            pw == opt_views(pv@),
            mi == as_ints(mem@),
            ds == blob_datas(sv, pw, mi),
            !some_lacks_data(sv, pw, mi),
            forall|j: int| 0 <= j < mem@.len() ==> mem@[j] < t@.len(),
            raw@ == table + concat(ds.take(k as int)),
        decreases mem@.len() - k,
    {
        let b = match blob_at(t, pv, mem[k]) {
            Some(b) => b,
            None => {
                assert(blob_of(sv, pw, mi[k as int]) is None);
                return Err(Error::SizeOverflow);
            },
        };
        crate::text::push_bytes(&mut raw, b);
        assert(ds.take(k + 1).drop_last() =~= ds.take(k as int));
        assert(ds[k as int] == b@);
        k = k + 1;
    }
    assert(ds.take(ds.len() as int) =~= ds);
    Ok(raw)
}

/// Storing clusters, where no answer the compressor is asked for refuses
/// with a missing redirect target, never refuses with one.
proof fn lemma_encode_no_missing_target(
    t: Seq<EntrySpec>,
    pv: Seq<Option<Seq<u8>>>,
    pk: Packing,
    nc: bool,
    rs: Seq<Result<Seq<u8>, Fault>>,
    n: nat,
)
    requires
        forall|c: int|
            0 <= c < n && asked(t, pv, pk, nc, c) && encode_clusters(t, pv, pk, nc, rs, c as nat) is Ok && (
            #[trigger] rs[c]) is Err ==> !(rs[c]->Err_0 is MissingRedirectTarget),
    ensures
        encode_clusters(t, pv, pk, nc, rs, n) is Err ==> !(encode_clusters(t, pv, pk, nc, rs, n)->Err_0 is MissingRedirectTarget),
    decreases n,
{
    if n > 0 {
        lemma_encode_no_missing_target(t, pv, pk, nc, rs, (n - 1) as nat);
        let r = rs[n - 1];
        if encode_clusters(t, pv, pk, nc, rs, (n - 1) as nat) is Ok && r is Err {
            if asked(t, pv, pk, nc, n - 1) {
                assert(!(r->Err_0 is MissingRedirectTarget));
            }
        }
    }
}

/// Writing the archive of `s` refuses with a missing redirect target
/// exactly where some redirect of the archive's entries has no target,
/// given answers `rs` that, where clusters are stored, never refuse with
/// one for a cluster the compressor is asked for.
proof fn lemma_missing_target_iff_rs(
    s: Seq<EntrySpec>,
    main: Option<(u8, Seq<u8>)>,
    nc: bool,
    pv: Seq<Option<Seq<u8>>>,
    rs: Seq<Result<Seq<u8>, Fault>>,
)
    requires
        ({
            let t = archive_entries(s);
            let pk = pack(t, t.len());
            first_dangling(t) is None && clusters_start(t, mime_table(t), pk) <= u64::MAX ==> forall|c: int|
                0 <= c < pk.members.len() && asked(t, pv, pk, nc, c) && encode_clusters(t, pv, pk, nc, rs, c as nat)
                    is Ok && (#[trigger] rs[c]) is Err ==> !(rs[c]->Err_0 is MissingRedirectTarget)
        }),
    ensures
        ({
            let t = archive_entries(s);
            let w = write_result(s, main, nc, pv, rs);
            (w is Err && w->Err_0 is MissingRedirectTarget) <==> exists|i: int| 0 <= i < t.len() && dangling(t, i)
        }),
{
    reveal(write_result);
    let t = archive_entries(s);
    let pk = pack(t, t.len());
    if first_dangling(t) is None && clusters_start(t, mime_table(t), pk) <= u64::MAX {
        lemma_encode_no_missing_target(t, pv, pk, nc, rs, pk.members.len());
    }
}

/// No answer that `ans` allows refuses with a missing redirect target.
pub open spec fn refuses_no_target(ans: spec_fn(Seq<u8>, Result<Seq<u8>, Fault>) -> bool) -> bool {
    forall|p: Seq<u8>, f: Fault| #[trigger] ans(p, Err(f)) ==> !(f is MissingRedirectTarget)
}

/// Writing the archive of the entries `s`, with answers `rs` of a
/// compressor `ans` that never refuses with a missing redirect target,
/// refuses with one exactly where some redirect of the archive's entries
/// points at a key that no entry of it has.
pub proof fn lemma_missing_target_iff_answers(
    ans: spec_fn(Seq<u8>, Result<Seq<u8>, Fault>) -> bool,
    s: Seq<EntrySpec>,
    main: Option<(u8, Seq<u8>)>,
    nc: bool,
    pv: Seq<Option<Seq<u8>>>,
    rs: Seq<Result<Seq<u8>, Fault>>,
)
    requires
        answered(ans, s, pv, nc, rs),
        refuses_no_target(ans),
    ensures
        ({
            let t = archive_entries(s);
            let w = write_result(s, main, nc, pv, rs);
            (w is Err && w->Err_0 is MissingRedirectTarget) <==> exists|i: int| 0 <= i < t.len() && dangling(t, i)
        }),
{
    let t = archive_entries(s);
    let pk = pack(t, t.len());
    assert forall|c: int|
        0 <= c < pk.members.len() && asked(t, pv, pk, nc, c) && encode_clusters(t, pv, pk, nc, rs, c as nat) is Ok
            && (#[trigger] rs[c]) is Err && first_dangling(t) is None && clusters_start(t, mime_table(t), pk)
            <= u64::MAX implies !(rs[c]->Err_0 is MissingRedirectTarget) by {
        assert(ans(raw_cluster(t, pv, pk.members[c]), rs[c]));
        assert(ans(raw_cluster(t, pv, pk.members[c]), Err(rs[c]->Err_0)));
    }
    lemma_missing_target_iff_rs(s, main, nc, pv, rs);
}

/// With the built-in compressor, writing the archive of the entries `s`
/// refuses with a missing redirect target exactly where some redirect of
/// the archive's entries points at a key that no entry of it has.
pub proof fn lemma_missing_target_iff(s: Seq<EntrySpec>, main: Option<(u8, Seq<u8>)>, nc: bool, pv: Seq<Option<Seq<u8>>>, level: i32)
    ensures
        ({
            let t = archive_entries(s);
            let w = write_result(s, main, nc, pv, builtin_write_answers(s, pv, level));
            (w is Err && w->Err_0 is MissingRedirectTarget) <==> exists|i: int| 0 <= i < t.len() && dangling(t, i)
        }),
{
    let t = archive_entries(s);
    let pk = pack(t, t.len());
    let rs = builtin_write_answers(s, pv, level);
    assert forall|c: int|
        0 <= c < pk.members.len() && asked(t, pv, pk, nc, c) && encode_clusters(t, pv, pk, nc, rs, c as nat) is Ok
            && (#[trigger] rs[c]) is Err implies !(rs[c]->Err_0 is MissingRedirectTarget) by {
    }
    lemma_missing_target_iff_rs(s, main, nc, pv, rs);
}

/// Where no entry of `t` lacks its data, storing the clusters of `pk` does
/// not depend on the data given for such entries.
proof fn lemma_clusters_ignore_data(
    t: Seq<EntrySpec>,
    pv1: Seq<Option<Seq<u8>>>,
    pv2: Seq<Option<Seq<u8>>>,
    pk: Packing,
    nc: bool,
    rs: Seq<Result<Seq<u8>, Fault>>,
    n: nat,
)
    requires
        forall|c: int, k: int|
            0 <= c < pk.members.len() && 0 <= k < pk.members[c].len() ==> 0 <= #[trigger] pk.members[c][k] < t.len(),
        forall|i: int| 0 <= i < t.len() ==> !lacks_data(#[trigger] t[i]),
        n <= pk.members.len(),
    ensures
        forall|m: nat| m <= n ==> #[trigger] encode_clusters(t, pv1, pk, nc, rs, m) == encode_clusters(t, pv2, pk, nc, rs, m),
        forall|c: int| 0 <= c < n ==> #[trigger] raw_cluster(t, pv1, pk.members[c]) == raw_cluster(t, pv2, pk.members[c]),
        forall|c: int| 0 <= c < n ==> (#[trigger] asked(t, pv1, pk, nc, c) <==> asked(t, pv2, pk, nc, c)),
    decreases n,
{
    if n > 0 {
        lemma_clusters_ignore_data(t, pv1, pv2, pk, nc, rs, (n - 1) as nat);
        let mem = pk.members[n - 1];
        assert forall|k: int| 0 <= k < mem.len() implies blob_of(t, pv1, #[trigger] mem[k]) == blob_of(t, pv2, mem[k])
            && blob_of(t, pv1, mem[k]) is Some by {
            assert(0 <= pk.members[n - 1][k] < t.len());
        }
        assert(blob_datas(t, pv1, mem) =~= blob_datas(t, pv2, mem));
        assert(!some_lacks_data(t, pv1, mem));
        assert(!some_lacks_data(t, pv2, mem));
        assert(encode_clusters(t, pv1, pk, nc, rs, (n - 1) as nat) == encode_clusters(t, pv2, pk, nc, rs, (n - 1) as nat));
        assert(encode_clusters(t, pv1, pk, nc, rs, n) == encode_clusters(t, pv2, pk, nc, rs, n));
    }
}

/// Where no entry of the archive of `s` lacks its data, writing it does
/// not depend on the data given for such entries, and neither do zstd's
/// answers for its clusters nor which answers a compressor may give.
pub proof fn lemma_write_ignores_data(
    s: Seq<EntrySpec>,
    main: Option<(u8, Seq<u8>)>,
    nc: bool,
    pv1: Seq<Option<Seq<u8>>>,
    pv2: Seq<Option<Seq<u8>>>,
    rs: Seq<Result<Seq<u8>, Fault>>,
    level: i32,
)
    requires
        forall|i: int| 0 <= i < archive_entries(s).len() ==> !lacks_data(#[trigger] archive_entries(s)[i]),
    ensures
        write_result(s, main, nc, pv1, rs) == write_result(s, main, nc, pv2, rs),
        builtin_write_answers(s, pv1, level) == builtin_write_answers(s, pv2, level),
        forall|ans: spec_fn(Seq<u8>, Result<Seq<u8>, Fault>) -> bool|
            #[trigger] answered(ans, s, pv1, nc, rs) == answered(ans, s, pv2, nc, rs),
{
    reveal(write_result);
    let t = archive_entries(s);
    let pk = pack(t, t.len());
    crate::readback::lemma_packing_places(t, t.len());
    lemma_clusters_ignore_data(t, pv1, pv2, pk, nc, rs, pk.members.len());
    assert(builtin_write_answers(s, pv1, level) =~= builtin_write_answers(s, pv2, level));
}

/// The compressor is asked for cluster `c` of `pk`: compression is on, the
/// cluster is one that is compressed, and all its blobs are there and fit.
pub open spec fn asked(t: Seq<EntrySpec>, pv: Seq<Option<Seq<u8>>>, pk: Packing, nc: bool, c: int) -> bool {
    &&& !nc
    &&& pk.comps[c] == COMP_ZSTD
    &&& !some_lacks_data(t, pv, pk.members[c])
    &&& !raw_too_big(t, pv, pk.members[c])
}

/// Each answer of `rs` that the stored clusters of `pk` depend on is one
/// that `ans` allows for the cluster's body: the answer for each cluster
/// the compressor is asked for, once every earlier cluster was stored.
pub open spec fn answered_in(
    ans: spec_fn(Seq<u8>, Result<Seq<u8>, Fault>) -> bool,
    t: Seq<EntrySpec>,
    pv: Seq<Option<Seq<u8>>>,
    pk: Packing,
    nc: bool,
    rs: Seq<Result<Seq<u8>, Fault>>,
) -> bool {
    forall|c: int|
        0 <= c < pk.members.len() && asked(t, pv, pk, nc, c) && encode_clusters(t, pv, pk, nc, rs, c as nat) is Ok
            ==> ans(raw_cluster(t, pv, pk.members[c]), #[trigger] rs[c])
}

/// `answered_in` for the archive of the entries `s`, where writing it gets
/// as far as storing clusters.
pub open spec fn answered(
    ans: spec_fn(Seq<u8>, Result<Seq<u8>, Fault>) -> bool,
    s: Seq<EntrySpec>,
    pv: Seq<Option<Seq<u8>>>,
    nc: bool,
    rs: Seq<Result<Seq<u8>, Fault>>,
) -> bool {
    let t = archive_entries(s);
    let pk = pack(t, t.len());
    first_dangling(t) is None && clusters_start(t, mime_table(t), pk) <= u64::MAX ==> answered_in(ans, t, pv, pk, nc, rs)
}

/// Every answer that `ans` allows for some bytes, where it is a success,
/// decodes as zstd back to those bytes, as a compressor the writer marks as
/// zstd must.
pub open spec fn answers_decode_back(ans: spec_fn(Seq<u8>, Result<Seq<u8>, Fault>) -> bool) -> bool {
    forall|p: Seq<u8>, z: Seq<u8>| #[trigger] ans(p, Ok(z)) ==> zstd_decompressed(z) == Some(p)
}

/// Where every cluster was stored with answers that `ans` allows, and those
/// decode back, each compressed cluster decodes to its body.
pub proof fn lemma_answered_decode(
    ans: spec_fn(Seq<u8>, Result<Seq<u8>, Fault>) -> bool,
    t: Seq<EntrySpec>,
    pv: Seq<Option<Seq<u8>>>,
    pk: Packing,
    nc: bool,
    rs: Seq<Result<Seq<u8>, Fault>>,
    enc: Seq<Seq<u8>>,
)
    requires
        encode_clusters(t, pv, pk, nc, rs, pk.members.len()) == Ok::<Seq<Seq<u8>>, Fault>(enc),
        answered_in(ans, t, pv, pk, nc, rs),
        answers_decode_back(ans),
    ensures
        answers_decode(t, pv, pk, nc, rs),
{
    assert forall|c: int|
        0 <= c < pk.members.len() && !nc && pk.comps[c] == COMP_ZSTD && (#[trigger] rs[c]) is Ok implies zstd_decompressed(
        rs[c]->Ok_0,
    ) == Some(raw_cluster(t, pv, pk.members[c])) by {
        crate::readback::lemma_encoded_cluster(t, pv, pk, nc, rs, pk.members.len(), enc, c);
        if encode_clusters(t, pv, pk, nc, rs, c as nat) is Err {
            lemma_encode_clusters_err(t, pv, pk, nc, rs, c as nat, pk.members.len());
        }
        assert(asked(t, pv, pk, nc, c));
        assert(ans(raw_cluster(t, pv, pk.members[c]), rs[c]));
    }
}

/// The answers that the caller's compressor `c` can give.
pub open spec fn custom_answers(c: &Box<dyn Compressor>) -> spec_fn(Seq<u8>, Result<Seq<u8>, Fault>) -> bool {
    |p: Seq<u8>, r: Result<Seq<u8>, Fault>| c.answers(p, r)
}

/// Stores the cluster holding the entries of `t` at `mem`; also gives the
/// compressor's answer for its body.
fn encode_one(
    t: &Vec<WriterEntry>,
    pv: &Vec<Option<Vec<u8>>>,
    mem: &Vec<usize>,
    comp: u8,
    no_compress: bool,
    custom: &Option<Box<dyn Compressor>>,
    level: i32,
) -> (r: (Result<Vec<u8>, Error>, Ghost<Result<Seq<u8>, Fault>>))
    requires
        forall|k: int| 0 <= k < mem@.len() ==> mem@[k] < t@.len(),
    ensures
        result_view(r.0) == encode_cluster(views(t@), opt_views(pv@), as_ints(mem@), comp, no_compress, r.1@),
        custom is None ==> r.1@ == zstd_answer(level, raw_cluster(views(t@), opt_views(pv@), as_ints(mem@))),
        custom is None && !no_compress && comp == COMP_ZSTD && r.0 is Ok ==> r.1@ is Ok && zstd_decompressed(
            r.1@->Ok_0,
        ) == Some(raw_cluster(views(t@), opt_views(pv@), as_ints(mem@))),
        custom matches Some(cc) ==> (!no_compress && comp == COMP_ZSTD && !some_lacks_data(
            views(t@),
            opt_views(pv@),
            as_ints(mem@),
        ) && !raw_too_big(views(t@), opt_views(pv@), as_ints(mem@)) ==> (custom_answers(&cc))(
            raw_cluster(views(t@), opt_views(pv@), as_ints(mem@)),
            r.1@,
        )),
{
    let ghost builtin = zstd_answer(level, raw_cluster(views(t@), opt_views(pv@), as_ints(mem@)));
    let raw = match build_raw_cluster(t, pv, mem) {
        Ok(v) => v,
        Err(e) => {
            return (Err(e), Ghost(builtin));
        },
    };
    if !no_compress && comp == COMP_ZSTD {
        let (res, Ghost(ans)) = match custom {
            Some(c) => {
                let res = c.compress(raw.as_slice());
                let ghost ans = result_view(res);
                (res, Ghost(ans))
            },
            None => {
                let res = zstd_encode(raw.as_slice(), level);
                (res, Ghost(builtin))
            },
        };
        match res {
            Ok(mut p) => {
                let mut out: Vec<u8> = Vec::new();
                out.push(COMP_ZSTD);
                out.append(&mut p);
                (Ok(out), Ghost(ans))
            },
            Err(e) => (Err(e), Ghost(ans)),
        }
    } else {
        let mut out: Vec<u8> = Vec::new();
        out.push(COMP_NONE);
        crate::text::push_bytes(&mut out, raw.as_slice());
        (Ok(out), Ghost(builtin))
    }
}

/// Stored clusters depend only on the compressor's answers for them.
proof fn lemma_encode_clusters_same(
    t: Seq<EntrySpec>,
    pv: Seq<Option<Seq<u8>>>,
    pk: Packing,
    nc: bool,
    a: Seq<Result<Seq<u8>, Fault>>,
    b: Seq<Result<Seq<u8>, Fault>>,
    n: nat,
)
    requires
        forall|j: int| 0 <= j < n ==> a[j] == b[j],
    ensures
        encode_clusters(t, pv, pk, nc, a, n) == encode_clusters(t, pv, pk, nc, b, n),
    decreases n,
{
    if n > 0 {
        lemma_encode_clusters_same(t, pv, pk, nc, a, b, (n - 1) as nat);
    }
}

/// Once a cluster is refused, so are all that include it.
proof fn lemma_encode_clusters_err(
    t: Seq<EntrySpec>,
    pv: Seq<Option<Seq<u8>>>,
    pk: Packing,
    nc: bool,
    rs: Seq<Result<Seq<u8>, Fault>>,
    k: nat,
    n: nat,
)
    requires
        k <= n,
        encode_clusters(t, pv, pk, nc, rs, k) is Err,
    ensures
        encode_clusters(t, pv, pk, nc, rs, n) == encode_clusters(t, pv, pk, nc, rs, k),
    decreases n - k,
{
    if k < n {
        lemma_encode_clusters_err(t, pv, pk, nc, rs, k, (n - 1) as nat);
    }
}

/// Stores every cluster, stopping at the first refusal; also gives the
/// compressor's answer for each cluster.
#[verifier::spinoff_prover]
#[verifier::rlimit(30)]
fn encode_all(
    t: &Vec<WriterEntry>,
    pv: &Vec<Option<Vec<u8>>>,
    members: &Vec<Vec<usize>>,
    comps: &Vec<u8>,
    no_compress: bool,
    custom: &Option<Box<dyn Compressor>>,
    level: i32,
    Ghost(pk): Ghost<Packing>,
) -> (r: (Result<Vec<Vec<u8>>, Error>, Ghost<Seq<Result<Seq<u8>, Fault>>>))
    requires
        member_lists(members@) == pk.members,
        comps@ == pk.comps,
        comps@.len() == members@.len(),
        forall|c: int, k: int|
            0 <= c < members@.len() && 0 <= k < members@[c]@.len() ==> #[trigger] members@[c]@[k]
                < t@.len(),
    ensures
        custom is None ==> r.1@ == builtin_answers(views(t@), opt_views(pv@), pk, level),
        custom is None && r.0 is Ok ==> answers_decode(views(t@), opt_views(pv@), pk, no_compress, r.1@),
        custom matches Some(cc) ==> answered_in(custom_answers(&cc), views(t@), opt_views(pv@), pk, no_compress, r.1@),
        match r.0 {
            Ok(enc) => encode_clusters(views(t@), opt_views(pv@), pk, no_compress, r.1@, pk.members.len()) == Ok::<
                Seq<Seq<u8>>,
                Fault,
            >(strings(enc@)),
            Err(e) => encode_clusters(views(t@), opt_views(pv@), pk, no_compress, r.1@, pk.members.len()) == Err::<
                Seq<Seq<u8>>,
                Fault,
            >(e@),
        },
{
    let ghost sv = views(t@);
    let ghost pw = opt_views(pv@);
    let ghost n = pk.members.len();
    let ghost mut rs: Seq<Result<Seq<u8>, Fault>> = if custom is None {
        builtin_answers(sv, pw, pk, level)
    } else {
        Seq::new(n, |c: int| Err(Fault::Io))
    };
    let mut enc: Vec<Vec<u8>> = Vec::new();
    let mut c: usize = 0;
    assert(strings(enc@) =~= Seq::<Seq<u8>>::empty());
    while c < members.len()
        invariant
            0 <= c <= members@.len(),
            sv == views(t@),
            member_lists(members@) == pk.members,
            comps@ == pk.comps,
            comps@.len() == members@.len(),
            n == pk.members.len(),
            rs.len() == n,
            forall|c: int, k: int|
                0 <= c < members@.len() && 0 <= k < members@[c]@.len() ==> #[trigger] members@[c]@[k]
                    < t@.len(),
            pw == opt_views(pv@),
            custom is None ==> rs == builtin_answers(sv, pw, pk, level),
            custom is None ==> forall|j: int|
                0 <= j < c && !no_compress && pk.comps[j] == COMP_ZSTD && (#[trigger] rs[j]) is Ok
                    ==> zstd_decompressed(rs[j]->Ok_0) == Some(raw_cluster(sv, pw, pk.members[j])),
            custom matches Some(cc) ==> forall|j: int|
                0 <= j < c && asked(sv, pw, pk, no_compress, j) && encode_clusters(sv, pw, pk, no_compress, rs, j as nat) is Ok
                    ==> (custom_answers(&cc))(raw_cluster(sv, pw, pk.members[j]), #[trigger] rs[j]),
            encode_clusters(sv, pw, pk, no_compress, rs, c as nat) == Ok::<Seq<Seq<u8>>, Fault>(
                strings(enc@),
            ),
        decreases members@.len() - c,
    {
        assert(pk.members[c as int] == as_ints(members@[c as int]@));
        let (res, Ghost(ans)) = encode_one(t, pv, &members[c], comps[c], no_compress, custom, level);
        let ghost old_rs = rs;
        proof {
            rs = rs.update(c as int, ans);
            lemma_encode_clusters_same(sv, pw, pk, no_compress, old_rs, rs, c as nat);
            if custom is None {
                assert(rs =~= old_rs);
            }
            match custom {
                Some(cc) => {
                    assert forall|j: int|
                        0 <= j <= c && asked(sv, pw, pk, no_compress, j) && encode_clusters(
                            sv,
                            pw,
                            pk,
                            no_compress,
                            rs,
                            j as nat,
                        ) is Ok implies (custom_answers(cc))(raw_cluster(sv, pw, pk.members[j]), #[trigger] rs[j]) by {
                        lemma_encode_clusters_same(sv, pw, pk, no_compress, old_rs, rs, j as nat);
                    }
                },
                None => {},
            }
        }
        match res {
            Ok(v) => {
                let ghost old_enc = enc@;
                let ghost vv = v@;
                enc.push(v);
                assert(strings(enc@) =~= strings(old_enc).push(vv));
            },
            Err(e) => {
                proof {
                    lemma_encode_clusters_err(sv, pw, pk, no_compress, rs, (c + 1) as nat, n);
                    assert forall|j: int| c < j < n implies (#[trigger] encode_clusters(sv, pw, pk, no_compress, rs, j as nat))
                        is Err by {
                        lemma_encode_clusters_err(sv, pw, pk, no_compress, rs, (c + 1) as nat, j as nat);
                    }
                }
                return (Err(e), Ghost(rs));
            },
        }
        c = c + 1;
    }
    (Ok(enc), Ghost(rs))
}


/// The bytes of an archive, its checksum included, from its parts.
fn assemble(
    t: &Vec<WriterEntry>,
    ml: &Vec<u8>,
    ds: &Vec<Vec<u8>>,
    enc: &Vec<Vec<u8>>,
    start: u64,
    cs: u64,
    end: u64,
    title_pos: u64,
    cluster_ptr_pos: u64,
    main: Option<(u8, &[u8])>,
    Ghost(mt): Ghost<Seq<Seq<u8>>>,
    Ghost(pk): Ghost<Packing>,
) -> (body: Vec<u8>)
    requires
        url_sorted(views(t@)),
        ml@ == mime_list_bytes(mt),
        strings(ds@) == dirents(views(t@), mt, pk),
        start == dirents_start(views(t@), mt, pk),
        cs == clusters_start(views(t@), mt, pk),
        end == checksum_start(views(t@), mt, pk, strings(enc@)),
        title_pos == HEADER_LEN + ml@.len() + 8 * t@.len(),
        cluster_ptr_pos == HEADER_LEN + ml@.len() + 12 * t@.len(),
        enc@.len() == pk.members.len(),
    ensures
        body@ == archive_body(views(t@), mt, pk, main_view(main), strings(enc@)) + md5_digest(
            archive_body(views(t@), mt, pk, main_view(main), strings(enc@)),
        ),
        body@.len() == end + 16,
        open_spec(body@) is Ok,
        check_spec(body@),
        hdr(body@) == archive_header(views(t@), mt, pk, main_view(main), strings(enc@)),
        md5_digest(uuid_body(views(t@))).len() == 16,
        title_order(views(t@)).len() == t@.len(),
        orders_titles(title_order(views(t@)), views(t@)),
        4 * t@.len() <= usize::MAX,
        forall|k: int| 0 <= k < t@.len() ==> title_order(views(t@))[k] < t@.len(),
        md5_digest(archive_body(views(t@), mt, pk, main_view(main), strings(enc@))).len() == 16,
{
    let ghost tv = views(t@);
    let h = Header {
        uuid: derive_uuid(t),
        article_count: t.len() as u32,
        cluster_count: enc.len() as u32,
        url_ptr_pos: 80 + ml.len() as u64,
        title_ptr_pos: title_pos,
        cluster_ptr_pos: cluster_ptr_pos,
        mime_list_pos: 80,
        main_page: main_index_of(t, main),
        layout_page: NO_MAIN_PAGE,
        checksum_pos: end,
    };
    assert(h@ == archive_header(tv, mt, pk, main_view(main), strings(enc@)));
    let hb = h.marshal();
    let mut body: Vec<u8> = Vec::new();
    crate::text::push_bytes(&mut body, hb.as_slice());
    crate::text::push_bytes(&mut body, ml.as_slice());
    let up = pointer_table_of(start, ds);
    crate::text::push_bytes(&mut body, up.as_slice());
    let tp = title_positions(t);
    let tt = encode_title_ptrs(&tp);
    let title_table_len: usize = tt.len();
    proof {
        lemma_title_table_len(tp@);
        assert(title_table_len == 4 * t@.len());
    }
    crate::text::push_bytes(&mut body, tt.as_slice());
    let cp = pointer_table_of(cs, enc);
    crate::text::push_bytes(&mut body, cp.as_slice());
    push_sections(&mut body, ds);
    push_sections(&mut body, enc);
    assert(body@ =~= archive_body(tv, mt, pk, main_view(main), strings(enc@)));
    proof {
        lemma_pointer_table_len(start as int, strings(ds@));
        lemma_pointer_table_len(cs as int, strings(enc@));
        lemma_title_table_len(tp@);
    }
    let ghost pre = body@;
    let digest = md5(body.as_slice());
    crate::text::push_bytes(&mut body, digest.as_slice());
    proof {
        assert(pre.subrange(0, HEADER_LEN as int) =~= hb@);
        lemma_sealed_archive(pre, h@, digest@);
    }
    body
}

/// An archive body that starts with the header `h`, ends where `h` puts
/// the checksum and is followed by its MD5 digest opens, and its checksum
/// verifies.
#[verifier::spinoff_prover]
#[verifier::rlimit(40)]
pub proof fn lemma_sealed_archive(body: Seq<u8>, h: HeaderView, digest: Seq<u8>)
    requires
        body.len() >= HEADER_LEN,
        body.subrange(0, HEADER_LEN as int) == header_bytes(h),
        h.uuid.len() == 16,
        h.checksum_pos == body.len(),
        h.mime_list_pos <= h.url_ptr_pos <= body.len(),
        digest == md5_digest(body),
        digest.len() == 16,
    ensures
        open_spec(body + digest) is Ok,
        check_spec(body + digest),
        hdr(body + digest) == h,
{
    let b = body + digest;
    let hd = b.subrange(0, HEADER_LEN as int);
    assert(hd =~= body.subrange(0, HEADER_LEN as int));
    assert(hdr(b) == h) by {
        crate::format::lemma_header_round_trip(h, b);
    }
    assert(parse_header_spec(hd) == Ok::<HeaderView, Fault>(h)) by {
        assert(hd.subrange(0, HEADER_LEN as int) =~= hd);
        crate::format::lemma_header_round_trip(h, hd);
    }
    assert(check_spec(b)) by {
        assert(b.subrange(0, body.len() as int) =~= body);
        assert(b.subrange(body.len() as int, body.len() as int + 16) =~= digest);
    }
}

pub proof fn lemma_pointer_table_len(base: int, ss: Seq<Seq<u8>>)
    ensures
        pointer_table(base, ss).len() == 8 * ss.len(),
    decreases ss.len(),
{
    if ss.len() > 0 {
        lemma_pointer_table_len(base, ss.drop_last());
    }
}

pub proof fn lemma_title_table_len(p: Seq<usize>)
    ensures
        title_table(p).len() == 4 * p.len(),
    decreases p.len(),
{
    if p.len() > 0 {
        lemma_title_table_len(p.drop_last());
    }
}

/// `b` opens as an archive and its checksum verifies; the checksum is its
/// last sixteen bytes, the MD5 digest of all before them, where the header
/// puts it.
pub open spec fn sealed(b: Seq<u8>) -> bool {
    &&& open_spec(b) is Ok
    &&& check_spec(b)
    &&& b.len() >= HEADER_LEN + 16
    &&& hdr(b).checksum_pos == b.len() - 16
    &&& md5_digest(b.subrange(0, b.len() - 16)) == b.subrange(b.len() - 16, b.len() as int)
}

/// The main page's key, taken by views.
pub open spec fn main_view(main: Option<(u8, &[u8])>) -> Option<(u8, Seq<u8>)> {
    match main {
        Some((ns, url)) => Some((ns, url@)),
        None => None,
    }
}

/// Writes an archive of the writer's entries `src` at the end of `out` and
/// gives its length; also gives the compressor's answer for each cluster.
/// On an error `out` is left as it was.
#[verifier::spinoff_prover]
#[verifier::rlimit(30)]
pub(crate) fn write_archive(
    src: &Vec<WriterEntry>,
    main: Option<(u8, &[u8])>,
    no_compress: bool,
    pv: &Vec<Option<Vec<u8>>>,
    custom: &Option<Box<dyn Compressor>>,
    level: i32,
    out: &mut Vec<u8>,
) -> (r: (Result<u64, Error>, Ghost<Seq<Result<Seq<u8>, Fault>>>))
    requires
        keys_distinct(views(src@)),
    ensures
        custom is None ==> r.1@ == builtin_write_answers(views(src@), opt_views(pv@), level),
        custom matches Some(cc) ==> answered(custom_answers(cc), views(src@), opt_views(pv@), no_compress, r.1@),
        match r.0 {
            Ok(n) => write_result(views(src@), main_view(main), no_compress, opt_views(pv@), r.1@) matches Ok(b)
                && final(out)@ == old(out)@ + b && n == b.len() && sealed(b) && hdr(b).uuid == md5_digest(
                uuid_body(archive_entries(views(src@))),
            ) && ((match custom {
                Some(cc) => answers_decode_back(custom_answers(cc)),
                None => true,
            }) ==> reads_back(
                archive_entries(views(src@)),
                opt_views(pv@),
                b,
            ) && main_reads_back(archive_entries(views(src@)), opt_views(pv@), main_view(main), b) && added_found(
                views(src@),
                b,
            )) && (forall|i: int|
                0 <= i < archive_entries(views(src@)).len() ==> vstd::utf8::valid_utf8(
                    #[trigger] archive_entries(views(src@))[i].url,
                )),
            Err(e) => write_result(views(src@), main_view(main), no_compress, opt_views(pv@), r.1@) == Err::<
                Seq<u8>,
                Fault,
            >(e@) && final(out)@ == old(out)@,
        },
{
    let ghost sv = views(src@);
    let ghost mv = main_view(main);
    let ghost pw = opt_views(pv@);
    let ghost builtin = builtin_write_answers(sv, pw, level);
    let t = archive_entry_list(src);
    let ghost tv = views(t@);
    let targets = match resolve_targets(&t) {
        Ok(v) => v,
        Err(e) => {
            proof {
                lemma_write_dangling(sv, mv, no_compress, pw, builtin);
            }
            return (Err(e), Ghost(builtin));
        },
    };
    let (names, pos) = mime_table_of(&t);
    let (members, comps, loc) = pack_clusters(&t);
    let ghost mt = mime_table(tv);
    let ghost pk = pack(tv, tv.len());
    let ds = dirent_list(&t, &pos, &loc, &targets, Ghost(mt), Ghost(pk));
    let ml = encode_mime_list(&names);
    let n = t.len();
    let c = members.len();
    assert(pk.members.len() == c);
    let start = match plan_start(ml.len(), n, c) {
        Some(x) => x,
        None => {
            proof {
                lemma_write_tables_overflow(sv, mv, no_compress, pw, builtin);
            }
            return (Err(Error::SizeOverflow), Ghost(builtin));
        },
    };
    let cs = match sections_len(&ds, start) {
        Some(x) => x,
        None => {
            proof {
                lemma_write_tables_overflow(sv, mv, no_compress, pw, builtin);
            }
            return (Err(Error::SizeOverflow), Ghost(builtin));
        },
    };
    let (encoded, Ghost(rs)) = encode_all(
        &t,
        pv,
        &members,
        &comps,
        no_compress,
        custom,
        level,
        Ghost(pk),
    );
    let enc = match encoded {
        Ok(v) => v,
        Err(e) => {
            proof {
                lemma_write_cluster_refused(sv, mv, no_compress, pw, rs);
            }
            return (Err(e), Ghost(rs));
        },
    };
    proof {
        lemma_encode_clusters_len(tv, pw, pk, no_compress, rs, pk.members.len());
        lemma_write_stored(sv, mv, no_compress, pw, rs, strings(enc@));
    }
    let end = match sections_len(&enc, cs) {
        Some(x) => x,
        None => {
            return (Err(Error::SizeOverflow), Ghost(rs));
        },
    };
    if end > u64::MAX - 16 {
        return (Err(Error::SizeOverflow), Ghost(rs));
    }
    let mut body = assemble(
        &t,
        &ml,
        &ds,
        &enc,
        start,
        cs,
        end,
        80 + ml.len() as u64 + 8 * (n as u64),
        80 + ml.len() as u64 + 12 * (n as u64),
        main,
        Ghost(mt),
        Ghost(pk),
    );
    assert(start == dirents_start(tv, mt, pk));
    assert(cs == clusters_start(tv, mt, pk));
    assert(end == checksum_start(tv, mt, pk, strings(enc@)));
    let ghost b = body@;
    assert(write_result(sv, mv, no_compress, pw, rs) == Ok::<Seq<u8>, Fault>(b));
    proof {
        let ghost ev = strings(enc@);
        let ghost ab = archive_body(tv, mt, pk, mv, ev);
        lemma_laid_out(tv, mt, pk, mv, ev, md5_digest(ab));
        crate::writer::lemma_views_text_valid(t@);
        let decodes = match custom {
            Some(cc) => answers_decode_back(custom_answers(cc)),
            None => true,
        };
        if let Some(cc) = custom {
            if answers_decode_back(custom_answers(cc)) {
                lemma_answered_decode(custom_answers(cc), tv, pw, pk, no_compress, rs, ev);
            }
        }
        if decodes {
            lemma_archive_reads_back(tv, pk, pw, no_compress, rs, ev, b, archive_header(tv, mt, pk, mv, ev), mv);
            lemma_added_found(sv, pw, b);
        }
    }
    out.append(&mut body);
    (Ok(end + 16), Ghost(rs))
}

/// Where the directory entries start after a MIME list of `ml_len` bytes,
/// `n` entries and `c` clusters, or `None` past 64-bit offsets.
fn plan_start(ml_len: usize, n: usize, c: usize) -> (r: Option<u64>)
    ensures
        match r {
            Some(x) => x == HEADER_LEN + ml_len + 12 * n + 8 * c,
            None => HEADER_LEN + ml_len + 12 * n + 8 * c > u64::MAX,
        },
{
    let ml_end = match (ml_len as u64).checked_add(80) {
        Some(x) => x,
        None => {
            return None;
        },
    };
    let twelve = match (n as u64).checked_mul(12) {
        Some(x) => x,
        None => {
            return None;
        },
    };
    let eight = match (c as u64).checked_mul(8) {
        Some(x) => x,
        None => {
            return None;
        },
    };
    match ml_end.checked_add(twelve) {
        Some(a) => a.checked_add(eight),
        None => None,
    }
}

/// Stored clusters, where none is refused, are one per cluster.
pub proof fn lemma_encode_clusters_len(
    t: Seq<EntrySpec>,
    pv: Seq<Option<Seq<u8>>>,
    pk: Packing,
    nc: bool,
    rs: Seq<Result<Seq<u8>, Fault>>,
    n: nat,
)
    requires
        encode_clusters(t, pv, pk, nc, rs, n) is Ok,
    ensures
        encode_clusters(t, pv, pk, nc, rs, n)->Ok_0.len() == n,
    decreases n,
{
    if n > 0 {
        lemma_encode_clusters_len(t, pv, pk, nc, rs, (n - 1) as nat);
    }
}

/// Writing refuses a dangling redirect first.
proof fn lemma_write_dangling(
    s: Seq<EntrySpec>,
    main: Option<(u8, Seq<u8>)>,
    nc: bool,
    pv: Seq<Option<Seq<u8>>>,
    rs: Seq<Result<Seq<u8>, Fault>>,
)
    requires
        first_dangling(archive_entries(s)) is Some,
    ensures
        ({
            let t = archive_entries(s);
            let i = first_dangling(t)->0;
            write_result(s, main, nc, pv, rs) == Err::<Seq<u8>, Fault>(
                Fault::MissingRedirectTarget {
                    redirect: lossy_utf8(key_bytes(t[i].namespace, t[i].url)),
                    target: lossy_utf8(key_bytes(t[i].target_namespace, t[i].target_url)),
                },
            )
        }),
{
    reveal(write_result);
}

/// Writing refuses an archive whose tables reach past 64-bit offsets.
proof fn lemma_write_tables_overflow(
    s: Seq<EntrySpec>,
    main: Option<(u8, Seq<u8>)>,
    nc: bool,
    pv: Seq<Option<Seq<u8>>>,
    rs: Seq<Result<Seq<u8>, Fault>>,
)
    requires
        first_dangling(archive_entries(s)) is None,
        ({
            let t = archive_entries(s);
            clusters_start(t, mime_table(t), pack(t, t.len())) > u64::MAX
        }),
    ensures
        write_result(s, main, nc, pv, rs) == Err::<Seq<u8>, Fault>(Fault::SizeOverflow),
{
    reveal(write_result);
}

/// Writing refuses what storing the clusters refuses.
proof fn lemma_write_cluster_refused(
    s: Seq<EntrySpec>,
    main: Option<(u8, Seq<u8>)>,
    nc: bool,
    pv: Seq<Option<Seq<u8>>>,
    rs: Seq<Result<Seq<u8>, Fault>>,
)
    requires
        ({
            let t = archive_entries(s);
            let pk = pack(t, t.len());
            &&& first_dangling(t) is None
            &&& clusters_start(t, mime_table(t), pk) <= u64::MAX
            &&& encode_clusters(t, pv, pk, nc, rs, pk.members.len()) is Err
        }),
    ensures
        ({
            let t = archive_entries(s);
            let pk = pack(t, t.len());
            write_result(s, main, nc, pv, rs) == Err::<Seq<u8>, Fault>(
                encode_clusters(t, pv, pk, nc, rs, pk.members.len())->Err_0,
            )
        }),
{
    reveal(write_result);
}

/// Writing refuses an archive whose checksum would lie past 64-bit offsets,
/// and otherwise gives the archive's body followed by its MD5 digest.
proof fn lemma_write_stored(
    s: Seq<EntrySpec>,
    main: Option<(u8, Seq<u8>)>,
    nc: bool,
    pv: Seq<Option<Seq<u8>>>,
    rs: Seq<Result<Seq<u8>, Fault>>,
    enc: Seq<Seq<u8>>,
)
    requires
        ({
            let t = archive_entries(s);
            let pk = pack(t, t.len());
            &&& first_dangling(t) is None
            &&& clusters_start(t, mime_table(t), pk) <= u64::MAX
            &&& encode_clusters(t, pv, pk, nc, rs, pk.members.len()) == Ok::<Seq<Seq<u8>>, Fault>(enc)
        }),
    ensures
        ({
            let t = archive_entries(s);
            let mt = mime_table(t);
            let pk = pack(t, t.len());
            let b = archive_body(t, mt, pk, main, enc);
            write_result(s, main, nc, pv, rs) == if checksum_start(t, mt, pk, enc) + 16 > u64::MAX {
                Err::<Seq<u8>, Fault>(Fault::SizeOverflow)
            } else {
                Ok::<Seq<u8>, Fault>(b + md5_digest(b))
            }
        }),
{
    reveal(write_result);
}


/// `t` with `x` put in key order.
pub open spec fn insert_entry(t: Seq<EntrySpec>, x: EntrySpec) -> Seq<EntrySpec>
    decreases t.len(),
{
    if t.len() == 0 {
        seq![x]
    } else if entry_lt(t[0], x) {
        seq![t[0]] + insert_entry(t.drop_first(), x)
    } else {
        seq![x] + t
    }
}

proof fn lemma_insert_entry(t: Seq<EntrySpec>, x: EntrySpec)
    requires
        url_sorted(t),
        forall|i: int| 0 <= i < t.len() ==> key_of(t[i]) != key_of(x),
    ensures
        url_sorted(insert_entry(t, x)),
        forall|y: EntrySpec| #[trigger] insert_entry(t, x).contains(y) <==> (t.contains(y) || y == x),
        insert_entry(t, x).len() == t.len() + 1,
        t.len() > 0 ==> insert_entry(t, x)[0] == t[0] || insert_entry(t, x)[0] == x,
    decreases t.len(),
{
    let r = insert_entry(t, x);
    if t.len() == 0 {
        assert(r =~= seq![x]);
        assert forall|y: EntrySpec| r.contains(y) <==> (t.contains(y) || y == x) by {
            if r.contains(y) {
                let k = choose|k: int| 0 <= k < r.len() && r[k] == y;
            }
            if y == x {
                assert(r[0] == x);
            }
        }
    } else if entry_lt(t[0], x) {
        let d = t.drop_first();
        assert forall|a: int, b: int| 0 <= a < b < d.len() implies entry_lt(d[a], d[b]) by {
            assert(d[a] == t[a + 1] && d[b] == t[b + 1]);
        }
        lemma_insert_entry(d, x);
        let rd = insert_entry(d, x);
        assert(r == seq![t[0]] + rd);
        assert forall|a: int, b: int| 0 <= a < b < r.len() implies entry_lt(r[a], r[b]) by {
            if a == 0 {
                assert(r[b] == rd[b - 1]);
                assert(rd.contains(rd[b - 1]));
                if rd[b - 1] == x {
                } else {
                    assert(d.contains(rd[b - 1]));
                    let k = choose|k: int| 0 <= k < d.len() && d[k] == rd[b - 1];
                    assert(t[k + 1] == d[k]);
                }
            } else {
                assert(r[a] == rd[a - 1] && r[b] == rd[b - 1]);
            }
        }
        assert forall|y: EntrySpec| r.contains(y) <==> (t.contains(y) || y == x) by {
            if r.contains(y) {
                let k = choose|k: int| 0 <= k < r.len() && r[k] == y;
                if k > 0 {
                    assert(rd[k - 1] == y);
                    assert(rd.contains(y));
                    if y != x {
                        assert(d.contains(y));
                        let m = choose|m: int| 0 <= m < d.len() && d[m] == y;
                        assert(t[m + 1] == y);
                        assert(t.contains(y));
                    }
                }
            }
            if t.contains(y) {
                let k = choose|k: int| 0 <= k < t.len() && t[k] == y;
                if k == 0 {
                    assert(r[0] == y);
                } else {
                    assert(d[k - 1] == y);
                    assert(d.contains(y));
                    assert(rd.contains(y));
                    let m = choose|m: int| 0 <= m < rd.len() && rd[m] == y;
                    assert(r[m + 1] == y);
                }
            }
            if y == x {
                assert(rd.contains(x));
                let m = choose|m: int| 0 <= m < rd.len() && rd[m] == x;
                assert(r[m + 1] == x);
            }
        }
    } else {
        assert(key_of(t[0]) != key_of(x));
        crate::text::lemma_lex_total(t[0].url, x.url);
        assert(entry_lt(x, t[0]));
        assert forall|a: int, b: int| 0 <= a < b < r.len() implies entry_lt(r[a], r[b]) by {
            if a == 0 {
                assert(r[b] == t[b - 1]);
                if b - 1 > 0 {
                    lemma_entry_lt_transitive(x, t[0], t[b - 1]);
                }
            } else {
                assert(r[a] == t[a - 1] && r[b] == t[b - 1]);
            }
        }
        assert forall|y: EntrySpec| r.contains(y) <==> (t.contains(y) || y == x) by {
            if r.contains(y) {
                let k = choose|k: int| 0 <= k < r.len() && r[k] == y;
                if k > 0 {
                    assert(t[k - 1] == y);
                }
            }
            if t.contains(y) {
                let k = choose|k: int| 0 <= k < t.len() && t[k] == y;
                assert(r[k + 1] == y);
            }
            if y == x {
                assert(r[0] == x);
            }
        }
    }
}

/// The entries of `s` not under a generated key, put in key order one by one.
pub open spec fn sort_user_entries(s: Seq<EntrySpec>) -> Seq<EntrySpec>
    decreases s.len(),
{
    if s.len() == 0 {
        Seq::empty()
    } else {
        let t = sort_user_entries(s.drop_last());
        if is_generated_key(key_of(s.last())) {
            t
        } else {
            insert_entry(t, s.last())
        }
    }
}

/// The entries of `s` not under a generated key can be put in key order.
proof fn lemma_user_entries_sortable(s: Seq<EntrySpec>)
    requires
        keys_distinct(s),
    ensures
        orders_user_entries(sort_user_entries(s), s),
    decreases s.len(),
{
    if s.len() > 0 {
        let d = s.drop_last();
        assert(keys_distinct(d)) by {
            assert forall|i: int, j: int| 0 <= i < j < d.len() implies key_of(d[i]) != key_of(d[j]) by {
                assert(d[i] == s[i] && d[j] == s[j]);
            }
        }
        lemma_user_entries_sortable(d);
        let t = sort_user_entries(d);
        let x = s.last();
        if !is_generated_key(key_of(x)) {
            assert forall|i: int| 0 <= i < t.len() implies key_of(t[i]) != key_of(x) by {
                assert(t.contains(t[i]));
                let k = choose|k: int| 0 <= k < d.len() && d[k] == t[i];
                assert(s[k] == d[k]);
                assert(s[s.len() - 1] == x);
            }
            lemma_insert_entry(t, x);
        }
        let r = sort_user_entries(s);
        assert forall|y: EntrySpec| r.contains(y) <==> (s.contains(y) && !is_generated_key(key_of(y))) by {
            if s.contains(y) {
                let k = choose|k: int| 0 <= k < s.len() && s[k] == y;
                if k < s.len() - 1 {
                    assert(d[k] == y);
                }
            }
            if d.contains(y) {
                let k = choose|k: int| 0 <= k < d.len() && d[k] == y;
                assert(s[k] == y);
            }
        }
    }
}

/// An entry stored in the map of `s` under `k` has the key `k`.
pub(crate) proof fn lemma_key_in_map(s: Seq<EntrySpec>, k: (u8, Seq<u8>))
    ensures
        crate::writer::to_map(s).contains_key(k) ==> key_of(crate::writer::to_map(s)[k]) == k,
    decreases s.len(),
{
    if s.len() > 0 {
        lemma_key_in_map(s.drop_last(), k);
    }
}

/// Where no two entries share a key, an entry is in `s` exactly when the
/// map of `s` holds it under its key.
pub(crate) proof fn lemma_contains_in_map(s: Seq<EntrySpec>, x: EntrySpec)
    requires
        keys_distinct(s),
    ensures
        s.contains(x) <==> (crate::writer::to_map(s).contains_key(key_of(x)) && crate::writer::to_map(s)[key_of(x)] == x),
    decreases s.len(),
{
    if s.len() > 0 {
        let d = s.drop_last();
        assert(keys_distinct(d)) by {
            assert forall|i: int, j: int| 0 <= i < j < d.len() implies key_of(d[i]) != key_of(d[j]) by {
                assert(d[i] == s[i] && d[j] == s[j]);
            }
        }
        lemma_contains_in_map(d, x);
        if s.contains(x) && x != s.last() {
            let k = choose|k: int| 0 <= k < s.len() && s[k] == x;
            assert(d[k] == x);
            assert(s[s.len() - 1] == s.last());
            assert(key_of(s[k]) != key_of(s[s.len() - 1]));
        }
        if d.contains(x) {
            let k = choose|k: int| 0 <= k < d.len() && d[k] == x;
            assert(s[k] == x);
        }
        if x == s.last() {
            assert(s[s.len() - 1] == x);
        }
        if crate::writer::to_map(d).contains_key(key_of(x)) && key_of(x) != key_of(s.last()) && crate::writer::to_map(d)[key_of(x)] == x {
            assert(d.contains(x));
            let k = choose|k: int| 0 <= k < d.len() && d[k] == x;
            assert(s[k] == x);
        }
    }
}

/// The archive of a writer's entries depends on what it holds, not on the
/// order in which the entries were added: two sequences of entries, each
/// with distinct keys, that hold the same entry under each key give the
/// same archive entries, and so the same archive.
pub proof fn lemma_archive_entries_by_contents(s1: Seq<EntrySpec>, s2: Seq<EntrySpec>)
    requires
        keys_distinct(s1),
        keys_distinct(s2),
        crate::writer::to_map(s1) == crate::writer::to_map(s2),
    ensures
        archive_entries(s1) == archive_entries(s2),
        forall|main: Option<(u8, Seq<u8>)>, nc: bool, pv: Seq<Option<Seq<u8>>>, rs: Seq<Result<Seq<u8>, Fault>>|
            write_result(s1, main, nc, pv, rs) == write_result(s2, main, nc, pv, rs),
        forall|pv: Seq<Option<Seq<u8>>>, level: i32|
            builtin_write_answers(s1, pv, level) == builtin_write_answers(s2, pv, level),
{
    assert forall|x: EntrySpec| s1.contains(x) <==> s2.contains(x) by {
        lemma_contains_in_map(s1, x);
        lemma_contains_in_map(s2, x);
    }
    lemma_user_entries_sortable(s1);
    let w = sort_user_entries(s1);
    assert(orders_user_entries(w, s2));
    lemma_user_order(w, s1);
    lemma_user_order(w, s2);
    assert forall|main: Option<(u8, Seq<u8>)>, nc: bool, pv: Seq<Option<Seq<u8>>>, rs: Seq<Result<Seq<u8>, Fault>>|
        write_result(s1, main, nc, pv, rs) == write_result(s2, main, nc, pv, rs) by {
        reveal(write_result);
    }
}

} // verus!
