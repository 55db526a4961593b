//! What reading an archive the writer wrote gives back: each entry by its
//! position, with its key, title, MIME type, redirect target and data; each
//! key and title looked up; each range read; each title prefix listed; and
//! the main page.

use crate::format::REDIRECT_ENTRY;
use crate::layout::{
    as_ints, blob_datas, blob_of, raw_cluster, raw_too_big, some_lacks_data, table_len, archive_body, archive_header, clusters_start, checksum_start, dirent_of, dirents, dirents_start,
    orders_titles, has_key, key_index, mime_list_bytes, target_key, title_order, title_table, uuid_body, concat, dirent_bytes, encode_cluster, encode_clusters, mime_pos, mime_table, nul_terminated, offset_table,
    pack, pack_step, pointer_table, Packing,
};
use crate::format::{COMP_NONE, COMP_ZSTD, EXTENDED_FLAG};
use crate::reader::{
    blob_bounds_spec, blob_data_spec, c_string_at, cluster_end_spec, cluster_offset_spec, cluster_spec,
    dirent_at_index_spec, dirent_in, hdr, read_uint_spec, window, ClusterView, DirentView, MAX_WINDOW,
};
use crate::codec::zstd_decompressed;
use crate::format::{header_bytes, md5_digest, HeaderView, HEADER_LEN};
use crate::writer::EntrySpec;
use crate::le::{lemma_u16_round_trip, lemma_u32_round_trip, lemma_u64_round_trip, u16_at, u16_bytes, u32_at, u32_bytes, u64_bytes};
use crate::reader::{prefix_scan_any_spec, prefix_scan_spec, entries_by_title_prefix_spec, main_page_spec, blob_range_spec, get_range_spec, min_int, range_in, resolve_spec, sat_add, get_by_title_spec, lower_bound_title_spec, title_table_size_spec, lower_bound_spec, title_scan_spec, title_entry_spec, title_index_spec, dirent_at_title_index_spec, blob_at_spec, entry_at_spec, find_url_spec, get_spec, BlobView, mime_at, mime_list, mimes_of, EntryView};
use crate::text::{key_lt, lex_lt};
use crate::layout::archive_entries;
use crate::reader::MAX_REDIRECT_HOPS;
use crate::codec::starts_with;
use crate::writer::{entry_lt, url_sorted};
use vstd::utf8::{encode_utf8, valid_utf8};
use crate::text::{first_nul, has_nul, is_first_nul, lemma_first_nul, lemma_first_nul_extend, lossy_utf8};
use crate::Fault;
use vstd::prelude::*;

verus! {

/// `x` stands in `s` at offset `off`.
pub open spec fn embeds(s: Seq<u8>, off: int, x: Seq<u8>) -> bool {
    &&& 0 <= off
    &&& off + x.len() <= s.len()
    &&& s.subrange(off, off + x.len()) == x
}

proof fn lemma_embeds_concat(s: Seq<u8>, off: int, a: Seq<u8>, b: Seq<u8>)
    requires
        embeds(s, off, a + b),
    ensures
        embeds(s, off, a),
        embeds(s, off + a.len(), b),
{
    let w = s.subrange(off, off + (a + b).len());
    assert(w == a + b);
    assert(s.subrange(off, off + a.len()) =~= w.subrange(0, a.len() as int));
    assert(w.subrange(0, a.len() as int) =~= a);
    assert(s.subrange(off + a.len(), off + a.len() + b.len()) =~= w.subrange(
        a.len() as int,
        (a.len() + b.len()) as int,
    ));
    assert(w.subrange(a.len() as int, (a.len() + b.len()) as int) =~= b);
}

proof fn lemma_embeds_trans(s: Seq<u8>, off: int, x: Seq<u8>, k: int, y: Seq<u8>)
    requires
        embeds(s, off, x),
        embeds(x, k, y),
    ensures
        embeds(s, off + k, y),
{
    assert(s.subrange(off + k, off + k + y.len()) =~= x.subrange(k, k + y.len()));
}

proof fn lemma_embeds_prefix(a: Seq<u8>, b: Seq<u8>)
    ensures
        embeds(a + b, 0, a),
        embeds(a + b, a.len() as int, b),
{
    assert((a + b).subrange(0, a.len() as int) =~= a);
    assert((a + b).subrange(a.len() as int, (a.len() + b.len()) as int) =~= b);
}

/// The sections before section `i` of `ss` end where section `i` starts.
proof fn lemma_concat_take(ss: Seq<Seq<u8>>, i: int)
    requires
        0 <= i < ss.len(),
    ensures
        concat(ss.take(i + 1)) == concat(ss.take(i)) + ss[i],
{
    assert(ss.take(i + 1).drop_last() =~= ss.take(i));
}

/// Section `i` of `ss` stands in their concatenation after the sections
/// before it.
pub proof fn lemma_concat_embeds(ss: Seq<Seq<u8>>, i: int)
    requires
        0 <= i < ss.len(),
    ensures
        embeds(concat(ss), concat(ss.take(i)).len() as int, ss[i]),
        concat(ss.take(i)).len() + ss[i].len() <= concat(ss).len(),
    decreases ss.len() - i,
{
    lemma_concat_take(ss, i);
    lemma_embeds_prefix(concat(ss.take(i)), ss[i]);
    lemma_take_embeds(ss, i + 1);
    lemma_embeds_trans(concat(ss), 0, concat(ss.take(i + 1)), concat(ss.take(i)).len() as int, ss[i]);
}

/// The sections before section `k` stand at the start of the concatenation.
proof fn lemma_take_embeds(ss: Seq<Seq<u8>>, k: int)
    requires
        0 <= k <= ss.len(),
    ensures
        embeds(concat(ss), 0, concat(ss.take(k))),
    decreases ss.len() - k,
{
    if k == ss.len() {
        assert(ss.take(k) =~= ss);
        assert(concat(ss).subrange(0, concat(ss).len() as int) =~= concat(ss));
    } else {
        lemma_take_embeds(ss, k + 1);
        lemma_concat_take(ss, k);
        lemma_embeds_prefix(concat(ss.take(k)), ss[k]);
        lemma_embeds_trans(concat(ss), 0, concat(ss.take(k + 1)), 0, concat(ss.take(k)));
    }
}

/// Pointer `i` of a pointer table gives where section `i` starts.
pub proof fn lemma_pointer_embeds(base: int, ss: Seq<Seq<u8>>, i: int)
    requires
        0 <= i < ss.len(),
    ensures
        embeds(pointer_table(base, ss), 8 * i, u64_bytes((base + concat(ss.take(i)).len()) as u64)),
    decreases ss.len(),
{
    let d = ss.drop_last();
    crate::layout::lemma_pointer_table_len(base, d);
    let last = u64_bytes((base + concat(d).len()) as u64);
    lemma_embeds_prefix(pointer_table(base, d), last);
    if i < ss.len() - 1 {
        lemma_pointer_embeds(base, d, i);
        assert(d.take(i) =~= ss.take(i));
        lemma_embeds_trans(
            pointer_table(base, ss),
            0,
            pointer_table(base, d),
            8 * i,
            u64_bytes((base + concat(ss.take(i)).len()) as u64),
        );
    } else {
        assert(d =~= ss.take(i));
    }
}

/// Entry `i` of a title table is the `i`-th position it lists.
pub proof fn lemma_title_table_embeds(p: Seq<usize>, i: int)
    requires
        0 <= i < p.len(),
    ensures
        embeds(title_table(p), 4 * i, u32_bytes(p[i] as u32)),
    decreases p.len(),
{
    let d = p.drop_last();
    crate::layout::lemma_title_table_len(d);
    lemma_embeds_prefix(title_table(d), u32_bytes(p.last() as u32));
    if i < p.len() - 1 {
        lemma_title_table_embeds(d, i);
        lemma_embeds_trans(title_table(p), 0, title_table(d), 4 * i, u32_bytes(p[i] as u32));
    }
}

/// Entry `k` of a cluster's offset table gives where blob `k` starts, or for
/// `k` the number of blobs, where the last one ends.
pub proof fn lemma_offset_embeds(base: int, ds: Seq<Seq<u8>>, k: int)
    requires
        0 <= k <= ds.len(),
    ensures
        embeds(offset_table(base, ds), 4 * k, u32_bytes((base + concat(ds.take(k)).len()) as u32)),
        offset_table(base, ds).len() == 4 * (ds.len() + 1),
    decreases ds.len(),
{
    if ds.len() == 0 {
        assert(ds.take(0) =~= ds);
        assert(offset_table(base, ds).subrange(0, 4) =~= offset_table(base, ds));
    } else {
        let d = ds.drop_last();
        let last = u32_bytes((base + concat(ds).len()) as u32);
        lemma_offset_embeds(base, d, 0);
        lemma_embeds_prefix(offset_table(base, d), last);
        if k < ds.len() {
            lemma_offset_embeds(base, d, k);
            assert(d.take(k) =~= ds.take(k));
            lemma_embeds_trans(
                offset_table(base, ds),
                0,
                offset_table(base, d),
                4 * k,
                u32_bytes((base + concat(ds.take(k)).len()) as u32),
            );
        } else {
            assert(ds.take(k) =~= ds);
        }
    }
}

/// Each string of a non-empty table, NUL-terminated, from the front.
proof fn lemma_nul_terminated_front(m: Seq<Seq<u8>>)
    requires
        m.len() > 0,
    ensures
        nul_terminated(m) == m[0] + seq![0u8] + nul_terminated(m.drop_first()),
    decreases m.len(),
{
    if m.len() == 1 {
        assert(m.drop_last() =~= Seq::<Seq<u8>>::empty());
        assert(m.drop_first() =~= Seq::<Seq<u8>>::empty());
        assert(nul_terminated(m) =~= m[0] + seq![0u8] + nul_terminated(m.drop_first()));
    } else {
        let d = m.drop_last();
        lemma_nul_terminated_front(d);
        assert(d.drop_first() =~= m.drop_first().drop_last());
        assert(m.drop_first().last() == m.last());
        assert(nul_terminated(m) =~= m[0] + seq![0u8] + nul_terminated(m.drop_first()));
    }
}

/// A string without a NUL byte, followed by one, has its first NUL at its end.
proof fn lemma_nul_after(a: Seq<u8>, rest: Seq<u8>)
    requires
        !has_nul(a),
    ensures
        has_nul(a + seq![0u8] + rest),
        first_nul(a + seq![0u8] + rest) == a.len(),
{
    let x = a + seq![0u8];
    assert(is_first_nul(x, a.len() as int)) by {
        assert forall|j: int| 0 <= j < a.len() implies x[j] != 0 by {
            if x[j] == 0 {
                assert(a[j] == 0);
            }
        }
    }
    let s = a + seq![0u8] + rest;
    assert(s.subrange(0, x.len() as int) =~= x);
    lemma_first_nul_extend(x, s, a.len() as int);
    lemma_first_nul(s);
}

/// The MIME list of a table of non-empty strings without NUL bytes reads
/// back as the table.
pub proof fn lemma_mime_list(m: Seq<Seq<u8>>)
    requires
        forall|i: int| 0 <= i < m.len() ==> m[i].len() > 0 && !has_nul(#[trigger] m[i]),
    ensures
        mime_list(nul_terminated(m) + seq![0u8]) == m.map_values(|x: Seq<u8>| lossy_utf8(x)),
    decreases m.len(),
{
    let b = nul_terminated(m) + seq![0u8];
    if m.len() == 0 {
        assert(b =~= seq![0u8]);
        assert(is_first_nul(b, 0));
        lemma_first_nul(b);
        assert(mime_list(b) =~= Seq::<Seq<char>>::empty());
        assert(m.map_values(|x: Seq<u8>| lossy_utf8(x)) =~= Seq::<Seq<char>>::empty());
    } else {
        lemma_nul_terminated_front(m);
        let rest = nul_terminated(m.drop_first()) + seq![0u8];
        assert(b =~= m[0] + seq![0u8] + rest);
        lemma_nul_after(m[0], rest);
        let i = first_nul(b);
        assert(i == m[0].len());
        assert(b.subrange(0, i) =~= m[0]);
        assert(b.skip(i + 1) =~= rest);
        lemma_mime_list(m.drop_first());
        assert(m.map_values(|x: Seq<u8>| lossy_utf8(x)) =~= seq![lossy_utf8(m[0])] + m.drop_first().map_values(
            |x: Seq<u8>| lossy_utf8(x),
        ));
    }
}


/// A NUL-terminated string without an inner NUL reads back from where it stands.
proof fn lemma_c_string(w: Seq<u8>, p: int, a: Seq<u8>)
    requires
        embeds(w, p, a + seq![0u8]),
        !has_nul(a),
    ensures
        c_string_at(w, p) == Some((a, p + a.len() + 1)),
{
    lemma_embeds_concat(w, p, a, seq![0u8]);
    let rest = w.skip(p + a.len() + 1);
    assert(w.skip(p) =~= a + seq![0u8] + rest);
    lemma_nul_after(a, rest);
    assert(w.subrange(p, p + a.len()) == a);
}

/// The directory entry of `e` reads back from a window that starts with it
/// and holds at least 16 bytes, where its URL and title hold no NUL byte
/// and, for a content entry, its MIME index is not the redirect mark.
pub proof fn lemma_dirent_parse(w: Seq<u8>, off: u64, e: EntrySpec, mi: u16, c: u32, bl: u32, tg: u32)
    requires
        embeds(w, 0, dirent_bytes(e, mi, c, bl, tg)),
        w.len() >= 16,
        !has_nul(e.url),
        !has_nul(e.title),
        !e.redirect ==> mi != REDIRECT_ENTRY,
    ensures
        dirent_in(w, off) == Ok::<DirentView, crate::Fault>(
            DirentView {
                mime_idx: if e.redirect {
                    REDIRECT_ENTRY
                } else {
                    mi
                },
                namespace: e.namespace,
                url: lossy_utf8(e.url),
                title: lossy_utf8(e.title),
                cluster: if e.redirect {
                    0
                } else {
                    c
                },
                blob: if e.redirect {
                    0
                } else {
                    bl
                },
                redirect: e.redirect,
                target_index: if e.redirect {
                    tg
                } else {
                    0
                },
            },
        ),
{
    reveal(dirent_in);
    let tail = e.url + seq![0u8] + e.title + seq![0u8];
    let m: u16 = if e.redirect {
        REDIRECT_ENTRY
    } else {
        mi
    };
    let head = if e.redirect {
        u16_bytes(REDIRECT_ENTRY) + seq![0u8, e.namespace] + u32_bytes(0) + u32_bytes(tg)
    } else {
        u16_bytes(mi) + seq![0u8, e.namespace] + u32_bytes(0) + u32_bytes(c) + u32_bytes(bl)
    };
    assert(dirent_bytes(e, mi, c, bl, tg) =~= head + tail);
    lemma_embeds_concat(w, 0, head, tail);
    let p: int = head.len() as int;
    if e.redirect {
        let h1 = u16_bytes(REDIRECT_ENTRY) + seq![0u8, e.namespace] + u32_bytes(0);
        assert(head =~= h1 + u32_bytes(tg));
        lemma_embeds_concat(w, 0, h1, u32_bytes(tg));
        lemma_u32_round_trip(w, 8, tg);
    } else {
        let h1 = u16_bytes(mi) + seq![0u8, e.namespace] + u32_bytes(0);
        assert(head =~= h1 + u32_bytes(c) + u32_bytes(bl));
        lemma_embeds_concat(w, 0, h1 + u32_bytes(c), u32_bytes(bl));
        lemma_embeds_concat(w, 0, h1, u32_bytes(c));
        lemma_u32_round_trip(w, 8, c);
        lemma_u32_round_trip(w, 12, bl);
    }
    assert(head.subrange(0, 2) =~= u16_bytes(m));
    assert(w.subrange(0, 2) =~= head.subrange(0, 2));
    lemma_u16_round_trip(w, 0, m);
    assert(w[3] == head[3]);
    assert(tail =~= (e.url + seq![0u8]) + (e.title + seq![0u8]));
    lemma_embeds_concat(w, p, e.url + seq![0u8], e.title + seq![0u8]);
    lemma_c_string(w, p, e.url);
    lemma_c_string(w, p + e.url.len() + 1, e.title);
    if !e.redirect {
        assert(u16_at(w, 0) != REDIRECT_ENTRY);
    }
}


/// The packing of the first `m` entries of `t` places each of them that
/// is not a redirect: at a cluster, as a blob whose member is that entry.
pub open spec fn packing_places(t: Seq<EntrySpec>, pk: Packing, m: int) -> bool {
    &&& pk.loc.len() == m
    &&& pk.members.len() <= m
    &&& pk.comps.len() == pk.members.len()
    &&& forall|c: int| 0 <= c < pk.members.len() ==> #[trigger] pk.comps[c] == COMP_ZSTD || pk.comps[c] == COMP_NONE
    &&& forall|c: int| 0 <= c < pk.members.len() ==> #[trigger] pk.members[c].len() <= m
    &&& forall|c: int, k: int|
        0 <= c < pk.members.len() && 0 <= k < pk.members[c].len() ==> 0 <= #[trigger] pk.members[c][k] < m
    &&& forall|i: int|
        0 <= i < m && !t[i].redirect ==> {
            let (c, k) = #[trigger] pk.loc[i];
            &&& 0 <= c < pk.members.len()
            &&& 0 <= k < pk.members[c].len()
            &&& pk.members[c][k] == i
        }
    &&& pk.text matches Some(c) ==> 0 <= c < pk.members.len()
    &&& pk.bin matches Some(c) ==> 0 <= c < pk.members.len()
}

/// Packing places every entry that is not a redirect.
pub proof fn lemma_packing_places(t: Seq<EntrySpec>, m: nat)
    requires
        m <= t.len(),
    ensures
        packing_places(t, pack(t, m), m as int),
    decreases m,
{
    if m > 0 {
        lemma_packing_places(t, (m - 1) as nat);
        let st = pack(t, (m - 1) as nat);
        let i = m - 1;
        let n = pack(t, m);
        assert(n == pack_step(st, t[i], i));
        if !t[i].redirect {
            let text = crate::codec::is_text_mime_spec(t[i].mime);
            let cur = if text {
                st.text
            } else {
                st.bin
            };
            let ci = if cur is None {
                st.members.len() as int
            } else {
                cur->0
            };
            assert forall|c: int, k: int|
                0 <= c < n.members.len() && 0 <= k < n.members[c].len() implies 0 <= #[trigger] n.members[c][k] < m by {
                if c < st.members.len() && k < st.members[c].len() {
                    assert(n.members[c][k] == st.members[c][k]);
                }
            }
            assert forall|j: int| 0 <= j < m && !t[j].redirect implies {
                let (c, k) = #[trigger] n.loc[j];
                &&& 0 <= c < n.members.len()
                &&& 0 <= k < n.members[c].len()
                &&& n.members[c][k] == j
            } by {
                if j < i {
                    let (c, k) = st.loc[j];
                    assert(n.loc[j] == st.loc[j]);
                    assert(n.members[c][k] == st.members[c][k]);
                }
            }
        } else {
            assert forall|j: int| 0 <= j < m && !t[j].redirect implies {
                let (c, k) = #[trigger] n.loc[j];
                &&& 0 <= c < n.members.len()
                &&& 0 <= k < n.members[c].len()
                &&& n.members[c][k] == j
            } by {
                assert(n.loc[j] == st.loc[j]);
            }
        }
    }
}

/// Each stored cluster is what storing its entries gives.
pub proof fn lemma_encoded_cluster(
    t: Seq<EntrySpec>,
    pv: Seq<Option<Seq<u8>>>,
    pk: Packing,
    nc: bool,
    rs: Seq<Result<Seq<u8>, Fault>>,
    n: nat,
    enc: Seq<Seq<u8>>,
    c: int,
)
    requires
        encode_clusters(t, pv, pk, nc, rs, n) == Ok::<Seq<Seq<u8>>, Fault>(enc),
        0 <= c < n,
    ensures
        encode_cluster(t, pv, pk.members[c], pk.comps[c], nc, rs[c]) == Ok::<Seq<u8>, Fault>(enc[c]),
        enc.len() == n,
    decreases n,
{
    match encode_clusters(t, pv, pk, nc, rs, (n - 1) as nat) {
        Ok(done) => {
            if c < n - 1 {
                lemma_encoded_cluster(t, pv, pk, nc, rs, (n - 1) as nat, done, c);
                assert(enc[c] == done[c]);
            } else {
                crate::layout::lemma_encode_clusters_len(t, pv, pk, nc, rs, (n - 1) as nat);
            }
        },
        Err(_) => {},
    }
}

/// The MIME table holds the MIME type of every entry that is not a redirect,
/// once.
pub proof fn lemma_mime_table_holds(t: Seq<EntrySpec>, i: int)
    requires
        0 <= i < t.len(),
        !t[i].redirect,
    ensures
        mime_table(t).contains(t[i].mime),
        mime_table(t)[mime_pos(mime_table(t), t[i].mime)] == t[i].mime,
        0 <= mime_pos(mime_table(t), t[i].mime) < mime_table(t).len(),
    decreases t.len(),
{
    let d = t.drop_last();
    if i < t.len() - 1 {
        assert(d[i] == t[i]);
        lemma_mime_table_holds(d, i);
        let m = mime_table(d);
        assert(m.contains(t[i].mime));
        let k = choose|k: int| 0 <= k < m.len() && m[k] == t[i].mime;
        assert(mime_table(t)[k] == t[i].mime);
    } else {
        let m = mime_table(d);
        if m.contains(t[i].mime) {
            let k = choose|k: int| 0 <= k < m.len() && m[k] == t[i].mime;
            assert(mime_table(t)[k] == t[i].mime);
        } else {
            assert(mime_table(t)[m.len() as int] == t[i].mime);
        }
    }
    let mt = mime_table(t);
    assert(mt.contains(t[i].mime));
    let q = mime_pos(mt, t[i].mime);
    assert(0 <= q < mt.len() && mt[q] == t[i].mime);
}


/// The conditions under which the entries of an archive laid out from `t`
/// read back: positions fit in 32 bits, fewer than 65535 MIME types, and
/// each entry's URL and title free of NUL bytes, its directory entry no
/// longer than the window the reader looks in.
pub open spec fn readable_entries(t: Seq<EntrySpec>, mt: Seq<Seq<u8>>, pk: Packing) -> bool {
    &&& t.len() <= u32::MAX
    &&& mt.len() < 65535
    &&& forall|i: int|
        0 <= i < t.len() ==> !has_nul(#[trigger] t[i].url) && !has_nul(t[i].title)
            && dirent_of(t, i, mt, pk).len() <= MAX_WINDOW
}

/// The directory entry that entry `i` of `t` reads back as.
pub open spec fn expected_dirent(t: Seq<EntrySpec>, mt: Seq<Seq<u8>>, pk: Packing, i: int) -> DirentView {
    let e = t[i];
    DirentView {
        mime_idx: if e.redirect {
            REDIRECT_ENTRY
        } else {
            mime_pos(mt, e.mime) as u16
        },
        namespace: e.namespace,
        url: lossy_utf8(e.url),
        title: lossy_utf8(e.title),
        cluster: if e.redirect {
            0
        } else {
            pk.loc[i].0 as u32
        },
        blob: if e.redirect {
            0
        } else {
            pk.loc[i].1 as u32
        },
        redirect: e.redirect,
        target_index: if e.redirect {
            key_index(t, target_key(e)) as u32
        } else {
            0
        },
    }
}

/// What an archive laid out from `t` holds, and where.
pub open spec fn laid_out(t: Seq<EntrySpec>, mt: Seq<Seq<u8>>, pk: Packing, enc: Seq<Seq<u8>>, b: Seq<u8>, h: HeaderView) -> bool {
    let ds = dirents(t, mt, pk);
    &&& hdr(b) == h
    &&& b.len() == checksum_start(t, mt, pk, enc) + 16
    &&& h.url_ptr_pos == HEADER_LEN + mime_list_bytes(mt).len()
    &&& h.mime_list_pos == HEADER_LEN
    &&& h.title_ptr_pos == HEADER_LEN + mime_list_bytes(mt).len() + 8 * t.len()
    &&& h.cluster_ptr_pos == HEADER_LEN + mime_list_bytes(mt).len() + 12 * t.len()
    &&& embeds(b, h.title_ptr_pos as int, title_table(title_order(t)))
    &&& h.cluster_count == pk.members.len() as u32
    &&& h.article_count == t.len() as u32
    &&& h.checksum_pos == checksum_start(t, mt, pk, enc)
    &&& embeds(b, HEADER_LEN as int, mime_list_bytes(mt))
    &&& embeds(b, h.url_ptr_pos as int, pointer_table(dirents_start(t, mt, pk), ds))
    &&& embeds(b, h.cluster_ptr_pos as int, pointer_table(clusters_start(t, mt, pk), enc))
    &&& embeds(b, dirents_start(t, mt, pk), concat(ds))
    &&& embeds(b, clusters_start(t, mt, pk), concat(enc))
}

/// Where each section of an archive stands.
#[verifier::spinoff_prover]
#[verifier::rlimit(30)]
pub proof fn lemma_laid_out(
    t: Seq<EntrySpec>,
    mt: Seq<Seq<u8>>,
    pk: Packing,
    main: Option<(u8, Seq<u8>)>,
    enc: Seq<Seq<u8>>,
    dg: Seq<u8>,
)
    requires
        checksum_start(t, mt, pk, enc) <= u64::MAX,
        md5_digest(uuid_body(t)).len() == 16,
        title_order(t).len() == t.len(),
        enc.len() == pk.members.len(),
        dg.len() == 16,
    ensures
        laid_out(
            t,
            mt,
            pk,
            enc,
            archive_body(t, mt, pk, main, enc) + dg,
            archive_header(t, mt, pk, main, enc),
        ),
{
    let h = archive_header(t, mt, pk, main, enc);
    let ds = dirents(t, mt, pk);
    let hb = header_bytes(h);
    let ml = mime_list_bytes(mt);
    let up = pointer_table(dirents_start(t, mt, pk), ds);
    let tt = title_table(title_order(t));
    let cp = pointer_table(clusters_start(t, mt, pk), enc);
    let d = concat(ds);
    let e = concat(enc);
    let body = archive_body(t, mt, pk, main, enc);
    let b = body + dg;
    crate::layout::lemma_pointer_table_len(dirents_start(t, mt, pk), ds);
    crate::layout::lemma_pointer_table_len(clusters_start(t, mt, pk), enc);
    crate::layout::lemma_title_table_len(title_order(t));
    assert(hb.len() == HEADER_LEN);
    assert(ds.len() == t.len());
    let p1 = hb + ml;
    let p2 = p1 + up;
    let p3 = p2 + tt;
    let p4 = p3 + cp;
    let p5 = p4 + d;
    assert(body == p5 + e);
    lemma_embeds_prefix(body, dg);
    lemma_embeds_prefix(p5, e);
    lemma_embeds_prefix(p4, d);
    lemma_embeds_prefix(p3, cp);
    lemma_embeds_prefix(p2, tt);
    lemma_embeds_prefix(p1, up);
    lemma_embeds_prefix(hb, ml);
    lemma_embeds_trans(b, 0, body, 0, p5);
    lemma_embeds_trans(b, 0, body, p5.len() as int, e);
    lemma_embeds_trans(b, 0, p5, 0, p4);
    lemma_embeds_trans(b, 0, p5, p4.len() as int, d);
    lemma_embeds_trans(b, 0, p4, 0, p3);
    lemma_embeds_trans(b, 0, p4, p3.len() as int, cp);
    lemma_embeds_trans(b, 0, p3, 0, p2);
    lemma_embeds_trans(b, 0, p3, p2.len() as int, tt);
    lemma_embeds_trans(b, 0, p2, 0, p1);
    lemma_embeds_trans(b, 0, p2, p1.len() as int, up);
    lemma_embeds_trans(b, 0, p1, 0, hb);
    lemma_embeds_trans(b, 0, p1, hb.len() as int, ml);
    assert(b.subrange(0, HEADER_LEN as int) == hb);
    crate::format::lemma_header_round_trip(h, b);
}

/// Each directory entry of an archive laid out from `t` reads back by its
/// position.
pub proof fn lemma_dirent_reads_back(
    t: Seq<EntrySpec>,
    mt: Seq<Seq<u8>>,
    pk: Packing,
    enc: Seq<Seq<u8>>,
    b: Seq<u8>,
    h: HeaderView,
    i: int,
)
    requires
        mt == mime_table(t),
        pk == pack(t, t.len()),
        readable_entries(t, mt, pk),
        laid_out(t, mt, pk, enc, b, h),
        clusters_start(t, mt, pk) <= u64::MAX,
        crate::layout::first_dangling(t) is None,
        0 <= i < t.len(),
    ensures
        dirent_at_index_spec(b, i as u32) == Ok::<DirentView, Fault>(expected_dirent(t, mt, pk, i)),
{
    let ds = dirents(t, mt, pk);
    let start = dirents_start(t, mt, pk);
    let pos = start + concat(ds.take(i)).len();
    lemma_pointer_embeds(start, ds, i);
    lemma_embeds_trans(b, h.url_ptr_pos as int, pointer_table(start, ds), 8 * i, u64_bytes(pos as u64));
    lemma_concat_embeds(ds, i);
    assert(pos <= clusters_start(t, mt, pk));
    lemma_u64_round_trip(b, h.url_ptr_pos + 8 * i, pos as u64);
    lemma_embeds_trans(b, start, concat(ds), concat(ds.take(i)).len() as int, ds[i]);
    let w = window(b, pos, MAX_WINDOW as int);
    assert(ds[i] == dirent_of(t, i, mt, pk));
    assert(embeds(w, 0, ds[i])) by {
        assert(w.subrange(0, ds[i].len() as int) =~= b.subrange(pos, pos + ds[i].len()));
    }
    let e = t[i];
    if !e.redirect {
        lemma_mime_table_holds(t, i);
    }
    lemma_dirent_parse(
        w,
        pos as u64,
        e,
        mime_pos(mt, e.mime) as u16,
        pk.loc[i].0 as u32,
        pk.loc[i].1 as u32,
        key_index(t, target_key(e)) as u32,
    );
}


/// The answers that compressed clusters were stored with decompress to the
/// clusters' bodies.
pub open spec fn answers_decode(
    t: Seq<EntrySpec>,
    pv: Seq<Option<Seq<u8>>>,
    pk: Packing,
    nc: bool,
    rs: Seq<Result<Seq<u8>, Fault>>,
) -> bool {
    forall|c: int|
        0 <= c < pk.members.len() && !nc && pk.comps[c] == COMP_ZSTD && (#[trigger] rs[c]) is Ok
            ==> zstd_decompressed(rs[c]->Ok_0) == Some(raw_cluster(t, pv, pk.members[c]))
}

/// Where cluster `c` of an archive laid out from `t` starts and ends.
proof fn lemma_cluster_bounds(
    t: Seq<EntrySpec>,
    mt: Seq<Seq<u8>>,
    pk: Packing,
    enc: Seq<Seq<u8>>,
    b: Seq<u8>,
    h: HeaderView,
    c: int,
)
    requires
        laid_out(t, mt, pk, enc, b, h),
        checksum_start(t, mt, pk, enc) <= u64::MAX,
        enc.len() == pk.members.len(),
        pk.members.len() <= u32::MAX,
        0 <= c < pk.members.len(),
    ensures
        ({
            let start = clusters_start(t, mt, pk) + concat(enc.take(c)).len();
            &&& cluster_offset_spec(b, c as u32) == Ok::<u64, Fault>(start as u64)
            &&& cluster_end_spec(b, c as u32) == Ok::<u64, Fault>((start + enc[c].len()) as u64)
            &&& embeds(b, start, enc[c])
        }),
{
    let cs = clusters_start(t, mt, pk);
    let start = cs + concat(enc.take(c)).len();
    lemma_concat_embeds(enc, c);
    lemma_embeds_trans(b, cs, concat(enc), concat(enc.take(c)).len() as int, enc[c]);
    lemma_pointer_embeds(cs, enc, c);
    lemma_embeds_trans(b, h.cluster_ptr_pos as int, pointer_table(cs, enc), 8 * c, u64_bytes(start as u64));
    lemma_u64_round_trip(b, h.cluster_ptr_pos + 8 * c, start as u64);
    let end = start + enc[c].len();
    lemma_concat_take(enc, c);
    if c + 1 < pk.members.len() {
        lemma_concat_embeds(enc, c + 1);
        lemma_pointer_embeds(cs, enc, c + 1);
        lemma_embeds_trans(b, h.cluster_ptr_pos as int, pointer_table(cs, enc), 8 * (c + 1), u64_bytes(end as u64));
        lemma_u64_round_trip(b, h.cluster_ptr_pos + 8 * (c + 1), end as u64);
    } else {
        assert(enc.take(c + 1) =~= enc);
    }
}

/// Each cluster of an archive laid out from `t` decodes to its body.
#[verifier::spinoff_prover]
pub proof fn lemma_cluster_reads_back(
    t: Seq<EntrySpec>,
    mt: Seq<Seq<u8>>,
    pk: Packing,
    pv: Seq<Option<Seq<u8>>>,
    nc: bool,
    rs: Seq<Result<Seq<u8>, Fault>>,
    enc: Seq<Seq<u8>>,
    b: Seq<u8>,
    h: HeaderView,
    c: int,
)
    requires
        pk == pack(t, t.len()),
        t.len() <= u32::MAX,
        laid_out(t, mt, pk, enc, b, h),
        checksum_start(t, mt, pk, enc) <= u64::MAX,
        encode_clusters(t, pv, pk, nc, rs, pk.members.len()) == Ok::<Seq<Seq<u8>>, Fault>(enc),
        answers_decode(t, pv, pk, nc, rs),
        0 <= c < pk.members.len(),
    ensures
        !some_lacks_data(t, pv, pk.members[c]),
        !raw_too_big(t, pv, pk.members[c]),
        cluster_spec(b, c as u32) == Ok::<ClusterView, Fault>(
            ClusterView { data: raw_cluster(t, pv, pk.members[c]), extended: false },
        ),
{
    lemma_packing_places(t, t.len());
    lemma_encoded_cluster(t, pv, pk, nc, rs, pk.members.len(), enc, c);
    let mem = pk.members[c];
    let raw = raw_cluster(t, pv, mem);
    let comp = pk.comps[c];
    assert(comp == COMP_ZSTD || comp == COMP_NONE);
    let body: Seq<u8> = if !nc && comp == COMP_ZSTD {
        rs[c]->Ok_0
    } else {
        raw
    };
    let info: u8 = if !nc && comp == COMP_ZSTD {
        COMP_ZSTD
    } else {
        COMP_NONE
    };
    assert(enc[c] == seq![info] + body);
    lemma_cluster_bounds(t, mt, pk, enc, b, h, c);
    let start = clusters_start(t, mt, pk) + concat(enc.take(c)).len();
    let end = start + enc[c].len();
    lemma_embeds_concat(b, start, seq![info], body);
    assert(b.subrange(start, start + 1)[0] == b[start]);
    assert(1u8 & 0x0fu8 == 1u8 && 1u8 & 0x10u8 == 0u8 && 5u8 & 0x0fu8 == 5u8 && 5u8 & 0x10u8 == 0u8) by (bit_vector);
    assert(info & EXTENDED_FLAG == 0);
    if !nc && comp == COMP_ZSTD {
        assert(rs[c] is Ok);
    }
    lemma_concat_embeds(enc, c);
    let so = start as u64;
    let eo = end as u64;
    assert(so as int == start && eo as int == end);
    assert(b[so as int] & 0x0f == info);
    assert(b.subrange(so + 1, eo as int) == body);
    reveal(cluster_spec);
}

/// Blob `k` of a cluster body made of an offset table and the blobs `ds`
/// reads back.
#[verifier::spinoff_prover]
proof fn lemma_blob_in_cluster(ds: Seq<Seq<u8>>, c: u32, k: int)
    requires
        0 <= k < ds.len(),
        table_len(ds.len() as int) + concat(ds).len() <= u32::MAX,
    ensures
        ({
            let raw = offset_table(table_len(ds.len() as int), ds) + concat(ds);
            let o0 = table_len(ds.len() as int) + concat(ds.take(k)).len();
            &&& blob_bounds_spec(ClusterView { data: raw, extended: false }, c, k as u32) == Ok::<(int, int), Fault>(
                (o0, o0 + ds[k].len()),
            )
            &&& raw.subrange(o0, o0 + ds[k].len()) == ds[k]
        }),
{
    let tl = table_len(ds.len() as int);
    let ot = offset_table(tl, ds);
    let raw = ot + concat(ds);
    lemma_offset_embeds(tl, ds, k);
    lemma_offset_embeds(tl, ds, k + 1);
    lemma_embeds_prefix(ot, concat(ds));
    lemma_concat_embeds(ds, k);
    lemma_concat_take(ds, k);
    let o0 = tl + concat(ds.take(k)).len();
    let o1 = o0 + ds[k].len();
    lemma_embeds_trans(raw, 0, ot, 4 * k, u32_bytes(o0 as u32));
    lemma_embeds_trans(raw, 0, ot, 4 * (k + 1), u32_bytes(o1 as u32));
    lemma_u32_round_trip(raw, 4 * k, o0 as u32);
    lemma_u32_round_trip(raw, 4 * (k + 1), o1 as u32);
    lemma_embeds_trans(raw, ot.len() as int, concat(ds), concat(ds.take(k)).len() as int, ds[k]);
    assert(read_uint_spec(raw, k * 4, 4) == o0);
    assert(read_uint_spec(raw, (k + 1) * 4, 4) == o1);
}

/// The blob of each entry other than a redirect of an archive laid out from
/// `t` reads back from its cluster.
#[verifier::spinoff_prover]
pub proof fn lemma_blob_reads_back(
    t: Seq<EntrySpec>,
    mt: Seq<Seq<u8>>,
    pk: Packing,
    pv: Seq<Option<Seq<u8>>>,
    nc: bool,
    rs: Seq<Result<Seq<u8>, Fault>>,
    enc: Seq<Seq<u8>>,
    b: Seq<u8>,
    h: HeaderView,
    i: int,
)
    requires
        pk == pack(t, t.len()),
        t.len() <= u32::MAX,
        laid_out(t, mt, pk, enc, b, h),
        checksum_start(t, mt, pk, enc) <= u64::MAX,
        encode_clusters(t, pv, pk, nc, rs, pk.members.len()) == Ok::<Seq<Seq<u8>>, Fault>(enc),
        answers_decode(t, pv, pk, nc, rs),
        0 <= i < t.len(),
        !t[i].redirect,
    ensures
        blob_of(t, pv, i) is Some,
        blob_data_spec(b, pk.loc[i].0 as u32, pk.loc[i].1 as u32) == Ok::<Seq<u8>, Fault>(
            blob_of(t, pv, i)->0,
        ),
{
    lemma_packing_places(t, t.len());
    let (c, k) = pk.loc[i];
    lemma_cluster_reads_back(t, mt, pk, pv, nc, rs, enc, b, h, c);
    let mem = pk.members[c];
    assert(mem[k] == i);
    let ds = blob_datas(t, pv, mem);
    assert(blob_of(t, pv, mem[k]) is Some);
    assert(ds.len() == mem.len());
    lemma_blob_in_cluster(ds, c as u32, k);
    assert(ds[k] == blob_of(t, pv, i)->0);
}

/// Every MIME type of the table is that of an entry that is not a redirect,
/// so what holds of all of those holds of the table.
proof fn lemma_mime_table_entries(t: Seq<EntrySpec>)
    requires
        forall|i: int| 0 <= i < t.len() && !t[i].redirect ==> (#[trigger] t[i].mime).len() > 0 && !has_nul(t[i].mime),
    ensures
        forall|k: int| 0 <= k < mime_table(t).len() ==> (#[trigger] mime_table(t)[k]).len() > 0 && !has_nul(mime_table(t)[k]),
    decreases t.len(),
{
    if t.len() > 0 {
        let d = t.drop_last();
        assert forall|i: int| 0 <= i < d.len() && !d[i].redirect implies (#[trigger] d[i].mime).len() > 0 && !has_nul(d[i].mime) by {
            assert(d[i] == t[i]);
        }
        lemma_mime_table_entries(d);
        let m = mime_table(d);
        let e = t.last();
        if !e.redirect && !m.contains(e.mime) {
            assert(t[t.len() - 1] == e);
            assert forall|k: int| 0 <= k < mime_table(t).len() implies (#[trigger] mime_table(t)[k]).len() > 0 && !has_nul(mime_table(t)[k]) by {
                if k < m.len() {
                    assert(mime_table(t)[k] == m[k]);
                }
            }
        }
    }
}

/// The conditions under which every entry of an archive written from `t`
/// reads back as it was written: those of `readable_entries`, and the MIME
/// type of each entry that is not a redirect neither empty nor holding a
/// NUL byte, since the stored list of types ends at the first empty one.
pub open spec fn readable_archive(t: Seq<EntrySpec>) -> bool {
    &&& readable_entries(t, mime_table(t), pack(t, t.len()))
    &&& forall|i: int| 0 <= i < t.len() && !t[i].redirect ==> (#[trigger] t[i].mime).len() > 0 && !has_nul(t[i].mime)
}

/// The entry at position `i` of an archive written from `t`, the blobs
/// declared without data given by `pv`: its key, title and MIME type read
/// back as text, a redirect names the key of its target, and any other
/// entry holds its blob.
pub open spec fn expected_entry(t: Seq<EntrySpec>, pv: Seq<Option<Seq<u8>>>, i: int) -> EntryView {
    let e = t[i];
    let k = key_index(t, target_key(e));
    EntryView {
        namespace: e.namespace,
        url: lossy_utf8(e.url),
        title: lossy_utf8(e.title),
        mime_type: if e.redirect {
            seq![]
        } else {
            lossy_utf8(e.mime)
        },
        redirect: e.redirect,
        redirect_namespace: if e.redirect {
            t[k].namespace
        } else {
            0
        },
        redirect_url: if e.redirect {
            lossy_utf8(t[k].url)
        } else {
            seq![]
        },
        data: if e.redirect {
            seq![]
        } else {
            blob_of(t, pv, i)->0
        },
    }
}

/// What looking up entry `j` of an archive written from `t` by its key
/// gives: its key, title and MIME type as text, and its blob.
pub open spec fn expected_blob(t: Seq<EntrySpec>, pv: Seq<Option<Seq<u8>>>, j: int) -> BlobView {
    BlobView {
        namespace: t[j].namespace,
        url: lossy_utf8(t[j].url),
        title: lossy_utf8(t[j].title),
        mime_type: lossy_utf8(t[j].mime),
        data: blob_of(t, pv, j)->0,
    }
}

/// The archive `b`, written from `t` with the blobs `pv`, reads back: each
/// entry by its position as `expected_entry` says; a key that no entry has
/// is not found; the key of an entry that is not a redirect finds its blob,
/// and the key of a redirect to such an entry finds that entry's blob; a
/// title finds the first entry in title order with it, and one that no
/// entry has is not found; a range read by key gives `range_of` the blob
/// found; listing by a title prefix gives the entries whose titles start
/// with it, in title order; each key resolves its chain of redirects, and a
/// redirect whose chain ends finds what its target does; and the URL table
/// is in strictly increasing key order, the title table in title order.
pub open spec fn reads_back(t: Seq<EntrySpec>, pv: Seq<Option<Seq<u8>>>, b: Seq<u8>) -> bool {
    readable_archive(t) ==> {
        &&& forall|i: int|
            0 <= i < t.len() ==> entry_at_spec(b, i as u32) == Ok::<EntryView, Fault>(
                #[trigger] expected_entry(t, pv, i),
            )
        &&& forall|ns: u8, q: Seq<char>|
            !has_key(t, (ns, encode_utf8(q))) ==> #[trigger] get_spec(b, ns, q) == Err::<BlobView, Fault>(
                Fault::NotFound { namespace: ns, url: q },
            )
        &&& forall|j: int|
            0 <= j < t.len() && !t[j].redirect ==> #[trigger] get_spec(b, t[j].namespace, lossy_utf8(t[j].url))
                == Ok::<BlobView, Fault>(expected_blob(t, pv, j))
        &&& forall|j: int|
            0 <= j < t.len() && t[j].redirect && !t[key_index(t, target_key(t[j]))].redirect ==> #[trigger] get_spec(
                b,
                t[j].namespace,
                lossy_utf8(t[j].url),
            ) == Ok::<BlobView, Fault>(expected_blob(t, pv, key_index(t, target_key(t[j]))))
        &&& forall|ns: u8, q: Seq<char>|
            (forall|p: int| 0 <= p < t.len() ==> !title_match(t, ns, encode_utf8(q), p)) ==> #[trigger] get_by_title_spec(
                b,
                ns,
                q,
            ) == Err::<BlobView, Fault>(Fault::NotFound { namespace: ns, url: q })
        &&& forall|ns: u8, q: Seq<char>, p: int|
            #[trigger] first_title_match(t, ns, encode_utf8(q), p) ==> get_by_title_spec(b, ns, q) == resolved(
                t,
                pv,
                title_order(t)[p] as int,
                0,
            )
        &&& forall|ns: u8, q: Seq<char>, offset: u64, len: u64|
            !has_key(t, (ns, encode_utf8(q))) ==> #[trigger] get_range_spec(b, ns, q, offset, len) == Err::<
                (Seq<u8>, u64),
                Fault,
            >(Fault::NotFound { namespace: ns, url: q })
        &&& forall|j: int, offset: u64, len: u64|
            0 <= j < t.len() ==> found_range(
                t,
                pv,
                j,
                offset,
                len,
                #[trigger] get_range_spec(b, t[j].namespace, lossy_utf8(t[j].url), offset, len),
            )
        &&& forall|ns: u8, q: Seq<char>|
            #[trigger] entries_by_title_prefix_spec(b, ns, q) == Ok::<Seq<EntryView>, Fault>(
                prefix_entries(t, pv, ns, encode_utf8(q), 0),
            )
        &&& forall|j: int|
            0 <= j < t.len() ==> #[trigger] get_spec(b, key_text(t, j).0, key_text(t, j).1) == resolved(t, pv, j, 0)
        &&& forall|j: int|
            0 <= j < t.len() && t[j].redirect && chain_end(t, j, 0) is Some ==> #[trigger] get_spec(
                b,
                key_text(t, j).0,
                key_text(t, j).1,
            ) == get_spec(
                b,
                key_text(t, key_index(t, target_key(t[j]))).0,
                key_text(t, key_index(t, target_key(t[j]))).1,
            )
        &&& forall|i: int, j: int| 0 <= i < j < t.len() ==> #[trigger] dirents_in_order(b, i, j)
        &&& titles_ordered(t)
        &&& forall|k: int| 0 <= k < t.len() ==> #[trigger] title_index_spec(b, k as u32) == Ok::<u32, Fault>(
            title_order(t)[k] as u32,
        )
        &&& forall|i: int| 0 <= i < t.len() ==> valid_utf8(#[trigger] t[i].title)
    }
}

/// The main page of the archive `b`, written from `t` with the blobs `pv`
/// and the main page `main`, reads back: it resolves the chain of redirects
/// from the entry with that key, and where there is none, or no main page
/// was set, there is none.
pub open spec fn main_reads_back(t: Seq<EntrySpec>, pv: Seq<Option<Seq<u8>>>, main: Option<(u8, Seq<u8>)>, b: Seq<u8>) -> bool {
    readable_archive(t) ==> match main {
        Some(k) => if has_key(t, k) {
            main_page_spec(b) == resolved(t, pv, key_index(t, k), 0)
        } else {
            main_page_spec(b) == Err::<BlobView, Fault>(Fault::NoMainPage)
        },
        None => main_page_spec(b) == Err::<BlobView, Fault>(Fault::NoMainPage),
    }
}

/// What resolving entry `j` of an archive written from `t` gave, `r`, is
/// its blob where it is not a redirect, and the blob of its target where it
/// redirects to an entry that is not one.
pub open spec fn found_blob(t: Seq<EntrySpec>, pv: Seq<Option<Seq<u8>>>, j: int, r: Result<BlobView, Fault>) -> bool {
    let k = key_index(t, target_key(t[j]));
    &&& !t[j].redirect ==> r == Ok::<BlobView, Fault>(expected_blob(t, pv, j))
    &&& t[j].redirect && !t[k].redirect ==> r == Ok::<BlobView, Fault>(expected_blob(t, pv, k))
}

/// The MIME type of entry `i`, not a redirect, of an archive laid out
/// from `t` reads back from the stored list.
proof fn lemma_mime_reads_back(t: Seq<EntrySpec>, pk: Packing, enc: Seq<Seq<u8>>, b: Seq<u8>, h: HeaderView, i: int)
    requires
        readable_archive(t),
        laid_out(t, mime_table(t), pk, enc, b, h),
        0 <= i < t.len(),
        !t[i].redirect,
    ensures
        mime_at(b, mime_pos(mime_table(t), t[i].mime) as u16) == lossy_utf8(t[i].mime),
{
    let mt = mime_table(t);
    lemma_mime_table_holds(t, i);
    lemma_mime_table_entries(t);
    lemma_mime_list(mt);
    assert(b.subrange(h.mime_list_pos as int, h.url_ptr_pos as int) == mime_list_bytes(mt));
    assert(mimes_of(b) == mt.map_values(|x: Seq<u8>| lossy_utf8(x)));
}

/// Entry `i` of an archive laid out from `t` reads back.
#[verifier::spinoff_prover]
pub(crate) proof fn lemma_entry_reads_back(
    t: Seq<EntrySpec>,
    pk: Packing,
    pv: Seq<Option<Seq<u8>>>,
    nc: bool,
    rs: Seq<Result<Seq<u8>, Fault>>,
    enc: Seq<Seq<u8>>,
    b: Seq<u8>,
    h: HeaderView,
    i: int,
)
    requires
        pk == pack(t, t.len()),
        readable_archive(t),
        laid_out(t, mime_table(t), pk, enc, b, h),
        checksum_start(t, mime_table(t), pk, enc) <= u64::MAX,
        encode_clusters(t, pv, pk, nc, rs, pk.members.len()) == Ok::<Seq<Seq<u8>>, Fault>(enc),
        answers_decode(t, pv, pk, nc, rs),
        crate::layout::first_dangling(t) is None,
        0 <= i < t.len(),
    ensures
        entry_at_spec(b, i as u32) == Ok::<EntryView, Fault>(expected_entry(t, pv, i)),
{
    let mt = mime_table(t);
    lemma_dirent_reads_back(t, mt, pk, enc, b, h, i);
    if t[i].redirect {
        assert(!crate::layout::dangling(t, i));
        let k = key_index(t, target_key(t[i]));
        lemma_dirent_reads_back(t, mt, pk, enc, b, h, k);
    } else {
        lemma_blob_reads_back(t, mt, pk, pv, nc, rs, enc, b, h, i);
        lemma_mime_reads_back(t, pk, enc, b, h, i);
    }
    reveal(entry_at_spec);
}

/// The binary search of the URL table of an archive laid out from `t`, in
/// key order with keys that are valid UTF-8, finds the position of the key
/// `(ns, u)` between `lo` and `hi` where there is one, and ends empty where
/// there is none.
#[verifier::spinoff_prover]
proof fn lemma_find_url(
    t: Seq<EntrySpec>,
    pk: Packing,
    enc: Seq<Seq<u8>>,
    b: Seq<u8>,
    h: HeaderView,
    ns: u8,
    u: Seq<u8>,
    lo: u32,
    hi: u32,
)
    requires
        pk == pack(t, t.len()),
        readable_entries(t, mime_table(t), pk),
        laid_out(t, mime_table(t), pk, enc, b, h),
        clusters_start(t, mime_table(t), pk) <= u64::MAX,
        crate::layout::first_dangling(t) is None,
        url_sorted(t),
        forall|i: int| 0 <= i < t.len() ==> valid_utf8(#[trigger] t[i].url),
        lo <= hi <= t.len(),
    ensures
        forall|j: int|
            lo <= j < hi && (#[trigger] t[j]).namespace == ns && t[j].url == u ==> find_url_spec(b, ns, u, lo, hi)
                == Ok::<Option<u32>, Fault>(Some(j as u32)),
        (forall|j: int| lo <= j < hi ==> !((#[trigger] t[j]).namespace == ns && t[j].url == u)) ==> find_url_spec(
            b,
            ns,
            u,
            lo,
            hi,
        ) == Ok::<Option<u32>, Fault>(None),
    decreases hi - lo,
{
    if lo < hi {
        let mt = mime_table(t);
        let mid = (lo + (hi - lo) / 2) as u32;
        let m = mid as int;
        lemma_dirent_reads_back(t, mt, pk, enc, b, h, m);
        let d = expected_dirent(t, mt, pk, m);
        crate::text::lemma_lossy_round_trip(t[m].url);
        assert(encode_utf8(d.url) == t[m].url);
        let e = t[m];
        if key_lt(e.namespace, e.url, ns, u) {
            lemma_find_url(t, pk, enc, b, h, ns, u, (mid + 1) as u32, hi);
            assert forall|j: int| lo <= j <= m implies !((#[trigger] t[j]).namespace == ns && t[j].url == u) by {
                if j < m {
                    assert(entry_lt(t[j], t[m]));
                    crate::text::lemma_lex_asymmetric(t[j].url, e.url);
                } else {
                    crate::text::lemma_lex_irreflexive(u);
                }
            }
        } else if key_lt(ns, u, e.namespace, e.url) {
            lemma_find_url(t, pk, enc, b, h, ns, u, lo, mid);
            assert forall|j: int| m <= j < hi implies !((#[trigger] t[j]).namespace == ns && t[j].url == u) by {
                if j > m {
                    assert(entry_lt(t[m], t[j]));
                    crate::text::lemma_lex_asymmetric(t[j].url, e.url);
                } else {
                    crate::text::lemma_lex_irreflexive(u);
                }
            }
        } else {
            crate::text::lemma_lex_total(u, e.url);
            assert(e.namespace == ns && e.url == u);
            assert forall|j: int| lo <= j < hi && (#[trigger] t[j]).namespace == ns && t[j].url == u implies j == m by {
                if j < m {
                    assert(entry_lt(t[j], t[m]));
                    crate::text::lemma_lex_irreflexive(u);
                } else if j > m {
                    assert(entry_lt(t[m], t[j]));
                    crate::text::lemma_lex_irreflexive(u);
                }
            }
        }
    }
}

/// Looking up the entries of an archive laid out from `t` by key gives
/// what `reads_back` says.
#[verifier::spinoff_prover]
pub(crate) proof fn lemma_get_reads_back(
    t: Seq<EntrySpec>,
    pk: Packing,
    pv: Seq<Option<Seq<u8>>>,
    nc: bool,
    rs: Seq<Result<Seq<u8>, Fault>>,
    enc: Seq<Seq<u8>>,
    b: Seq<u8>,
    h: HeaderView,
)
    requires
        pk == pack(t, t.len()),
        readable_archive(t),
        laid_out(t, mime_table(t), pk, enc, b, h),
        checksum_start(t, mime_table(t), pk, enc) <= u64::MAX,
        encode_clusters(t, pv, pk, nc, rs, pk.members.len()) == Ok::<Seq<Seq<u8>>, Fault>(enc),
        answers_decode(t, pv, pk, nc, rs),
        crate::layout::first_dangling(t) is None,
        url_sorted(t),
        forall|i: int| 0 <= i < t.len() ==> valid_utf8(#[trigger] t[i].url),
    ensures
        forall|ns: u8, q: Seq<char>|
            !has_key(t, (ns, encode_utf8(q))) ==> #[trigger] get_spec(b, ns, q) == Err::<BlobView, Fault>(
                Fault::NotFound { namespace: ns, url: q },
            ),
        forall|j: int|
            0 <= j < t.len() && !t[j].redirect ==> #[trigger] get_spec(b, t[j].namespace, lossy_utf8(t[j].url))
                == Ok::<BlobView, Fault>(expected_blob(t, pv, j)),
        forall|j: int|
            0 <= j < t.len() && t[j].redirect && !t[key_index(t, target_key(t[j]))].redirect ==> #[trigger] get_spec(
                b,
                t[j].namespace,
                lossy_utf8(t[j].url),
            ) == Ok::<BlobView, Fault>(expected_blob(t, pv, key_index(t, target_key(t[j])))),
{
    let mt = mime_table(t);
    let n = t.len() as u32;
    assert(hdr(b).article_count == n);
    assert forall|ns: u8, q: Seq<char>| !has_key(t, (ns, encode_utf8(q))) implies #[trigger] get_spec(b, ns, q)
        == Err::<BlobView, Fault>(Fault::NotFound { namespace: ns, url: q }) by {
        lemma_find_url(t, pk, enc, b, h, ns, encode_utf8(q), 0, n);
        assert forall|j: int| 0 <= j < n implies !((#[trigger] t[j]).namespace == ns && t[j].url == encode_utf8(q)) by {
            if t[j].namespace == ns && t[j].url == encode_utf8(q) {
                assert(crate::writer::key_of(t[j]) == (ns, encode_utf8(q)));
            }
        }
    }
    assert forall|j: int| 0 <= j < t.len() && !t[j].redirect implies #[trigger] get_spec(
        b,
        t[j].namespace,
        lossy_utf8(t[j].url),
    ) == Ok::<BlobView, Fault>(expected_blob(t, pv, j)) by {
        lemma_content_found(t, pk, pv, nc, rs, enc, b, h, j);
        reveal_with_fuel(blob_at_spec, 1);
    }
    assert forall|j: int|
        0 <= j < t.len() && t[j].redirect && !t[key_index(t, target_key(t[j]))].redirect implies #[trigger] get_spec(
        b,
        t[j].namespace,
        lossy_utf8(t[j].url),
    ) == Ok::<BlobView, Fault>(expected_blob(t, pv, key_index(t, target_key(t[j])))) by {
        let k = key_index(t, target_key(t[j]));
        assert(!crate::layout::dangling(t, j));
        assert(0 <= k < t.len());
        lemma_content_found(t, pk, pv, nc, rs, enc, b, h, k);
        lemma_dirent_reads_back(t, mt, pk, enc, b, h, j);
        crate::text::lemma_lossy_round_trip(t[j].url);
        lemma_find_url(t, pk, enc, b, h, t[j].namespace, t[j].url, 0, n);
        assert(blob_at_spec(b, j as u32, 0) == blob_at_spec(b, k as u32, 1)) by {
            reveal_with_fuel(blob_at_spec, 1);
        }
        assert(blob_at_spec(b, k as u32, 1) == blob_at_spec(b, k as u32, 0)) by {
            reveal_with_fuel(blob_at_spec, 1);
        }
    }
}

/// Entry `j` of an archive laid out from `t`, not a redirect, is found by
/// its key, and its blob reads back.
#[verifier::spinoff_prover]
proof fn lemma_content_found(
    t: Seq<EntrySpec>,
    pk: Packing,
    pv: Seq<Option<Seq<u8>>>,
    nc: bool,
    rs: Seq<Result<Seq<u8>, Fault>>,
    enc: Seq<Seq<u8>>,
    b: Seq<u8>,
    h: HeaderView,
    j: int,
)
    requires
        pk == pack(t, t.len()),
        readable_archive(t),
        laid_out(t, mime_table(t), pk, enc, b, h),
        checksum_start(t, mime_table(t), pk, enc) <= u64::MAX,
        encode_clusters(t, pv, pk, nc, rs, pk.members.len()) == Ok::<Seq<Seq<u8>>, Fault>(enc),
        answers_decode(t, pv, pk, nc, rs),
        crate::layout::first_dangling(t) is None,
        url_sorted(t),
        forall|i: int| 0 <= i < t.len() ==> valid_utf8(#[trigger] t[i].url),
        0 <= j < t.len(),
        !t[j].redirect,
    ensures
        encode_utf8(lossy_utf8(t[j].url)) == t[j].url,
        find_url_spec(b, t[j].namespace, t[j].url, 0, t.len() as u32) == Ok::<Option<u32>, Fault>(Some(j as u32)),
        blob_at_spec(b, j as u32, 0) == Ok::<BlobView, Fault>(expected_blob(t, pv, j)),
        blob_at_spec(b, j as u32, 1) == Ok::<BlobView, Fault>(expected_blob(t, pv, j)),
{
    let mt = mime_table(t);
    crate::text::lemma_lossy_round_trip(t[j].url);
    lemma_find_url(t, pk, enc, b, h, t[j].namespace, t[j].url, 0, t.len() as u32);
    lemma_dirent_reads_back(t, mt, pk, enc, b, h, j);
    lemma_blob_reads_back(t, mt, pk, pv, nc, rs, enc, b, h, j);
    lemma_mime_reads_back(t, pk, enc, b, h, j);
    reveal_with_fuel(blob_at_spec, 1);
}

/// The title order of `t` lists each of its positions once, by namespace
/// and title, then by position.
pub open spec fn titles_ordered(t: Seq<EntrySpec>) -> bool {
    &&& orders_titles(title_order(t), t)
    &&& title_order(t).len() == t.len()
    &&& forall|k: int| 0 <= k < t.len() ==> title_order(t)[k] < t.len()
}

/// The namespace and title of the entry at title position `p` of `t`.
pub open spec fn title_key_at(t: Seq<EntrySpec>, p: int) -> (u8, Seq<u8>) {
    let e = t[title_order(t)[p] as int];
    (e.namespace, e.title)
}

/// The entry at title position `p` of `t` has the title `tb`, and the
/// namespace `ns` unless `ns` is 0.
pub open spec fn title_match(t: Seq<EntrySpec>, ns: u8, tb: Seq<u8>, p: int) -> bool {
    &&& title_key_at(t, p).1 == tb
    &&& (ns == 0 || title_key_at(t, p).0 == ns)
}

/// `p` is the first title position of `t` that `title_match` holds of.
pub open spec fn first_title_match(t: Seq<EntrySpec>, ns: u8, tb: Seq<u8>, p: int) -> bool {
    &&& 0 <= p < t.len()
    &&& title_match(t, ns, tb, p)
    &&& forall|q: int| 0 <= q < p ==> !title_match(t, ns, tb, q)
}

/// `(na, a)` is below `(nc, c)` where it is below `(nb, b)` and that is
/// below `(nc, c)`.
proof fn lemma_key_lt_transitive(na: u8, a: Seq<u8>, nb: u8, b: Seq<u8>, nc: u8, c: Seq<u8>)
    requires
        key_lt(na, a, nb, b),
        key_lt(nb, b, nc, c),
    ensures
        key_lt(na, a, nc, c),
{
    if na == nb && nb == nc {
        crate::text::lemma_lex_transitive(a, b, c);
    }
}

/// Keys along the title order never decrease.
proof fn lemma_title_keys_ordered(t: Seq<EntrySpec>, p: int, q: int)
    requires
        titles_ordered(t),
        0 <= p < q < t.len(),
    ensures
        !key_lt(title_key_at(t, q).0, title_key_at(t, q).1, title_key_at(t, p).0, title_key_at(t, p).1),
{
    let o = title_order(t);
    let kv = crate::layout::title_keys(t);
    assert(crate::sort::idx_lt(kv, o[p] as int, o[q] as int));
    assert(kv[o[p] as int] == title_key_at(t, p));
    assert(kv[o[q] as int] == title_key_at(t, q));
    let (a0, a1) = title_key_at(t, p);
    let (b0, b1) = title_key_at(t, q);
    crate::text::lemma_lex_asymmetric(a1, b1);
    crate::text::lemma_lex_irreflexive(a1);
}

/// Position `i` of the title table of an archive laid out from `t` reads
/// back, and so does the directory entry it names.
#[verifier::spinoff_prover]
proof fn lemma_title_entry_reads_back(
    t: Seq<EntrySpec>,
    pk: Packing,
    enc: Seq<Seq<u8>>,
    b: Seq<u8>,
    h: HeaderView,
    i: int,
)
    requires
        pk == pack(t, t.len()),
        readable_entries(t, mime_table(t), pk),
        laid_out(t, mime_table(t), pk, enc, b, h),
        clusters_start(t, mime_table(t), pk) <= u64::MAX,
        crate::layout::first_dangling(t) is None,
        titles_ordered(t),
        forall|k: int| 0 <= k < t.len() ==> valid_utf8(#[trigger] t[k].title),
        0 <= i < t.len(),
    ensures
        title_entry_spec(b, 4 * t.len() as int, i as u32) == Ok::<u32, Fault>(title_order(t)[i] as u32),
        title_index_spec(b, i as u32) == Ok::<u32, Fault>(title_order(t)[i] as u32),
        dirent_at_title_index_spec(b, i as u32) == Ok::<DirentView, Fault>(
            expected_dirent(t, mime_table(t), pk, title_order(t)[i] as int),
        ),
        encode_utf8(expected_dirent(t, mime_table(t), pk, title_order(t)[i] as int).title) == title_key_at(t, i).1,
{
    let mt = mime_table(t);
    let o = title_order(t);
    let j = o[i] as int;
    lemma_title_table_embeds(o, i);
    crate::layout::lemma_title_table_len(o);
    lemma_embeds_trans(b, h.title_ptr_pos as int, title_table(o), 4 * i, u32_bytes(o[i] as u32));
    lemma_u32_round_trip(b, h.title_ptr_pos + 4 * i, o[i] as u32);
    crate::layout::lemma_pointer_table_len(clusters_start(t, mt, pk), enc);
    assert(hdr(b).cluster_ptr_pos - hdr(b).title_ptr_pos == 4 * t.len());
    lemma_dirent_reads_back(t, mt, pk, enc, b, h, j);
    crate::text::lemma_lossy_round_trip(t[j].title);
}

/// What reading the title table of an archive laid out from `t` rests on.
pub open spec fn titles_readable(t: Seq<EntrySpec>, pk: Packing, enc: Seq<Seq<u8>>, b: Seq<u8>, h: HeaderView) -> bool {
    &&& pk == pack(t, t.len())
    &&& readable_entries(t, mime_table(t), pk)
    &&& laid_out(t, mime_table(t), pk, enc, b, h)
    &&& clusters_start(t, mime_table(t), pk) <= u64::MAX
    &&& crate::layout::first_dangling(t) is None
    &&& titles_ordered(t)
    &&& forall|k: int| 0 <= k < t.len() ==> valid_utf8(#[trigger] t[k].title)
}

/// The binary search of the title table of an archive laid out from `t`
/// between `lo` and `hi` ends at the first position whose key is not below
/// `(ns, tb)`.
#[verifier::spinoff_prover]
proof fn lemma_lower_bound(
    t: Seq<EntrySpec>,
    pk: Packing,
    enc: Seq<Seq<u8>>,
    b: Seq<u8>,
    h: HeaderView,
    ns: u8,
    tb: Seq<u8>,
    lo: u32,
    hi: u32,
)
    requires
        titles_readable(t, pk, enc, b, h),
        lo <= hi <= t.len(),
    ensures
        lower_bound_spec(b, ns, tb, 4 * t.len() as int, lo, hi) matches Ok(r) && lo <= r <= hi && (forall|p: int|
            lo <= p < r ==> key_lt((#[trigger] title_key_at(t, p)).0, title_key_at(t, p).1, ns, tb)) && (forall|p: int|
            r <= p < hi ==> !key_lt((#[trigger] title_key_at(t, p)).0, title_key_at(t, p).1, ns, tb)),
    decreases hi - lo,
{
    if lo < hi {
        let mid = (lo + (hi - lo) / 2) as u32;
        let m = mid as int;
        lemma_title_entry_reads_back(t, pk, enc, b, h, m);
        let (mn, mt) = title_key_at(t, m);
        if key_lt(mn, mt, ns, tb) {
            lemma_lower_bound(t, pk, enc, b, h, ns, tb, (mid + 1) as u32, hi);
            assert forall|p: int| lo <= p <= m implies key_lt((#[trigger] title_key_at(t, p)).0, title_key_at(t, p).1, ns, tb) by {
                if p < m {
                    lemma_title_keys_ordered(t, p, m);
                    let (pn, pt) = title_key_at(t, p);
                    crate::text::lemma_lex_total(pt, mt);
                    if key_lt(pn, pt, mn, mt) {
                        lemma_key_lt_transitive(pn, pt, mn, mt, ns, tb);
                    }
                }
            }
        } else {
            lemma_lower_bound(t, pk, enc, b, h, ns, tb, lo, mid);
            assert forall|p: int| m <= p < hi implies !key_lt((#[trigger] title_key_at(t, p)).0, title_key_at(t, p).1, ns, tb) by {
                if p > m {
                    lemma_title_keys_ordered(t, m, p);
                    let (pn, pt) = title_key_at(t, p);
                    crate::text::lemma_lex_total(pt, mt);
                    if key_lt(pn, pt, ns, tb) && key_lt(mn, mt, pn, pt) {
                        lemma_key_lt_transitive(mn, mt, pn, pt, ns, tb);
                    }
                }
            }
        }
    }
}

/// The scan of the title table of an archive laid out from `t`, from
/// position `i` on, finds the first position whose entry has the title
/// `tb`.
#[verifier::spinoff_prover]
proof fn lemma_title_scan(t: Seq<EntrySpec>, pk: Packing, enc: Seq<Seq<u8>>, b: Seq<u8>, h: HeaderView, tb: Seq<u8>, i: u32)
    requires
        titles_readable(t, pk, enc, b, h),
        i <= t.len(),
    ensures
        forall|p: int|
            i <= p < t.len() && (#[trigger] title_key_at(t, p)).1 == tb && (forall|q: int|
                i <= q < p ==> title_key_at(t, q).1 != tb) ==> title_scan_spec(b, tb, i) == Ok::<Option<u32>, Fault>(
                Some(p as u32),
            ),
        (forall|p: int| i <= p < t.len() ==> (#[trigger] title_key_at(t, p)).1 != tb) ==> title_scan_spec(b, tb, i)
            == Ok::<Option<u32>, Fault>(None),
    decreases t.len() - i,
{
    assert(hdr(b).article_count == t.len());
    if i < t.len() {
        lemma_title_entry_reads_back(t, pk, enc, b, h, i as int);
        lemma_title_scan(t, pk, enc, b, h, tb, (i + 1) as u32);
    }
}

/// The ensures of a title lookup in an archive laid out from `t`: the
/// first entry in title order with the title (and the namespace, unless it
/// is 0) is resolved, and a title that no such entry has is not found.
pub open spec fn title_lookup_holds(t: Seq<EntrySpec>, b: Seq<u8>, ns: u8, q: Seq<char>) -> bool {
    &&& (forall|p: int| 0 <= p < t.len() ==> !title_match(t, ns, encode_utf8(q), p)) ==> get_by_title_spec(b, ns, q)
        == Err::<BlobView, Fault>(Fault::NotFound { namespace: ns, url: q })
    &&& forall|p: int|
        first_title_match(t, ns, encode_utf8(q), p) ==> get_by_title_spec(b, ns, q) == blob_at_spec(
            b,
            title_order(t)[p] as u32,
            0,
        )
}

/// A title lookup in any namespace scans the title table.
#[verifier::spinoff_prover]
proof fn lemma_title_lookup_any(t: Seq<EntrySpec>, pk: Packing, enc: Seq<Seq<u8>>, b: Seq<u8>, h: HeaderView, q: Seq<char>)
    requires
        titles_readable(t, pk, enc, b, h),
    ensures
        title_lookup_holds(t, b, 0, q),
{
    let tb = encode_utf8(q);
    let n = t.len();
    assert(hdr(b).article_count == n);
    lemma_title_scan(t, pk, enc, b, h, tb, 0);
    assert forall|p: int| first_title_match(t, 0, tb, p) implies get_by_title_spec(b, 0, q) == blob_at_spec(
        b,
        title_order(t)[p] as u32,
        0,
    ) by {
        assert forall|r: int| 0 <= r < p implies title_key_at(t, r).1 != tb by {
            assert(!title_match(t, 0, tb, r));
        }
        assert(title_scan_spec(b, tb, 0) == Ok::<Option<u32>, Fault>(Some(p as u32)));
        lemma_title_entry_reads_back(t, pk, enc, b, h, p);
    }
    if forall|p: int| 0 <= p < n ==> !title_match(t, 0, tb, p) {
        assert forall|p: int| 0 <= p < n implies (#[trigger] title_key_at(t, p)).1 != tb by {
            assert(!title_match(t, 0, tb, p));
        }
    }
}

/// A title lookup in namespace `ns` searches the title table.
#[verifier::spinoff_prover]
#[verifier::rlimit(30)]
proof fn lemma_title_lookup_ns(
    t: Seq<EntrySpec>,
    pk: Packing,
    enc: Seq<Seq<u8>>,
    b: Seq<u8>,
    h: HeaderView,
    ns: u8,
    q: Seq<char>,
)
    requires
        titles_readable(t, pk, enc, b, h),
        4 * t.len() <= usize::MAX,
        ns != 0,
    ensures
        title_lookup_holds(t, b, ns, q),
{
    let tb = encode_utf8(q);
    let n = t.len();
    assert(hdr(b).article_count == n);
    if n > 0 {
        crate::layout::lemma_pointer_table_len(clusters_start(t, mime_table(t), pk), enc);
        let tps = 4 * n as int;
        assert(title_table_size_spec(b) == Ok::<int, Fault>(tps));
        lemma_lower_bound(t, pk, enc, b, h, ns, tb, 0, n as u32);
        let r = lower_bound_spec(b, ns, tb, tps, 0, n as u32)->Ok_0;
        assert(lower_bound_title_spec(b, ns, tb, tps) == Ok::<u32, Fault>(r));
        lemma_partition_match(t, ns, tb, r as int);
        if r < n {
            lemma_title_entry_reads_back(t, pk, enc, b, h, r as int);
        }
    }
}

/// Where the keys along the title order fall below `(ns, tb)` before `r`
/// and not from `r` on, the first entry with that key, if any, is at `r`.
proof fn lemma_partition_match(t: Seq<EntrySpec>, ns: u8, tb: Seq<u8>, r: int)
    requires
        titles_ordered(t),
        ns != 0,
        0 <= r <= t.len(),
        forall|p: int| 0 <= p < r ==> key_lt((#[trigger] title_key_at(t, p)).0, title_key_at(t, p).1, ns, tb),
        forall|p: int| r <= p < t.len() ==> !key_lt((#[trigger] title_key_at(t, p)).0, title_key_at(t, p).1, ns, tb),
    ensures
        r < t.len() && title_key_at(t, r) == (ns, tb) ==> first_title_match(t, ns, tb, r),
        forall|p: int| first_title_match(t, ns, tb, p) ==> p == r,
        !(r < t.len() && title_key_at(t, r) == (ns, tb)) ==> forall|p: int| 0 <= p < t.len() ==> !title_match(t, ns, tb, p),
{
    let n = t.len();
    assert forall|p: int| 0 <= p < r implies !title_match(t, ns, tb, p) by {
        crate::text::lemma_lex_irreflexive(tb);
    }
    if r < n && title_key_at(t, r) == (ns, tb) {
        assert forall|p: int| first_title_match(t, ns, tb, p) implies p == r by {
            if p > r {
                assert(!title_match(t, ns, tb, r));
            }
        }
    } else {
        assert forall|p: int| 0 <= p < n implies !title_match(t, ns, tb, p) by {
            if title_match(t, ns, tb, p) && p >= r {
                let (rn, rt) = title_key_at(t, r);
                if p > r {
                    lemma_title_keys_ordered(t, r, p);
                }
                crate::text::lemma_lex_total(rt, tb);
            }
        }
    }
}

/// Resolving entry `j` of an archive laid out from `t` gives what
/// `found_blob` says.
#[verifier::spinoff_prover]
pub(crate) proof fn lemma_resolves(
    t: Seq<EntrySpec>,
    pk: Packing,
    pv: Seq<Option<Seq<u8>>>,
    nc: bool,
    rs: Seq<Result<Seq<u8>, Fault>>,
    enc: Seq<Seq<u8>>,
    b: Seq<u8>,
    h: HeaderView,
    j: int,
)
    requires
        pk == pack(t, t.len()),
        readable_archive(t),
        laid_out(t, mime_table(t), pk, enc, b, h),
        checksum_start(t, mime_table(t), pk, enc) <= u64::MAX,
        encode_clusters(t, pv, pk, nc, rs, pk.members.len()) == Ok::<Seq<Seq<u8>>, Fault>(enc),
        answers_decode(t, pv, pk, nc, rs),
        crate::layout::first_dangling(t) is None,
        url_sorted(t),
        forall|i: int| 0 <= i < t.len() ==> valid_utf8(#[trigger] t[i].url),
        0 <= j < t.len(),
    ensures
        found_blob(t, pv, j, blob_at_spec(b, j as u32, 0)),
        blob_at_spec(b, j as u32, 0) == resolved(t, pv, j, 0),
{
    lemma_chain(t, pk, pv, nc, rs, enc, b, h, j, 0);
    let mt = mime_table(t);
    if !t[j].redirect {
        lemma_content_found(t, pk, pv, nc, rs, enc, b, h, j);
    } else {
        let k = key_index(t, target_key(t[j]));
        assert(!crate::layout::dangling(t, j));
        assert(0 <= k < t.len());
        lemma_dirent_reads_back(t, mt, pk, enc, b, h, j);
        if !t[k].redirect {
            lemma_content_found(t, pk, pv, nc, rs, enc, b, h, k);
            assert(blob_at_spec(b, j as u32, 0) == blob_at_spec(b, k as u32, 1)) by {
                reveal_with_fuel(blob_at_spec, 1);
            }
        }
    }
}

/// Looking up titles in an archive laid out from `t` gives what
/// `reads_back` says.
#[verifier::spinoff_prover]
#[verifier::rlimit(30)]
pub(crate) proof fn lemma_titles_read_back(
    t: Seq<EntrySpec>,
    pk: Packing,
    pv: Seq<Option<Seq<u8>>>,
    nc: bool,
    rs: Seq<Result<Seq<u8>, Fault>>,
    enc: Seq<Seq<u8>>,
    b: Seq<u8>,
    h: HeaderView,
)
    requires
        pk == pack(t, t.len()),
        readable_archive(t),
        laid_out(t, mime_table(t), pk, enc, b, h),
        checksum_start(t, mime_table(t), pk, enc) <= u64::MAX,
        encode_clusters(t, pv, pk, nc, rs, pk.members.len()) == Ok::<Seq<Seq<u8>>, Fault>(enc),
        answers_decode(t, pv, pk, nc, rs),
        crate::layout::first_dangling(t) is None,
        url_sorted(t),
        forall|i: int| 0 <= i < t.len() ==> valid_utf8(#[trigger] t[i].url),
        forall|i: int| 0 <= i < t.len() ==> valid_utf8(#[trigger] t[i].title),
        titles_ordered(t),
        4 * t.len() <= usize::MAX,
    ensures
        forall|ns: u8, q: Seq<char>|
            (forall|p: int| 0 <= p < t.len() ==> !title_match(t, ns, encode_utf8(q), p)) ==> #[trigger] get_by_title_spec(
                b,
                ns,
                q,
            ) == Err::<BlobView, Fault>(Fault::NotFound { namespace: ns, url: q }),
        forall|ns: u8, q: Seq<char>, p: int|
            #[trigger] first_title_match(t, ns, encode_utf8(q), p) ==> get_by_title_spec(b, ns, q) == resolved(
                t,
                pv,
                title_order(t)[p] as int,
                0,
            ),
{
    assert(titles_readable(t, pk, enc, b, h));
    assert forall|ns: u8, q: Seq<char>| title_lookup_holds(t, b, ns, q) by {
        if ns == 0 {
            lemma_title_lookup_any(t, pk, enc, b, h, q);
        } else {
            lemma_title_lookup_ns(t, pk, enc, b, h, ns, q);
        }
    }
    assert forall|ns: u8, q: Seq<char>, p: int| #[trigger] first_title_match(t, ns, encode_utf8(q), p) implies get_by_title_spec(
        b,
        ns,
        q,
    ) == resolved(t, pv, title_order(t)[p] as int, 0) by {
        assert(title_lookup_holds(t, b, ns, q));
        lemma_resolves(t, pk, pv, nc, rs, enc, b, h, title_order(t)[p] as int);
    }
    assert forall|ns: u8, q: Seq<char>|
        (forall|p: int| 0 <= p < t.len() ==> !title_match(t, ns, encode_utf8(q), p)) implies #[trigger] get_by_title_spec(
        b,
        ns,
        q,
    ) == Err::<BlobView, Fault>(Fault::NotFound { namespace: ns, url: q }) by {
        assert(title_lookup_holds(t, b, ns, q));
    }
}

/// The bytes `[offset, offset + len)` of the blob `d`, cut at its end, and
/// its length: what a range read of it gives, the offsets taken as the
/// machine's sizes.
pub open spec fn range_of(d: Seq<u8>, offset: u64, len: u64) -> (Seq<u8>, u64) {
    let off = (offset as usize) as int;
    let ln = (len as usize) as int;
    if off >= d.len() {
        (seq![], d.len() as u64)
    } else {
        (d.subrange(off, min_int(d.len() as int, off + ln)), d.len() as u64)
    }
}

/// A range read of the blob that spans `[o0, o1)` of the cluster data `cd`
/// gives `range_of` that blob.
proof fn lemma_range_in(cd: Seq<u8>, o0: int, o1: int, d: Seq<u8>, offset: u64, len: u64)
    requires
        0 <= o0 <= o1 <= cd.len(),
        o1 <= usize::MAX,
        cd.subrange(o0, o1) == d,
    ensures
        range_in(cd, o0, o1, offset, len) == range_of(d, offset, len),
{
    let off = (offset as usize) as int;
    let ln = (len as usize) as int;
    let bs = sat_add(o0, off);
    let be = min_int(o1, sat_add(bs, ln));
    if !(bs >= be || bs >= cd.len()) {
        assert(bs == o0 + off);
        assert(off < d.len());
        assert(be == o0 + min_int(d.len() as int, off + ln));
        assert(cd.subrange(bs, be) =~= d.subrange(off, min_int(d.len() as int, off + ln)));
    } else if off < d.len() {
        assert(bs == o0 + off);
        assert(ln == 0 || off + ln <= off);
        assert(d.subrange(off, min_int(d.len() as int, off + ln)) =~= Seq::<u8>::empty());
    }
}

/// What resolving entry `j` of an archive written from `t` and reading the
/// range `[offset, offset + len)` of its blob gave, `r`: `range_of` its
/// blob where it is not a redirect, and of the blob of its target where it
/// redirects to an entry that is not one.
pub open spec fn found_range(
    t: Seq<EntrySpec>,
    pv: Seq<Option<Seq<u8>>>,
    j: int,
    offset: u64,
    len: u64,
    r: Result<(Seq<u8>, u64), Fault>,
) -> bool {
    let k = key_index(t, target_key(t[j]));
    &&& !t[j].redirect ==> r == Ok::<(Seq<u8>, u64), Fault>(range_of(blob_of(t, pv, j)->0, offset, len))
    &&& t[j].redirect && !t[k].redirect ==> r == Ok::<(Seq<u8>, u64), Fault>(
        range_of(blob_of(t, pv, k)->0, offset, len),
    )
}

/// A range read of the blob of entry `i`, not a redirect, of an archive
/// laid out from `t` gives `range_of` that blob.
#[verifier::spinoff_prover]
proof fn lemma_blob_range_reads_back(
    t: Seq<EntrySpec>,
    pk: Packing,
    pv: Seq<Option<Seq<u8>>>,
    nc: bool,
    rs: Seq<Result<Seq<u8>, Fault>>,
    enc: Seq<Seq<u8>>,
    b: Seq<u8>,
    h: HeaderView,
    i: int,
    offset: u64,
    len: u64,
)
    requires
        pk == pack(t, t.len()),
        t.len() <= u32::MAX,
        laid_out(t, mime_table(t), pk, enc, b, h),
        checksum_start(t, mime_table(t), pk, enc) <= u64::MAX,
        encode_clusters(t, pv, pk, nc, rs, pk.members.len()) == Ok::<Seq<Seq<u8>>, Fault>(enc),
        answers_decode(t, pv, pk, nc, rs),
        0 <= i < t.len(),
        !t[i].redirect,
    ensures
        blob_range_spec(b, pk.loc[i].0 as u32, pk.loc[i].1 as u32, offset, len) == Ok::<(Seq<u8>, u64), Fault>(
            range_of(blob_of(t, pv, i)->0, offset, len),
        ),
{
    let mt = mime_table(t);
    lemma_packing_places(t, t.len());
    let (c, k) = pk.loc[i];
    lemma_cluster_reads_back(t, mt, pk, pv, nc, rs, enc, b, h, c);
    let mem = pk.members[c];
    assert(mem[k] == i);
    let ds = blob_datas(t, pv, mem);
    assert(blob_of(t, pv, mem[k]) is Some);
    assert(ds.len() == mem.len());
    lemma_blob_in_cluster(ds, c as u32, k);
    let raw = raw_cluster(t, pv, mem);
    let o0 = table_len(ds.len() as int) + concat(ds.take(k)).len();
    lemma_concat_embeds(ds, k);
    lemma_range_in(raw, o0, o0 + ds[k].len(), ds[k], offset, len);
}

/// Reading ranges of blobs of an archive laid out from `t` by key gives what
/// `reads_back` says.
#[verifier::spinoff_prover]
pub(crate) proof fn lemma_ranges_read_back(
    t: Seq<EntrySpec>,
    pk: Packing,
    pv: Seq<Option<Seq<u8>>>,
    nc: bool,
    rs: Seq<Result<Seq<u8>, Fault>>,
    enc: Seq<Seq<u8>>,
    b: Seq<u8>,
    h: HeaderView,
)
    requires
        pk == pack(t, t.len()),
        readable_archive(t),
        laid_out(t, mime_table(t), pk, enc, b, h),
        checksum_start(t, mime_table(t), pk, enc) <= u64::MAX,
        encode_clusters(t, pv, pk, nc, rs, pk.members.len()) == Ok::<Seq<Seq<u8>>, Fault>(enc),
        answers_decode(t, pv, pk, nc, rs),
        crate::layout::first_dangling(t) is None,
        url_sorted(t),
        forall|i: int| 0 <= i < t.len() ==> valid_utf8(#[trigger] t[i].url),
    ensures
        forall|ns: u8, q: Seq<char>, offset: u64, len: u64|
            !has_key(t, (ns, encode_utf8(q))) ==> #[trigger] get_range_spec(b, ns, q, offset, len) == Err::<
                (Seq<u8>, u64),
                Fault,
            >(Fault::NotFound { namespace: ns, url: q }),
        forall|j: int, offset: u64, len: u64|
            0 <= j < t.len() ==> found_range(
                t,
                pv,
                j,
                offset,
                len,
                #[trigger] get_range_spec(b, t[j].namespace, lossy_utf8(t[j].url), offset, len),
            ),
{
    let mt = mime_table(t);
    let n = t.len() as u32;
    assert(hdr(b).article_count == n);
    assert forall|ns: u8, q: Seq<char>, offset: u64, len: u64| !has_key(t, (ns, encode_utf8(q))) implies #[trigger] get_range_spec(
        b,
        ns,
        q,
        offset,
        len,
    ) == Err::<(Seq<u8>, u64), Fault>(Fault::NotFound { namespace: ns, url: q }) by {
        lemma_find_url(t, pk, enc, b, h, ns, encode_utf8(q), 0, n);
        assert forall|j: int| 0 <= j < n implies !((#[trigger] t[j]).namespace == ns && t[j].url == encode_utf8(q)) by {
            if t[j].namespace == ns && t[j].url == encode_utf8(q) {
                assert(crate::writer::key_of(t[j]) == (ns, encode_utf8(q)));
            }
        }
    }
    assert forall|j: int, offset: u64, len: u64| 0 <= j < t.len() implies found_range(
        t,
        pv,
        j,
        offset,
        len,
        #[trigger] get_range_spec(b, t[j].namespace, lossy_utf8(t[j].url), offset, len),
    ) by {
        crate::text::lemma_lossy_round_trip(t[j].url);
        lemma_find_url(t, pk, enc, b, h, t[j].namespace, t[j].url, 0, n);
        lemma_dirent_reads_back(t, mt, pk, enc, b, h, j);
        let k = key_index(t, target_key(t[j]));
        if !t[j].redirect {
            lemma_blob_range_reads_back(t, pk, pv, nc, rs, enc, b, h, j, offset, len);
        } else if !t[k].redirect {
            assert(!crate::layout::dangling(t, j));
            assert(0 <= k < t.len());
            lemma_dirent_reads_back(t, mt, pk, enc, b, h, k);
            lemma_blob_range_reads_back(t, pk, pv, nc, rs, enc, b, h, k, offset, len);
            assert(resolve_spec(b, j as u32, 0) == Ok::<DirentView, Fault>(expected_dirent(t, mt, pk, k))) by {
                reveal_with_fuel(resolve_spec, 2);
            }
        }
    }
}

/// What reading back every part of an archive laid out from `t` rests on.
pub open spec fn written_parts(
    t: Seq<EntrySpec>,
    pk: Packing,
    pv: Seq<Option<Seq<u8>>>,
    nc: bool,
    rs: Seq<Result<Seq<u8>, Fault>>,
    enc: Seq<Seq<u8>>,
    b: Seq<u8>,
    h: HeaderView,
) -> bool {
    &&& pk == pack(t, t.len())
    &&& readable_archive(t)
    &&& laid_out(t, mime_table(t), pk, enc, b, h)
    &&& checksum_start(t, mime_table(t), pk, enc) <= u64::MAX
    &&& encode_clusters(t, pv, pk, nc, rs, pk.members.len()) == Ok::<Seq<Seq<u8>>, Fault>(enc)
    &&& answers_decode(t, pv, pk, nc, rs)
    &&& crate::layout::first_dangling(t) is None
    &&& url_sorted(t)
    &&& forall|i: int| 0 <= i < t.len() ==> valid_utf8(#[trigger] t[i].url)
    &&& forall|i: int| 0 <= i < t.len() ==> valid_utf8(#[trigger] t[i].title)
    &&& titles_ordered(t)
    &&& 4 * t.len() <= usize::MAX
}

/// The entry at title position `p` of `t` has a title that starts with
/// `pre`, and the namespace `ns` unless `ns` is 0.
pub open spec fn prefix_match(t: Seq<EntrySpec>, ns: u8, pre: Seq<u8>, p: int) -> bool {
    &&& starts_with(title_key_at(t, p).1, pre)
    &&& (ns == 0 || title_key_at(t, p).0 == ns)
}

/// The entries at title positions `i` on that `prefix_match` holds of, in
/// title order, as they read back.
pub open spec fn prefix_entries(t: Seq<EntrySpec>, pv: Seq<Option<Seq<u8>>>, ns: u8, pre: Seq<u8>, i: int) -> Seq<
    EntryView,
>
    decreases t.len() - i,
{
    if i < 0 || i >= t.len() {
        seq![]
    } else if prefix_match(t, ns, pre, i) {
        seq![expected_entry(t, pv, title_order(t)[i] as int)] + prefix_entries(t, pv, ns, pre, i + 1)
    } else {
        prefix_entries(t, pv, ns, pre, i + 1)
    }
}

/// `b` starts with `p` exactly where their first bytes agree and the rest
/// of `b` starts with the rest of `p`.
proof fn lemma_starts_with_first(b: Seq<u8>, p: Seq<u8>)
    requires
        p.len() > 0,
    ensures
        starts_with(b, p) <==> (b.len() > 0 && b[0] == p[0] && starts_with(b.drop_first(), p.drop_first())),
{
    if b.len() > 0 && b[0] == p[0] && starts_with(b.drop_first(), p.drop_first()) {
        assert(b.subrange(0, p.len() as int) =~= seq![b[0]] + b.drop_first().subrange(0, p.len() - 1));
        assert(p =~= seq![p[0]] + p.drop_first());
    }
    if starts_with(b, p) {
        assert(b.subrange(0, p.len() as int)[0] == b[0]);
        assert(b.drop_first().subrange(0, p.len() - 1) =~= b.subrange(0, p.len() as int).drop_first());
    }
}

/// A string that starts with `p` does not sort before `p`.
proof fn lemma_starts_with_not_below(b: Seq<u8>, p: Seq<u8>)
    requires
        starts_with(b, p),
    ensures
        !lex_lt(b, p),
    decreases p.len(),
{
    if p.len() > 0 {
        lemma_starts_with_first(b, p);
        lemma_starts_with_not_below(b.drop_first(), p.drop_first());
    }
}

/// A string `a` above `p` that does not start with it is above every string
/// that does; so no string from `a` on starts with `p`.
proof fn lemma_past_prefix(p: Seq<u8>, a: Seq<u8>, c: Seq<u8>)
    requires
        lex_lt(p, a),
        !starts_with(a, p),
        a == c || lex_lt(a, c),
    ensures
        !starts_with(c, p),
    decreases p.len(),
{
    if p.len() == 0 {
        assert(a.subrange(0, 0) =~= p);
    } else if a.len() > 0 {
        lemma_starts_with_first(a, p);
        lemma_starts_with_first(c, p);
        if p[0] == a[0] && c.len() > 0 && c[0] == p[0] {
            if a != c {
                assert(lex_lt(a.drop_first(), c.drop_first()));
            }
            lemma_past_prefix(p.drop_first(), a.drop_first(), c.drop_first());
        }
    }
}

/// Positions that `prefix_match` holds of none of contribute nothing.
proof fn lemma_prefix_skip(t: Seq<EntrySpec>, pv: Seq<Option<Seq<u8>>>, ns: u8, pre: Seq<u8>, i: int, r: int)
    requires
        0 <= i <= r <= t.len(),
        forall|p: int| i <= p < r ==> !prefix_match(t, ns, pre, p),
    ensures
        prefix_entries(t, pv, ns, pre, i) == prefix_entries(t, pv, ns, pre, r),
    decreases r - i,
{
    if i < r {
        lemma_prefix_skip(t, pv, ns, pre, i + 1, r);
    }
}

/// The scan of the title table of an archive laid out from `t` for titles
/// that start with `pre`, in any namespace, gives `prefix_entries`.
#[verifier::spinoff_prover]
proof fn lemma_prefix_scan_any(
    t: Seq<EntrySpec>,
    pk: Packing,
    pv: Seq<Option<Seq<u8>>>,
    nc: bool,
    rs: Seq<Result<Seq<u8>, Fault>>,
    enc: Seq<Seq<u8>>,
    b: Seq<u8>,
    h: HeaderView,
    pre: Seq<u8>,
    i: u32,
)
    requires
        written_parts(t, pk, pv, nc, rs, enc, b, h),
        i <= t.len(),
    ensures
        prefix_scan_any_spec(b, pre, i) == Ok::<Seq<EntryView>, Fault>(prefix_entries(t, pv, 0, pre, i as int)),
    decreases t.len() - i,
{
    assert(hdr(b).article_count == t.len());
    if i < t.len() {
        assert(titles_readable(t, pk, enc, b, h));
        lemma_title_entry_reads_back(t, pk, enc, b, h, i as int);
        lemma_prefix_scan_any(t, pk, pv, nc, rs, enc, b, h, pre, (i + 1) as u32);
        lemma_entry_reads_back(t, pk, pv, nc, rs, enc, b, h, title_order(t)[i as int] as int);
    }
}

/// The scan of the title table of an archive laid out from `t` for titles
/// of namespace `ns` that start with `pre`, from a position whose key is
/// not below `(ns, pre)`, gives `prefix_entries`.
#[verifier::spinoff_prover]
#[verifier::rlimit(30)]
proof fn lemma_prefix_scan_ns(
    t: Seq<EntrySpec>,
    pk: Packing,
    pv: Seq<Option<Seq<u8>>>,
    nc: bool,
    rs: Seq<Result<Seq<u8>, Fault>>,
    enc: Seq<Seq<u8>>,
    b: Seq<u8>,
    h: HeaderView,
    ns: u8,
    pre: Seq<u8>,
    i: u32,
)
    requires
        written_parts(t, pk, pv, nc, rs, enc, b, h),
        ns != 0,
        i <= t.len(),
        forall|p: int| i <= p < t.len() ==> !key_lt((#[trigger] title_key_at(t, p)).0, title_key_at(t, p).1, ns, pre),
    ensures
        prefix_scan_spec(b, ns, pre, i) == Ok::<Seq<EntryView>, Fault>(prefix_entries(t, pv, ns, pre, i as int)),
    decreases t.len() - i,
{
    assert(hdr(b).article_count == t.len());
    if i < t.len() {
        let m = i as int;
        assert(titles_readable(t, pk, enc, b, h));
        lemma_title_entry_reads_back(t, pk, enc, b, h, m);
        let (dn, dt) = title_key_at(t, m);
        if dn != ns || !starts_with(dt, pre) {
            if dn > ns || (dn == ns && lex_lt(pre, dt)) {
                assert forall|p: int| m <= p < t.len() implies !prefix_match(t, ns, pre, p) by {
                    if p > m {
                        lemma_title_keys_ordered(t, m, p);
                        let (pn, pt) = title_key_at(t, p);
                        crate::text::lemma_lex_total(dt, pt);
                        if dn == ns && pn == ns {
                            lemma_past_prefix(pre, dt, pt);
                        }
                    }
                }
                lemma_prefix_skip(t, pv, ns, pre, m, t.len() as int);
            } else {
                lemma_prefix_scan_ns(t, pk, pv, nc, rs, enc, b, h, ns, pre, (i + 1) as u32);
            }
        } else {
            lemma_prefix_scan_ns(t, pk, pv, nc, rs, enc, b, h, ns, pre, (i + 1) as u32);
            lemma_entry_reads_back(t, pk, pv, nc, rs, enc, b, h, title_order(t)[m] as int);
        }
    }
}

/// Listing the entries whose title starts with `q` in an archive laid out
/// from `t` gives `prefix_entries`; an empty prefix lists every entry.
#[verifier::spinoff_prover]
proof fn lemma_prefix_lookup(
    t: Seq<EntrySpec>,
    pk: Packing,
    pv: Seq<Option<Seq<u8>>>,
    nc: bool,
    rs: Seq<Result<Seq<u8>, Fault>>,
    enc: Seq<Seq<u8>>,
    b: Seq<u8>,
    h: HeaderView,
    ns: u8,
    q: Seq<char>,
)
    requires
        written_parts(t, pk, pv, nc, rs, enc, b, h),
    ensures
        entries_by_title_prefix_spec(b, ns, q) == Ok::<Seq<EntryView>, Fault>(
            prefix_entries(t, pv, ns, encode_utf8(q), 0),
        ),
{
    let pre = encode_utf8(q);
    let n = t.len();
    assert(hdr(b).article_count == n);
    if n > 0 {
        crate::layout::lemma_pointer_table_len(clusters_start(t, mime_table(t), pk), enc);
        let tps = 4 * n as int;
        assert(title_table_size_spec(b) == Ok::<int, Fault>(tps));
        if ns == 0 {
            lemma_prefix_scan_any(t, pk, pv, nc, rs, enc, b, h, pre, 0);
        } else {
            assert(titles_readable(t, pk, enc, b, h));
            lemma_lower_bound(t, pk, enc, b, h, ns, pre, 0, n as u32);
            let r = lower_bound_spec(b, ns, pre, tps, 0, n as u32)->Ok_0;
            assert(lower_bound_title_spec(b, ns, pre, tps) == Ok::<u32, Fault>(r));
            assert forall|p: int| 0 <= p < r implies !prefix_match(t, ns, pre, p) by {
                let (pn, pt) = title_key_at(t, p);
                if starts_with(pt, pre) {
                    lemma_starts_with_not_below(pt, pre);
                }
            }
            lemma_prefix_skip(t, pv, ns, pre, 0, r as int);
            lemma_prefix_scan_ns(t, pk, pv, nc, rs, enc, b, h, ns, pre, r);
        }
    }
}

/// Listing entries by title prefix in an archive laid out from `t` gives
/// what `reads_back` says.
pub(crate) proof fn lemma_prefixes_read_back(
    t: Seq<EntrySpec>,
    pk: Packing,
    pv: Seq<Option<Seq<u8>>>,
    nc: bool,
    rs: Seq<Result<Seq<u8>, Fault>>,
    enc: Seq<Seq<u8>>,
    b: Seq<u8>,
    h: HeaderView,
)
    requires
        written_parts(t, pk, pv, nc, rs, enc, b, h),
    ensures
        forall|ns: u8, q: Seq<char>|
            #[trigger] entries_by_title_prefix_spec(b, ns, q) == Ok::<Seq<EntryView>, Fault>(
                prefix_entries(t, pv, ns, encode_utf8(q), 0),
            ),
{
    assert forall|ns: u8, q: Seq<char>|
        #[trigger] entries_by_title_prefix_spec(b, ns, q) == Ok::<Seq<EntryView>, Fault>(
            prefix_entries(t, pv, ns, encode_utf8(q), 0),
        ) by {
        lemma_prefix_lookup(t, pk, pv, nc, rs, enc, b, h, ns, q);
    }
}

/// An archive laid out from `t` reads back as `reads_back` and
/// `main_reads_back` say.
#[verifier::spinoff_prover]
#[verifier::rlimit(30)]
pub(crate) proof fn lemma_archive_reads_back(
    t: Seq<EntrySpec>,
    pk: Packing,
    pv: Seq<Option<Seq<u8>>>,
    nc: bool,
    rs: Seq<Result<Seq<u8>, Fault>>,
    enc: Seq<Seq<u8>>,
    b: Seq<u8>,
    h: HeaderView,
    main: Option<(u8, Seq<u8>)>,
)
    requires
        readable_archive(t) ==> written_parts(t, pk, pv, nc, rs, enc, b, h),
        hdr(b).main_page == crate::layout::main_index(t, main),
    ensures
        reads_back(t, pv, b),
        main_reads_back(t, pv, main, b),
{
    if readable_archive(t) {
        assert forall|i: int| 0 <= i < t.len() implies entry_at_spec(b, i as u32) == Ok::<EntryView, Fault>(
            #[trigger] expected_entry(t, pv, i),
        ) by {
            lemma_entry_reads_back(t, pk, pv, nc, rs, enc, b, h, i);
        }
        lemma_get_reads_back(t, pk, pv, nc, rs, enc, b, h);
        lemma_titles_read_back(t, pk, pv, nc, rs, enc, b, h);
        lemma_ranges_read_back(t, pk, pv, nc, rs, enc, b, h);
        lemma_prefixes_read_back(t, pk, pv, nc, rs, enc, b, h);
        lemma_get_chain(t, pk, pv, nc, rs, enc, b, h);
        assert(titles_readable(t, pk, enc, b, h));
        lemma_tables_ordered(t, pk, enc, b, h);
        if let Some(k) = main {
            if has_key(t, k) {
                lemma_resolves(t, pk, pv, nc, rs, enc, b, h, key_index(t, k));
            }
        }
    }
}

/// What looking up the entry `x`, given with its data, finds: its key,
/// title and MIME type as text, and its data.
pub open spec fn stored_blob(x: EntrySpec) -> BlobView {
    BlobView {
        namespace: x.namespace,
        url: lossy_utf8(x.url),
        title: lossy_utf8(x.title),
        mime_type: lossy_utf8(x.mime),
        data: x.data,
    }
}

/// In the archive `b` written from the entries `s`, each entry that the
/// caller gave with its data, not as a redirect and under a key that the
/// writer does not generate, is found by its key with its title, MIME type
/// and data.
pub open spec fn added_found(s: Seq<EntrySpec>, b: Seq<u8>) -> bool {
    readable_archive(archive_entries(s)) ==> forall|x: EntrySpec|
        #[trigger] s.contains(x) && !crate::layout::is_generated_key(crate::writer::key_of(x)) && !x.redirect
            && !crate::layout::lacks_data(x) ==> get_spec(b, x.namespace, lossy_utf8(x.url)) == Ok::<
            BlobView,
            Fault,
        >(stored_blob(x))
}

/// An archive that reads back, written from entries that it holds,
/// finds each entry given with its data by its key.
pub proof fn lemma_added_found(s: Seq<EntrySpec>, pv: Seq<Option<Seq<u8>>>, b: Seq<u8>)
    requires
        reads_back(archive_entries(s), pv, b),
        forall|x: EntrySpec|
            s.contains(x) && !crate::layout::is_generated_key(crate::writer::key_of(x)) ==> #[trigger] archive_entries(
                s,
            ).contains(x),
    ensures
        added_found(s, b),
{
    let t = archive_entries(s);
    if readable_archive(t) {
        assert forall|x: EntrySpec|
            #[trigger] s.contains(x) && !crate::layout::is_generated_key(crate::writer::key_of(x)) && !x.redirect
                && !crate::layout::lacks_data(x) implies get_spec(b, x.namespace, lossy_utf8(x.url)) == Ok::<
            BlobView,
            Fault,
        >(stored_blob(x)) by {
            assert(t.contains(x));
            let j = choose|j: int| 0 <= j < t.len() && t[j] == x;
            assert(get_spec(b, t[j].namespace, lossy_utf8(t[j].url)) == Ok::<BlobView, Fault>(expected_blob(t, pv, j)));
        }
    }
}

/// Where following redirects from entry `j` of `t`, `hop` of them already
/// followed, ends: the first entry that is not a redirect, or `None` where
/// that takes more hops than the reader follows.
pub open spec fn chain_end(t: Seq<EntrySpec>, j: int, hop: int) -> Option<int>
    decreases 17 - hop,
{
    if hop > MAX_REDIRECT_HOPS {
        None
    } else if 0 <= j < t.len() && t[j].redirect {
        chain_end(t, key_index(t, target_key(t[j])), hop + 1)
    } else {
        Some(j)
    }
}

/// What resolving entry `j` of an archive written from `t` gives: the blob
/// its chain of redirects ends at, or a redirect loop where the chain is
/// longer than the reader follows.
pub open spec fn resolved(t: Seq<EntrySpec>, pv: Seq<Option<Seq<u8>>>, j: int, hop: int) -> Result<BlobView, Fault> {
    match chain_end(t, j, hop) {
        Some(e) => Ok(expected_blob(t, pv, e)),
        None => Err(Fault::RedirectLoop),
    }
}

/// Resolving entry `j` of an archive laid out from `t`, `hop` redirects
/// already followed, gives `resolved`.
#[verifier::spinoff_prover]
pub(crate) proof fn lemma_chain(
    t: Seq<EntrySpec>,
    pk: Packing,
    pv: Seq<Option<Seq<u8>>>,
    nc: bool,
    rs: Seq<Result<Seq<u8>, Fault>>,
    enc: Seq<Seq<u8>>,
    b: Seq<u8>,
    h: HeaderView,
    j: int,
    hop: u8,
)
    requires
        pk == pack(t, t.len()),
        readable_archive(t),
        laid_out(t, mime_table(t), pk, enc, b, h),
        checksum_start(t, mime_table(t), pk, enc) <= u64::MAX,
        encode_clusters(t, pv, pk, nc, rs, pk.members.len()) == Ok::<Seq<Seq<u8>>, Fault>(enc),
        answers_decode(t, pv, pk, nc, rs),
        crate::layout::first_dangling(t) is None,
        0 <= j < t.len(),
        hop <= MAX_REDIRECT_HOPS + 1,
    ensures
        blob_at_spec(b, j as u32, hop) == resolved(t, pv, j, hop as int),
    decreases MAX_REDIRECT_HOPS + 1 - hop,
{
    let mt = mime_table(t);
    reveal_with_fuel(blob_at_spec, 1);
    if hop <= MAX_REDIRECT_HOPS {
        lemma_dirent_reads_back(t, mt, pk, enc, b, h, j);
        if t[j].redirect {
            let k = key_index(t, target_key(t[j]));
            assert(!crate::layout::dangling(t, j));
            assert(0 <= k < t.len());
            lemma_chain(t, pk, pv, nc, rs, enc, b, h, k, (hop + 1) as u8);
        } else {
            lemma_blob_reads_back(t, mt, pk, pv, nc, rs, enc, b, h, j);
            lemma_mime_reads_back(t, pk, enc, b, h, j);
        }
    }
}

/// A chain of redirects that ends within `h + 1` hops ends at the same
/// entry within `h`.
proof fn lemma_chain_shift(t: Seq<EntrySpec>, j: int, h: int)
    requires
        0 <= h,
        chain_end(t, j, h + 1) is Some,
    ensures
        chain_end(t, j, h) == chain_end(t, j, h + 1),
    decreases 17 - h,
{
    if h + 1 <= MAX_REDIRECT_HOPS && 0 <= j < t.len() && t[j].redirect {
        lemma_chain_shift(t, key_index(t, target_key(t[j])), h + 1);
    }
}

/// The key of entry `j` of `t`, as a reader is asked for it.
pub open spec fn key_text(t: Seq<EntrySpec>, j: int) -> (u8, Seq<char>) {
    (t[j].namespace, lossy_utf8(t[j].url))
}

/// Looking up entries of an archive laid out from `t` by key follows their
/// chains of redirects, and a redirect whose chain ends finds what its
/// target does.
#[verifier::spinoff_prover]
pub(crate) proof fn lemma_get_chain(
    t: Seq<EntrySpec>,
    pk: Packing,
    pv: Seq<Option<Seq<u8>>>,
    nc: bool,
    rs: Seq<Result<Seq<u8>, Fault>>,
    enc: Seq<Seq<u8>>,
    b: Seq<u8>,
    h: HeaderView,
)
    requires
        pk == pack(t, t.len()),
        readable_archive(t),
        laid_out(t, mime_table(t), pk, enc, b, h),
        checksum_start(t, mime_table(t), pk, enc) <= u64::MAX,
        encode_clusters(t, pv, pk, nc, rs, pk.members.len()) == Ok::<Seq<Seq<u8>>, Fault>(enc),
        answers_decode(t, pv, pk, nc, rs),
        crate::layout::first_dangling(t) is None,
        url_sorted(t),
        forall|i: int| 0 <= i < t.len() ==> valid_utf8(#[trigger] t[i].url),
    ensures
        forall|j: int|
            0 <= j < t.len() ==> #[trigger] get_spec(b, key_text(t, j).0, key_text(t, j).1) == resolved(t, pv, j, 0),
        forall|j: int|
            0 <= j < t.len() && t[j].redirect && chain_end(t, j, 0) is Some ==> #[trigger] get_spec(
                b,
                key_text(t, j).0,
                key_text(t, j).1,
            ) == get_spec(
                b,
                key_text(t, key_index(t, target_key(t[j]))).0,
                key_text(t, key_index(t, target_key(t[j]))).1,
            ),
{
    let n = t.len() as u32;
    assert(hdr(b).article_count == n);
    assert forall|j: int| 0 <= j < t.len() implies #[trigger] get_spec(b, key_text(t, j).0, key_text(t, j).1)
        == resolved(t, pv, j, 0) by {
        crate::text::lemma_lossy_round_trip(t[j].url);
        lemma_find_url(t, pk, enc, b, h, t[j].namespace, t[j].url, 0, n);
        lemma_chain(t, pk, pv, nc, rs, enc, b, h, j, 0);
    }
    assert forall|j: int|
        0 <= j < t.len() && t[j].redirect && chain_end(t, j, 0) is Some implies #[trigger] get_spec(
        b,
        key_text(t, j).0,
        key_text(t, j).1,
    ) == get_spec(
        b,
        key_text(t, key_index(t, target_key(t[j]))).0,
        key_text(t, key_index(t, target_key(t[j]))).1,
    ) by {
        let k = key_index(t, target_key(t[j]));
        assert(!crate::layout::dangling(t, j));
        assert(0 <= k < t.len());
        assert(chain_end(t, j, 0) == chain_end(t, k, 1));
        lemma_chain_shift(t, k, 0);
        assert(get_spec(b, key_text(t, k).0, key_text(t, k).1) == resolved(t, pv, k, 0));
    }
}

/// The directory entries at URL positions `i` and `j` of the archive `b`
/// read back, the first with the lower key.
pub open spec fn dirents_in_order(b: Seq<u8>, i: int, j: int) -> bool {
    &&& dirent_at_index_spec(b, i as u32) matches Ok(di)
    &&& dirent_at_index_spec(b, j as u32) matches Ok(dj)
    &&& key_lt(di.namespace, encode_utf8(di.url), dj.namespace, encode_utf8(dj.url))
}

/// The URL table of an archive laid out from `t` lists its directory
/// entries in strictly increasing key order, and its title table lists
/// their positions in title order.
#[verifier::spinoff_prover]
pub(crate) proof fn lemma_tables_ordered(t: Seq<EntrySpec>, pk: Packing, enc: Seq<Seq<u8>>, b: Seq<u8>, h: HeaderView)
    requires
        titles_readable(t, pk, enc, b, h),
        url_sorted(t),
        forall|i: int| 0 <= i < t.len() ==> valid_utf8(#[trigger] t[i].url),
    ensures
        forall|i: int, j: int| 0 <= i < j < t.len() ==> #[trigger] dirents_in_order(b, i, j),
        forall|k: int| 0 <= k < t.len() ==> #[trigger] title_index_spec(b, k as u32) == Ok::<u32, Fault>(
            title_order(t)[k] as u32,
        ),
{
    let mt = mime_table(t);
    assert forall|i: int, j: int| 0 <= i < j < t.len() implies #[trigger] dirents_in_order(b, i, j) by {
        lemma_dirent_reads_back(t, mt, pk, enc, b, h, i);
        lemma_dirent_reads_back(t, mt, pk, enc, b, h, j);
        crate::text::lemma_lossy_round_trip(t[i].url);
        crate::text::lemma_lossy_round_trip(t[j].url);
        assert(entry_lt(t[i], t[j]));
    }
    assert forall|k: int| 0 <= k < t.len() implies #[trigger] title_index_spec(b, k as u32) == Ok::<u32, Fault>(
        title_order(t)[k] as u32,
    ) by {
        lemma_title_entry_reads_back(t, pk, enc, b, h, k);
    }
}

/// In an archive that reads back, looking a key up reports it not found
/// exactly where no entry has that key.
pub proof fn lemma_not_found_iff(t: Seq<EntrySpec>, pv: Seq<Option<Seq<u8>>>, b: Seq<u8>, ns: u8, q: Seq<char>)
    requires
        reads_back(t, pv, b),
        readable_archive(t),
        forall|i: int| 0 <= i < t.len() ==> valid_utf8(#[trigger] t[i].url),
    ensures
        (get_spec(b, ns, q) is Err && get_spec(b, ns, q)->Err_0 is NotFound) <==> !has_key(t, (ns, encode_utf8(q))),
{
    if has_key(t, (ns, encode_utf8(q))) {
        let j = choose|j: int| 0 <= j < t.len() && crate::writer::key_of(t[j]) == (ns, encode_utf8(q));
        reveal(lossy_utf8);
        vstd::utf8::encode_utf8_decode_utf8(q);
        assert(lossy_utf8(t[j].url) == q);
        assert(get_spec(b, key_text(t, j).0, key_text(t, j).1) == resolved(t, pv, j, 0));
    }
}

/// In an archive that reads back, the entry at position `i` that is not a
/// redirect carries the data and MIME type that looking up its key finds;
/// a redirect carries no data, no MIME type, and its direct target.
pub proof fn lemma_entry_matches_get(t: Seq<EntrySpec>, pv: Seq<Option<Seq<u8>>>, b: Seq<u8>, i: int)
    requires
        reads_back(t, pv, b),
        readable_archive(t),
        0 <= i < t.len(),
    ensures
        entry_at_spec(b, i as u32) matches Ok(e) && (if t[i].redirect {
            &&& e.redirect
            &&& e.data.len() == 0
            &&& e.mime_type.len() == 0
            &&& e.redirect_namespace == t[key_index(t, target_key(t[i]))].namespace
            &&& e.redirect_url == lossy_utf8(t[key_index(t, target_key(t[i]))].url)
        } else {
            &&& !e.redirect
            &&& get_spec(b, key_text(t, i).0, key_text(t, i).1) matches Ok(g)
            &&& e.data == g.data
            &&& e.mime_type == g.mime_type
        }),
{
    assert(entry_at_spec(b, i as u32) == Ok::<EntryView, Fault>(expected_entry(t, pv, i)));
    assert(get_spec(b, key_text(t, i).0, key_text(t, i).1) == resolved(t, pv, i, 0));
}

/// In an archive that reads back, with `main` the main page it was written
/// with: where that names an entry's key, the main page is what looking
/// that key up finds; otherwise there is no main page.
pub proof fn lemma_main_page_is_get(t: Seq<EntrySpec>, pv: Seq<Option<Seq<u8>>>, main: Option<(u8, Seq<u8>)>, b: Seq<u8>)
    requires
        reads_back(t, pv, b),
        main_reads_back(t, pv, main, b),
        readable_archive(t),
    ensures
        match main {
            Some(k) => if has_key(t, k) {
                main_page_spec(b) == get_spec(b, k.0, lossy_utf8(k.1))
            } else {
                main_page_spec(b) == Err::<BlobView, Fault>(Fault::NoMainPage)
            },
            None => main_page_spec(b) == Err::<BlobView, Fault>(Fault::NoMainPage),
        },
{
    if let Some(k) = main {
        if has_key(t, k) {
            let j = key_index(t, k);
            assert(get_spec(b, key_text(t, j).0, key_text(t, j).1) == resolved(t, pv, j, 0));
        }
    }
}

/// The entries at title positions `k` and on, up to `n`, of the archive
/// `b`: each as `entry_at` reads it, where its title starts with `pre` and
/// its namespace is `ns` unless `ns` is 0, in title order.
pub open spec fn title_filter(b: Seq<u8>, n: int, ns: u8, pre: Seq<u8>, k: int) -> Seq<EntryView>
    decreases n - k,
{
    if k < 0 || k >= n {
        seq![]
    } else {
        let e = entry_at_spec(b, title_index_spec(b, k as u32)->Ok_0)->Ok_0;
        if starts_with(encode_utf8(e.title), pre) && (ns == 0 || e.namespace == ns) {
            seq![e] + title_filter(b, n, ns, pre, k + 1)
        } else {
            title_filter(b, n, ns, pre, k + 1)
        }
    }
}

proof fn lemma_prefix_entries_filter(t: Seq<EntrySpec>, pv: Seq<Option<Seq<u8>>>, b: Seq<u8>, ns: u8, pre: Seq<u8>, k: int)
    requires
        reads_back(t, pv, b),
        readable_archive(t),
        0 <= k <= t.len(),
    ensures
        prefix_entries(t, pv, ns, pre, k) == title_filter(b, t.len() as int, ns, pre, k),
    decreases t.len() - k,
{
    if k < t.len() {
        lemma_prefix_entries_filter(t, pv, b, ns, pre, k + 1);
        assert(title_index_spec(b, k as u32) == Ok::<u32, Fault>(title_order(t)[k] as u32));
        let i = title_order(t)[k] as int;
        assert(entry_at_spec(b, i as u32) == Ok::<EntryView, Fault>(expected_entry(t, pv, i)));
        crate::text::lemma_lossy_round_trip(t[i].title);
    }
}

/// In an archive that reads back, listing the entries whose titles start
/// with `q`, in namespace `ns` or, for 0, in every namespace, gives the
/// entries as `entry_at` reads them, in title order, kept where they match.
pub proof fn lemma_prefix_lists_title_filter(t: Seq<EntrySpec>, pv: Seq<Option<Seq<u8>>>, b: Seq<u8>, ns: u8, q: Seq<char>)
    requires
        reads_back(t, pv, b),
        readable_archive(t),
    ensures
        entries_by_title_prefix_spec(b, ns, q) == Ok::<Seq<EntryView>, Fault>(
            title_filter(b, t.len() as int, ns, encode_utf8(q), 0),
        ),
{
    lemma_prefix_entries_filter(t, pv, b, ns, encode_utf8(q), 0);
}

/// Following the redirects from URL index `idx`, after `hop` of them, finds
/// the same entry for a range read as for a full read: where the full read
/// finds a blob, the entry it ends at holds those bytes; where it fails,
/// the range read fails the same way on its way or at that entry's blob.
proof fn lemma_resolve_as_blob_at(s: Seq<u8>, idx: u32, hop: u8)
    requires
        hop <= MAX_REDIRECT_HOPS,
    ensures
        blob_at_spec(s, idx, hop) matches Ok(g) ==> resolve_spec(s, idx, hop) matches Ok(d) && blob_data_spec(
            s,
            d.cluster,
            d.blob,
        ) == Ok::<Seq<u8>, Fault>(g.data),
        blob_at_spec(s, idx, hop) matches Err(e) ==> (resolve_spec(s, idx, hop) == Err::<DirentView, Fault>(e)) || (
        resolve_spec(s, idx, hop) matches Ok(d) && blob_data_spec(s, d.cluster, d.blob) == Err::<Seq<u8>, Fault>(e)),
    decreases MAX_REDIRECT_HOPS - hop,
{
    reveal(blob_at_spec);
    if let Ok(d) = dirent_at_index_spec(s, idx) {
        if d.redirect {
            if hop < MAX_REDIRECT_HOPS {
                lemma_resolve_as_blob_at(s, d.target_index, (hop + 1) as u8);
            } else {
                assert(blob_at_spec(s, d.target_index, (hop + 1) as u8) == Err::<BlobView, Fault>(Fault::RedirectLoop));
            }
        }
    }
}

/// In any archive, reading a range of what a key finds gives, where the
/// full read finds a blob, the part of it from `offset`, at most `len`
/// bytes long and clamped to its end, with the blob's length; where the
/// full read fails, the range read fails with the same error. This holds
/// of compressed and uncompressed clusters alike.
pub proof fn lemma_range_is_slice_of_get(s: Seq<u8>, ns: u8, url: Seq<char>, offset: u64, len: u64)
    ensures
        get_range_spec(s, ns, url, offset, len) == match get_spec(s, ns, url) {
            Ok(g) => Ok::<(Seq<u8>, u64), Fault>(range_of(g.data, offset, len)),
            Err(e) => Err(e),
        },
{
    if let Ok(Some(i)) = find_url_spec(s, ns, encode_utf8(url), 0, hdr(s).article_count) {
        lemma_resolve_as_blob_at(s, i, 0);
        if let Ok(d) = resolve_spec(s, i, 0) {
            if let Ok(cl) = cluster_spec(s, d.cluster) {
                if let Ok((o0, o1)) = blob_bounds_spec(cl, d.cluster, d.blob) {
                    lemma_range_in(cl.data, o0, o1, cl.data.subrange(o0, o1), offset, len);
                }
            }
        }
    }
}

} // verus!
