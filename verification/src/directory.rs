//! Building an archive from a directory: the URL and MIME type of each
//! file, the main page, and the writer that holds them.

use crate::args::arg_bytes;
use crate::format::{NAMESPACE_CONTENT, NAMESPACE_WELL_KNOWN};
use crate::serve::{after_last, ascii_lower, ext_mime, has_byte, last_of, lower_mime};
use crate::text::{compare_bytes, lex_lt, lossy_string, lossy_utf8, push_bytes, KeyOrder};
use crate::writer::{content_entry, redirect_entry, EntrySpec, Writer};
use crate::serve::tail_after;
use crate::codec::{bytes_eq, ends_with, starts_with, DEFAULT_LEVEL};
use crate::reader::Entry;
use vstd::prelude::*;
use vstd::utf8::encode_utf8;

verus! {

/// The extension of the file name `name`, as `Path::extension` finds it:
/// what follows its last dot, unless it has none, the dot is its first
/// byte, or the name is `..`.
pub open spec fn path_extension(name: Seq<u8>) -> Option<Seq<u8>> {
    if name == seq![46u8, 46] || !has_byte(name, 46u8) || last_of(name, 46u8) == 0 {
        None
    } else {
        Some(after_last(name, 46u8))
    }
}

/// The MIME type stored for a file named `name`, by its extension, without
/// regard to ASCII case.
pub open spec fn path_mime(name: Seq<u8>) -> Seq<char> {
    match path_extension(name) {
        Some(e) => ext_mime(ascii_lower(e)),
        None => ext_mime(Seq::empty()),
    }
}

/// The MIME type stored for a file named `file_name`, by its extension.
pub fn mime_for_path(file_name: &str) -> (r: &'static str)
    ensures
        r@ == path_mime(encode_utf8(file_name@)),
{
    mime_for_name(file_name.as_bytes())
}

/// The MIME type stored for a file whose name has the bytes `b`.
fn mime_for_name(b: &[u8]) -> (r: &'static str)
    ensures
        r@ == path_mime(b@),
{
    let mut i: usize = b.len();
    while i > 0 && b[i - 1] != 46
        invariant
            0 <= i <= b@.len(),
            forall|j: int| i <= j < b@.len() ==> b@[j] != 46,
        decreases i,
    {
        i = i - 1;
    }
    let dotdot: [u8; 2] = [46, 46];
    assert(dotdot@ =~= seq![46u8, 46]);
    if bytes_eq(b, dotdot.as_slice()) || i <= 1 {
        proof {
            if i == 1 {
                assert(crate::serve::is_last_of(b@, 46u8, 0));
                crate::serve::lemma_last_of(b@, 46u8, 0);
            } else if i == 0 && has_byte(b@, 46u8) {
                let k = choose|k: int| 0 <= k < b@.len() && b@[k] == 46u8;
                assert(b@[k] != 46);
            }
        }
        let empty: [u8; 0] = [];
        assert(ascii_lower(empty@) =~= Seq::<u8>::empty());
        return lower_mime(empty.as_slice());
    }
    proof {
        assert(crate::serve::is_last_of(b@, 46u8, i - 1));
        crate::serve::lemma_last_of(b@, 46u8, i - 1);
    }
    let n = b.len();
    let ext = vstd::slice::slice_subrange(b, i, n);
    assert(ext@ =~= b@.skip(i as int));
    lower_mime(ext)
}


/// The components `parts` joined by `/`.
pub open spec fn joined(parts: Seq<Seq<u8>>) -> Seq<u8>
    decreases parts.len(),
{
    if parts.len() == 0 {
        Seq::empty()
    } else if parts.len() == 1 {
        parts[0]
    } else {
        joined(parts.drop_last()) + seq![47u8] + parts.last()
    }
}

/// The URL of a file: the components of its path below the root, joined by `/`.
pub fn path_to_url(parts: &[String]) -> (r: String)
    ensures
        r@ == lossy_utf8(joined(arg_bytes(parts@))),
{
    let ghost a = arg_bytes(parts@);
    let mut b: Vec<u8> = Vec::new();
    let mut i: usize = 0;
    while i < parts.len()
        invariant
            0 <= i <= parts@.len(),
            a == arg_bytes(parts@),
            b@ == joined(a.take(i as int)),
        decreases parts@.len() - i,
    {
        if i > 0 {
            b.push(47u8);
        }
        push_bytes(&mut b, parts[i].as_str().as_bytes());
        assert(a.take(i + 1).drop_last() =~= a.take(i as int));
        assert(a[i as int] == encode_utf8(parts@[i as int]@));
        i = i + 1;
    }
    assert(a.take(a.len() as int) =~= a);
    lossy_string(b.as_slice())
}

/// The bytes of `.zim`.
pub open spec fn zim_suffix() -> Seq<u8> {
    seq![46u8, 122, 105, 109]
}

/// The name of the archive built from a directory named `name`: `name.zim`.
pub fn output_file_name(name: &str) -> (r: String)
    ensures
        r@ == lossy_utf8(encode_utf8(name@) + zim_suffix()),
{
    let mut b: Vec<u8> = Vec::new();
    push_bytes(&mut b, name.as_bytes());
    let suffix: [u8; 4] = [46, 122, 105, 109];
    assert(suffix@ =~= zim_suffix());
    push_bytes(&mut b, suffix.as_slice());
    lossy_string(b.as_slice())
}

/// `x` is the least of the strings of `us` that `p` holds of.
pub open spec fn is_least(us: Seq<Seq<u8>>, p: spec_fn(Seq<u8>) -> bool, x: Seq<u8>) -> bool {
    &&& exists|i: int| 0 <= i < us.len() && us[i] == x
    &&& p(x)
    &&& forall|j: int| 0 <= j < us.len() && p(us[j]) ==> !lex_lt(us[j], x)
}

/// The least of the strings of `us` that `p` holds of.
pub open spec fn least(us: Seq<Seq<u8>>, p: spec_fn(Seq<u8>) -> bool) -> Seq<u8> {
    choose|x: Seq<u8>| is_least(us, p, x)
}

proof fn lemma_least(us: Seq<Seq<u8>>, p: spec_fn(Seq<u8>) -> bool, x: Seq<u8>)
    requires
        is_least(us, p, x),
    ensures
        least(us, p) == x,
{
    let y = least(us, p);
    assert(is_least(us, p, y));
    let i = choose|i: int| 0 <= i < us.len() && us[i] == x;
    let j = choose|j: int| 0 <= j < us.len() && us[j] == y;
    crate::text::lemma_lex_total(x, y);
}

/// The bytes of `index.html`.
pub open spec fn index_html() -> Seq<u8> {
    seq![105u8, 110, 100, 101, 120, 46, 104, 116, 109, 108]
}

/// The bytes of `/index.html`.
pub open spec fn slash_index_html() -> Seq<u8> {
    seq![47u8, 105, 110, 100, 101, 120, 46, 104, 116, 109, 108]
}

/// The main page chosen among the URLs `us`: `index.html` where there is
/// one, else the first in order of those that end in `/index.html`, else
/// the first in order.
pub open spec fn main_url_spec(us: Seq<Seq<u8>>) -> Seq<u8> {
    if us.contains(index_html()) {
        index_html()
    } else if exists|i: int| 0 <= i < us.len() && ends_with(us[i], slash_index_html()) {
        least(us, |u: Seq<u8>| ends_with(u, slash_index_html()))
    } else {
        least(us, |u: Seq<u8>| true)
    }
}

/// The position among `urls` of the main page.
pub fn main_url_index(urls: &[String]) -> (r: usize)
    requires
        urls@.len() > 0,
    ensures
        r < urls@.len(),
        encode_utf8(urls@[r as int]@) == main_url_spec(arg_bytes(urls@)),
{
    let ghost us = arg_bytes(urls@);
    let ghost ps = |u: Seq<u8>| ends_with(u, slash_index_html());
    let ghost pt = |u: Seq<u8>| true;
    let idx: [u8; 10] = [105, 110, 100, 101, 120, 46, 104, 116, 109, 108];
    let sidx: [u8; 11] = [47, 105, 110, 100, 101, 120, 46, 104, 116, 109, 108];
    assert(idx@ =~= index_html());
    assert(sidx@ =~= slash_index_html());
    let mut exact: Option<usize> = None;
    let mut suffix: Option<usize> = None;
    let mut any: usize = 0;
    let mut i: usize = 0;
    while i < urls.len()
        invariant
            0 <= i <= urls@.len(),
            urls@.len() > 0,
            us == arg_bytes(urls@),
            idx@ == index_html(),
            sidx@ == slash_index_html(),
            any < urls@.len(),
            i == 0 ==> any == 0,
            i > 0 ==> any < i && forall|j: int| 0 <= j < i ==> !lex_lt(us[j], us[any as int]),
            match exact {
                Some(e) => e < urls@.len() && us[e as int] == index_html(),
                None => forall|j: int| 0 <= j < i ==> us[j] != index_html(),
            },
            match suffix {
                Some(k) => k < i && ends_with(us[k as int], slash_index_html()) && forall|j: int|
                    0 <= j < i && ends_with(us[j], slash_index_html()) ==> !lex_lt(us[j], us[k as int]),
                None => forall|j: int| 0 <= j < i ==> !ends_with(us[j], slash_index_html()),
            },
        decreases urls@.len() - i,
    {
        let u = urls[i].as_str().as_bytes();
        assert(u@ == us[i as int]);
        if exact.is_none() && bytes_eq(u, idx.as_slice()) {
            exact = Some(i);
        }
        if crate::codec::has_suffix(u, sidx.as_slice()) {
            match suffix {
                Some(k) => {
                    assert(us[k as int] == encode_utf8(urls@[k as int]@));
                    if matches!(compare_bytes(u, urls[k].as_str().as_bytes()), KeyOrder::Less) {
                        suffix = Some(i);
                        proof {
                            assert forall|j: int| 0 <= j < i + 1 && ends_with(us[j], slash_index_html()) implies !lex_lt(us[j], us[i as int]) by {
                                if j < i {
                                    if lex_lt(us[j], us[i as int]) {
                                        crate::text::lemma_lex_transitive(us[j], us[i as int], us[k as int]);
                                    }
                                } else {
                                    crate::text::lemma_lex_irreflexive(us[i as int]);
                                }
                            }
                        }
                    } else {
                        proof {
                            assert(!lex_lt(us[i as int], us[k as int]));
                        }
                    }
                },
                None => {
                    suffix = Some(i);
                    proof {
                        crate::text::lemma_lex_irreflexive(us[i as int]);
                    }
                },
            }
        }
        if i > 0 {
            assert(us[any as int] == encode_utf8(urls@[any as int]@));
            if matches!(compare_bytes(u, urls[any].as_str().as_bytes()), KeyOrder::Less) {
                let ghost old_any = any;
                any = i;
                proof {
                    assert forall|j: int| 0 <= j < i + 1 implies !lex_lt(us[j], us[i as int]) by {
                        if j < i {
                            if lex_lt(us[j], us[i as int]) {
                                crate::text::lemma_lex_transitive(us[j], us[i as int], us[old_any as int]);
                            }
                        } else {
                            crate::text::lemma_lex_irreflexive(us[i as int]);
                        }
                    }
                }
            }
        } else {
            proof {
                crate::text::lemma_lex_irreflexive(us[0]);
            }
        }
        i = i + 1;
    }
    match exact {
        Some(e) => {
            assert(us.contains(index_html())) by {
                assert(us[e as int] == index_html());
            }
            e
        },
        None => {
            assert(!us.contains(index_html()));
            match suffix {
                Some(k) => {
                    proof {
                        assert(is_least(us, ps, us[k as int]));
                        lemma_least(us, ps, us[k as int]);
                    }
                    k
                },
                None => {
                    proof {
                        assert(is_least(us, pt, us[any as int]));
                        lemma_least(us, pt, us[any as int]);
                    }
                    any
                },
            }
        },
    }
}


/// The entries for the first `n` files, named by `urls` and of sizes
/// `sizes`: each a content entry in namespace `C` under its URL, titled by
/// it, typed by its file name, its size declared and its data given later.
pub open spec fn file_entries(urls: Seq<String>, sizes: Seq<u64>, n: nat) -> Map<(u8, Seq<u8>), EntrySpec>
    decreases n,
{
    if n == 0 {
        Map::empty()
    } else {
        let u = urls[n - 1];
        file_entries(urls, sizes, (n - 1) as nat).insert(
            (NAMESPACE_CONTENT, encode_utf8(u@)),
            content_entry(
                NAMESPACE_CONTENT,
                u@,
                Seq::empty(),
                path_mime(after_last(encode_utf8(u@), 47u8)),
                Seq::empty(),
                sizes[n - 1],
            ),
        )
    }
}

/// A writer for the files of a directory, named by their URLs `urls` and of
/// sizes `sizes`: an entry for each file, and `W/mainPage`, the main page,
/// redirecting to the URL `main_url_spec` picks; `level`, where given, is
/// the compression level.
pub fn build_writer(urls: &[String], sizes: &[u64], level: Option<i32>) -> (w: Writer)
    requires
        urls@.len() > 0,
        sizes@.len() == urls@.len(),
    ensures
        w.wf(),
        exists|m: int|
            0 <= m < urls@.len() && encode_utf8(urls@[m]@) == main_url_spec(arg_bytes(urls@))
                && w.contents() == file_entries(urls@, sizes@, urls@.len()).insert(
                (NAMESPACE_WELL_KNOWN, encode_utf8("mainPage"@)),
                redirect_entry(NAMESPACE_WELL_KNOWN, "mainPage"@, "mainPage"@, NAMESPACE_CONTENT, urls@[m]@),
            ),
        w.main_key() == Some((NAMESPACE_WELL_KNOWN, encode_utf8("mainPage"@))),
        w.zstd_level() == match level {
            Some(l) => l,
            None => DEFAULT_LEVEL,
        },
        !w.stores_uncompressed(),
        !w.has_custom_compressor(),
{
    let mut w = Writer::new();
    match level {
        Some(l) => w.set_compression_level(l),
        None => {},
    }
    let empty = String::new();
    let mut i: usize = 0;
    while i < urls.len()
        invariant
            0 <= i <= urls@.len(),
            sizes@.len() == urls@.len(),
            empty@ == Seq::<char>::empty(),
            w.wf(),
            w.contents() == file_entries(urls@, sizes@, i as nat),
            w.main_key() is None,
            w.zstd_level() == match level {
                Some(l) => l,
                None => DEFAULT_LEVEL,
            },
            !w.stores_uncompressed(),
            !w.has_custom_compressor(),
        decreases urls@.len() - i,
    {
        let u = urls[i].as_str();
        let name = tail_after(u.as_bytes(), 47u8);
        let mime = mime_for_name(name);
        w.add_entry(NAMESPACE_CONTENT, u, empty.as_str(), mime, sizes[i]);
        i = i + 1;
    }
    let m = main_url_index(urls);
    w.add_redirect(NAMESPACE_WELL_KNOWN, "mainPage", "mainPage", NAMESPACE_CONTENT, urls[m].as_str());
    w.set_main_page(NAMESPACE_WELL_KNOWN, "mainPage");
    assert(encode_utf8(urls@[m as int]@) == main_url_spec(arg_bytes(urls@)));
    w
}

/// The first position of `urls`, from `k` on, that holds `url`.
pub open spec fn first_url_from(urls: Seq<String>, url: Seq<char>, k: int) -> Option<int>
    decreases urls.len() - k,
{
    if k < 0 || k >= urls.len() {
        None
    } else if urls[k]@ == url {
        Some(k)
    } else {
        first_url_from(urls, url, k + 1)
    }
}

/// The file, among the files with URLs `urls`, that holds the data of the
/// entry with key `key`: the first file with the entry's URL where the
/// entry is in the content namespace, and none otherwise.
pub open spec fn file_of(urls: Seq<String>, key: (u8, Seq<char>)) -> Option<int> {
    if key.0 == NAMESPACE_CONTENT {
        first_url_from(urls, key.1, 0)
    } else {
        None
    }
}

/// For each key of `keys`, the index in `urls` of the file that holds the
/// data of its entry, as `file_of` says.
pub fn file_indices(keys: &[(u8, String)], urls: &[String]) -> (r: Vec<Option<usize>>)
    ensures
        r@.len() == keys@.len(),
        forall|i: int|
            0 <= i < keys@.len() ==> (match #[trigger] r@[i] {
                Some(j) => file_of(urls@, (keys@[i].0, keys@[i].1@)) == Some(j as int),
                None => file_of(urls@, (keys@[i].0, keys@[i].1@)) is None,
            }),
{
    let mut r: Vec<Option<usize>> = Vec::new();
    let mut i: usize = 0;
    while i < keys.len()
        invariant
            0 <= i <= keys@.len(),
            r@.len() == i,
            forall|x: int|
                0 <= x < i ==> (match #[trigger] r@[x] {
                    Some(j) => file_of(urls@, (keys@[x].0, keys@[x].1@)) == Some(j as int),
                    None => file_of(urls@, (keys@[x].0, keys@[x].1@)) is None,
                }),
        decreases keys@.len() - i,
    {
        let (ns, url) = &keys[i];
        let mut found: Option<usize> = None;
        if *ns == NAMESPACE_CONTENT {
            let mut j: usize = 0;
            while j < urls.len()
                invariant
                    0 <= j <= urls@.len(),
                    found is None ==> first_url_from(urls@, url@, 0) == first_url_from(urls@, url@, j as int),
                    found matches Some(f) ==> first_url_from(urls@, url@, 0) == Some(f as int) && j == urls@.len(),
                decreases urls@.len() - j,
            {
                let same = urls[j] == *url;
                if same {
                    found = Some(j);
                    j = urls.len();
                } else {
                    j = j + 1;
                }
            }
        }
        let ghost key = (keys@[i as int].0, keys@[i as int].1@);
        assert(key == (*ns, url@));
        let ghost before = r@;
        r.push(found);
        assert forall|x: int| 0 <= x <= i implies (match #[trigger] r@[x] {
            Some(j) => file_of(urls@, (keys@[x].0, keys@[x].1@)) == Some(j as int),
            None => file_of(urls@, (keys@[x].0, keys@[x].1@)) is None,
        }) by {
            if x < i {
                assert(r@[x] == before[x]);
            }
        }
        i = i + 1;
    }
    r
}

/// Whether extracting an archive writes the entry `e` out as a file: the
/// entries of the content namespace that are not redirects.
pub fn is_extracted(e: &Entry) -> (r: bool)
    ensures
        r == (!e.redirect && e.namespace == NAMESPACE_CONTENT),
{
    !e.redirect && e.namespace == NAMESPACE_CONTENT
}

/// The bytes of `.vol`.
pub open spec fn vol_bytes() -> Seq<u8> {
    seq![46u8, 118, 111, 108]
}

/// The bytes of `.par2`.
pub open spec fn par2_bytes() -> Seq<u8> {
    seq![46u8, 112, 97, 114, 50]
}

/// Whether the file named `file` is a recovery volume that `par2create`
/// made for the archive named `archive`: its name is the archive's,
/// `.vol`, anything, then `.par2`.
pub fn is_par2_volume(archive: &str, file: &str) -> (r: bool)
    ensures
        r == (starts_with(encode_utf8(file@), encode_utf8(archive@) + vol_bytes()) && ends_with(
            encode_utf8(file@),
            par2_bytes(),
        )),
{
    let mut head: Vec<u8> = Vec::new();
    push_bytes(&mut head, archive.as_bytes());
    let vol: [u8; 4] = [46, 118, 111, 108];
    push_bytes(&mut head, vol.as_slice());
    assert(head@ =~= encode_utf8(archive@) + vol_bytes());
    let par2: [u8; 5] = [46, 112, 97, 114, 50];
    assert(par2@ =~= par2_bytes());
    crate::codec::has_prefix(file.as_bytes(), head.as_slice()) && crate::codec::has_suffix(
        file.as_bytes(),
        par2.as_slice(),
    )
}

/// A file name made of a nonempty stem, a dot and an extension without a
/// dot has that extension.
proof fn lemma_extension_of(stem: Seq<u8>, ext: Seq<u8>)
    requires
        stem.len() > 0,
        ext.len() > 0,
        forall|i: int| 0 <= i < ext.len() ==> ext[i] != 46u8,
    ensures
        path_extension(stem + seq![46u8] + ext) == Some(ext),
{
    let n = stem + seq![46u8] + ext;
    let p = stem.len() as int;
    assert(n[p] == 46u8);
    assert forall|j: int| p < j < n.len() implies n[j] != 46u8 by {
        assert(n[j] == ext[j - p - 1]);
    }
    assert(crate::serve::is_last_of(n, 46u8, p));
    assert(has_byte(n, 46u8));
    let l = last_of(n, 46u8);
    assert(crate::serve::is_last_of(n, 46u8, l));
    assert(l == p);
    assert(n.skip(p + 1) =~= ext);
    assert(n != seq![46u8, 46]) by {
        assert(n.len() >= 3);
    }
}

/// The MIME type of a file whose extension `ext`, written in lower case,
/// has no dot, is the type for that extension.
proof fn lemma_lower_ext_mime(stem: Seq<u8>, ext: Seq<u8>)
    requires
        stem.len() > 0,
        ext.len() > 0,
        forall|i: int| 0 <= i < ext.len() ==> ext[i] != 46u8 && !(65 <= ext[i] <= 90),
    ensures
        path_mime(stem + seq![46u8] + ext) == ext_mime(ext),
{
    lemma_extension_of(stem, ext);
    assert(ascii_lower(ext) =~= ext);
}

/// The MIME type stored for a file depends on its extension without regard
/// to ASCII case: upper-case letters in it give the type of the extension
/// in lower case.
pub proof fn lemma_path_mime_ignores_case(stem: Seq<u8>, ext: Seq<u8>)
    requires
        stem.len() > 0,
        ext.len() > 0,
        forall|i: int| 0 <= i < ext.len() ==> ext[i] != 46u8,
    ensures
        path_mime(stem + seq![46u8] + ext) == path_mime(stem + seq![46u8] + ascii_lower(ext)),
{
    lemma_extension_of(stem, ext);
    assert forall|i: int| 0 <= i < ascii_lower(ext).len() implies ascii_lower(ext)[i] != 46u8 by {}
    lemma_extension_of(stem, ascii_lower(ext));
    assert(ascii_lower(ascii_lower(ext)) =~= ascii_lower(ext));
}

/// The MIME type stored for a file named with any nonempty stem and one of
/// the known extensions: `css`, `gif`, `htm`, `html`, `jpeg`, `jpg`, `js`,
/// `mjs`, `json`, `png`, `svg`, `txt`, `wasm`, `webp` and `xml`; scripts,
/// `js` and `mjs` alike, are `application/javascript`.
pub proof fn lemma_path_mime_table(stem: Seq<u8>)
    requires
        stem.len() > 0,
    ensures
        path_mime(stem + seq![46u8] + seq![99u8, 115, 115]) == "text/css"@,
        path_mime(stem + seq![46u8] + seq![103u8, 105, 102]) == "image/gif"@,
        path_mime(stem + seq![46u8] + seq![104u8, 116, 109]) == "text/html"@,
        path_mime(stem + seq![46u8] + seq![104u8, 116, 109, 108]) == "text/html"@,
        path_mime(stem + seq![46u8] + seq![106u8, 112, 101, 103]) == "image/jpeg"@,
        path_mime(stem + seq![46u8] + seq![106u8, 112, 103]) == "image/jpeg"@,
        path_mime(stem + seq![46u8] + seq![106u8, 115]) == "application/javascript"@,
        path_mime(stem + seq![46u8] + seq![109u8, 106, 115]) == "application/javascript"@,
        path_mime(stem + seq![46u8] + seq![106u8, 115, 111, 110]) == "application/json"@,
        path_mime(stem + seq![46u8] + seq![112u8, 110, 103]) == "image/png"@,
        path_mime(stem + seq![46u8] + seq![115u8, 118, 103]) == "image/svg+xml"@,
        path_mime(stem + seq![46u8] + seq![116u8, 120, 116]) == "text/plain"@,
        path_mime(stem + seq![46u8] + seq![119u8, 97, 115, 109]) == "application/wasm"@,
        path_mime(stem + seq![46u8] + seq![119u8, 101, 98, 112]) == "image/webp"@,
        path_mime(stem + seq![46u8] + seq![120u8, 109, 108]) == "application/xml"@,
{
    lemma_lower_ext_mime(stem, seq![99u8, 115, 115]);
    lemma_lower_ext_mime(stem, seq![103u8, 105, 102]);
    lemma_lower_ext_mime(stem, seq![104u8, 116, 109]);
    lemma_lower_ext_mime(stem, seq![104u8, 116, 109, 108]);
    lemma_lower_ext_mime(stem, seq![106u8, 112, 101, 103]);
    lemma_lower_ext_mime(stem, seq![106u8, 112, 103]);
    lemma_lower_ext_mime(stem, seq![106u8, 115]);
    lemma_lower_ext_mime(stem, seq![109u8, 106, 115]);
    lemma_lower_ext_mime(stem, seq![106u8, 115, 111, 110]);
    lemma_lower_ext_mime(stem, seq![112u8, 110, 103]);
    lemma_lower_ext_mime(stem, seq![115u8, 118, 103]);
    lemma_lower_ext_mime(stem, seq![116u8, 120, 116]);
    lemma_lower_ext_mime(stem, seq![119u8, 97, 115, 109]);
    lemma_lower_ext_mime(stem, seq![119u8, 101, 98, 112]);
    lemma_lower_ext_mime(stem, seq![120u8, 109, 108]);
}

} // verus!
