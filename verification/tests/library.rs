use zim::args::{parse_add_fec_args, parse_build_args, parse_extract_args, parse_i32, parse_repair_args};
use zim::directory::{build_writer, file_indices, is_extracted, is_par2_volume, main_url_index, mime_for_path, output_file_name, path_to_url};
use zim::format::{parse_header, Header, NO_MAIN_PAGE};
use zim::serve::{
    content_type, hex, mime_for_target, parse_u64, percent_decode, range_response, refuse_method,
    request_target_to_url, respond, response, status_reason,
};
use zim::progress::progress_line;
use zim::request::{header_range, is_blank_line, request_line};
use zim::{compress, Error, Reader, Writer, NAMESPACE_CONTENT, NAMESPACE_LISTING, NAMESPACE_METADATA};
use zim::{NAMESPACE_WELL_KNOWN, MAGIC};

fn strings(v: &[&str]) -> Vec<String> {
    v.iter().map(|s| s.to_string()).collect()
}

fn small_archive() -> Vec<u8> {
    let mut w = Writer::new();
    w.set_no_compress(true);
    w.add_content(NAMESPACE_CONTENT, "a.html", "Alpha", "text/html", b"a".to_vec());
    w.add_content(NAMESPACE_CONTENT, "b.png", "Beta", "image/png", b"b".to_vec());
    w.add_content(NAMESPACE_CONTENT, "dir/index.html", "Dir", "text/html", b"<p>dir</p>".to_vec());
    w.add_redirect(NAMESPACE_WELL_KNOWN, "mainPage", "Main", NAMESPACE_CONTENT, "a.html");
    w.set_main_page(NAMESPACE_WELL_KNOWN, "mainPage");
    let mut out = Vec::new();
    w.write_to(&mut out).expect("write");
    out
}

#[test]
fn insertion_order_does_not_change_the_archive() {
    let mut a = Writer::new();
    a.add_content(NAMESPACE_CONTENT, "x", "X", "text/plain", b"x".to_vec());
    a.add_content(NAMESPACE_CONTENT, "y", "Y", "image/png", b"y".to_vec());
    a.add_metadata("Title", "T");
    let mut b = Writer::new();
    b.add_metadata("Title", "T");
    b.add_content(NAMESPACE_CONTENT, "y", "Y", "image/png", b"y".to_vec());
    b.add_content(NAMESPACE_CONTENT, "x", "X", "text/plain", b"x".to_vec());
    let mut oa = Vec::new();
    let mut ob = Vec::new();
    a.write_to(&mut oa).expect("write a");
    b.write_to(&mut ob).expect("write b");
    assert_eq!(oa, ob);
}

#[test]
fn counter_and_listing_texts_are_exact() {
    let data = small_archive();
    let mut r = Reader::from_bytes(data).expect("reader");
    let counter = r.get(NAMESPACE_METADATA, "Counter").expect("counter");
    assert_eq!(
        String::from_utf8(counter.data).unwrap(),
        "image/png=1\ntext/html=2\ntext/plain=1\n"
    );
    assert_eq!(counter.mime_type, "text/plain");
    let listing = r
        .get(NAMESPACE_LISTING, "listing/titleOrdered/v1")
        .expect("listing");
    assert_eq!(String::from_utf8(listing.data).unwrap(), "Alpha\nBeta\nDir\nMain\n");
}

#[test]
fn archive_header_describes_the_layout() {
    let data = small_archive();
    let h = parse_header(&data[..80]).expect("header");
    assert_eq!(u32::from_le_bytes(data[0..4].try_into().unwrap()), MAGIC);
    assert_eq!(h.article_count, 6);
    assert_eq!(h.mime_list_pos, 80);
    assert_eq!(h.checksum_pos as usize, data.len() - 16);
    assert_eq!(h.layout_page, NO_MAIN_PAGE);
    // Entries in key order: C/a.html, C/b.png, C/dir/index.html, M/Counter,
    // W/mainPage, X/listing; the main page is W/mainPage.
    assert_eq!(h.main_page, 4);
    assert_eq!(h.title_ptr_pos, h.url_ptr_pos + 8 * 6);
    assert_eq!(h.cluster_ptr_pos, h.title_ptr_pos + 4 * 6);
}

#[test]
fn header_marshal_round_trips() {
    let h = Header {
        uuid: [7; 16],
        article_count: 3,
        cluster_count: 2,
        url_ptr_pos: 100,
        title_ptr_pos: 124,
        cluster_ptr_pos: 136,
        mime_list_pos: 80,
        main_page: 1,
        layout_page: NO_MAIN_PAGE,
        checksum_pos: 999,
    };
    let b = h.marshal();
    let back = parse_header(&b).expect("parse");
    assert_eq!(back.uuid, [7; 16]);
    assert_eq!(back.article_count, 3);
    assert_eq!(back.cluster_count, 2);
    assert_eq!(back.url_ptr_pos, 100);
    assert_eq!(back.title_ptr_pos, 124);
    assert_eq!(back.cluster_ptr_pos, 136);
    assert_eq!(back.main_page, 1);
    assert_eq!(back.checksum_pos, 999);
}

#[test]
fn header_errors() {
    assert!(matches!(parse_header(&[0u8; 10]), Err(Error::ShortHeader(10))));
    let mut b = Header {
        uuid: [0; 16],
        article_count: 0,
        cluster_count: 0,
        url_ptr_pos: 80,
        title_ptr_pos: 80,
        cluster_ptr_pos: 80,
        mime_list_pos: 80,
        main_page: 0,
        layout_page: 0,
        checksum_pos: 80,
    }
    .marshal();
    b[4] = 9;
    assert!(matches!(parse_header(&b), Err(Error::UnsupportedVersion(9))));
    b[0] = 0;
    assert!(matches!(parse_header(&b), Err(Error::BadMagic)));
}

#[test]
fn entry_declared_without_data_is_refused_by_write_to() {
    let mut w = Writer::new();
    w.add_entry(NAMESPACE_CONTENT, "big.bin", "", "", 10);
    let mut out = vec![1, 2, 3];
    let err = w.write_to(&mut out).expect_err("no data");
    assert!(matches!(err, Error::Io(_)));
    assert!(err.message().contains("has no stored data; use write_to_streaming"));
    assert_eq!(out, vec![1, 2, 3]);
}

#[test]
fn streaming_write_takes_data_by_archive_position() {
    let urls = strings(&["index.html", "img/logo.png"]);
    let mut w = build_writer(&urls, &[5, 3], Some(3));
    let keys = w.archive_keys();
    let data: Vec<Option<Vec<u8>>> = keys
        .iter()
        .map(|(ns, url)| {
            if *ns == NAMESPACE_CONTENT && url == "index.html" {
                Some(b"hello".to_vec())
            } else if *ns == NAMESPACE_CONTENT && url == "img/logo.png" {
                Some(vec![1, 2, 3])
            } else {
                None
            }
        })
        .collect();
    let mut out = Vec::new();
    let n = w.write_to_streaming(&data, &mut out).expect("write");
    assert_eq!(n as usize, out.len());
    let mut r = Reader::from_bytes(out).expect("reader");
    let home = r.get(NAMESPACE_CONTENT, "index.html").expect("home");
    assert_eq!(home.data, b"hello");
    assert_eq!(home.mime_type, "text/html");
    let logo = r.get(NAMESPACE_CONTENT, "img/logo.png").expect("logo");
    assert_eq!(logo.data, vec![1, 2, 3]);
    assert_eq!(logo.mime_type, "image/png");
    let main = r.main_page().expect("main");
    assert_eq!(main.data, b"hello");
    assert!(r.check().expect("check"));
}

#[test]
fn missing_redirect_target_names_both_keys() {
    let mut w = Writer::new();
    w.add_redirect(NAMESPACE_WELL_KNOWN, "mainPage", "Main", NAMESPACE_CONTENT, "missing");
    let mut out = Vec::new();
    let err = w.write_to(&mut out).expect_err("missing");
    match &err {
        Error::MissingRedirectTarget { redirect, target } => {
            assert_eq!(redirect, "WmainPage");
            assert_eq!(target, "Cmissing");
        }
        other => panic!("unexpected error {other:?}"),
    }
    assert_eq!(
        err.message(),
        "zim: redirect \"WmainPage\" points at missing target \"Cmissing\""
    );
    assert!(out.is_empty());
}

#[test]
fn error_messages() {
    let e = Error::NotFound { namespace: b'C', url: "x.html".to_string() };
    assert_eq!(e.message(), "zim: not found: C/x.html");
    assert_eq!(Error::ShortHeader(8).message(), "zim: short header: 8 bytes");
    assert_eq!(
        Error::BlobOutOfRange { cluster: 2, blob: 7 }.message(),
        "zim: blob 7 out of range in cluster 2"
    );
    assert_eq!(Error::UnsupportedCompression(4).message(), "zim: unknown compression 4");
    assert_eq!(
        Error::SizeOverflow.message(),
        "zim: archive size is too large for this platform"
    );
    assert_eq!(Error::Compression("bad".into()).message(), "zim: compression error: bad");
    assert!(e.is_not_found());
    assert!(!Error::RedirectLoop.is_not_found());
}

#[test]
fn compress_output_is_zstd() {
    let input = b"aaaaaaaaaaaaaaaaaaaaaaaaaaaaaaaaaaaaaaaaaaaaaaaaaaaaaaaaaaaa".to_vec();
    let c = compress(&input).expect("compress");
    assert_ne!(c, input);
    assert_eq!(&c[..4], &[0x28, 0xb5, 0x2f, 0xfd]);
    assert!(c.len() < input.len());
}

#[test]
fn compressed_archive_reads_back() {
    let mut w = Writer::new();
    w.set_compression_level(3);
    w.add_content(NAMESPACE_CONTENT, "t.txt", "T", "text/plain", vec![b'z'; 5000]);
    let mut out = Vec::new();
    w.write_to(&mut out).expect("write");
    assert!(out.len() < 5000);
    let mut r = Reader::from_bytes(out).expect("reader");
    assert_eq!(r.get(NAMESPACE_CONTENT, "t.txt").expect("get").data, vec![b'z'; 5000]);
}

#[test]
fn custom_compressor_is_used_for_text_clusters() {
    let mut w = Writer::new();
    w.set_compress(|p: &[u8]| compress(p));
    w.add_content(NAMESPACE_CONTENT, "t.txt", "T", "text/plain", b"hello hello".to_vec());
    let mut out = Vec::new();
    w.write_to(&mut out).expect("write");
    let mut r = Reader::from_bytes(out).expect("reader");
    assert_eq!(r.get(NAMESPACE_CONTENT, "t.txt").expect("get").data, b"hello hello");

    let mut w = Writer::new();
    w.set_compress(|_p: &[u8]| Err(Error::Compression("refused".into())));
    w.add_content(NAMESPACE_CONTENT, "t.txt", "T", "text/plain", b"x".to_vec());
    let mut out = Vec::new();
    let err = w.write_to(&mut out).expect_err("refused");
    assert_eq!(err.message(), "zim: compression error: refused");
    w.reset_compress();
    w.write_to(&mut out).expect("built-in compressor");
}

#[test]
fn request_targets_and_types() {
    assert_eq!(hex(b'0'), Some(0));
    assert_eq!(hex(b'f'), Some(15));
    assert_eq!(hex(b'F'), Some(15));
    assert_eq!(hex(b'g'), None);
    assert_eq!(percent_decode("a%20b%2f"), "a b/");
    assert_eq!(percent_decode("100%"), "100%");
    assert_eq!(percent_decode("%FF"), "\u{fffd}");
    assert_eq!(request_target_to_url("//docs/a%20b.html?x=1"), "docs/a b.html");
    assert_eq!(mime_for_target("/css/site.css"), "text/css");
    assert_eq!(mime_for_target("/a.b/readme"), "application/octet-stream");
    assert_eq!(mime_for_target("/x.CSS"), "application/octet-stream");
    assert_eq!(mime_for_path("Photo.JPG"), "image/jpeg");
    assert_eq!(mime_for_path(".bashrc"), "application/octet-stream");
    assert_eq!(mime_for_path("archive.tar.gz"), "application/octet-stream");
    assert_eq!(mime_for_path("app.mjs"), "application/javascript");
    assert_eq!(content_type(""), "application/octet-stream");
    assert_eq!(content_type("text/html"), "text/html");
    assert_eq!(status_reason(416), "Range Not Satisfiable");
    assert_eq!(status_reason(302), "OK");
    assert_eq!(parse_u64(b"+42"), Some(42));
    assert_eq!(parse_u64(b"18446744073709551616"), None);
    assert_eq!(parse_i32(b"-2147483648"), Some(i32::MIN));
    assert_eq!(parse_i32(b"2147483648"), None);
    assert_eq!(parse_i32(b"-+1"), None);
}

#[test]
fn responses_are_exact() {
    assert_eq!(
        response(404, "text/plain", b"not found", false, false),
        b"HTTP/1.1 404 Not Found\r\nContent-Length: 9\r\nContent-Type: text/plain\r\nConnection: close\r\n\r\nnot found"
            .to_vec()
    );
    assert_eq!(
        response(200, "text/html", b"hi", true, true),
        b"HTTP/1.1 200 OK\r\nContent-Length: 2\r\nContent-Type: text/html\r\nAccept-Ranges: bytes\r\nConnection: close\r\n\r\n"
            .to_vec()
    );
    assert_eq!(
        range_response("text/plain", b"", 10, 20, 30, false),
        b"HTTP/1.1 416 Range Not Satisfiable\r\nContent-Range: bytes */10\r\nConnection: close\r\n\r\n"
            .to_vec()
    );
    assert_eq!(
        range_response("text/plain", b"abc", 10, 7, 99, false),
        b"HTTP/1.1 206 Partial Content\r\nContent-Length: 3\r\nContent-Type: text/plain\r\nContent-Range: bytes 7-9/10\r\nAccept-Ranges: bytes\r\nConnection: close\r\n\r\nabc"
            .to_vec()
    );
    assert!(refuse_method("GET").is_none());
    assert!(refuse_method("HEAD").is_none());
    let refused = refuse_method("POST").expect("refused");
    assert!(refused.starts_with(b"HTTP/1.1 405 Method Not Allowed\r\n"));
}

#[test]
fn serving_an_archive() {
    let mut r = Reader::from_bytes(small_archive()).expect("reader");
    let root = respond(&mut r, "GET", "/", None);
    assert!(root.starts_with(b"HTTP/1.1 200 OK\r\nContent-Length: 1\r\nContent-Type: text/html\r\n"));
    assert!(root.ends_with(b"\r\n\r\na"));
    let dir = respond(&mut r, "GET", "/dir/", None);
    assert!(dir.ends_with(b"<p>dir</p>"));
    let dir2 = respond(&mut r, "GET", "/dir", None);
    assert!(dir2.ends_with(b"<p>dir</p>"));
    let missing = respond(&mut r, "GET", "/nope.html", None);
    assert!(missing.starts_with(b"HTTP/1.1 404 Not Found"));
    let head = respond(&mut r, "HEAD", "/b.png", None);
    assert!(head.ends_with(b"\r\n\r\n"));
    let ranged = respond(&mut r, "GET", "/dir/index.html", Some((3, 5)));
    assert!(ranged.starts_with(b"HTTP/1.1 206 Partial Content\r\nContent-Length: 3\r\n"));
    assert!(ranged.ends_with(b"dir"));
}

#[test]
fn command_line_arguments() {
    let ok = parse_build_args(&strings(&["site", "-o", "out.zim", "-q", "--level", "19"])).expect("ok");
    assert_eq!(ok, ("site".to_string(), Some("out.zim".to_string()), true, Some(19)));
    assert_eq!(parse_build_args(&strings(&["-q"])).unwrap_err(), "missing <rootdir> argument");
    assert_eq!(parse_build_args(&strings(&["a", "b"])).unwrap_err(), "unexpected argument: b");
    assert_eq!(parse_build_args(&strings(&["a", "-x"])).unwrap_err(), "unknown flag: -x");
    assert_eq!(
        parse_build_args(&strings(&["a", "-l", "hi"])).unwrap_err(),
        "invalid compression level: hi"
    );
    assert_eq!(parse_build_args(&strings(&["a", "-o"])).unwrap_err(), "missing value for -o/--out");
    assert_eq!(
        parse_extract_args(&strings(&["f.zim", "--out", "d"])).expect("ok"),
        ("f.zim".to_string(), Some("d".to_string()), false)
    );
    assert_eq!(parse_add_fec_args(&strings(&["f.zim"])).expect("ok"), ("f.zim".to_string(), 25));
    assert_eq!(
        parse_add_fec_args(&strings(&["f.zim", "-r", "0"])).unwrap_err(),
        "redundancy must be between 1 and 100"
    );
    assert_eq!(
        parse_add_fec_args(&strings(&["f.zim", "-r", "x"])).unwrap_err(),
        "invalid redundancy percentage: x"
    );
    assert_eq!(parse_repair_args(&strings(&["f.zim"])).expect("ok"), "f.zim");
    assert_eq!(parse_repair_args(&strings(&[])).unwrap_err(), "missing <file.zim> argument");
}

#[test]
fn directory_helpers() {
    assert_eq!(path_to_url(&strings(&["a", "b", "c.html"])), "a/b/c.html");
    assert_eq!(path_to_url(&strings(&[])), "");
    assert_eq!(output_file_name("site"), "site.zim");
    assert_eq!(main_url_index(&strings(&["z.html", "index.html", "a/index.html"])), 1);
    assert_eq!(main_url_index(&strings(&["z.html", "b/index.html", "a/index.html"])), 2);
    assert_eq!(main_url_index(&strings(&["z.html", "b.html"])), 1);
}

#[test]
fn every_entry_reads_back_by_position() {
    let mut w = Writer::new();
    w.set_no_compress(true);
    w.add_content(NAMESPACE_CONTENT, "a.html", "Alpha", "text/html", b"a".to_vec());
    w.add_content(NAMESPACE_CONTENT, "b.png", "Beta", "image/png", b"bb".to_vec());
    w.add_redirect(NAMESPACE_WELL_KNOWN, "mainPage", "Main", NAMESPACE_CONTENT, "a.html");
    let keys = w.archive_keys();
    let mut out = Vec::new();
    w.write_to(&mut out).expect("write");
    let mut r = Reader::from_bytes(out).expect("reader");
    assert_eq!(r.count() as usize, keys.len());
    for (i, (ns, url)) in keys.iter().enumerate() {
        let e = r.entry_at(i as u32).expect("entry");
        assert_eq!(e.namespace, *ns);
        assert_eq!(&e.url, url);
    }
    let pos = keys.iter().position(|(ns, u)| *ns == NAMESPACE_CONTENT && u == "b.png").unwrap();
    let e = r.entry_at(pos as u32).expect("b.png");
    assert_eq!(e.title, "Beta");
    assert_eq!(e.mime_type, "image/png");
    assert_eq!(e.data, b"bb");
    assert!(!e.redirect);
    let pos = keys.iter().position(|(ns, u)| *ns == NAMESPACE_WELL_KNOWN && u == "mainPage").unwrap();
    let e = r.entry_at(pos as u32).expect("redirect");
    assert!(e.redirect);
    assert_eq!(e.redirect_namespace, NAMESPACE_CONTENT);
    assert_eq!(e.redirect_url, "a.html");
    assert_eq!(e.mime_type, "");
    assert!(e.data.is_empty());
}

#[test]
fn keys_read_back_and_others_are_not_found() {
    let data = small_archive();
    let mut r = Reader::from_bytes(data).expect("reader");
    let b = r.get(NAMESPACE_CONTENT, "b.png").expect("b.png");
    assert_eq!(b.title, "Beta");
    assert_eq!(b.mime_type, "image/png");
    assert_eq!(b.data, b"b");
    let m = r.get(NAMESPACE_WELL_KNOWN, "mainPage").expect("redirect");
    assert_eq!(m.url, "a.html");
    assert_eq!(m.data, b"a");
    let err = r.get(NAMESPACE_CONTENT, "missing.html").expect_err("missing");
    assert!(err.is_not_found());
    let err = r.get(NAMESPACE_WELL_KNOWN, "a.html").expect_err("other namespace");
    assert!(err.is_not_found());
}

#[test]
fn title_lookup_finds_first_entry_in_title_order() {
    let mut w = Writer::new();
    w.set_no_compress(true);
    w.add_content(NAMESPACE_CONTENT, "b.html", "Same", "text/html", b"b".to_vec());
    w.add_content(NAMESPACE_CONTENT, "a.html", "Same", "text/html", b"a".to_vec());
    w.add_content(NAMESPACE_CONTENT, "c.html", "Other", "text/html", b"c".to_vec());
    let mut out = Vec::new();
    w.write_to(&mut out).expect("write");
    let mut r = Reader::from_bytes(out).expect("reader");
    let found = r.get_by_title(NAMESPACE_CONTENT, "Same").expect("same");
    assert_eq!(found.url, "a.html");
    assert_eq!(found.data, b"a");
    let any = r.get_by_title(0, "Other").expect("any namespace");
    assert_eq!(any.url, "c.html");
    assert!(r.get_by_title(NAMESPACE_CONTENT, "Missing").expect_err("missing").is_not_found());
    assert!(r.get_by_title(NAMESPACE_METADATA, "Same").expect_err("namespace").is_not_found());
}

#[test]
fn range_reads_are_cut_at_the_blob_end() {
    let mut w = Writer::new();
    w.add_content(NAMESPACE_CONTENT, "d.txt", "D", "text/plain", b"0123456789".to_vec());
    w.add_redirect(NAMESPACE_CONTENT, "r", "R", NAMESPACE_CONTENT, "d.txt");
    let mut out = Vec::new();
    w.write_to(&mut out).expect("write");
    let mut r = Reader::from_bytes(out).expect("reader");
    assert_eq!(r.get_range(NAMESPACE_CONTENT, "d.txt", 2, 3).expect("mid"), (b"234".to_vec(), 10));
    assert_eq!(r.get_range(NAMESPACE_CONTENT, "d.txt", 8, 100).expect("end"), (b"89".to_vec(), 10));
    assert_eq!(r.get_range(NAMESPACE_CONTENT, "d.txt", 10, 5).expect("past"), (Vec::new(), 10));
    assert_eq!(r.get_range(NAMESPACE_CONTENT, "r", 0, 2).expect("redirect"), (b"01".to_vec(), 10));
    assert!(r.get_range(NAMESPACE_CONTENT, "none", 0, 1).expect_err("missing").is_not_found());
}

#[test]
fn main_page_resolves_or_is_absent() {
    let data = small_archive();
    let mut r = Reader::from_bytes(data).expect("reader");
    let m = r.main_page().expect("main page");
    assert_eq!(m.url, "a.html");
    assert_eq!(m.data, b"a");

    let mut w = Writer::new();
    w.add_content(NAMESPACE_CONTENT, "x", "X", "text/plain", b"x".to_vec());
    w.set_main_page(NAMESPACE_CONTENT, "missing");
    let mut out = Vec::new();
    w.write_to(&mut out).expect("write");
    let mut r = Reader::from_bytes(out).expect("reader");
    assert!(matches!(r.main_page(), Err(Error::NoMainPage)));
}

#[test]
fn title_prefix_lists_matching_entries_in_title_order() {
    let mut w = Writer::new();
    w.set_no_compress(true);
    w.add_content(NAMESPACE_CONTENT, "2", "Apricot", "text/html", b"2".to_vec());
    w.add_content(NAMESPACE_CONTENT, "1", "Apple", "text/html", b"1".to_vec());
    w.add_content(NAMESPACE_CONTENT, "3", "Banana", "text/html", b"3".to_vec());
    w.add_redirect(NAMESPACE_CONTENT, "4", "Ape", NAMESPACE_CONTENT, "1");
    let mut out = Vec::new();
    w.write_to(&mut out).expect("write");
    let mut r = Reader::from_bytes(out).expect("reader");
    let found = r.entries_by_title_prefix(NAMESPACE_CONTENT, "Ap").expect("prefix");
    let titles: Vec<&str> = found.iter().map(|e| e.title.as_str()).collect();
    assert_eq!(titles, vec!["Ape", "Apple", "Apricot"]);
    assert!(found[0].redirect);
    assert_eq!(found[1].data, b"1");
    let all = r.entries_by_title_prefix(NAMESPACE_CONTENT, "").expect("empty prefix");
    let all_titles: Vec<&str> = all.iter().map(|e| e.title.as_str()).collect();
    assert_eq!(all_titles, vec!["Ape", "Apple", "Apricot", "Banana"]);
    let every = r.entries_by_title_prefix(0, "").expect("every namespace");
    assert_eq!(every.len() as u32, r.count());
    assert!(r.entries_by_title_prefix(NAMESPACE_CONTENT, "Cherry").expect("none").is_empty());
    let any = r.entries_by_title_prefix(0, "Ban").expect("any namespace");
    assert_eq!(any.len(), 1);
    assert_eq!(any[0].url, "3");
}

#[test]
fn request_lines_and_range_headers() {
    assert_eq!(request_line("GET /A/x.html HTTP/1.1\r\n"), ("GET".to_string(), "/A/x.html".to_string()));
    assert_eq!(request_line("  HEAD\t/ \r\n"), ("HEAD".to_string(), "/".to_string()));
    assert_eq!(request_line("GET\r\n"), ("GET".to_string(), String::new()));
    assert_eq!(request_line("\r\n"), (String::new(), String::new()));
    assert!(is_blank_line("\r\n"));
    assert!(is_blank_line(""));
    assert!(!is_blank_line("Host: x\r\n"));
    assert_eq!(header_range("Range: bytes=0-9\r\n"), Some(Some((0, 9))));
    assert_eq!(header_range("RANGE:BYTES=5-6"), Some(Some((5, 6))));
    assert_eq!(header_range("Range: items=0-9\r\n"), Some(None));
    assert_eq!(header_range("Host: localhost\r\n"), None);
    assert_eq!(header_range("X-Range: bytes=0-1"), None);
}

#[test]
fn progress_lines_are_exact() {
    assert_eq!(
        progress_line(5, 10, "a.html"),
        b"\r  [==========>         ] 5/10 a.html                \r".to_vec()
    );
    assert_eq!(
        progress_line(3, 3, "x"),
        b"\r  [====================] 3/3 x                \r".to_vec()
    );
    assert_eq!(
        progress_line(0, 0, ""),
        b"\r  [>                   ] 0/0                 \r".to_vec()
    );
}

#[test]
fn file_indices_follow_the_archive_order() {
    let urls = strings(&["b.html", "a.html"]);
    let keys = vec![
        (NAMESPACE_CONTENT, "a.html".to_string()),
        (NAMESPACE_CONTENT, "b.html".to_string()),
        (NAMESPACE_METADATA, "a.html".to_string()),
        (NAMESPACE_CONTENT, "c.html".to_string()),
    ];
    assert_eq!(file_indices(&keys, &urls), vec![Some(1), Some(0), None, None]);
}

#[test]
fn default_writer_is_a_new_writer() {
    let mut a = Writer::default();
    let mut b = Writer::new();
    let mut oa = Vec::new();
    let mut ob = Vec::new();
    a.write_to(&mut oa).expect("default");
    b.write_to(&mut ob).expect("new");
    assert_eq!(oa, ob);
}

#[test]
fn extraction_and_recovery_volume_choices() {
    let data = small_archive();
    let mut r = Reader::from_bytes(data).expect("reader");
    let mut files = Vec::new();
    for i in 0..r.count() {
        let e = r.entry_at(i).expect("entry");
        if is_extracted(&e) {
            files.push(e.url.clone());
        }
    }
    assert_eq!(files, strings(&["a.html", "b.png", "dir/index.html"]));
    assert!(is_par2_volume("w.zim", "w.zim.vol00+01.par2"));
    assert!(!is_par2_volume("w.zim", "w.zim.par2"));
    assert!(!is_par2_volume("w.zim", "x.zim.vol00+01.par2"));
    assert!(!is_par2_volume("w.zim", "w.zim.vol00+01.txt"));
}

#[test]
fn redirect_chains_resolve_to_their_end() {
    let mut w = Writer::new();
    w.set_no_compress(true);
    w.add_content(NAMESPACE_CONTENT, "end.html", "End", "text/html", b"end".to_vec());
    w.add_redirect(NAMESPACE_CONTENT, "mid.html", "Mid", NAMESPACE_CONTENT, "end.html");
    w.add_redirect(NAMESPACE_WELL_KNOWN, "start", "Start", NAMESPACE_CONTENT, "mid.html");
    let mut out = Vec::new();
    w.write_to(&mut out).expect("write");
    let mut r = Reader::from_bytes(out).expect("reader");
    let via = r.get(NAMESPACE_WELL_KNOWN, "start").expect("chain");
    let end = r.get(NAMESPACE_CONTENT, "end.html").expect("end");
    assert_eq!(via.url, "end.html");
    assert_eq!(via.data, end.data);
    assert_eq!(r.get(NAMESPACE_CONTENT, "mid.html").expect("mid").data, b"end");
}

#[test]
fn checked_compressor_refuses_output_that_does_not_decode() {
    let mut w = Writer::new();
    w.set_compress_checked(|p: &[u8]| compress(p));
    w.add_content(NAMESPACE_CONTENT, "t.txt", "T", "text/plain", b"hello hello".to_vec());
    let mut out = Vec::new();
    w.write_to(&mut out).expect("write");
    let mut r = Reader::from_bytes(out).expect("reader");
    assert_eq!(r.get(NAMESPACE_CONTENT, "t.txt").expect("get").data, b"hello hello");

    let mut w = Writer::new();
    w.set_compress_checked(|p: &[u8]| compress(&[p, b"!"].concat()));
    w.add_content(NAMESPACE_CONTENT, "t.txt", "T", "text/plain", b"x".to_vec());
    let mut out = vec![9];
    let err = w.write_to(&mut out).expect_err("does not decode back");
    assert_eq!(err.message(), "zim: compression error: compressor output does not decode to its input");
    assert_eq!(out, vec![9]);

    let mut w = Writer::new();
    w.set_compress_checked(|_p: &[u8]| Ok(b"not zstd".to_vec()));
    w.add_content(NAMESPACE_CONTENT, "t.txt", "T", "text/plain", b"x".to_vec());
    let mut out = Vec::new();
    assert!(matches!(w.write_to(&mut out), Err(Error::Compression(_))));
    assert!(out.is_empty());
}

#[test]
fn missing_redirect_target_is_refused_with_a_custom_compressor() {
    let mut w = Writer::new();
    w.set_compress(|p: &[u8]| compress(p));
    w.add_content(NAMESPACE_CONTENT, "a.html", "A", "text/html", b"a".to_vec());
    w.add_redirect(NAMESPACE_CONTENT, "r", "R", NAMESPACE_CONTENT, "gone");
    let mut out = vec![7, 7];
    match w.write_to(&mut out).expect_err("missing") {
        Error::MissingRedirectTarget { redirect, target } => {
            assert_eq!(redirect, "Cr");
            assert_eq!(target, "Cgone");
        }
        other => panic!("unexpected error {other:?}"),
    }
    assert_eq!(out, vec![7, 7]);
    w.add_content(NAMESPACE_CONTENT, "gone", "G", "text/html", b"g".to_vec());
    w.write_to(&mut out).expect("target now present");
}

#[test]
fn streaming_write_equals_plain_write_when_nothing_lacks_data() {
    let mut w = Writer::new();
    w.add_content(NAMESPACE_CONTENT, "a.html", "A", "text/html", b"<p>a</p>".to_vec());
    w.add_content(NAMESPACE_CONTENT, "b.png", "B", "image/png", vec![1, 2, 3]);
    w.set_main_page(NAMESPACE_CONTENT, "a.html");
    let mut plain = Vec::new();
    let n = w.write_to(&mut plain).expect("plain");
    let data: Vec<Option<Vec<u8>>> = vec![Some(b"ignored".to_vec()); w.archive_keys().len()];
    let mut streamed = Vec::new();
    let m = w.write_to_streaming(&data, &mut streamed).expect("streaming");
    assert_eq!(n, m);
    assert_eq!(plain, streamed);
}

#[test]
fn range_read_is_the_clamped_slice_of_the_full_read() {
    let mut w = Writer::new();
    w.add_content(NAMESPACE_CONTENT, "z.txt", "Z", "text/plain", vec![b'q'; 300]);
    w.add_content(NAMESPACE_CONTENT, "p.png", "P", "image/png", (0u8..50).collect());
    let mut out = Vec::new();
    w.write_to(&mut out).expect("write");
    let mut r = Reader::from_bytes(out).expect("reader");
    for url in ["z.txt", "p.png"] {
        let full = r.get(NAMESPACE_CONTENT, url).expect("full").data;
        let n = full.len() as u64;
        for (off, len) in [(0u64, 0u64), (0, 10), (7, 20), (40, u64::MAX), (n, 1), (n + 5, 3)] {
            let start = off.min(n) as usize;
            let end = off.saturating_add(len).min(n) as usize;
            let expected = if start < end { full[start..end].to_vec() } else { Vec::new() };
            assert_eq!(r.get_range(NAMESPACE_CONTENT, url, off, len).expect("range"), (expected, n));
        }
    }
}

#[test]
fn main_page_is_what_its_key_finds() {
    let mut w = Writer::new();
    w.add_content(NAMESPACE_CONTENT, "home.html", "Home", "text/html", b"<h1>Home</h1>".to_vec());
    w.add_redirect(NAMESPACE_WELL_KNOWN, "mainPage", "Main", NAMESPACE_CONTENT, "home.html");
    w.set_main_page(NAMESPACE_WELL_KNOWN, "mainPage");
    let mut out = Vec::new();
    w.write_to(&mut out).expect("write");
    let mut r = Reader::from_bytes(out).expect("reader");
    let via_key = r.get(NAMESPACE_WELL_KNOWN, "mainPage").expect("get");
    let main = r.main_page().expect("main");
    assert_eq!(main, via_key);
    assert!(main.data.starts_with(b"<h1>Home</h1>"));
}
