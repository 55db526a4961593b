# zim

A library that writes and reads ZIM archives, the offline-content format,
verified with Verus, and a command-line program around it.

The writer collects entries (content, redirects, metadata, illustrations),
generates the `M/Counter` and `X/listing/titleOrdered/v1` entries, packs blobs
into clusters (zstd-compressed for text, stored otherwise) and lays out the
header, MIME list, pointer tables, directory entries, clusters and MD5
checksum. The reader opens an archive held in memory and looks entries up by
position, key, title or title prefix, with byte ranges and a cluster cache.

## What is proved

Each public function states its result over mathematical models (`Seq`,
`Map`, spec functions) and Verus proves it. Among the properties proved:

- an archive that `Writer::write_to` writes opens, its checksum verifies, and
  every entry, key lookup, title lookup, range read, title-prefix listing and
  the main page read back as written (`readback::reads_back`,
  `readback::main_reads_back`), with the built-in compressor or one given to
  `set_compress`, which must return zstd that decodes back to its input
  (`set_compress_checked` checks each output for that);
- a write is refused for a missing redirect target exactly when some
  redirect's target is absent, and a refused write leaves the output as it
  was (`writer::lemma_write_missing_target`);
- in any archive, a range read is the clamped slice of the full read
  (`readback::lemma_range_is_slice_of_get`);
- two writers with the same entries write the same archive, whatever order
  the entries were added in (`writer::lemma_writers_same_archive`);
- the header encodes and decodes to the same fields
  (`format::lemma_header_round_trip`);
- the HTTP layer answers each request as `serve::respond_spec` describes
  (`serve::respond`).

The calls into zstd, md5, memchr, rustc-hash and std's lossy UTF-8 decoding
are trusted wrappers whose contracts say what those crates document.

## Layout

- `src/`: the verified library. `writer` and `layout` write archives,
  `reader` reads them, `readback` proves what a written archive reads back
  as, `serve` and `request` answer HTTP requests, `args`, `directory` and
  `progress` hold the command line's logic, and `le`, `format`, `text`,
  `codec`, `cache`, `sort` and `message` the pieces they share.
- `tests/`: tests of the library.
- `app/`: the command-line program (`build`, `extract`, `serve`, `add-fec`,
  `repair`): files, sockets and processes around the library.
