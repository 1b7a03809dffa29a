# folio

Folio indexes a user's media files together with their subtitles so that what is said
in them can be searched. This crate is its library, written in Verus: the functions in
`src/` carry contracts that Verus proves. The exceptions are the small wrappers marked
`#[verifier::external_body]` around calls into std, serde_json, encoding_rs, image and
base64: Verus trusts their contracts, and each one's doc comment says what it claims of
the outside function.

- `src/text.rs`: splitting, joining, replacing and trimming character sequences, with
  the meaning of the corresponding `str` operations.
- `src/number.rs`: reading integers as `str::parse::<i64>` does and writing them
  zero-padded as `{:0w}` does.
- `src/subtitles.rs`: SRT timestamps, parsing and writing SRT documents, and decoding
  subtitle files in UTF-8 or a legacy encoding. It proves that a written timestamp reads
  back as the same number of milliseconds, that written timestamps have the shape
  `HH:MM:SS,mmm` and sort as the times do, that a document written from segments with
  well-formed texts parses back into the same segments, and that `\r\n`, `\r` and `\n`
  line endings are read alike, from text and from UTF-8 bytes.
- `src/index.rs`: which files of a directory walk are media files and which subtitle
  file goes with each.
- `src/db.rs`, `src/media.rs`, `src/indexing.rs`: the decisions around the database, the
  thumbnails and embedded subtitles of media files, and the actions of an indexing run. Settings are
  stored as the JSON text that serde_json writes, and read back unchanged.
- `src/errors.rs`: the error type and its messages.

`app/` holds what Verus does not check: the SQLite database, the directory walk, FFmpeg
decoding and the commands that the user interface calls.
