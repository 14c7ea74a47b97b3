# novstar

A corpus of book comments, verified with Verus.

- `src/text.rs`: byte-level search, splitting and slicing of UTF-8 text.
- `src/raw.rs`: reading a raw export into comments with book names.
- `src/cut.rs`: the word cut of a comment (byte deltas) and `Comment::words`.
- `src/data.rs`: `Data`, built from a raw export with jieba's word cut, and its
  compressed storage (bincode records in a zstd frame), read back with bincode's
  memory limit set to `DECODE_LIMIT` so that no length in the bytes can ask for more.
- `src/engine.rs`: the search engine: comments grouped by book, search by patterns.
- `src/tag.rs`: tag analysis over runs of consecutive words, counted in a `DashMap`.
- `src/page.rs`, `src/export.rs`: what the search page and the text exports show.
- `app/`: the command-line tools (SQLite, files, logging, threads).
