# rx_core

Basic extensions for Rust programs, written in Verus: each function of
the library in `src/` carries a contract that Verus proves.

- `src/algo`: searches in sorted slices, deque helpers, the largest element,
  slice windows and differences.
- `src/collections`: `TopQueue` (the first N elements, in order) and
  `VecMap` (a string map that keeps insertion order).
- `src/m`: ranges, ordering helpers, histograms and their most frequent
  values.
- `src/text`: replacement tables, key-value text maps, tab-separated
  records, the byte order of strings, UUIDs named by text.
- `src/fs.rs`, `src/dir.rs`: file names, stems, extensions, joining,
  ancestors, and which files of one listing have no counterpart in another.
- `src/html.rs`, `src/dom.rs`, `src/encoding.rs`: HTML element trees, parsing
  a page with html5ever into a document tree, the declared character set, GBK decoding.
- `src/searcher.rs`: narrowing down addresses in binary data.
- `src/book.rs`: the decisions of a shelf of books read from the web:
  which chapters an update fetches, which a binding puts together and how
  it moves the book on, what a listing shows, where chapter files go and
  what they hold, and how many books each host serves.
- `src/encryptor.rs`, `src/id.rs`, `src/c.rs`, `src/app.rs`: AES-128-CBC,
  typed identifiers, C strings, package descriptions.

`tests/` runs the library on concrete values. `app/` holds what the
library leaves to ordinary Rust: files and directories, serialised files,
logging, waiting, floating-point arithmetic, the serde
forms of the library's types, and the files and commands of the book shelf.
