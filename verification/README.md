# search_core

A small full-text search engine over XML and XHTML documents, written in
Verus. The library in `src/` is verified; `app/` is the command-line program
and HTTP service around it.

## Library (`src/`)

- `str_map.rs` — `StrMap`, a string-keyed map that keeps its entries in a
  sequence and finds them through a hash table; its meaning is a `Map` from
  character sequences to values.
- `model.rs` — the index model: per-document token counts (`TF`), document
  frequencies (`DF`), documents with their modification times, and the batch
  updates (`Update`, `Bulk`) that change a model. `Model::apply` is specified
  by `apply_all`, and `Doc::diff` by `diff_spec`.
- `lexer.rs` — splits text into words, numbers and single symbols, lowers
  ASCII capitals in words, and stems each token with the English Snowball
  stemmer of the `snowstem` crate (a word of more UTF-8 bytes than the
  stemmer's 32-bit positions leave room for is kept as it is).
- `file_process.rs` — the text of an XML document (read with the `xml-rs`
  crate), the choice of XML files by the extension of their file name, term
  counting, and adding a document to the model.
- `reindex.rs` — the updates that bring a model in line with the files on
  disk: nothing for an unchanged file, a removal for a deleted one, and a
  diff for a changed one.
- `calculate.rs` — the whole numbers TF-IDF ranking is computed from, and the
  selection of the highest-ranked documents with their paths.
- `laws.rs` — properties that span several functions: applying a diff stores
  the fresh document, re-indexing leaves the index of the files still on
  disk, document frequencies stay equal to the number of documents holding a
  token, and words come out in small letters.

## Program (`app/`)

```
app index <INPUT_DIR> [OUTPUT_FILE]
app search <QUERY> <INDEX_FILE>
app serve <INDEX_FILE> [ADDRESS]
```

The program walks directories, reads files and file times, writes and reads
the JSON index, computes the floating-point TF-IDF scores, and serves
`POST /api/search`.
