# laurus

Building blocks of a lexical and vector search core, written in Verus: each
function of the library states its behaviour in `requires` / `ensures` and
Verus proves it.

## Layout

- `src/` — the verified library.
  - `id` — document ids that carry a shard in their top bits.
  - `seqs`, `text` — sequence and string facts shared by the other modules.
  - `terms`, `multi_term`, `prefix`, `pattern`, `wildcard`, `regexp` — a
    sorted term dictionary and the expansion of prefix, wildcard and
    regular-expression queries into the terms they match, with top-k
    rewriting by document frequency.
  - `field`, `data` — field options, field values and documents, and the
    fields a schema keeps when a document is read back.
  - `segment` — document segment files (a byte format with its decoder) and
    the document store that assigns ids and groups documents into segments.
  - `bkd`, `bkd_tree`, `bkd_writer`, `bkd_file` — numeric range search: an
    in-memory sorted index, a median-split tree, the file it is written to,
    and the reader that searches that file.
  - `vector_query`, `vector_request`, `vector_field`, `registry` — the vector
    query language, field selection for vector requests, field name
    checks, and the registry of vector documents with its snapshots.
  - `search_plan` — the decisions of the search and embedding entry points:
    which searches run with which limits, which requests are refused, how
    the ranked hits are cut to a search's limit, and what is done with a
    payload.
- `tests/` — tests run against the compiled library.
- `app/` — what is not verified: file storage, locking, serde copies of the
  library's types, and the float-scored parts of hybrid search (field hit
  merging and result fusion).

Numbers that the search core compares as floating point are held in the
library as `u64` order keys, and BKD files store them as the bits of IEEE
754 doubles. The correspondence between keys and double bits is verified
(`bkd_file::key_of_bits` and `bits_of_key`); for numbers other than NaN,
keys compare as the numbers do. Which key a float gets is decided in
`app/numeric.rs`, which is not verified: the two zeros share a key, and
NaN gets the highest key, so a NaN point falls within a range that has no
upper bound, where a floating-point comparison would leave it out.
