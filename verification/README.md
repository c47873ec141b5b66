# seqsearch

Verified building blocks for text and vector search, written in Verus.

`src/` is the verified library:

- `bwt`, `bwt_laws`, `suffix_array`, `induced_order`, `counting`: the
  Burrows-Wheeler transform (suffix array by induced sorting, checked in
  linear time, forward transform, LF-mapping inverse), why induced sorting
  orders suffixes, the mathematics of the inverse and the round-trip law.
- `bits`, `rabitq`: packed sign codes, popcounts and Hamming distances, and
  the shape checks of a RaBitQ vector index.
- `le_bytes`, `ivf`, `ivf_file`: the IVF container format (metadata block,
  header, footer, checksum, record section, whole files) with round-trip
  laws.
- `text`, `search`, `file_filter`, `file_text`, `cache_key`: the logic of a
  full-text search tool (query terms, line offsets, matching lines with
  context, walk filters, decoding file contents, index cache keys).
- `doc_format`: the sentence layout of generated documents.
- `helix`: mode and category names and case-insensitive lookup of editor
  keybindings and commands.

`tests/` exercises the library; `app/` holds the programs and I/O around it
(floating-point vector code, Tantivy indexing, Vortex arrays, command-line
interfaces).
