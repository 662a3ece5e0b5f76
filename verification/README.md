# postings

Compressed posting lists for an inverted index, with machine-checked contracts.

- `src/` is the library. Every item of it is verified with Verus: block codecs
  and the two-level skip directory of posting lists, their footers, merging and
  streaming, lists opened by their footer alone, cursors and intersections,
  impact envelopes, compressed bitmaps, bit-packed block formats, and the
  postings, vectors and dimension codes of sparse vectors.
- `app/` is ordinary Rust around the library: files, floating-point scores and
  configuration as text.
- `tests/` runs the library on concrete values.

Single-precision numbers are held as their bits in `src/`; what has to be
computed with them, a caller supplies as a function.
