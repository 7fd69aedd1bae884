# Epistemos Recall

Local search over notes, in two forms: a query that someone typed, and the text
that someone is writing, for which the note being written is left out. The
library is written in Verus: what each function returns is stated in its
contract and proved.

## Layout

- `src/semantic`: the catalog of a vault. Notes are cut into chunks with stable
  identities; generations, leases and receipts decide which rankings may be
  fused; cosines and fused scores are exact.
- `src/shadow`: documents in memory and in a full-text index, the rows of a
  vector index, and the answers to callers in C.
- `src/recall`: three rankings of notes (title, full text, trigrams) and their
  weighted fusion.
- `src/instant`: embeddings by hashed trigrams, a two-phase index, layers of
  memory, fusion of signals with a second ranking, and segments.
- `src/quant`: packed codes, binary signatures, grids and tables, rotations by
  butterflies, and caches in few bits.
- `src/single.rs` and `src/double.rs`: arithmetic on the bits of singles and
  doubles, for every bit pattern. It rests on `src/float.rs` and
  `src/rounding.rs`: numbers as integers with an exponent, rounded to nearest, so
  that scores can be stated exactly without floating point.
- `app`: the command line, files, locks, the embedding model, the graph of
  vectors, and sines, cosines and powers.
- `tests`: runs the library, and compares its scores with the hardware's.

Scores and vector components cross the library's interface as the bits of
floating-point numbers.

## What is trusted

Outside code is called through functions whose contracts are believed: SHA-256,
the bit vectors of `bitvec`, the hash maps of `rustc-hash`, the index of
Tantivy, and a few functions of the standard library. Each has a doc comment
that says what is claimed of it.
