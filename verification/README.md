# Block intersection of posting lists

A posting-list block holds the low 16 bits of the document ids of one block of
65536 documents, strictly increasing. This crate intersects two such blocks and
returns, for each document found in both, its full document id
(`block_id << 16 | value`) and its index in each block, in ascending order.

- `src/spec.rs` — the model: valid inputs, what a hit is, and when a list of
  hits is *the* intersection (`is_intersection`), with the proof that it is
  unique.
- `src/lanes.rs` — lane masks of an 8 × 16-bit vector ("equal any" with
  explicit or zero-terminated lengths, "equal to one value") and the bit facts
  used to walk a mask lowest lane first.
- `src/merge.rs` — the scalar merge, which also finishes the tails of the
  block strategies.
- `src/vector16.rs` — block-against-block intersection.
- `src/broadcast16.rs` — value-against-block intersection.
- `src/laws.rs` — ascending document order, the low bits of a document id,
  and symmetry in the two lists.
- `app/lib.rs` — hands each hit to a caller's result sink.

Every function in `src/` is verified with Verus; `tests/` runs them on
concrete blocks and checks the three strategies against each other.
