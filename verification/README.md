# hammingbird

Exact Hamming-distance pair search on packed binary vectors (rows of
`d_bytes` bytes, bits MSB-first), built on the pigeonhole prefilter: with
at least `k + 1` disjoint chunks, two rows within distance `k` agree on one
chunk, so bucketing rows by chunk key yields every such pair as a
candidate, and a popcount verify step keeps exactly the pairs within `k`.

The library in `src/` is verified with Verus. Its searches state their
results exactly: the strictly sorted list of `(i, j, dist)` that pass the
candidate filter and lie within `k`, and, in the supported regimes, every
pair within `k` (the pigeonhole and q-gram lower-bound laws).

Layout of `src/`:

- `bitspec`, `extract`, `rows`: the model of rows, bits, chunk keys and
  search results.
- `chunks`, `pigeonhole`, `laws`, `qgram_law`: chunk layouts and the laws
  (completeness of the prefilters, agreement of the searches, index laws).
- `hamming`, `candidates`, `verify`, `pipeline`: popcounts, per-chunk
  candidate generation, the verify step and the lemmas that join them.
- `search`, `bitsearch`, `cross`, `radix`, `qgram`, `regime`: the searches.
- `index`: the append-only streaming index.
- `sampling`: the stride sample and per-bit counts of ones behind the
  entropy estimate.
- `outside`: the trusted calls into std, hashbrown, rustc-hash and rayon.

`app/` holds the Python bindings (PyO3, numpy) and the floating-point
entropy formula and planning that feed `find_pairs_self_planned`.
