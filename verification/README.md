# Translational-equivalence compression of point sets, verified

A library that compresses sets of points `(tick, pitch)` by discovering
translational equivalence classes (TECs): a pattern of points together with
the vectors that translate it within the set. It is written in Verus, and
every function of `src/` is proved against its contract.

- `src/sia.rs`: SIA, the maximal translatable pattern of every vector, and
  its laws: the table depends only on the set of points, the temporal
  restriction keeps exactly the zero-pitch entries, adding points only
  grows the patterns.
- `src/siatec.rs`: SIATEC, the TEC of every maximal translatable pattern,
  and the proof that it has one result.
- `src/cosiatec.rs`: COSIATEC, greedy lossless compression by the TEC with
  the best compression ratio, and the proofs that the result partitions the
  dataset and is unique.
- `src/recursia.rs`: RecurSIA, COSIATEC applied again to large patterns, and
  the proofs that it covers the dataset, is built on the COSIATEC result,
  is unique, and recurses into nothing when the minimum pattern size
  exceeds the dataset.
- `src/tec.rs`: the TEC type and its coverage.
- `src/notes.rs`, `src/utils.rs`: note events and their points, rebuilding
  notes from TECs, merging TECs, counting the units of an encoding.
- `src/laws.rs`: laws across functions (rebuilding notes is lossless,
  merging keeps every covered point and is idempotent, unit counts add up).
- `src/sort.rs`, `src/geometry.rs`: ordering keys, a verified merge sort,
  and the vocabulary of points and vectors.
- `app/lib.rs`: floating-point statistics and hash-based views, outside
  verification.
