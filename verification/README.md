# hammer

A Hamming-distance similarity index, verified with Verus. Given a query, the
database returns every indexed value within a configured Hamming distance of
it, following the HmSearch scheme of Zhang et al.: values are cut into
partitions, and each partition is indexed by its one-dimension deletion
variants.

Layout of `src/`:

- `db` — the database: partition layout, insertion, removal and queries,
  with its laws (what a query finds, what an insertion or a removal does).
- `window`, `window_width`, `value`, `hamming`, `bits` — windows of values, the
  window width chosen for a value type, Hamming distances and the bit-level
  models they are stated over.
- `deletion`, `deletion_variant`, `substitution`, `substitution_variant`,
  `deleted_value` — the variants that the indexes are keyed by.
- `bit_matrix` — bit matrices, their operators and their algebra.
- `map_set`, `id_map`, `store`, `result_accumulator` — the stores behind the
  database and the accumulation of partition matches.
- `hashing`, `byte_order` — the calls into `std`'s SipHash, `fnv` and
  `byteorder`, each behind a small trusted wrapper whose contract is stated.
- `evicting_store` — an adaptive replacement cache (ARC) of tokens, and a
  doubly linked list over an arena of links.
- `http` — the request and response types of the HTTP interface.

`tests/` exercises the library on concrete values.
