# dry_core

The core of a structural duplicate detector: forms of source code are
compared by their sets of subtree fingerprints, exact duplicates are
grouped by fingerprint set, near duplicates are linked by Jaccard
similarity and carved into maximal cliques, and each group is
anti-unified into a template whose holes show where its members differ.

Layout:

- `src/` — the library, verified with Verus. Contracts are stated over
  mathematical models (`Seq`, `Set`, `Map`, views of each type);
  `*_laws.rs`, `antiunify_holes.rs`, `antiunify_perm.rs` and
  `carving_stability.rs` hold the properties that span functions
  (template reconstruction, pre-order hole numbering and hole kinds,
  independence from member order, the divergence tally, clique and
  maximality guarantees, edge conservation, independence from edge
  order).
- `tests/` — tests of the library on concrete values.
- `app/` — what stays outside the verifier: floating-point scores and
  tiers, the command line, configuration files, the file walk,
  serialization and report rendering. It calls the library for the
  logic above.
