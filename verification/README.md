# predicate_pushdown

Predicate pushdown through projections, verified with Verus: which predicates of a query plan can be
evaluated below a projection, which have to stay above it, and how they are renamed and combined on
their way down.

Layout:

- `src/arena.rs`, `src/aexpr.rs`, `src/names.rs`, `src/schema.rs`: expressions in an arena, column
  names, schemas
- `src/collections.rs`: hash maps and sets of the `hashbrown` crate behind contracts
- `src/traversal.rs`: walks through expressions
- `src/keys.rs`: the keys of accumulated predicates
- `src/rename.rs`, `src/combine.rs`, `src/transfer.rs`: renaming, combining and keeping back
  predicates
- `src/boundary.rs`, `src/allowed.rs`: what predicates cannot be pushed past
- `src/projection.rs`: predicates pushed past the projections of a node
- `src/laws.rs`, `src/key_laws.rs`, `src/pushdown_laws.rs`, `src/evaluation.rs`, `src/origins.rs`,
  `src/row_laws.rs`, `src/meaning_laws.rs`: what holds of the operations together; the last two say
  that the same rows are kept, and in which cases they are not
- `tests/`: the library on concrete expressions and rows
