# top_tree

A self-adjusting top tree over a dynamic forest, verified with Verus.

Vertices carry values, edges carry clusters of a user-chosen `Cluster` type
(`compress`, `rake`, `reverse`, `identity`). The forest supports `link`,
`cut`, `expose`, `soft_expose`, `path_query` (the fold of the path between
two vertices) and `select` (a guided descent to an edge). The clusters for
path length, diameter, center, farthest vertex and weighted median come with
the library.

## Layout

- `src/node.rs`: the node kinds, the `Cluster` trait, the arena `TopTree`
  with its well-formedness (`wf`) and its forest shape (`shaped`: every child
  names its parent, every parent holds its children, ranks grow upward).
  Every operation states `edges_kept`: each edge keeps its two ends and its
  value, or is turned round (ends swapped, value reversed); reversing a path
  cluster also states which slots it may touch (`kept_outside`).
- `src/arena.rs`: slot access and single-field updates with exact contracts.
- `src/parent_dir.rs`: where a node stands below its parent.
- `src/shape.rs`: walks upward (`in_sub`) and the lemmas that keep the
  shape through rotations and through the swaps of `expose`.
- `src/splay.rs`: rotations with exact link-level contracts, and splaying
  of compress and rake trees, proved to reach the top of their tree.
- `src/expose.rs`, `src/link.rs`, `src/cut.rs`, `src/path_query.rs`,
  `src/select.rs`: the operations.
- `src/query/`: the cluster types, with saturating arithmetic, their
  algebraic laws as proof functions, and the two query programs
  (`farthest_answers`, `yuki772_answers`) that decode a list of queries and
  answer them.
- `tests/`: scenarios checked against a brute-force forest, and the laws on
  concrete values.
- `app/`: the example programs: they read queries from standard input,
  hand them to the library and print the answers.
