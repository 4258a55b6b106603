# syntree

A memory efficient syntax tree, stored contiguously, with its behaviour
stated in contracts and proved by Verus.

* `src/builder.rs` — `TreeBuilder`: `open`, `close`, `token`, `checkpoint`,
  `close_at` and `build`. Each operation states how the preorder view of the
  forest (depths, data, spans) changes, and when it fails.
* `src/tree.rs` — `Tree` and `Node`: navigation (`parent`, `next`, `first`,
  ...), walks, and span queries (`node_with_span`, `node_with_range`).
* `src/node/` — the iterators: `Children` (from both ends, and `walk_rev`),
  `Siblings`, `Ancestors`, `Walk` (with `inside`, `with_depths`,
  `skip_tokens`) and `WalkEvents`, each specified by the nodes it has yet to
  produce.
* `src/shape.rs` — a forest as the sequence of node depths in preorder, and
  the links (parent, siblings, children) as functions of it.
* `src/raw.rs`, `src/grow.rs`, `src/wrap.rs` — the node arena, its
  invariant, and why appending a node or wrapping siblings keeps it.
* `src/nesting.rs` — spans nest: a node covers every node below it, and
  tokens follow each other without gaps.
* `src/equality.rs` — trees are equal when shape, data and spans agree.
* `src/print.rs` — the lines a pretty-printed tree shows.
* `app/lib.rs` — writing printed trees out, error messages with `Display`,
  and adapters to the standard `Iterator` traits.
