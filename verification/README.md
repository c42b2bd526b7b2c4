# vecdb

Verified core of a small vector-search toolkit over the Sakila film corpus,
written in Verus.

`src/` is the library. Its functions are proved against their contracts,
except the small trusted wrappers that call `std`'s hasher and the
`aprender-rag` pipeline, whose contracts are stated from those crates'
sources:

- `metric` — when two vectors can be compared by a metric.
- `embed` — the deterministic hash embedder: which texts are accepted and
  which hash each component is drawn from.
- `filter` — payload conditions and the filter-then-search query builder.
- `rank` — order keys of `f32` scores and the stable highest-first order.
- `fusion` — reciprocal rank fusion: ids grouped with their ranks.
- `film` — the film row, hits, the point a film is stored as, how a
  returned vector-database point becomes a hit, and when a collection
  counts as existing.
- `pipeline` — in-process film retrieval on top of `aprender-rag`.
- `corpus` — defaults and the location of the film corpus.

`app/` is the command-line tool around it: file and network I/O, the Qdrant
client, and the floating-point arithmetic (metrics, embedding vectors, fused
scores). `tests/` exercises the library from outside.
