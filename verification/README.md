# apotheosis

Approximate nearest-neighbour search over similarity digests (TLSH, ssdeep, or
anything with a distance), verified with Verus.

Records are kept in a store that finds them in two ways: exactly, by a radix tree
over the bytes of their digests, and by similarity, in a navigating spreading-out
graph. The graph is bootstrapped by NN-descent, which starts from random
neighbours or from the leaves of vantage-point trees.

## Layout

- `src/datalayer`: distances and medoids, graph nodes, records.
- `src/controllers`: vantage-point trees (`vantage`, `vp_forest`, `metric_tree`),
  NN-descent (`neighborhood`, `join`, `renew`, `nndescent`), best-first search
  (`search`), the graph (`occlusion`, `prune`, `link`, `connect`, `layout`,
  `nsg`), the radix tree and the store (`radix_tree`, `apotheosis`).
- `src/harness`: what a benchmark computes: hash lists out of JSON, shuffles,
  fingerprints, ground truth, cache decisions and scores.
- `src/order`, `src/random`, `src/bytes`: sorted lists, draws, byte order.
- `tests`: the library on concrete values.
- `app`: the benchmarks themselves: arguments, files, dumps, libfuzzy.

## What is proved

Every contract speaks of what comes out whatever was drawn: random choices are
inputs of the specification, and everything else follows from them. Among the
laws stated of the library as a whole:

- after a construction every node can be reached from the entry point;
- a search with room for every node is exact, and chance decides only where a
  search starts;
- a round of NN-descent makes no neighbour worse;
- a record that was kept is found by its own key, first and at distance 0;
- asked twice, a store answers the same;
- the edges of a graph that was saved are loaded as they were;
- a dump of a store, whatever store it is, gives back its records, keys,
  features, graph and sizes.

Trusted are the calls into `rand`, `tlsh2` and `serde_json`, two sorts of the
standard library and `String::push`; each carries a comment that says what is
claimed of it.
