# lau-adinkra

Adinkra symbols as compressed behavioural signatures of agents. An agent's
profile of five traits (patience, precision, playfulness, conservation
affinity, social tendency) projects onto a symbol with a geometry, a symmetry
and a proverb; a registry keeps agents and symbols and groups agents into
clusters of similar behaviour.

## Layout

- `src/` — the verified library (Verus).
  - `id.rs` — `AdinkraId`.
  - `symbol.rs` — `SymbolMeaning`, `SymbolGeometry`, `AdinkraSymbol`, balance,
    and the five pre-built symbols.
  - `signature.rs` — `AgentSignature`, `TraitReading`, and the projection of a
    signature onto a symbol (geometry decision tree, proverb choice).
  - `registry.rs` — `AdinkraRegistry`: registration, look-ups, balanced
    count, similar agents, clustering; with read-after-write laws.
  - `cluster.rs` — single-linkage clustering: union-find with path
    compression, proved to return exactly the connected components.
  - `graph.rs` — walks and reachability over a node set.
  - `keyed.rs` — a sequence of entries with distinct keys, seen as a map.
- `app/` — ordinary Rust around the library: the real-valued arithmetic on
  trait values (clamping, distances, spread, thresholds, averages) and the
  serde forms of the library's types.
- `tests/` — tests of the library.

Trait values and complexity scores are real numbers; the library holds them
as the bit patterns of IEEE-754 doubles and never computes with them. The
decisions that depend on them reach the library as plain values: a
`TraitReading` of threshold tests for the projection, flags for similarity,
and a link matrix for clustering.
