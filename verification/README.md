# PackMind

PackMind indexes a repository into an AST-aware code graph and builds small,
explained, token-budgeted context packs for coding agents, ordered so that
prompt caches stay warm across queries.

## Layout

- `src/` — the verified library (Verus). Every function carries a contract
  over mathematical models (`Seq`, `Map`, views of the library's types), and
  the properties that span functions are stated as public proof functions
  (`lemma_*`).
  - `norm`, `hash`, `model`, `tokens` — content normalization, content
    addressing, node/edge model, token counting.
  - `syntax`, `langs/`, `plugin`, `markdown`, `walk` — parsing (tree-sitter),
    the `LanguagePlugin` trait and its per-language implementations, document chunking, file filters.
  - `index`, `edges`, `hotset` — incremental re-index planning (what is
    preserved, what goes stale), edge resolution, per-run chunk counts, the hot set.
  - `candidates`, `search`, `profile`, `plan`, `render`, `report`, `summary`
    — query analysis, the bounded candidate walk and anchor-safe pruning,
    task modes, budgeted selection with signature
    substitution, cache-stable ordering, envelopes and cache keys, pack
    summaries.
  - `review` — the impact lists and review query of a change.
  - `route`, `walk_graph`, `clock` — CLI/MCP routing decisions, level-by-level
    graph walks, calendar arithmetic.
- `app/` — the command-line program around the library: SQLite store,
  filesystem walk, floating-point scoring, JSON wire formats, MCP stdio
  server.
- `tests/` — tests of the library on concrete values.
