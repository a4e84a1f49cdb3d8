# impact_core

Blast-radius analysis over a language-agnostic symbol graph: given a symbol, a file, a
described change or a unified diff, which functions, tests, API routes, events and
database tables depend on it, how directly, and how confidently.

The library under `src/` is verified with Verus:

- `graph`, `adapter`, `scope`, `syntax`: the symbol graph, what language adapters report,
  per-file import scope, and parse trees as plain values.
- `linker`, `packages`, `link`: tiered name resolution and linking references into edges,
  within a call site's language and the packages it can reach.
- `engine`, `radius`: the reverse walk and the report, with the laws it keeps
  (reverse reachability, weakest-link confidence, determinism).
- `change`, `diff`: the `--change` grammar and unified-diff parsing.
- `parse`: parsing Go and C++ source with tree-sitter's grammars into `Syntax` trees.
- `go`, `go_calls`, `cpp`: the Go and C++ adapters, reading declarations, calls and routes
  off parse trees.
- `indexer`, `config`, `workspace`: the decisions of an indexing run, detector settings,
  and cross-project contract matching.
- `text`, `order`, `indices`: character-level helpers, text order, and index selections.

`app/` holds what touches the outside world: the SQLite cache, reading `impact.toml` and
`workspace.toml`, walking a project and reading its files, and the serialized report
shapes.
