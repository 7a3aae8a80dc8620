# woofind

Go symbol search: an inverted index from symbol names to the packages that
declare them, with exact, qualified (`redis.NewClient`), fuzzy and prefix
queries, built from the `go.mod` files and Go sources of a directory tree.

The library under `src/` is written in Verus. Every function states its
behaviour in `requires`/`ensures` over a mathematical model, and Verus proves
it:

- `index/` — the index (`InvertedIndex`, modelled by `IndexView`: name lists,
  package lists, first-character lists, module records) and its invariant;
  the queries (`query.rs`); edit distance and subsequence matching
  (`similarity.rs`); the builder that adds parsed modules and decides what a
  file-system event does (`builder.rs`); properties that span operations
  (`laws.rs`); and the `DashMap` operations the index relies on, with their
  contracts (`tables.rs`).
- `parser/` — `go.mod` headers, package clauses, and the symbols of a Go
  syntax tree; the tree itself comes from `tree-sitter` (`syntax.rs`).
- `cache.rs` — what the on-disk cache stores, how it is rebuilt into an
  index, and when a cache may be used.
- `api.rs`, `table.rs`, `paths.rs`, `text.rs` — API answers, table layout,
  path rules and character-level text operations.

Calls into `dashmap`, `nucleo` and `tree-sitter` go through small trusted
functions whose contracts describe those crates; each says in its doc
comment what it claims.

`app/` is the command-line program around the library: argument parsing,
directory walks and file reads, the cache files (bincode, JSON, memory
maps), the file watcher and the HTTP server.
