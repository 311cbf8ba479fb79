# omni_lint

A language-agnostic framework for building linters: configuration, rule
scheduling, diagnostics, TODO baselines and reporting, with language plugins
that publish an AST and a JSON *facts* view, and rule packs that read those
facts. The logic is written in Verus and proved against its contracts.

## Layout

- `src/` — the verified library.
  - `diagnostic`, `source`, `plugin`, `registry`, `config`: findings, source
    files and locations, rule metadata, registration, configuration.
  - `baseline`, `runner`, `report`, `todo`, `cli`: baseline matching and
    pruning, run planning and finalisation, text/JSON reports, pair budgets,
    the command line.
  - `graphql/`: the built-in GraphQL plugin (lexer, parser, schema model,
    facts) and its example rules.
  - `wasm/`: the sandbox contract for WASM modules (result framing, span
    clamps, size limits, metadata validation, merging per-file facts, turning
    a rule pack's findings into diagnostics).
  - `demo/`: the demo guest modules' logic (two SDL scanners, the rule pack's
    rules and its run entry point).
  - `laws`: properties of the library as a whole, stated and proved.
- `tests/` — tests of the library on concrete values.
- `app/` — the `omni-lint` binary: file system, TOML and JSON, wasmtime, and
  the plugin/rule objects the engine drives.
