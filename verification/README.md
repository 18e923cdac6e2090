# rust-statement-spacing

A linter and transactional autofixer for blank-line placement in Rust
statement and item sequences, written in Verus: the spacing policy, the
source model, the edits and the decisions of the fixing workflow are proved
against their contracts.

## Layout

- `src/model.rs`, `src/config.rs`: the source model (units, gaps, facts) and
  the rule policy with its validation.
- `src/relations.rs`, `src/planner.rs`, `src/planner/`: relationships between
  statements and the planner that turns a model into findings and
  whitespace-only edits (mandatory joins, phase separations, the optional
  joins of related units under `join_related`, setup splitting, and the cap on
  blank lines).
- `src/edits.rs`, `src/text.rs`, `src/slices.rs`: applying edits, raw and
  normalized offsets, and byte-level text helpers.
- `src/syntax.rs`, `src/syntax/`: parsing with `ra_ap_syntax` (behind trusted
  wrappers), the plain syntax tree, comments, protected regions, compiler facts
  and lowering to the source model.
- `src/analysis.rs`, `src/spans.rs`, `src/workspace.rs`: the check of one
  file, compiler offsets, and which workspace files are checked.
- `src/diagnostics.rs`, `src/suggestions.rs`, `src/runs.rs`,
  `src/snapshot.rs`, `src/baseline.rs`, `src/json.rs`, `src/manifest.rs`, `src/transactions.rs`, `src/patch.rs`,
  `src/workflow.rs`: the decisions of the `cargo statement-spacing` command —
  JSON values and the readers of compiler diagnostics, lint handshakes, Cargo
  metadata and manifests, accepting suggestions, lint runs, snapshots,
  baselines, transactions, patch previews, and the order of a run's steps
  (check, verify, then commit).
- `app/`: the command itself — argument parsing, processes, files and the
  JSON report — calling the library for every decision.
- `tests/`: the test suite.
