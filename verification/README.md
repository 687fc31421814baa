# rules-cli

A rules engine for spreadsheet-managed business rules, with its logic
verified by Verus.

Rules are loaded from a worksheet or a JSON document and run against a JSON
object of facts. Each rule tests one fact with an operator (`eq`, `ne`, `gt`,
`gte`, `lt`, `lte`, `contains`, `starts_with`, `ends_with`, `in`) and, when it
matches, records itself, its message and (for scorecards) its score, and may
set the status with its action (`approve`, `reject`, `review`, `continue`).
Runs go by ascending `order`, unless a rule names the next one (`next_rule`,
or `next_true` / `next_false` for decision trees).

## Layout

- `src/` — the verified library:
  - `text.rs`: trimming, ASCII case, substring tests, decimal integers;
  - `json.rs`: JSON values, `f64` bit patterns and their order;
  - `rules.rs`: rules, errors, and the names of kinds, operators and actions;
  - `eval.rs`: evaluation of one condition;
  - `engine.rs`: the rule table, one step of a run, and `execute_rules`;
  - `run_laws.rs`: what every finished run keeps (scores, messages, status);
  - `termination.rs`: whether a run ends, decided in a bounded number of steps;
  - `sheet.rs`: rules read from worksheet rows;
  - `loading.rs`: rules and facts from JSON documents, and the rules format;
  - `lite.rs`: the embeddable engine that stops at the first decision.
- `app/` — the command line and the WebAssembly export: files, workbooks,
  `serde_json`, and the floating-point formatting of cells.
- `tests/` — scenarios and behaviour of the library.
