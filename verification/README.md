# spine-rules

Shared golden-rules enforcement for spine tools, with its rules proved.

- `src/` is the verified library. It decides each rule on plain values:
  composite-key normalisation, encoding and conformance (`composite_key`),
  the operator-manifest and source-code rules and the judgements on a tool's
  captured runs (`helpers`), the captured run and JSON/JSONL output parsing
  (`pipeline`), the manifest types (`types`), ordered string maps (`keyed`),
  text handling (`text`) and the calls into `serde_json` (`json`).
- `app/` runs the tools, reads the files, parses `operator.json` with serde,
  and turns a broken rule into a test failure; it also holds the
  `golden_rules_suite!` and `require_binaries!` macros.
- `tests/` exercises the library on concrete values.
