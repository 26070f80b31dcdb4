//! Smoke tests: the manifest checks on the fixture manifests.

use spine_rules::helpers;
use spine_rules::keyed::StrMap;
use spine_rules::types::{ExitCode, OperatorManifest, RefusalEntry, Subcommand};

const CANON_OPERATOR: &str = r#"{
  "schema_version": "operator.v0",
  "name": "canon",
  "version": "0.2.1",
  "description": "Canonical identifier resolution",
  "exit_codes": {
    "0": { "meaning": "RESOLVED", "domain": "positive" },
    "1": { "meaning": "PARTIAL", "domain": "negative" },
    "2": { "meaning": "REFUSAL", "domain": "error" }
  },
  "refusals": [
    { "code": "E_IO", "message": "Cannot read file" },
    { "code": "E_ENCODING", "message": "Bad encoding" }
  ],
  "subcommands": []
}"#;

const VACUUM_OPERATOR: &str = r#"{
  "schema_version": "operator.v0",
  "name": "vacuum",
  "version": "0.2.1",
  "description": "Artifact enumerator",
  "exit_codes": {
    "0": { "meaning": "SCAN_COMPLETE", "domain": "positive" },
    "2": { "meaning": "REFUSAL", "domain": "error" }
  },
  "refusals": [
    { "code": "E_ROOT_NOT_FOUND", "message": "Root path doesn't exist" }
  ],
  "subcommands": []
}"#;

const LOCK_OPERATOR: &str = r#"{
  "schema_version": "operator.v0",
  "name": "lock",
  "version": "0.3.1",
  "description": "Dataset lockfile tool",
  "exit_codes": {
    "0": { "meaning": "LOCK_CREATED", "domain": "positive" },
    "1": { "meaning": "LOCK_PARTIAL", "domain": "negative" },
    "2": { "meaning": "REFUSAL", "domain": "error" }
  },
  "refusals": [
    { "code": "E_EMPTY", "message": "No input records" },
    { "code": "E_BAD_INPUT", "message": "Invalid JSONL" },
    { "code": "E_MISSING_HASH", "message": "Records lack bytes_hash" }
  ],
  "subcommands": [
    {
      "name": "verify",
      "description": "Verify lockfile integrity",
      "refusals": [
        { "code": "E_IO", "message": "Cannot read lockfile" },
        { "code": "E_BAD_LOCKFILE", "message": "Malformed JSON" },
        { "code": "E_UNSUPPORTED_VERSION", "message": "Version not supported" },
        { "code": "E_ROOT_NOT_FOUND", "message": "Root dir missing" },
        { "code": "E_UNKNOWN_ALGORITHM", "message": "Unknown hash algo" }
      ]
    }
  ]
}"#;

fn text(v: &serde_json::Value, key: &str) -> String {
    v.get(key).and_then(|x| x.as_str()).unwrap_or_default().to_string()
}

fn opt_text(v: &serde_json::Value, key: &str) -> Option<String> {
    v.get(key).and_then(|x| x.as_str()).map(|s| s.to_string())
}

fn refusals(v: &serde_json::Value) -> Vec<RefusalEntry> {
    v.get("refusals")
        .and_then(|r| r.as_array())
        .map(|items| {
            items
                .iter()
                .map(|r| RefusalEntry {
                    code: text(r, "code"),
                    message: opt_text(r, "message"),
                    action: opt_text(r, "action"),
                    tool: opt_text(r, "tool"),
                    flag: opt_text(r, "flag"),
                })
                .collect()
        })
        .unwrap_or_default()
}

/// Builds the manifest that the fixture JSON describes.
fn manifest(json: &str) -> OperatorManifest {
    let v: serde_json::Value = serde_json::from_str(json).expect("fixture must be valid JSON");
    let mut exit_codes = StrMap::new();
    for (code, entry) in v["exit_codes"].as_object().unwrap() {
        exit_codes.insert(
            code.clone(),
            ExitCode { meaning: text(entry, "meaning"), domain: text(entry, "domain") },
        );
    }
    let subcommands = v["subcommands"]
        .as_array()
        .unwrap()
        .iter()
        .map(|s| Subcommand {
            name: text(s, "name"),
            description: opt_text(s, "description"),
            refusals: refusals(s),
            extra: StrMap::new(),
        })
        .collect();
    OperatorManifest {
        schema_version: text(&v, "schema_version"),
        name: text(&v, "name"),
        version: text(&v, "version"),
        description: text(&v, "description"),
        repository: None,
        license: None,
        agent_guide: None,
        invocation: None,
        arguments: Vec::new(),
        options: Vec::new(),
        subcommands,
        exit_codes,
        refusals: refusals(&v),
        capabilities: None,
        pipeline: None,
    }
}

fn trinity(json: &str, require_1: bool) {
    if let Err(violation) = helpers::assert_exit_codes_trinity(&manifest(json), require_1) {
        panic!("{}", violation.message());
    }
}

#[test]
fn exit_codes_trinity_standard() {
    trinity(CANON_OPERATOR, true);
}

#[test]
fn exit_codes_trinity_no_exit_1() {
    trinity(VACUUM_OPERATOR, false);
}

#[test]
#[should_panic(expected = "R-002/R-007")]
fn exit_codes_trinity_fails_when_1_required_but_missing() {
    trinity(VACUUM_OPERATOR, true);
}

#[test]
fn collect_refusal_codes_includes_subcommands() {
    let codes = helpers::collect_refusal_codes_from_manifest(&manifest(LOCK_OPERATOR));
    // Top-level: E_EMPTY, E_BAD_INPUT, E_MISSING_HASH
    // Subcommand: E_IO, E_BAD_LOCKFILE, E_UNSUPPORTED_VERSION, E_ROOT_NOT_FOUND, E_UNKNOWN_ALGORITHM
    assert_eq!(codes.len(), 8);
    assert!(codes.contains("E_EMPTY"));
    assert!(codes.contains("E_BAD_LOCKFILE"));
    assert!(codes.contains("E_UNKNOWN_ALGORITHM"));
}

#[test]
fn extract_e_codes_from_source_works() {
    let source = r#"
        fn handle_error(e: Error) -> RefusalCode {
            match e {
                Error::Io(_) => "E_IO",
                Error::Parse(_) => "E_CSV_PARSE",
            }
        }
        // Not a code: "EXAMPLE_THING"
        let msg = "E_ENCODING";
    "#;

    let codes = helpers::extract_e_codes_from_source(source);
    assert!(codes.contains("E_IO"));
    assert!(codes.contains("E_CSV_PARSE"));
    assert!(codes.contains("E_ENCODING"));
    assert!(!codes.contains("EXAMPLE_THING"));
    assert_eq!(codes.len(), 3);
}
