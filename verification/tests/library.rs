//! Scenarios for the verified library: concrete values for its laws, the edge
//! cases it handles, and each error variant.

use spine_rules::composite_key::{
    assert_authoritative_key_output, assert_ordered_tuple_semantics, display_label,
    encode_key_component, judge_key_output, observe_field, ordered_tuple_probes,
    judge_probe_prefix, reference_key_tuple, KeyOutputViolation, PointedField, TupleViolation,
    PROBE_COUNT,
};
use spine_rules::helpers::{
    assert_exit_codes_trinity, assert_refusal_codes_match_source, extract_e_codes_from_source,
    assert_csv_row_count_preserved, assert_describe_valid, assert_no_witness_suppresses_ledger, assert_output_has_version,
    assert_refusal_has_version, assert_schema_valid, assert_version_exits_zero,
    assert_witness_failure_nonfatal, strip_test_module, with_no_witness_flag,
    without_no_witness_flag, RefusalCodeViolation, RowCountViolation, RunViolation,
    TrinityViolation, WitnessViolation,
};
use spine_rules::keyed::StrMap;
use spine_rules::pipeline::{parse_json, parse_jsonl, ToolRun};
use spine_rules::types::{ExitCode, OperatorManifest, RefusalEntry, Subcommand};

fn strings(items: &[&str]) -> Vec<String> {
    items.iter().map(|s| s.to_string()).collect()
}

fn refusal(code: &str) -> RefusalEntry {
    RefusalEntry { code: code.to_string(), message: None, action: None, tool: None, flag: None }
}

fn manifest(codes: &[&str], refusals: &[&str], sub_refusals: &[&str]) -> OperatorManifest {
    let mut exit_codes = StrMap::new();
    for code in codes {
        exit_codes.insert(
            code.to_string(),
            ExitCode { meaning: "M".to_string(), domain: "d".to_string() },
        );
    }
    OperatorManifest {
        schema_version: "operator.v0".to_string(),
        name: "tool".to_string(),
        version: "0.1.0".to_string(),
        description: "a tool".to_string(),
        repository: None,
        license: None,
        agent_guide: None,
        invocation: None,
        arguments: Vec::new(),
        options: Vec::new(),
        subcommands: vec![Subcommand {
            name: "verify".to_string(),
            description: None,
            refusals: sub_refusals.iter().map(|c| refusal(c)).collect(),
            extra: StrMap::new(),
        }],
        exit_codes,
        refusals: refusals.iter().map(|c| refusal(c)).collect(),
        capabilities: None,
        pipeline: None,
    }
}

fn run(code: Option<i32>, stdout: &str) -> ToolRun {
    ToolRun { code, stdout: stdout.as_bytes().to_vec(), stderr: Vec::new() }
}

// ── Composite keys ──────────────────────────────────────────────────────────

#[test]
fn reference_key_trims_each_component_independently() {
    let key = reference_key_tuple(&[b" \tA ".to_vec(), b"\tEast\t".to_vec()]).unwrap();
    assert_eq!(key, vec![b"A".to_vec(), b"East".to_vec()]);
}

#[test]
fn reference_key_keeps_inner_blanks_and_literal_tokens() {
    let key = reference_key_tuple(&[b" N A ".to_vec(), b"NULL".to_vec()]).unwrap();
    assert_eq!(key, vec![b"N A".to_vec(), b"NULL".to_vec()]);
}

#[test]
fn reference_key_trims_only_spaces_and_tabs() {
    let key = reference_key_tuple(&[b"\nA\r".to_vec()]).unwrap();
    assert_eq!(key, vec![b"\nA\r".to_vec()]);
}

#[test]
fn reference_key_rejects_blank_component() {
    assert!(reference_key_tuple(&[b"A".to_vec(), b"\t \t".to_vec()]).is_none());
    assert!(reference_key_tuple(&[Vec::new()]).is_none());
}

#[test]
fn reference_key_of_empty_tuple_is_empty() {
    assert_eq!(reference_key_tuple(&[]), Some(Vec::new()));
}

#[test]
fn reference_key_is_idempotent_on_a_key() {
    let key = reference_key_tuple(&[b"  x y ".to_vec(), b"\tz".to_vec()]).unwrap();
    assert_eq!(reference_key_tuple(&key), Some(key.clone()));
}

#[test]
fn encoding_of_text_component() {
    assert_eq!(encode_key_component(b"A"), "u8:A");
    assert_eq!(encode_key_component("é".as_bytes()), "u8:é");
    assert_eq!(encode_key_component(b""), "u8:");
}

#[test]
fn encoding_of_binary_component() {
    assert_eq!(encode_key_component(b"\xff"), "hex:ff");
    assert_eq!(encode_key_component(b"a\xff\x0b"), "hex:61ff0b");
    assert_eq!(encode_key_component(b"\xc3"), "hex:c3");
}

#[test]
fn encodings_of_distinct_components_differ() {
    assert_ne!(encode_key_component(b"ff"), encode_key_component(b"\xff"));
    assert_ne!(encode_key_component(b"a\xff"), encode_key_component(b"\xffa"));
}

#[test]
fn display_label_joins_with_plus() {
    assert_eq!(display_label(&strings(&["u8:A", "hex:ff"])), "u8:A + hex:ff");
    assert_eq!(display_label(&strings(&["u8:A"])), "u8:A");
    assert_eq!(display_label(&Vec::new()), "");
}

#[test]
fn probes_follow_the_fixture_order() {
    let probes = ordered_tuple_probes();
    assert_eq!(probes.len(), PROBE_COUNT);
    assert_eq!(probes[0], vec![b" \tA ".to_vec(), b"\tEast\t".to_vec()]);
    assert_eq!(probes[1], vec![b"A".to_vec(), b"East".to_vec()]);
    assert_eq!(probes[19], vec![b"right".to_vec(), b"left".to_vec()]);
}

fn all_distinct_ranks() -> Vec<Option<u64>> {
    // A constructor that keeps every probe apart except the ones that must
    // coincide: ranks follow the reference keys' order.
    let mut r: Vec<Option<u64>> = vec![Some(0); PROBE_COUNT];
    r[0] = Some(1);
    r[1] = Some(1);
    r[2] = None;
    r[3] = Some(5);
    r[4] = Some(4);
    r[5] = Some(1);
    r[6] = Some(2);
    r[7] = Some(7);
    r[8] = Some(6);
    r[9] = Some(8);
    r[10] = Some(3);
    r[11] = Some(3);
    r[12] = Some(12);
    r[13] = Some(11);
    r[14] = Some(10);
    r[15] = Some(10);
    r[16] = Some(11);
    r[17] = Some(12);
    r[18] = Some(13);
    r[19] = Some(14);
    r
}

#[test]
fn conformance_accepts_consistent_ranks() {
    assert_eq!(assert_ordered_tuple_semantics(&all_distinct_ranks()), Ok(()));
}

#[test]
fn conformance_reports_each_rule() {
    let mut r = all_distinct_ranks();
    r[0] = Some(9);
    assert_eq!(assert_ordered_tuple_semantics(&r), Err(TupleViolation::PaddingNotTrimmed));

    let mut r = all_distinct_ranks();
    r[2] = Some(9);
    assert_eq!(assert_ordered_tuple_semantics(&r), Err(TupleViolation::IncompleteAccepted));

    let mut r = all_distinct_ranks();
    r[4] = None;
    assert_eq!(assert_ordered_tuple_semantics(&r), Err(TupleViolation::MissingKey(4)));

    let mut r = all_distinct_ranks();
    r[4] = r[3];
    assert_eq!(assert_ordered_tuple_semantics(&r), Err(TupleViolation::MissingTokensCollapsed));

    let mut r = all_distinct_ranks();
    r[8] = r[7];
    assert_eq!(assert_ordered_tuple_semantics(&r), Err(TupleViolation::BoundariesFlattened));

    let mut r = all_distinct_ranks();
    r[9] = None;
    assert_eq!(assert_ordered_tuple_semantics(&r), Err(TupleViolation::MissingKey(9)));

    let mut r = all_distinct_ranks();
    r[11] = Some(4);
    assert_eq!(assert_ordered_tuple_semantics(&r), Err(TupleViolation::DuplicatesDiffer));

    let mut r = all_distinct_ranks();
    r[15] = Some(12);
    r[17] = Some(10);
    assert_eq!(assert_ordered_tuple_semantics(&r), Err(TupleViolation::OrderNotLexicographic));

    let mut r = all_distinct_ranks();
    r[19] = r[18];
    assert_eq!(assert_ordered_tuple_semantics(&r), Err(TupleViolation::ComponentOrderIgnored));
}

#[test]
fn conformance_message_names_the_rule() {
    assert_eq!(
        TupleViolation::ComponentOrderIgnored.message(),
        "composite-key contract: component order is semantic"
    );
    assert_eq!(
        TupleViolation::MissingKey(3).message(),
        "composite-key contract: complete fixture must produce a key"
    );
}

fn key_output(json: &str) -> Result<(), KeyOutputViolation> {
    let output: serde_json::Value = serde_json::from_str(json).unwrap();
    assert_authoritative_key_output(
        &output,
        "/row_key",
        "/row_id",
        &[b" A ".to_vec(), b"\xff".to_vec()],
    )
}

#[test]
fn key_output_errors() {
    assert_eq!(
        key_output(r#"{"row_id": "u8:A + hex:ff"}"#),
        Err(KeyOutputViolation::MissingComponents)
    );
    assert_eq!(
        key_output(r#"{"row_key": ["hex:ff", "u8:A"], "row_id": "u8:A + hex:ff"}"#),
        Err(KeyOutputViolation::ComponentsMismatch)
    );
    assert_eq!(
        key_output(r#"{"row_key": "u8:A + hex:ff", "row_id": "u8:A + hex:ff"}"#),
        Err(KeyOutputViolation::ComponentsMismatch)
    );
    assert_eq!(
        key_output(r#"{"row_key": ["u8:A", "hex:ff"]}"#),
        Err(KeyOutputViolation::MissingDisplay)
    );
    assert_eq!(
        key_output(r#"{"row_key": ["u8:A", "hex:ff"], "row_id": "u8:A|hex:ff"}"#),
        Err(KeyOutputViolation::DisplayMismatch)
    );
    assert_eq!(
        key_output(r#"{"row_key": ["u8:A", "hex:ff"], "row_id": "u8:A + hex:ff"}"#),
        Ok(())
    );
    let output: serde_json::Value = serde_json::from_str("{}").unwrap();
    assert_eq!(
        assert_authoritative_key_output(&output, "/a", "/b", &[b" ".to_vec()]),
        Err(KeyOutputViolation::IncompleteExpectedKey)
    );
}

#[test]
fn key_output_messages_name_the_pointer() {
    assert_eq!(
        KeyOutputViolation::MissingComponents.message("/row_key", "/row_id"),
        "missing authoritative key component array at JSON pointer /row_key"
    );
    assert_eq!(
        KeyOutputViolation::DisplayMismatch.message("/row_key", "/row_id"),
        "display key label at /row_id must be derived from the component array"
    );
}

#[test]
fn observed_fields() {
    let output: serde_json::Value =
        serde_json::from_str(r#"{"a": ["x", 1], "b": "y", "c": 3, "d/e": "z"}"#).unwrap();
    assert_eq!(
        observe_field(&output, "/a"),
        PointedField::Array(vec![Some("x".to_string()), None])
    );
    assert_eq!(observe_field(&output, "/b"), PointedField::Text("y".to_string()));
    assert_eq!(observe_field(&output, "/c"), PointedField::Other);
    assert_eq!(observe_field(&output, "/d~1e"), PointedField::Text("z".to_string()));
    assert_eq!(observe_field(&output, "b"), PointedField::Missing);
    assert_eq!(observe_field(&output, "/zz"), PointedField::Missing);
    assert_eq!(
        judge_key_output(
            &PointedField::Array(vec![Some("u8:A".to_string())]),
            &PointedField::Text("u8:A".to_string()),
            &[b"A".to_vec()],
        ),
        Ok(())
    );
}

// ── Refusal codes in source ─────────────────────────────────────────────────

#[test]
fn extracts_overlapping_and_minimal_codes() {
    let codes = extract_e_codes_from_source(r#"x = "E_A"E_B"; y = "E_"; z = "E_a";"#);
    assert!(codes.contains("E_A"));
    assert!(codes.contains("E_B"));
    assert!(codes.contains("E_"));
    assert!(!codes.contains("E_a"));
    assert_eq!(codes.len(), 3);
}

#[test]
fn extraction_needs_the_closing_quote_on_the_line() {
    let codes = extract_e_codes_from_source("let a = \"E_OPEN\nlet b = \"E_CLOSED\";\n");
    assert!(!codes.contains("E_OPEN"));
    assert!(codes.contains("E_CLOSED"));
    assert_eq!(codes.len(), 1);
}

#[test]
fn extracted_codes_come_in_ascending_order() {
    let codes = extract_e_codes_from_source(r#""E_Z" "E_A" "E_M" "E_A""#);
    assert_eq!(codes.len(), 3);
    assert_eq!(codes.key_at(0), "E_A");
    assert_eq!(codes.key_at(1), "E_M");
    assert_eq!(codes.key_at(2), "E_Z");
}

#[test]
fn strip_test_module_cuts_at_the_marker() {
    let source = "fn a() {}\r\nlet x = \"E_X\";\n  #[cfg(test)]  \nmod tests { \"E_NOPE\" }\n";
    assert_eq!(strip_test_module(source), "fn a() {}\nlet x = \"E_X\";\n");
}

#[test]
fn strip_test_module_without_marker_keeps_every_line() {
    assert_eq!(strip_test_module("a\nb"), "a\nb\n");
    assert_eq!(strip_test_module(""), "");
    assert_eq!(strip_test_module("a\n\nb\n"), "a\n\nb\n");
}

#[test]
fn refusal_codes_match_source() {
    let m = manifest(&["0", "1", "2"], &["E_IO"], &["E_BAD"]);
    let sources = strings(&["match e { Io => \"E_IO\", Bad => \"E_BAD\" }\n"]);
    assert_eq!(assert_refusal_codes_match_source(&m, &sources), Ok(()));
}

#[test]
fn refusal_code_declared_but_absent() {
    let m = manifest(&["0", "1", "2"], &["E_ZED", "E_IO"], &["E_ALPHA"]);
    let sources = strings(&["\"E_IO\"\n", "#[cfg(test)]\n\"E_ALPHA\"\n"]);
    let res = assert_refusal_codes_match_source(&m, &sources);
    assert_eq!(res, Err(RefusalCodeViolation::DeclaredButAbsent("E_ALPHA".to_string())));
    assert_eq!(
        res.unwrap_err().message(),
        "R-007 VIOLATION: operator.json declares 'E_ALPHA' but it never appears in source"
    );
}

#[test]
fn refusal_code_emitted_but_undeclared() {
    let m = manifest(&["0", "1", "2"], &["E_IO"], &[]);
    let sources = strings(&["\"E_IO\" \"E_ROGUE\" \"E_OTHER\"\n"]);
    let res = assert_refusal_codes_match_source(&m, &sources);
    assert_eq!(res, Err(RefusalCodeViolation::EmittedButUndeclared("E_OTHER".to_string())));
    assert_eq!(
        res.unwrap_err().message(),
        "R-007 VIOLATION: Source emits 'E_OTHER' but operator.json does not declare it"
    );
}

#[test]
fn declared_code_found_as_plain_text_counts() {
    // A declared code only has to occur in the source text, quoted or not.
    let m = manifest(&["0", "1", "2"], &["E_IO"], &[]);
    let sources = strings(&["// raises E_IO\n"]);
    assert_eq!(assert_refusal_codes_match_source(&m, &sources), Ok(()));
}

// ── Exit codes ──────────────────────────────────────────────────────────────

#[test]
fn trinity_errors() {
    assert_eq!(
        assert_exit_codes_trinity(&manifest(&["1", "2"], &[], &[]), false),
        Err(TrinityViolation::MissingSuccessCode)
    );
    assert_eq!(
        assert_exit_codes_trinity(&manifest(&["0", "2"], &[], &[]), true),
        Err(TrinityViolation::MissingNegativeCode)
    );
    assert_eq!(
        assert_exit_codes_trinity(&manifest(&["0", "1"], &[], &[]), true),
        Err(TrinityViolation::MissingRefusalCode)
    );
    let res = assert_exit_codes_trinity(&manifest(&["4", "0", "3", "2"], &[], &[]), false);
    assert_eq!(res, Err(TrinityViolation::UndeclaredExitCode("3".to_string())));
    assert_eq!(
        res.unwrap_err().message(),
        "R-002 VIOLATION: operator.json declares exit code 3 \u{2014} only 0, 1, 2 are permitted"
    );
}

#[test]
fn trinity_passing_with_1_passes_without() {
    let m = manifest(&["0", "1", "2"], &[], &[]);
    assert_eq!(assert_exit_codes_trinity(&m, true), Ok(()));
    assert_eq!(assert_exit_codes_trinity(&m, false), Ok(()));
}

#[test]
fn str_map_keeps_keys_in_order_and_replaces() {
    let mut m: StrMap<u32> = StrMap::new();
    m.insert("b".to_string(), 1);
    m.insert("a".to_string(), 2);
    m.insert("ab".to_string(), 3);
    m.insert("b".to_string(), 4);
    assert_eq!(m.len(), 3);
    assert_eq!(m.key_at(0), "a");
    assert_eq!(m.key_at(1), "ab");
    assert_eq!(m.key_at(2), "b");
    assert_eq!(m.get("b"), Some(&4));
    assert_eq!(m.get("c"), None);
    assert!(m.contains_key("ab"));
}

// ── Captured runs ───────────────────────────────────────────────────────────

#[test]
fn tool_run_success_and_text() {
    let r = ToolRun { code: Some(0), stdout: b"ok\xff".to_vec(), stderr: b"warn".to_vec() };
    assert!(r.success());
    assert_eq!(r.stdout_text(), "ok\u{fffd}");
    assert_eq!(r.stderr_text(), "warn");
    assert!(!run(Some(1), "").success());
    assert!(!run(None, "").success());
}

#[test]
fn jsonl_skips_blank_lines() {
    let values = parse_jsonl(b"{\"a\":1}\n\n  \t\n[2]\r\n").unwrap();
    assert_eq!(values.len(), 2);
    assert_eq!(values[1], serde_json::Value::Array(vec![serde_json::Value::from(2)]));
}

#[test]
fn jsonl_reports_the_first_bad_line() {
    let err = parse_jsonl(b"{}\nnot json\n{oops\n").unwrap_err();
    assert_eq!(err.line, "not json");
    assert!(!err.error.message.is_empty());
}

#[test]
fn json_parse() {
    assert!(parse_json(b"{\"name\": \"x\"}").is_ok());
    assert!(parse_json(b"{\"name\": ").is_err());
}

#[test]
fn describe_runs() {
    assert_eq!(assert_describe_valid(&run(Some(0), r#"{"name":"canon"}"#)), Ok(()));
    assert_eq!(
        assert_describe_valid(&run(Some(2), r#"{"name":"canon"}"#)),
        Err(RunViolation::ExitCode { expected: 0, actual: Some(2) })
    );
    assert!(matches!(
        assert_describe_valid(&run(Some(0), "nope")),
        Err(RunViolation::InvalidJson(_))
    ));
    assert_eq!(assert_describe_valid(&run(Some(0), "{}")), Err(RunViolation::MissingName));
}

#[test]
fn schema_runs() {
    assert_eq!(
        assert_schema_valid(&run(Some(0), r#"{"type":"object","properties":{}}"#)),
        Ok(())
    );
    assert_eq!(
        assert_schema_valid(&run(Some(0), r#"{"$schema":"x","definitions":{}}"#)),
        Ok(())
    );
    assert_eq!(
        assert_schema_valid(&run(Some(0), r#"{"properties":{}}"#)),
        Err(RunViolation::NotJsonSchema)
    );
    assert_eq!(
        assert_schema_valid(&run(Some(0), r#"{"type":"object"}"#)),
        Err(RunViolation::MissingStructure)
    );
    assert_eq!(
        assert_schema_valid(&run(None, "")),
        Err(RunViolation::ExitCode { expected: 0, actual: None })
    );
}

#[test]
fn version_runs() {
    assert_eq!(assert_version_exits_zero(&run(Some(0), "")), Ok(()));
    assert_eq!(
        assert_version_exits_zero(&run(Some(1), "")),
        Err(RunViolation::ExitCode { expected: 0, actual: Some(1) })
    );
    assert_eq!(assert_output_has_version(&run(Some(0), r#"{"version":"x"}"#)), Ok(()));
    assert_eq!(
        assert_output_has_version(&run(Some(1), "{\"version\":\"x\"}\n{\"version\":\"y\"}\n")),
        Ok(())
    );
    assert_eq!(
        assert_output_has_version(&run(Some(0), "{\"other\":1}\n{\"version\":\"y\"}\n")),
        Err(RunViolation::MissingVersion)
    );
    assert_eq!(assert_output_has_version(&run(Some(0), "")), Err(RunViolation::EmptyOutput));
    assert!(matches!(
        assert_output_has_version(&run(Some(0), "nope\n{}\n")),
        Err(RunViolation::InvalidJson(_))
    ));
    assert_eq!(assert_refusal_has_version(&run(Some(2), r#"{"version":"x"}"#)), Ok(()));
    assert_eq!(
        assert_refusal_has_version(&run(Some(0), r#"{"version":"x"}"#)),
        Err(RunViolation::ExitCode { expected: 2, actual: Some(0) })
    );
    assert_eq!(
        assert_refusal_has_version(&run(Some(2), r#"{"outcome":"REFUSAL"}"#)),
        Err(RunViolation::MissingVersion)
    );
}

#[test]
fn witness_flags() {
    let args = strings(&["in.csv", "--json"]);
    let full = with_no_witness_flag(&args);
    assert_eq!(full, strings(&["in.csv", "--json", "--no-witness"]));
    assert_eq!(with_no_witness_flag(&full), full);
    assert_eq!(without_no_witness_flag(&full), args);
    assert_eq!(
        without_no_witness_flag(&strings(&["--no-witness", "a", "--no-witness"])),
        strings(&["a"])
    );
}

#[test]
fn witness_judgements() {
    assert_eq!(assert_no_witness_suppresses_ledger(Some(0), Some(0), false), Ok(()));
    assert_eq!(
        assert_no_witness_suppresses_ledger(Some(0), Some(2), false),
        Err(WitnessViolation::ExitCodeChanged { baseline: Some(0), observed: Some(2) })
    );
    assert_eq!(assert_no_witness_suppresses_ledger(Some(1), Some(1), true), Err(WitnessViolation::LedgerCreated));
    assert_eq!(assert_witness_failure_nonfatal(None, None), Ok(()));
    assert_eq!(
        assert_witness_failure_nonfatal(Some(0), None),
        Err(WitnessViolation::ExitCodeChanged { baseline: Some(0), observed: None })
    );
}

#[test]
fn csv_row_counts() {
    assert_eq!(assert_csv_row_count_preserved("a,b\n1,2\n", b"a,b,c\n1,2,x"), Ok(()));
    assert_eq!(
        assert_csv_row_count_preserved("a,b\n1,2\n3,4\n", b"a,b\n1,2\n"),
        Err(RowCountViolation::RowCountChanged { input_lines: 3, output_lines: 2 })
    );
    assert_eq!(assert_csv_row_count_preserved("a\n", b"\xff\n"), Err(RowCountViolation::NonUtf8Output));
    assert_eq!(assert_csv_row_count_preserved("a\r\nb\r\n", b"a\nb"), Ok(()));
}

fn code_list(codes: &spine_rules::keyed::StrMap<()>) -> Vec<String> {
    (0..codes.len()).map(|i| codes.key_at(i).clone()).collect()
}

#[test]
fn codes_of_joined_texts_are_the_union() {
    let a = "raise(\"E_ONE\"); let s = \"E_TWO";
    let b = "E_NOT\"; raise(\"E_TWO\"); \"E_THREE\"";
    let joined = format!("{a}\n{b}");
    let both = extract_e_codes_from_source(&joined);
    let mut union = code_list(&extract_e_codes_from_source(a));
    for c in code_list(&extract_e_codes_from_source(b)) {
        if !union.contains(&c) {
            union.push(c);
        }
    }
    union.sort();
    assert_eq!(code_list(&both), union);
    assert_eq!(union, strings(&["E_ONE", "E_THREE", "E_TWO"]));
}

#[test]
fn text_after_test_marker_leaves_refusal_verdict() {
    let m = manifest(&["0", "1", "2"], &["E_IO"], &["E_BAD"]);
    let base = "match e { Io => \"E_IO\", Bad => \"E_BAD\" }";
    let tails = ["", "\"E_ROGUE\"", "mod tests { \"E_IO\" }\n\"E_X\"\n"];
    for tail in tails {
        let extended = format!("{base}\n#[cfg(test)]\n{tail}");
        assert_eq!(
            assert_refusal_codes_match_source(&m, &strings(&[base, "x"])),
            assert_refusal_codes_match_source(&m, &strings(&[&extended, "x"]))
        );
    }
    let missing = "\"E_IO\"\r";
    let extended = format!("{missing}\n#[cfg(test)]\n\"E_BAD\"");
    let expected = Err(RefusalCodeViolation::DeclaredButAbsent("E_BAD".to_string()));
    assert_eq!(assert_refusal_codes_match_source(&m, &strings(&[missing])), expected);
    assert_eq!(assert_refusal_codes_match_source(&m, &strings(&[&extended])), expected);
}

#[test]
fn probe_prefix_decides_as_soon_as_a_rule_fails() {
    assert_eq!(judge_probe_prefix(&vec![]), None);
    assert_eq!(judge_probe_prefix(&vec![None]), None);
    assert_eq!(judge_probe_prefix(&vec![None, None, None]), None);
    assert_eq!(
        judge_probe_prefix(&vec![None, None, None, None]),
        Some(Err(TupleViolation::MissingKey(3)))
    );
    assert_eq!(
        judge_probe_prefix(&vec![Some(0), Some(1)]),
        Some(Err(TupleViolation::PaddingNotTrimmed))
    );
    assert_eq!(
        judge_probe_prefix(&vec![Some(0), Some(0), Some(1)]),
        Some(Err(TupleViolation::IncompleteAccepted))
    );
    assert_eq!(judge_probe_prefix(&vec![Some(0), Some(0), None, Some(1)]), None);
    let full = all_distinct_ranks();
    assert_eq!(judge_probe_prefix(&full), Some(assert_ordered_tuple_semantics(&full)));
}
