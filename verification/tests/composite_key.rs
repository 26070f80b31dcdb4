use spine_rules::composite_key::{
    assert_authoritative_key_output, assert_ordered_tuple_semantics, composite_key_fixtures,
    ordered_tuple_probes, reference_key_tuple,
};

/// Runs a key constructor over the probe tuples and describes each key by its
/// rank among all keys produced, as the conformance judgement expects.
fn key_ranks<K: Ord + Clone>(normalize: impl Fn(&[Vec<u8>]) -> Option<K>) -> Vec<Option<u64>> {
    let keys: Vec<Option<K>> = ordered_tuple_probes()
        .iter()
        .map(|tuple| normalize(tuple))
        .collect();
    let mut present: Vec<K> = keys.iter().flatten().cloned().collect();
    present.sort();
    present.dedup();
    keys.iter()
        .map(|key| key.as_ref().map(|key| present.binary_search(key).unwrap() as u64))
        .collect()
}

fn check_semantics<K: Ord + Clone>(normalize: impl Fn(&[Vec<u8>]) -> Option<K>) {
    if let Err(violation) = assert_ordered_tuple_semantics(&key_ranks(normalize)) {
        panic!("{}", violation.message());
    }
}

#[test]
fn reference_key_passes_shared_composite_conformance() {
    check_semantics(reference_key_tuple);
}

#[test]
#[should_panic(expected = "identity includes every component")]
fn shared_conformance_rejects_first_component_only_keys() {
    check_semantics(|components| {
        reference_key_tuple(components).and_then(|tuple| tuple.into_iter().next())
    });
}

#[test]
#[should_panic(expected = "component boundaries must remain structural")]
fn shared_conformance_rejects_sentinel_flattened_keys() {
    check_semantics(|components| {
        reference_key_tuple(components).map(|tuple| {
            let mut flattened = Vec::new();
            for (index, component) in tuple.iter().enumerate() {
                if index > 0 {
                    flattened.push(0xff);
                }
                flattened.extend_from_slice(component);
            }
            flattened
        })
    });
}

#[test]
fn fixture_corpus_covers_required_edge_cases() {
    let fixtures = composite_key_fixtures();
    assert_eq!(fixtures.repeated_first[0][0], fixtures.repeated_first[1][0]);
    assert_eq!(
        fixtures.duplicate_full_tuple[0],
        fixtures.duplicate_full_tuple[1]
    );
    assert!(reference_key_tuple(&fixtures.incomplete_secondary).is_none());
    assert!(fixtures.non_utf8.iter().flatten().any(|byte| *byte == 0xff));
    assert_ne!(fixtures.reordered_rows, fixtures.lexicographic_rows);
}

#[test]
fn json_assertion_requires_component_array_and_derived_display_label() {
    let output: serde_json::Value = serde_json::from_str(
        r#"{"row_key": ["u8:A", "hex:ff"], "row_id": "u8:A + hex:ff"}"#,
    )
    .unwrap();
    let result = assert_authoritative_key_output(
        &output,
        "/row_key",
        "/row_id",
        &[b"A".to_vec(), b"\xff".to_vec()],
    );
    if let Err(violation) = result {
        panic!("{}", violation.message("/row_key", "/row_id"));
    }
}
