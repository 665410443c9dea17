use mcp_tool_catalog_integrity::canonical::{parse, JcsValue};
use mcp_tool_catalog_integrity::{
    catalog_hash, descriptor_hash, repin, verify, InMemoryPinStore, IntegrityError, PinStore,
    ToolCatalog,
};

fn json(text: &str) -> JcsValue {
    parse(text.as_bytes()).unwrap()
}

fn catalog(tools: &[&str]) -> ToolCatalog {
    ToolCatalog::from_values(tools.iter().map(|t| json(t)).collect())
}

#[test]
fn first_observation_is_all_added() {
    let cat = catalog(&[r#"{"name": "echo", "description": "v1"}"#]);
    let pins = InMemoryPinStore::new();
    let report = verify(&cat, &pins).unwrap();
    assert_eq!(report.added, vec!["echo"]);
    assert!(report.has_drift());
}

#[test]
fn repinned_catalog_has_no_drift() {
    let cat = catalog(&[r#"{"name": "echo", "description": "v1"}"#]);
    let mut pins = InMemoryPinStore::new();
    repin(&cat, &mut pins).unwrap();
    let report = verify(&cat, &pins).unwrap();
    assert!(!report.has_drift());
    assert_eq!(report.unchanged, vec!["echo"]);
    assert_eq!(Some(report.observed_catalog_hash.as_str()), pins.catalog_hash());
}

#[test]
fn detects_mutation_addition_removal() {
    let baseline = catalog(&[
        r#"{"name": "echo", "description": "v1"}"#,
        r#"{"name": "gone", "description": "to be removed"}"#,
    ]);
    let mut pins = InMemoryPinStore::new();
    repin(&baseline, &mut pins).unwrap();

    let observed = catalog(&[
        r#"{"name": "echo", "description": "v2-changed"}"#,
        r#"{"name": "new", "description": "added"}"#,
    ]);
    let report = verify(&observed, &pins).unwrap();
    assert_eq!(report.mutated, vec!["echo"]);
    assert_eq!(report.added, vec!["new"]);
    assert_eq!(report.removed, vec!["gone"]);
    assert!(report.has_drift());
}

#[test]
fn descriptor_without_name_is_rejected() {
    let cat = catalog(&[r#"{"description": "no name here"}"#]);
    let pins = InMemoryPinStore::new();
    assert_eq!(verify(&cat, &pins), Err(IntegrityError::MissingName));
}

// ---- Further cases of this library ----

#[test]
fn lists_are_sorted_and_hash_covers_all_tools() {
    let tools = [
        r#"{"name": "c"}"#,
        r#"{"name": "a"}"#,
        r#"{"name": "b"}"#,
    ];
    let cat = catalog(&tools);
    let report = verify(&cat, &InMemoryPinStore::new()).unwrap();
    assert_eq!(report.added, vec!["a", "b", "c"]);
    assert!(report.removed.is_empty() && report.mutated.is_empty() && report.unchanged.is_empty());
    let hashes: Vec<String> = tools.iter().map(|t| descriptor_hash(&json(t)).unwrap()).collect();
    assert_eq!(report.observed_catalog_hash, catalog_hash(&hashes));
}

#[test]
fn repin_drops_pins_of_vanished_tools() {
    let mut pins = InMemoryPinStore::new();
    pins.set("stale", "sha256:old");
    let cat = catalog(&[r#"{"name": "echo"}"#]);
    repin(&cat, &mut pins).unwrap();
    assert_eq!(pins.get("stale"), None);
    assert_eq!(pins.pinned_names(), vec!["echo".to_string()]);
    assert_eq!(
        pins.get("echo"),
        Some(descriptor_hash(&json(r#"{"name": "echo"}"#)).unwrap().as_str())
    );
}

#[test]
fn non_string_name_is_missing_and_bad_value_fails_canonicalization() {
    let cat = catalog(&[r#"{"name": 7}"#]);
    assert_eq!(verify(&cat, &InMemoryPinStore::new()), Err(IntegrityError::MissingName));
    let bad = ToolCatalog::from_values(vec![JcsValue::Object(vec![
        ("name".to_string(), JcsValue::String("x".to_string())),
        ("n".to_string(), JcsValue::Number("1e999".to_string())),
    ])]);
    assert!(matches!(
        verify(&bad, &InMemoryPinStore::new()),
        Err(IntegrityError::Canonicalization(_))
    ));
}

#[test]
fn failed_repin_keeps_earlier_pins_and_catalog_hash() {
    let mut pins = InMemoryPinStore::new();
    pins.set_catalog_hash("sha256:before");
    let cat = catalog(&[r#"{"name": "ok"}"#, r#"{"description": "unnamed"}"#]);
    assert_eq!(repin(&cat, &mut pins), Err(IntegrityError::MissingName));
    assert!(pins.get("ok").is_some());
    assert_eq!(pins.catalog_hash(), Some("sha256:before"));
}

#[test]
fn duplicate_names_with_different_bodies_show_mutation_after_repin() {
    let cat = catalog(&[
        r#"{"name": "echo", "description": "one"}"#,
        r#"{"name": "echo", "description": "two"}"#,
    ]);
    let mut pins = InMemoryPinStore::new();
    repin(&cat, &mut pins).unwrap();
    let report = verify(&cat, &pins).unwrap();
    assert_eq!(report.mutated, vec!["echo"]);
    assert_eq!(report.unchanged, vec!["echo"]);
}

#[test]
fn tools_list_accepts_result_object_or_bare_array() {
    let from_object = ToolCatalog::from_tools_list(&json(r#"{"tools": [{"name": "a"}]}"#)).unwrap();
    let from_array = ToolCatalog::from_tools_list(&json(r#"[{"name": "a"}]"#)).unwrap();
    assert_eq!(from_object, from_array);
    assert_eq!(from_object.tools[0].name(), Some("a"));
    assert!(ToolCatalog::from_tools_list(&json(r#"{"tools": 3}"#)).is_none());
    assert!(ToolCatalog::from_tools_list(&json(r#"{"other": []}"#)).is_none());
    assert!(ToolCatalog::from_tools_list(&json(r#""tools""#)).is_none());
}
