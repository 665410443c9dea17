use mcp_tool_catalog_integrity::canonical::{parse, JcsValue};
use mcp_tool_catalog_integrity::{
    repin, CatalogAccumulator, DriftPolicy, InMemoryPinStore, Interposer, InterposerError,
    Observation, PinStore, ToolCatalog,
};

fn json(text: &str) -> JcsValue {
    parse(text.as_bytes()).unwrap()
}

fn tools_list(tools: &str) -> JcsValue {
    json(&format!(r#"{{"tools": {tools}}}"#))
}

#[test]
fn clean_after_repin() {
    let result = tools_list(r#"[{"name": "echo", "description": "v1"}]"#);
    let mut pins = InMemoryPinStore::new();
    let catalog = ToolCatalog::from_tools_list(&result).unwrap();
    repin(&catalog, &mut pins).unwrap();

    let interposer = Interposer::new(pins, DriftPolicy::FailClosed);
    match interposer.observe(&result).unwrap() {
        Observation::Clean(_) => {}
        other => panic!("expected clean, got {other:?}"),
    }
}

#[test]
fn fail_closed_on_mutation() {
    let baseline = tools_list(r#"[{"name": "echo", "description": "v1"}]"#);
    let mut pins = InMemoryPinStore::new();
    repin(&ToolCatalog::from_tools_list(&baseline).unwrap(), &mut pins).unwrap();

    let interposer = Interposer::new(pins, DriftPolicy::FailClosed);
    let mutated = tools_list(r#"[{"name": "echo", "description": "v2"}]"#);
    match interposer.observe(&mutated) {
        Err(InterposerError::Drift(report)) => assert_eq!(report.mutated, vec!["echo"]),
        other => panic!("expected drift error, got {other:?}"),
    }
}

#[test]
fn report_policy_returns_drift() {
    let interposer = Interposer::new(InMemoryPinStore::new(), DriftPolicy::Report);
    let result = tools_list(r#"[{"name": "echo", "description": "v1"}]"#);
    match interposer.observe(&result).unwrap() {
        Observation::Drift(report) => assert_eq!(report.added, vec!["echo"]),
        other => panic!("expected drift observation, got {other:?}"),
    }
}

#[test]
fn observe_bytes_matches_observe_value() {
    let text = r#"{"tools":[{"name":"echo","description":"v1"}]}"#;
    let result = json(text);
    let bytes = text.as_bytes().to_vec();

    let a = Interposer::new(InMemoryPinStore::new(), DriftPolicy::Report);
    let from_value = a.observe(&result).unwrap();

    let b = Interposer::new(InMemoryPinStore::new(), DriftPolicy::Report);
    let from_bytes = b.observe_bytes(&bytes).unwrap();

    assert_eq!(from_value, from_bytes);
}

#[test]
fn observe_bytes_rejects_duplicate_keys() {
    let raw = br#"{"tools":[{"name":"a","name":"a"}]}"#;
    let interposer = Interposer::new(InMemoryPinStore::new(), DriftPolicy::Report);
    match interposer.observe_bytes(raw) {
        Err(InterposerError::Integrity(_)) => {}
        other => panic!("expected integrity error, got {other:?}"),
    }
}

#[test]
fn repin_bytes_then_observe_bytes_is_clean() {
    let bytes = br#"{"tools":[{"name":"echo","description":"v1"}]}"#.to_vec();
    let mut interposer = Interposer::new(InMemoryPinStore::new(), DriftPolicy::FailClosed);
    interposer.repin_bytes(&bytes).unwrap();
    match interposer.observe_bytes(&bytes).unwrap() {
        Observation::Clean(_) => {}
        other => panic!("expected clean, got {other:?}"),
    }
}

#[test]
fn accumulator_assembles_pages_and_reports_union_drift() {
    let interposer = Interposer::new(InMemoryPinStore::new(), DriftPolicy::Report);
    let mut acc = CatalogAccumulator::new(&interposer);

    let page1 = json(r#"{"tools": [{"name": "a"}], "nextCursor": "c1"}"#);
    let page2 = json(r#"{"tools": [{"name": "b"}]}"#);

    let cursor1 = acc.observe_page(&page1).unwrap();
    assert_eq!(cursor1.as_deref(), Some("c1"));
    let cursor2 = acc.observe_page(&page2).unwrap();
    assert_eq!(cursor2, None);

    match acc.finish().unwrap() {
        Observation::Drift(report) => assert_eq!(report.added, vec!["a", "b"]),
        other => panic!("expected union drift, got {other:?}"),
    }
}

#[test]
fn accumulator_observe_page_bytes_returns_next_cursor() {
    let interposer = Interposer::new(InMemoryPinStore::new(), DriftPolicy::Report);
    let mut acc = CatalogAccumulator::new(&interposer);
    let page = br#"{"tools":[{"name":"a"}],"nextCursor":"NEXT"}"#;
    let cursor = acc.observe_page_bytes(page).unwrap();
    assert_eq!(cursor.as_deref(), Some("NEXT"));
}

#[test]
fn accumulator_bare_array_page_has_no_cursor() {
    let interposer = Interposer::new(InMemoryPinStore::new(), DriftPolicy::Report);
    let mut acc = CatalogAccumulator::new(&interposer);
    let cursor = acc.observe_page(&json(r#"[{"name": "a"}]"#)).unwrap();
    assert_eq!(cursor, None);
}

#[test]
fn repin_complete_then_finish_is_clean() {
    let mut interposer = Interposer::new(InMemoryPinStore::new(), DriftPolicy::FailClosed);

    let catalog = {
        let mut acc = CatalogAccumulator::new(&interposer);
        acc.observe_page(&json(r#"{"tools": [{"name": "a"}], "nextCursor": "c1"}"#))
            .unwrap();
        acc.observe_page(&json(r#"{"tools": [{"name": "b"}]}"#)).unwrap();
        acc.catalog()
    };
    interposer.repin_complete(&catalog).unwrap();

    let mut acc = CatalogAccumulator::new(&interposer);
    acc.observe_page(&json(r#"{"tools": [{"name": "a"}], "nextCursor": "c1"}"#))
        .unwrap();
    acc.observe_page(&json(r#"{"tools": [{"name": "b"}]}"#)).unwrap();
    match acc.finish().unwrap() {
        Observation::Clean(_) => {}
        other => panic!("expected clean, got {other:?}"),
    }
}

// ---- Further cases of this library ----

#[test]
fn malformed_catalogs_are_reported() {
    let interposer = Interposer::new(InMemoryPinStore::new(), DriftPolicy::Report);
    assert!(matches!(
        interposer.observe(&json(r#"{"tools": {}}"#)),
        Err(InterposerError::MalformedCatalog)
    ));
    assert!(matches!(
        interposer.observe_bytes(b"not json"),
        Err(InterposerError::Integrity(_))
    ));
    let mut acc = CatalogAccumulator::new(&interposer);
    assert!(matches!(
        acc.observe_page(&json("42")),
        Err(InterposerError::MalformedCatalog)
    ));
}

#[test]
fn missing_name_surfaces_as_integrity_error() {
    let interposer = Interposer::new(InMemoryPinStore::new(), DriftPolicy::FailClosed);
    assert!(matches!(
        interposer.observe(&json(r#"[{"description": "x"}]"#)),
        Err(InterposerError::Integrity(_))
    ));
}

#[test]
fn pins_mut_and_into_pins_expose_the_store() {
    let mut interposer = Interposer::new(InMemoryPinStore::new(), DriftPolicy::default());
    interposer.pins_mut().set("echo", "sha256:x");
    let pins = interposer.into_pins();
    assert_eq!(pins.get("echo"), Some("sha256:x"));
    assert_eq!(DriftPolicy::default(), DriftPolicy::FailClosed);
}
