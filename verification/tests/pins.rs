use mcp_tool_catalog_integrity::canonical::parse;
use mcp_tool_catalog_integrity::file_pin_store::PinFileError;
use mcp_tool_catalog_integrity::{FilePinStore, InMemoryPinStore, PinStore};
use std::path::PathBuf;

#[test]
fn set_get_remove_round_trip() {
    let mut store = InMemoryPinStore::new();
    assert!(store.is_empty());
    store.set("echo", "sha256:abc");
    assert_eq!(store.get("echo"), Some("sha256:abc"));
    assert_eq!(store.len(), 1);
    store.remove("echo");
    assert_eq!(store.get("echo"), None);
    assert!(store.is_empty());
}

#[test]
fn catalog_hash_round_trip() {
    let mut store = InMemoryPinStore::new();
    assert_eq!(store.catalog_hash(), None);
    store.set_catalog_hash("sha256:cat");
    assert_eq!(store.catalog_hash(), Some("sha256:cat"));
}

// ---- Further cases of this library ----

#[test]
fn repin_overwrites_and_names_are_unique() {
    let mut store = InMemoryPinStore::new();
    store.set("a", "1");
    store.set("b", "2");
    store.set("a", "3");
    assert_eq!(store.len(), 2);
    assert_eq!(store.get("a"), Some("3"));
    let mut names = store.pinned_names();
    names.sort();
    assert_eq!(names, vec!["a".to_string(), "b".to_string()]);
    store.remove("missing");
    assert_eq!(store.len(), 2);
    let copy = store.clone();
    assert_eq!(copy.get("b"), Some("2"));
}

#[test]
fn file_store_keeps_names_sorted() {
    let mut store = FilePinStore::new(PathBuf::from("pins.json"));
    store.set("zeta", "h1");
    store.set("alpha", "h2");
    store.set("mid", "h3");
    store.set("alpha", "h4");
    assert_eq!(
        store.pinned_names(),
        vec!["alpha".to_string(), "mid".to_string(), "zeta".to_string()]
    );
    assert_eq!(store.get("alpha"), Some("h4"));
    store.remove("mid");
    assert_eq!(store.pinned_names(), vec!["alpha".to_string(), "zeta".to_string()]);
    assert_eq!(store.path(), &PathBuf::from("pins.json"));
}

#[test]
fn file_store_document_round_trip() {
    let mut store = FilePinStore::new(PathBuf::from("p"));
    store.set("echo", "sha256:abc");
    store.set_catalog_hash("sha256:cat");
    let doc = store.to_document();
    let back = FilePinStore::from_document(PathBuf::from("p"), &doc).unwrap();
    assert_eq!(back.get("echo"), Some("sha256:abc"));
    assert_eq!(back.pinned_names(), vec!["echo".to_string()]);
    assert_eq!(back.catalog_hash(), Some("sha256:cat"));
}

#[test]
fn file_store_reads_documents() {
    let doc = parse(br#"{"pins":{"b":"2","a":"1"},"catalog_hash":null}"#).unwrap();
    let store = FilePinStore::from_document(PathBuf::from("p"), &doc).unwrap();
    assert_eq!(store.pinned_names(), vec!["a".to_string(), "b".to_string()]);
    assert_eq!(store.catalog_hash(), None);

    let empty = parse(br#"{}"#).unwrap();
    let store = FilePinStore::from_document(PathBuf::from("p"), &empty).unwrap();
    assert!(store.pinned_names().is_empty());
    assert_eq!(store.catalog_hash(), None);
}

#[test]
fn file_store_rejects_malformed_documents() {
    let cases: [(&[u8], PinFileError); 5] = [
        (br#"[]"#, PinFileError::NotObject),
        (br#"42"#, PinFileError::NotObject),
        (br#"{"pins":{"a":1}}"#, PinFileError::PinNotString),
        (br#"{"pins":[]}"#, PinFileError::PinsNotObject),
        (br#"{"pins":{},"catalog_hash":7}"#, PinFileError::CatalogHashNotString),
    ];
    for (text, expected) in cases {
        let doc = parse(text).unwrap();
        match FilePinStore::from_document(PathBuf::from("p"), &doc) {
            Err(e) => assert_eq!(e, expected),
            Ok(_) => panic!("expected a malformed document to be refused"),
        }
    }
}

#[test]
fn absent_file_starts_empty() {
    // A store whose file does not exist yet starts empty (the host's `open`
    // falls back to `FilePinStore::new`).
    let store = FilePinStore::new(PathBuf::from("absent.json"));
    assert!(store.pinned_names().is_empty());
    assert_eq!(store.catalog_hash(), None);
}

#[test]
fn file_bytes_open_into_a_store() {
    let bytes = br#"{ "pins": {"b": "2", "a": "1"}, "catalog_hash": "sha256:cat" }"#;
    let store = FilePinStore::open_document(PathBuf::from("p.json"), bytes).unwrap();
    assert_eq!(store.pinned_names(), vec!["a".to_string(), "b".to_string()]);
    assert_eq!(store.get("b"), Some("2"));
    assert_eq!(store.catalog_hash(), Some("sha256:cat"));
    assert_eq!(store.path(), &PathBuf::from("p.json"));
}

#[test]
fn file_bytes_a_repeated_pin_keeps_its_last_value() {
    let bytes = br#"{"pins":{"a":"1","a":"2"}}"#;
    let store = FilePinStore::open_document(PathBuf::from("p"), bytes).unwrap();
    assert_eq!(store.get("a"), Some("2"));
    assert_eq!(store.pinned_names(), vec!["a".to_string()]);
}

#[test]
fn file_bytes_malformed_fail_closed() {
    let cases: [(&[u8], PinFileError); 5] = [
        (b"not json", PinFileError::NotJson),
        (b"", PinFileError::NotJson),
        (b"[]", PinFileError::NotObject),
        (b"42", PinFileError::NotObject),
        (br#"{"pins":{"a":1}}"#, PinFileError::PinNotString),
    ];
    for (bytes, expected) in cases {
        match FilePinStore::open_document(PathBuf::from("p"), bytes) {
            Err(e) => assert_eq!(e, expected),
            Ok(_) => panic!("expected malformed pin file bytes to be refused"),
        }
    }
}

#[test]
fn file_bytes_round_trip_through_the_document() {
    let mut store = FilePinStore::new(PathBuf::from("p"));
    store.set("echo", "sha256:abc");
    store.set_catalog_hash("sha256:cat");
    let bytes = mcp_tool_catalog_integrity::canonical::canonicalize_value(&store.to_document()).unwrap();
    let back = FilePinStore::open_document(PathBuf::from("p"), &bytes).unwrap();
    assert_eq!(back.get("echo"), Some("sha256:abc"));
    assert_eq!(back.catalog_hash(), Some("sha256:cat"));
}

#[test]
fn in_memory_stores_with_the_same_pins_are_equal() {
    let mut a = InMemoryPinStore::new();
    a.set("zeta", "sha256:z");
    a.set("alpha", "sha256:a");
    let mut b = InMemoryPinStore::new();
    b.set("alpha", "sha256:a");
    b.set("zeta", "sha256:z");
    assert_eq!(a, b);
    assert_eq!(a.pinned_names(), vec!["alpha".to_string(), "zeta".to_string()]);
    b.set("zeta", "sha256:other");
    assert_ne!(a, b);
    b.remove("zeta");
    a.remove("zeta");
    assert_eq!(a, b);
}
