use mcp_tool_catalog_integrity::canonical::{parse, JcsValue};
use mcp_tool_catalog_integrity::descriptor_hash::canonicalize;
use mcp_tool_catalog_integrity::{catalog_hash, descriptor_hash, hash_id, IntegrityError};

fn json(text: &str) -> JcsValue {
    parse(text.as_bytes()).unwrap()
}

fn strings(items: &[&str]) -> Vec<String> {
    items.iter().map(|s| s.to_string()).collect()
}

#[test]
fn descriptor_hash_is_key_order_independent() {
    let a = json(r#"{"name": "echo", "description": "Echo input", "inputSchema": {"type": "object"}}"#);
    let b = json(r#"{"inputSchema": {"type": "object"}, "description": "Echo input", "name": "echo"}"#);
    assert_eq!(descriptor_hash(&a).unwrap(), descriptor_hash(&b).unwrap());
}

#[test]
fn descriptor_hash_detects_mutation() {
    let a = json(r#"{"name": "echo", "description": "Echo input"}"#);
    let b = json(r#"{"name": "echo", "description": "Echo input (changed)"}"#);
    assert_ne!(descriptor_hash(&a).unwrap(), descriptor_hash(&b).unwrap());
}

#[test]
fn hash_id_has_expected_shape() {
    let id = hash_id(b"");
    assert!(id.starts_with("sha256:"));
    assert_eq!(id.len(), "sha256:".len() + 43);
}

#[test]
fn catalog_hash_is_order_independent() {
    let one = catalog_hash(&strings(&["sha256:aaa", "sha256:bbb"]));
    let two = catalog_hash(&strings(&["sha256:bbb", "sha256:aaa"]));
    assert_eq!(one, two);
}

// ---- Further cases of this library ----

#[test]
fn hash_id_of_empty_input_is_the_known_digest() {
    // SHA-256("") = e3b0c442...b855, in unpadded URL-safe base64.
    assert_eq!(hash_id(b""), "sha256:47DEQpj8HBSa-_TImW-5JCeuQeRkm5NMpJWZG3hSuFU");
    assert_eq!(hash_id(b"abc"), "sha256:ungWv48Bz-pBQUDeXa4iI7ADYaOWF3qctBD_YfIAFa0");
}

#[test]
fn descriptor_hash_is_hash_of_canonical_bytes() {
    let v = json(r#"{ "b": 1, "a": [1.0, "x"] }"#);
    let bytes = canonicalize(&v).unwrap();
    assert_eq!(bytes, br#"{"a":[1,"x"],"b":1}"#);
    assert_eq!(descriptor_hash(&v).unwrap(), hash_id(&bytes));
}

#[test]
fn descriptor_hash_fails_closed_outside_jcs_domain() {
    let dup = JcsValue::Object(vec![
        ("a".to_string(), JcsValue::Null),
        ("a".to_string(), JcsValue::Null),
    ]);
    assert!(matches!(descriptor_hash(&dup), Err(IntegrityError::Canonicalization(_))));
}

#[test]
fn catalog_hash_is_the_hash_of_sorted_nul_separated_hashes() {
    let h = catalog_hash(&strings(&["b", "a", "c"]));
    assert_eq!(h, hash_id(b"a\0b\0c\0"));
    assert_eq!(catalog_hash(&Vec::new()), hash_id(b""));
    // Repeated hashes count once per occurrence.
    assert_eq!(catalog_hash(&strings(&["a", "a"])), hash_id(b"a\0a\0"));
}

#[test]
fn catalog_hash_sorts_by_bytes() {
    // "Z" (0x5A) sorts before "a" (0x61) as bytes.
    assert_eq!(catalog_hash(&strings(&["a", "Z"])), hash_id(b"Z\0a\0"));
}

#[test]
fn catalog_hash_has_the_hash_id_shape() {
    let h = catalog_hash(&vec!["sha256:b".to_string(), "sha256:a".to_string()]);
    assert_eq!(h.len(), 50);
    assert!(h.starts_with("sha256:"));
    assert_eq!(catalog_hash(&vec![]).len(), 50);
}
