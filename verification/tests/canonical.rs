use mcp_tool_catalog_integrity::canonical::{
    canon_fail, canonicalize, canonicalize_value, parse, JcsValue, MAX_PARSE_DEPTH,
};
use mcp_tool_catalog_integrity::order::cmp_utf16;
use mcp_tool_catalog_integrity::IntegrityError;
use std::cmp::Ordering;

fn canon_str(input: &str) -> Result<String, IntegrityError> {
    canonicalize(input.as_bytes()).map(|b| String::from_utf8(b).expect("utf8"))
}

fn num(t: &str) -> JcsValue {
    JcsValue::Number(t.to_string())
}

/// Canonicalize a `serde_json::Value` by first building the library's value
/// model from it, as a host does.
fn from_serde(v: &serde_json::Value) -> JcsValue {
    match v {
        serde_json::Value::Null => JcsValue::Null,
        serde_json::Value::Bool(b) => JcsValue::Bool(*b),
        serde_json::Value::Number(n) => JcsValue::Number(n.to_string()),
        serde_json::Value::String(s) => JcsValue::String(s.clone()),
        serde_json::Value::Array(items) => JcsValue::Array(items.iter().map(from_serde).collect()),
        serde_json::Value::Object(map) => {
            JcsValue::Object(map.iter().map(|(k, v)| (k.clone(), from_serde(v))).collect())
        }
    }
}

fn canonicalize_json_value(v: &serde_json::Value) -> Result<Vec<u8>, IntegrityError> {
    canonicalize_value(&from_serde(v))
}

#[test]
fn jcs_01_duplicate_key_rejected() {
    let err = canonicalize(br#"{"a":1,"a":2}"#).unwrap_err();
    assert_eq!(err, canon_fail());
}

#[test]
fn jcs_01_nested_duplicate_key_rejected() {
    let err = canonicalize(br#"{"outer":{"a":1,"a":2}}"#).unwrap_err();
    assert_eq!(err, canon_fail());
}

#[test]
fn rfc8785_number_vectors() {
    assert_eq!(canon_str("4.50").unwrap(), "4.5");
    assert_eq!(canon_str("0.002").unwrap(), "0.002");
    assert_eq!(canon_str("1e30").unwrap(), "1e+30");
    assert_eq!(canon_str("1e-27").unwrap(), "1e-27");
    assert_eq!(canon_str("333333333.33333329").unwrap(), "333333333.3333333");
    assert_eq!(canon_str("100").unwrap(), "100");
    assert_eq!(canon_str("0").unwrap(), "0");
    assert_eq!(canon_str("-0").unwrap(), "0");
}

#[test]
fn non_integer_number_accepted() {
    assert_eq!(canon_str("1.5").unwrap(), "1.5");
}

#[test]
fn exponent_number_accepted_as_ecmascript_form() {
    assert_eq!(canon_str("1e3").unwrap(), "1000");
    assert_eq!(canon_str("1E3").unwrap(), "1000");
}

#[test]
fn large_integer_accepted_as_double() {
    assert_eq!(canon_str("9007199254740993").unwrap(), "9007199254740992");
    assert_eq!(canon_str("9007199254740991").unwrap(), "9007199254740991");
    assert_eq!(canon_str("-9007199254740991").unwrap(), "-9007199254740991");
}

#[test]
fn json_schema_decimals_accepted() {
    assert_eq!(canon_str(r#"{"minimum":0.5}"#).unwrap(), r#"{"minimum":0.5}"#);
    assert_eq!(
        canon_str(r#"{"multipleOf":0.1}"#).unwrap(),
        r#"{"multipleOf":0.1}"#
    );
}

#[test]
fn realistic_descriptor_with_floats_canonicalizes_sorted() {
    let input = r#"{"inputSchema":{"properties":{"temp":{"type":"number","default":0.5,"minimum":-1.5}}},"name":"x"}"#;
    let out = canon_str(input);
    assert!(out.is_ok());
    assert_eq!(
        out.unwrap(),
        r#"{"inputSchema":{"properties":{"temp":{"default":0.5,"minimum":-1.5,"type":"number"}}},"name":"x"}"#
    );
}

#[test]
fn number_overflow_rejected() {
    assert!(canonicalize(b"1e400").is_err());
}

#[test]
fn number_underflow_rejected() {
    assert!(canonicalize(b"1e-400").is_err());
}

#[test]
fn constructed_non_finite_number_rejected() {
    assert!(canonicalize_value(&JcsValue::Number(f64::NAN.to_string())).is_err());
    assert!(canonicalize_value(&JcsValue::Number(f64::INFINITY.to_string())).is_err());
    assert!(canonicalize_value(&JcsValue::Number(f64::NEG_INFINITY.to_string())).is_err());
}

#[test]
fn jcs_06_unpaired_high_surrogate_rejected() {
    let err = canonicalize(br#""\uD800""#).unwrap_err();
    assert_eq!(err, canon_fail());
}

#[test]
fn jcs_06_unpaired_low_surrogate_rejected() {
    let err = canonicalize(br#""\uDC00""#).unwrap_err();
    assert_eq!(err, canon_fail());
}

#[test]
fn valid_surrogate_pair_accepted() {
    let out = canon_str(r#""😀""#).unwrap();
    assert_eq!(out, "\"\u{1F600}\"");
}

#[test]
fn jcs_07_invalid_utf8_rejected() {
    let err = canonicalize(&[0x22, 0xFF, 0x22]).unwrap_err();
    assert_eq!(err, canon_fail());
}

#[test]
fn jcs_08_large_id_as_string_ok() {
    let out = canon_str(r#"{"id":"9007199254740993"}"#).unwrap();
    assert_eq!(out, r#"{"id":"9007199254740993"}"#);
}

#[test]
fn golden_object_keys_sorted() {
    assert_eq!(canon_str(r#"{"b":1,"a":2}"#).unwrap(), r#"{"a":2,"b":1}"#);
}

#[test]
fn golden_nested_object_keys_sorted() {
    let input = r#"{"z":{"y":1,"x":2},"a":3}"#;
    assert_eq!(canon_str(input).unwrap(), r#"{"a":3,"z":{"x":2,"y":1}}"#);
}

#[test]
fn golden_non_ascii_char_stays_literal() {
    let out = canonicalize(r#"{"name":"é"}"#.as_bytes()).unwrap();
    assert_eq!(out, r#"{"name":"é"}"#.as_bytes());
    assert!(out.windows(2).any(|w| w == [0xC3, 0xA9]));
    assert!(!String::from_utf8(out).unwrap().contains("\\u"));
}

#[test]
fn golden_control_char_tab_becomes_short_escape() {
    let out = canon_str(r#"{"k":"a\tb"}"#).unwrap();
    assert_eq!(out, r#"{"k":"a\tb"}"#);
}

#[test]
fn raw_control_char_in_string_rejected() {
    let err = canonicalize(b"\"a\tb\"").unwrap_err();
    assert_eq!(err, canon_fail());
}

#[test]
fn golden_other_control_char_lowercase_hex() {
    let bs = b'\\';
    let q = b'"';
    let input = [q, bs, b'u', b'0', b'0', b'0', b'1', q];
    let out = canonicalize(&input).unwrap();
    assert_eq!(out, &[q, bs, b'u', b'0', b'0', b'0', b'1', q]);
}

#[test]
fn golden_escaped_quote_and_backslash() {
    let out = canon_str(r#""a\"b\\c""#).unwrap();
    assert_eq!(out, r#""a\"b\\c""#);
}

#[test]
fn golden_negative_zero_normalized() {
    assert_eq!(canon_str("-0").unwrap(), "0");
    assert_eq!(canon_str(r#"{"v":-0}"#).unwrap(), r#"{"v":0}"#);
}

#[test]
fn golden_literals_and_array_no_whitespace() {
    let input = r#"  [ true , false , null , 1 , "x" ]  "#;
    assert_eq!(canon_str(input).unwrap(), r#"[true,false,null,1,"x"]"#);
}

#[test]
fn golden_empty_object_and_array() {
    assert_eq!(canon_str("{}").unwrap(), "{}");
    assert_eq!(canon_str("[]").unwrap(), "[]");
}

#[test]
fn golden_whitespace_insignificant() {
    let input = "{\n  \"b\" : 2 ,\n  \"a\" : 1\n}";
    assert_eq!(canon_str(input).unwrap(), r#"{"a":1,"b":2}"#);
}

#[test]
fn leading_zero_integer_rejected() {
    let err = canonicalize(b"01").unwrap_err();
    assert_eq!(err, canon_fail());
}

#[test]
fn plus_sign_rejected() {
    let err = canonicalize(b"+1").unwrap_err();
    assert_eq!(err, canon_fail());
}

#[test]
fn trailing_garbage_rejected() {
    let err = canonicalize(br#"{"a":1} extra"#).unwrap_err();
    assert_eq!(err, canon_fail());
}

#[test]
fn trailing_comma_rejected() {
    assert_eq!(canonicalize(br#"{"a":1,}"#).unwrap_err(), canon_fail());
    assert_eq!(canonicalize(br#"[1,2,]"#).unwrap_err(), canon_fail());
}

#[test]
fn determinism_canonicalize_is_idempotent() {
    let input = r#"{"b":[3,2,1],"a":{"d":1,"c":"é\t"},"id":"123"}"#;
    let once = canonicalize(input.as_bytes()).unwrap();
    let twice = canonicalize(&once).unwrap();
    assert_eq!(once, twice);
}

#[test]
fn json_value_helper_canonicalizes_and_sorts() {
    let v: serde_json::Value = serde_json::from_str(r#"{"b":1,"a":2}"#).unwrap();
    let out = canonicalize_json_value(&v).unwrap();
    assert_eq!(out, br#"{"a":2,"b":1}"#);
}

#[test]
fn json_value_helper_accepts_float() {
    let v: serde_json::Value = serde_json::from_str("1.5").unwrap();
    assert_eq!(canonicalize_json_value(&v).unwrap(), b"1.5");
}

#[test]
fn json_value_helper_matches_raw_path_for_valid_float_input() {
    let input = r#"{"z":1,"a":{"y":"é","x":0.5},"id":"9007199254740993"}"#;
    let raw = canonicalize(input.as_bytes()).unwrap();
    let v: serde_json::Value = serde_json::from_str(input).unwrap();
    let via_value = canonicalize_json_value(&v).unwrap();
    assert_eq!(raw, via_value);
}

#[test]
fn json_value_helper_matches_raw_path_for_valid_input() {
    let input = r#"{"z":1,"a":{"y":"é","x":2},"id":"9007199254740993"}"#;
    let raw = canonicalize(input.as_bytes()).unwrap();
    let v: serde_json::Value = serde_json::from_str(input).unwrap();
    let via_value = canonicalize_json_value(&v).unwrap();
    assert_eq!(raw, via_value);
}

#[test]
fn parse_depth_limit_rejects_over_max() {
    let s = "[".repeat(MAX_PARSE_DEPTH + 1) + &"]".repeat(MAX_PARSE_DEPTH + 1);
    assert_eq!(canonicalize(s.as_bytes()).unwrap_err(), canon_fail());
}

#[test]
fn parse_depth_limit_allows_exactly_max() {
    let s = "[".repeat(MAX_PARSE_DEPTH) + &"]".repeat(MAX_PARSE_DEPTH);
    canon_str(&s).expect("depth at the inclusive boundary must canonicalize");
}

#[test]
fn parse_depth_limit_rejects_nested_objects() {
    let n = MAX_PARSE_DEPTH + 1;
    let s = "{\"a\":".repeat(n) + "1" + &"}".repeat(n);
    assert_eq!(canonicalize(s.as_bytes()).unwrap_err(), canon_fail());
}

#[test]
fn parse_depth_limit_allows_exactly_max_objects() {
    let n = MAX_PARSE_DEPTH;
    let s = "{\"a\":".repeat(n) + "1" + &"}".repeat(n);
    canon_str(&s).expect("object depth at the inclusive boundary must canonicalize");
}

#[test]
fn canonicalize_json_value_rejects_over_max_depth() {
    let mut v = serde_json::Value::Array(vec![]);
    for _ in 0..MAX_PARSE_DEPTH {
        v = serde_json::Value::Array(vec![v]);
    }
    assert_eq!(canonicalize_json_value(&v).unwrap_err(), canon_fail());
}

#[test]
fn parse_depth_pathological_input_fails_clean() {
    let n = 100_000;
    let s = "[".repeat(n) + &"]".repeat(n);
    assert_eq!(canonicalize(s.as_bytes()).unwrap_err(), canon_fail());
}

fn nested_array(n: usize) -> JcsValue {
    let mut v = num("0");
    for _ in 0..n {
        v = JcsValue::Array(vec![v]);
    }
    v
}

#[test]
fn write_value_depth_limit_rejects_deep_public_jcs_value() {
    let deep = nested_array(5_000);
    assert_eq!(canonicalize_value(&deep).unwrap_err(), canon_fail());
}

#[test]
fn write_value_depth_limit_rejects_just_over_max() {
    let just_over = nested_array(MAX_PARSE_DEPTH + 1);
    assert_eq!(canonicalize_value(&just_over).unwrap_err(), canon_fail());
}

#[test]
fn write_value_depth_limit_allows_exactly_max() {
    let at_max = nested_array(MAX_PARSE_DEPTH);
    canonicalize_value(&at_max)
        .expect("serializer depth at the inclusive boundary must canonicalize");
}

#[test]
fn write_value_rejects_hand_built_object_with_duplicate_keys() {
    let dup = JcsValue::Object(vec![
        ("a".to_string(), num("1")),
        ("a".to_string(), num("2")),
    ]);
    assert_eq!(canonicalize_value(&dup).unwrap_err(), canon_fail());
}

#[test]
fn write_value_accepts_hand_built_object_with_distinct_keys() {
    let ok = JcsValue::Object(vec![
        ("a".to_string(), num("1")),
        ("b".to_string(), num("2")),
    ]);
    canonicalize_value(&ok).expect("distinct-keyed object must canonicalize");
}

// ---- Further cases of this library ----

#[test]
fn parse_keeps_member_order_and_number_text() {
    let v = parse(br#"{"b":1.50,"a":[true,null]}"#).unwrap();
    assert_eq!(
        v,
        JcsValue::Object(vec![
            ("b".to_string(), num("1.50")),
            (
                "a".to_string(),
                JcsValue::Array(vec![JcsValue::Bool(true), JcsValue::Null])
            ),
        ])
    );
}

#[test]
fn utf16_order_sorts_supplementary_after_bmp_private_use() {
    // U+1F600 is the surrogate pair D83D DE00, which sorts before U+E000 in
    // UTF-16 code-unit order although it is the larger code point.
    let out = canon_str("{\"\u{E000}\":1,\"\u{1F600}\":2}").unwrap();
    assert_eq!(out, "{\"\u{1F600}\":2,\"\u{E000}\":1}");
}

#[test]
fn cmp_utf16_orders_by_code_units() {
    assert_eq!(cmp_utf16("a", "b"), Ordering::Less);
    assert_eq!(cmp_utf16("b", "a"), Ordering::Greater);
    assert_eq!(cmp_utf16("ab", "ab"), Ordering::Equal);
    assert_eq!(cmp_utf16("a", "ab"), Ordering::Less);
    assert_eq!(cmp_utf16("\u{1F600}", "\u{E000}"), Ordering::Less);
}

#[test]
fn numbers_in_exponential_and_small_forms() {
    assert_eq!(canon_str("1e21").unwrap(), "1e+21");
    assert_eq!(canon_str("1e20").unwrap(), "100000000000000000000");
    assert_eq!(canon_str("0.000001").unwrap(), "0.000001");
    assert_eq!(canon_str("0.0000001").unwrap(), "1e-7");
    assert_eq!(canon_str("-1.25e-10").unwrap(), "-1.25e-10");
    assert_eq!(canon_str("123456789012345680000").unwrap(), "123456789012345680000");
    assert_eq!(canon_str("0e0").unwrap(), "0");
    assert_eq!(canon_str("0e10").unwrap(), "0");
}

#[test]
fn malformed_numbers_rejected() {
    for bad in ["1.", ".5", "1e", "1e+", "-", "--1", "0x10", "1.2.3", "NaN", "Infinity"] {
        assert_eq!(canonicalize(bad.as_bytes()).unwrap_err(), canon_fail(), "{bad}");
    }
}

#[test]
fn hand_built_number_text_must_be_a_json_number() {
    assert!(canonicalize_value(&num("01")).is_err());
    assert!(canonicalize_value(&num("1e400")).is_err());
    assert_eq!(canonicalize_value(&num("2.50")).unwrap(), b"2.5");
}

#[test]
fn escapes_decode_and_reencode() {
    assert_eq!(canon_str(r#""\/\b\f\n\r\u0041\u00e9""#).unwrap(), "\"/\\b\\f\\n\\rAé\"");
    assert_eq!(canon_str(r#""\ud83d\ude00""#).unwrap(), "\"\u{1F600}\"");
    assert_eq!(canonicalize(br#""\x""#).unwrap_err(), canon_fail());
    assert_eq!(canonicalize(br#""\u12G4""#).unwrap_err(), canon_fail());
    assert_eq!(canonicalize(br#""\ud83d\u0041""#).unwrap_err(), canon_fail());
}

#[test]
fn malformed_documents_rejected() {
    for bad in ["", " ", "{", "[", "{\"a\"}", "{\"a\" 1}", "{1:2}", "tru", "nul", "[1 2]", "\"abc"] {
        assert_eq!(canonicalize(bad.as_bytes()).unwrap_err(), canon_fail(), "{bad:?}");
    }
}

#[test]
fn zero_significand_is_exact_zero_whatever_its_exponent() {
    assert_eq!(canon_str("0e5").unwrap(), "0");
    assert_eq!(canon_str("0.0E-1").unwrap(), "0");
    assert_eq!(canon_str("-0e-400").unwrap(), "0");
    assert_eq!(canon_str("[0E+99]").unwrap(), "[0]");
}

#[test]
fn nonzero_significand_underflow_is_refused() {
    assert_eq!(canonicalize(b"1e-400").unwrap_err(), canon_fail());
    assert_eq!(canonicalize(b"0.5e-400").unwrap_err(), canon_fail());
}

#[test]
fn leading_plus_is_refused() {
    assert_eq!(canonicalize(b"+1").unwrap_err(), canon_fail());
    assert_eq!(canonicalize(b"[+1]").unwrap_err(), canon_fail());
}

#[test]
fn layout_and_member_order_do_not_change_the_canonical_form() {
    let a = canonicalize(b" { \"b\" : [1, {\"y\":2, \"x\":1.50}],\n\t\"a\":null }\r\n").unwrap();
    let b = canonicalize(b"{\"a\":null,\"b\":[1,{\"x\":1.5,\"y\":2}]}").unwrap();
    assert_eq!(a, b);
    assert_eq!(String::from_utf8(a).unwrap(), r#"{"a":null,"b":[1,{"x":1.5,"y":2}]}"#);
}

#[test]
fn canonical_output_with_numbers_is_a_fixpoint() {
    for input in ["[1E21, 0.0000001, -0.0, 1e-7, 123456789012345678901, 0.1, 5e-324, 1.7976931348623157e308]", "{\"n\":-1.25E-10}"] {
        let once = canonicalize(input.as_bytes()).unwrap();
        let twice = canonicalize(&once).unwrap();
        assert_eq!(once, twice);
    }
}

#[test]
fn written_string_reads_back() {
    for s in ["", "plain", "q\"b\\s/", "ctl\u{1}\u{1f}\n\t", "é\u{2028}😀"] {
        let mut out: Vec<char> = Vec::new();
        mcp_tool_catalog_integrity::writer::write_string(s, &mut out);
        let text: String = out.iter().collect();
        match parse(text.as_bytes()) {
            Ok(JcsValue::String(back)) => assert_eq!(back, s),
            _ => panic!("written string did not read back"),
        }
    }
}
