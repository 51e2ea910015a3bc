use fastsocket::json::{parse_json, JsonValue};

fn obj(entries: Vec<(&str, JsonValue)>) -> JsonValue {
    JsonValue::Obj(entries.into_iter().map(|(k, v)| (k.as_bytes().to_vec(), v)).collect())
}

fn s(text: &str) -> JsonValue {
    JsonValue::Str(text.as_bytes().to_vec())
}

#[test]
fn serializes_scalars_canonically() {
    assert_eq!(JsonValue::Null.to_json_bytes(), b"null".to_vec());
    assert_eq!(JsonValue::Bool(true).to_json_bytes(), b"true".to_vec());
    assert_eq!(JsonValue::Bool(false).to_json_bytes(), b"false".to_vec());
    assert_eq!(JsonValue::Int(0).to_json_bytes(), b"0".to_vec());
    assert_eq!(JsonValue::Int(-42).to_json_bytes(), b"-42".to_vec());
    assert_eq!(JsonValue::Int(i64::MIN).to_json_bytes(), b"-9223372036854775808".to_vec());
    assert_eq!(JsonValue::Int(i64::MAX).to_json_bytes(), b"9223372036854775807".to_vec());
}

#[test]
fn serializes_strings_with_escapes() {
    assert_eq!(s("hello").to_json_bytes(), b"\"hello\"".to_vec());
    assert_eq!(s("a\"b\\c").to_json_bytes(), b"\"a\\\"b\\\\c\"".to_vec());
    assert_eq!(s("line\nbreak\ttab").to_json_bytes(), b"\"line\\nbreak\\ttab\"".to_vec());
    // a control byte is emitted as a unicode escape
    assert_eq!(JsonValue::Str(vec![0x01]).to_json_bytes(), b"\"\\u0001\"".to_vec());
}

#[test]
fn serializes_containers_in_order() {
    let v = JsonValue::Arr(vec![JsonValue::Int(1), JsonValue::Int(2), s("x")]);
    assert_eq!(v.to_json_bytes(), b"[1,2,\"x\"]".to_vec());
    let o = obj(vec![("b", JsonValue::Int(2)), ("a", JsonValue::Int(1))]);
    // insertion order is kept, keys are not sorted
    assert_eq!(o.to_json_bytes(), b"{\"b\":2,\"a\":1}".to_vec());
    let empty_arr = JsonValue::Arr(Vec::new());
    assert_eq!(empty_arr.to_json_bytes(), b"[]".to_vec());
    let empty_obj = JsonValue::Obj(Vec::new());
    assert_eq!(empty_obj.to_json_bytes(), b"{}".to_vec());
}

#[test]
fn parses_whitespace_and_nesting() {
    let r = parse_json(b" { \"a\" : [ 1 , true , null ] , \"b\" : \"x\" } ").unwrap();
    let expected = obj(vec![
        ("a", JsonValue::Arr(vec![JsonValue::Int(1), JsonValue::Bool(true), JsonValue::Null])),
        ("b", s("x")),
    ]);
    assert_eq!(r.to_json_bytes(), expected.to_json_bytes());
}

#[test]
fn parses_escapes_back() {
    let r = parse_json(b"\"a\\\"b\\\\c\\n\\t\\u0041\\u00e9\"").unwrap();
    match r {
        JsonValue::Str(bytes) => {
            let mut expected = b"a\"b\\c\n\tA".to_vec();
            expected.extend_from_slice("\u{e9}".as_bytes());
            assert_eq!(bytes, expected);
        },
        _ => panic!("expected a string"),
    }
}

#[test]
fn rejects_malformed_texts() {
    assert!(parse_json(b"").is_none());
    assert!(parse_json(b"{").is_none());
    assert!(parse_json(b"[1,]").is_none());
    assert!(parse_json(b"nul").is_none());
    assert!(parse_json(b"1.5").is_none());
    assert!(parse_json(b"1e3").is_none());
    assert!(parse_json(b"\"unterminated").is_none());
    assert!(parse_json(b"{\"a\":1} extra").is_none());
    // out of range of a signed 64-bit integer
    assert!(parse_json(b"9223372036854775808").is_none());
    assert!(parse_json(b"-9223372036854775809").is_none());
}

#[test]
fn accepts_integer_bounds() {
    match parse_json(b"9223372036854775807").unwrap() {
        JsonValue::Int(i) => assert_eq!(i, i64::MAX),
        _ => panic!("expected an integer"),
    }
    match parse_json(b"-9223372036854775808").unwrap() {
        JsonValue::Int(i) => assert_eq!(i, i64::MIN),
        _ => panic!("expected an integer"),
    }
}

#[test]
fn round_trips_values() {
    let v = obj(vec![
        ("name", s("pu\"sher")),
        ("count", JsonValue::Int(-7)),
        ("nested", obj(vec![("inner", JsonValue::Arr(vec![s("x"), JsonValue::Null]))])),
    ]);
    let bytes = v.to_json_bytes();
    let back = parse_json(&bytes).unwrap();
    assert_eq!(back.to_json_bytes(), bytes);
}
