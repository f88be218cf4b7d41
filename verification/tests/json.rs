use serde_json::Value;
use systole::json::{compare_keys, format_line, format_value, is_canonical, Json, KeyOrder};

fn from_serde(v: &Value) -> Json {
    match v {
        Value::Null => Json::Null,
        Value::Bool(b) => Json::Bool(*b),
        Value::Number(n) => match n.as_u64() {
            Some(u) => Json::UInt(u),
            None => Json::NegInt(n.as_i64().unwrap()),
        },
        Value::String(s) => Json::Str(s.clone()),
        Value::Array(items) => Json::Array(items.iter().map(from_serde).collect()),
        Value::Object(map) => Json::object(map.iter().map(|(k, v)| (k.clone(), from_serde(v))).collect()),
    }
}

fn parse(text: &str) -> Json {
    from_serde(&serde_json::from_str::<Value>(text).unwrap())
}

fn text(bytes: Vec<u8>) -> String {
    String::from_utf8(bytes).unwrap()
}

#[test]
fn canonical_format_is_idempotent_and_byte_stable() {
    let value = parse(r#"{"z": 1, "a": {"y": [1, 2, {"k": "v"}], "b": null}, "m": "s"}"#);
    let once = format_value(&value);
    let reparsed = from_serde(&serde_json::from_slice::<Value>(&once).expect("canonical bytes parse"));
    let twice = format_value(&reparsed);
    assert_eq!(once, twice, "format_value is idempotent");
    assert_eq!(*once.last().unwrap(), b'\n', "trailing newline");

    let s = text(once.clone());
    assert!(s.starts_with("{\n  \"a\""), "keys are sorted: {s}");
    let z = s.find("\n  \"z\"").expect("sorted key z present");
    let m = s.find("\n  \"m\"").expect("sorted key m present");
    assert!(z > m, "a < m < z ordering");

    // Byte stability: a separately constructed equal value serializes equally.
    let again = parse(r#"{"m": "s", "a": {"b": null, "y": [1, 2, {"k": "v"}]}, "z": 1}"#);
    assert_eq!(format_value(&again), once, "byte-stable across constructions");

    // Integers never serialize as floats.
    assert!(s.contains("\"z\": 1\n") || s.contains("\"z\": 1\r"));
    assert!(!s.contains("\"z\": 1.0"));
}

#[test]
fn canonical_text_matches_the_pretty_printer() {
    let value = parse(r#"{"b": 1, "a": [true, false, null, -7, "x\"y\n"], "c": {}, "d": []}"#);
    let ours = text(format_value(&value));
    let reference = serde_json::to_string_pretty(&serde_json::from_str::<Value>(r#"{"b": 1, "a": [true, false, null, -7, "x\"y\n"], "c": {}, "d": []}"#).unwrap()).unwrap() + "\n";
    assert_eq!(ours, reference);
    assert_eq!(ours, "{\n  \"a\": [\n    true,\n    false,\n    null,\n    -7,\n    \"x\\\"y\\n\"\n  ],\n  \"b\": 1,\n  \"c\": {},\n  \"d\": []\n}\n");
}

#[test]
fn control_characters_escape_like_serde_json() {
    let value = Json::Str("\u{1}\t\u{8}\u{c}\r\\é".to_string());
    let ours = text(format_line(&value));
    let reference = serde_json::to_string(&Value::String("\u{1}\t\u{8}\u{c}\r\\é".to_string())).unwrap();
    assert_eq!(ours, reference);
    assert_eq!(ours, "\"\\u0001\\t\\b\\f\\r\\\\é\"");
}

#[test]
fn compact_lines_have_no_whitespace() {
    let value = parse(r#"{"b": [1, {"c": null}], "a": "x y"}"#);
    assert_eq!(text(format_line(&value)), r#"{"a":"x y","b":[1,{"c":null}]}"#);
    assert_eq!(text(format_line(&Json::UInt(u64::MAX))), "18446744073709551615");
    assert_eq!(text(format_line(&Json::NegInt(i64::MIN))), "-9223372036854775808");
}

#[test]
fn later_settings_of_a_key_win_and_order_is_by_key() {
    let value = Json::object(vec![
        ("b".to_string(), Json::UInt(1)),
        ("a".to_string(), Json::UInt(2)),
        ("b".to_string(), Json::UInt(3)),
    ]);
    assert_eq!(text(format_line(&value)), r#"{"a":2,"b":3}"#);
    assert_eq!(value.get("b").and_then(|v| match v { Json::UInt(n) => Some(*n), _ => None }), Some(3));
    assert!(value.get("c").is_none());
}

#[test]
fn keys_compare_by_code_point_with_prefixes_first() {
    assert_eq!(compare_keys("a", "b"), KeyOrder::Less);
    assert_eq!(compare_keys("ab", "a"), KeyOrder::Greater);
    assert_eq!(compare_keys("", ""), KeyOrder::Equal);
    assert_eq!(compare_keys("Z", "a"), KeyOrder::Less);
    assert_eq!(compare_keys("é", "z"), KeyOrder::Greater);
}

#[test]
fn canonical_bytes_are_recognised() {
    let value = parse(r#"{"a": 1}"#);
    assert!(is_canonical(b"{\n  \"a\": 1\n}\n", &value));
    assert!(!is_canonical(b"{\"a\": 1}\n", &value));
    assert!(!is_canonical(b"{\n  \"a\": 1\n}", &value));
}
