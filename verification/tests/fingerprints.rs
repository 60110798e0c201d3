use f3dx_cache::canonical::canonicalize;
use f3dx_cache::fingerprint::{canonical_bytes, fingerprint_value};
use f3dx_cache::json::{Json, Object};
use f3dx_cache::key_order::key_before;
use f3dx_cache::number::{integral_text, normalize};
use f3dx_cache::value::{from_value, parse_json};

fn text(s: &str) -> Json {
    Json::String(s.to_string())
}

fn float(x: f64) -> Json {
    Json::Number(serde_json::Number::from_f64(x).unwrap())
}

fn integer(x: i64) -> Json {
    Json::Number(serde_json::Number::from(x))
}

fn object(entries: Vec<(&str, Json)>) -> Json {
    let mut object = Object::new();
    for (key, value) in entries {
        object.insert(key.to_string(), value);
    }
    Json::Object(object)
}

fn canonical_string(value: &Json) -> String {
    String::from_utf8(canonical_bytes(value)).unwrap()
}

#[test]
fn fingerprint_is_key_order_invariant() {
    let a = object(vec![("model", text("gpt-4")), ("temperature", float(0.0))]);
    let b = object(vec![("temperature", float(0.0)), ("model", text("gpt-4"))]);
    assert_eq!(fingerprint_value(&a), fingerprint_value(&b));
}

#[test]
fn fingerprint_differs_on_value_change() {
    let a = object(vec![("model", text("gpt-4")), ("temperature", float(0.0))]);
    let b = object(vec![("model", text("gpt-4")), ("temperature", float(0.1))]);
    assert_ne!(fingerprint_value(&a), fingerprint_value(&b));
}

#[test]
fn fingerprint_recurses_into_arrays() {
    let a = object(vec![(
        "messages",
        Json::Array(vec![object(vec![("role", text("a")), ("content", text("x"))])]),
    )]);
    let b = object(vec![(
        "messages",
        Json::Array(vec![object(vec![("content", text("x")), ("role", text("a"))])]),
    )]);
    assert_eq!(fingerprint_value(&a), fingerprint_value(&b));
}

#[test]
fn fingerprint_is_the_hash_of_the_canonical_text() {
    let request = object(vec![("temperature", float(0.0)), ("model", text("gpt-4"))]);
    assert_eq!(canonical_string(&request), r#"{"model":"gpt-4","temperature":0}"#);
    assert_eq!(
        fingerprint_value(&request),
        "e941e6f9f2b3ef95219a94cf84701ebc346d20ac0470d3f83119e140fd2e231d"
    );
    let nested = object(vec![
        ("b", Json::Null),
        ("a", Json::Array(vec![object(vec![("d", text("x")), ("c", integer(-3))])])),
    ]);
    assert_eq!(canonical_string(&nested), r#"{"a":[{"c":-3,"d":"x"}],"b":null}"#);
    assert_eq!(
        fingerprint_value(&nested),
        "593bf7b798b5f30c905707459e02055121a59ed54cb175d0c6970f0b866046b6"
    );
    assert_eq!(
        fingerprint_value(&Json::Null),
        "03f88b99c3d8073bba8948d6e762aac443b265f606cc05abd4d172f03a4def6a"
    );
}

#[test]
fn fingerprint_is_the_digest_of_blake3() {
    let request = object(vec![("k", text("v"))]);
    let hash = blake3::hash(&canonical_bytes(&request));
    assert_eq!(fingerprint_value(&request), hash.to_hex().to_string());
}

#[test]
fn canonical_text_is_compact_and_escaped() {
    let value = object(vec![
        ("s", text("a\"b\\c\n\u{1}\u{e9}")),
        ("n", Json::Array(vec![float(1.5), float(0.25), integer(0), float(-0.0)])),
        ("t", Json::Bool(true)),
        ("f", Json::Bool(false)),
        ("", object(vec![])),
        ("e", Json::Array(vec![])),
    ]);
    assert_eq!(
        canonical_string(&value),
        "{\"\":{},\"e\":[],\"f\":false,\"n\":[1.5,0.25,0,0],\
         \"s\":\"a\\\"b\\\\c\\n\\u0001\u{e9}\",\"t\":true}"
    );
}

#[test]
fn numbers_that_are_integers_are_written_as_them() {
    assert_eq!(canonical_string(&integer(1)), "1");
    assert_eq!(canonical_string(&float(1.0)), "1");
    assert_eq!(fingerprint_value(&integer(1)), fingerprint_value(&float(1.0)));
    let a = object(vec![("temperature", float(1.0))]);
    let b = object(vec![("temperature", integer(1))]);
    assert_eq!(fingerprint_value(&a), fingerprint_value(&b));
    assert_eq!(canonical_string(&float(-0.0)), "0");
    assert_eq!(canonical_string(&float(-7.0)), "-7");
    assert_eq!(canonical_string(&float(1e16)), "10000000000000000");
    assert_eq!(canonical_string(&float(1e19)), "10000000000000000000");
    assert_eq!(canonical_string(&float(9223372036854775808.0)), "9223372036854775808");
    assert_eq!(canonical_string(&float(-9223372036854775808.0)), "-9223372036854775808");
    assert_eq!(canonical_string(&float(72057594037927936.0)), "72057594037927936");
    assert_eq!(
        fingerprint_value(&float(72057594037927936.0)),
        fingerprint_value(&integer(72057594037927936))
    );
}

#[test]
fn numbers_that_are_no_such_integers_stay() {
    assert_eq!(canonical_string(&float(0.1)), "0.1");
    assert_eq!(canonical_string(&float(-2.5)), "-2.5");
    assert_eq!(canonical_string(&float(1.5e-7)), "1.5e-7");
    assert_eq!(canonical_string(&float(1e300)), "1e+300");
    assert_eq!(canonical_string(&float(-1e19)), "-1e+19");
    assert_eq!(canonical_string(&float(1e-6)), "1e-6");
    assert_eq!(canonical_string(&float(18446744073709551616.0)), "1.8446744073709552e+19");
    let largest = Json::Number(serde_json::Number::from(u64::MAX));
    assert_eq!(canonical_string(&largest), "18446744073709551615");
    assert_eq!(canonical_string(&integer(9007199254740993)), "9007199254740993");
    assert_ne!(
        fingerprint_value(&integer(9007199254740993)),
        fingerprint_value(&integer(9007199254740992))
    );
    assert_ne!(fingerprint_value(&float(0.1)), fingerprint_value(&float(0.2)));
}

#[test]
fn numbers_have_a_normal_form() {
    let one = serde_json::Number::from(1);
    assert_eq!(normalize(&serde_json::Number::from_f64(1.0).unwrap()), one);
    assert_eq!(normalize(&one), one);
    let half = serde_json::Number::from_f64(0.5).unwrap();
    assert_eq!(normalize(&half), half);
    assert_ne!(half, one);
}

#[test]
fn decimal_texts_stand_for_integers() {
    for (text, value) in [
        ("0", 0),
        ("-0", 0),
        ("-0.0", 0),
        ("0e99999999999999999999999999999999999999999999", 0),
        ("0.000e-7", 0),
        ("1", 1),
        ("1.0", 1),
        ("007", 7),
        ("-12", -12),
        ("1e2", 100),
        ("1E+2", 100),
        ("12.50e1", 125),
        ("1200e-2", 12),
        ("0.00000000000000000001e20", 1),
        ("100000000000000000000000000000e-29", 1),
        ("18446744073709551615", u64::MAX as i128),
        ("9007199254740993", 9007199254740993),
        ("9007199254740992.0", 9007199254740992),
        ("9007199254740993.0", 9007199254740992),
        ("9007199254740993e0", 9007199254740992),
        ("9007199254740995.0", 9007199254740996),
        ("7.205759403792794e+16", 72057594037927936),
        ("72057594037927940", 72057594037927940),
        ("18446744073709550591.0", 18446744073709549568),
        ("-9.223372036854776e+18", i64::MIN as i128),
        ("-9223372036854775808.000", i64::MIN as i128),
    ] {
        assert_eq!(integral_text(text), Some(value), "{}", text);
    }
}

#[test]
fn other_texts_stand_for_no_integer() {
    for text in [
        "",
        "-",
        "+1",
        ".5",
        "1.",
        "1.e2",
        "1e",
        "1e+",
        "1e2x",
        " 1",
        "1 ",
        "1_0",
        "--1",
        "0x10",
        "\u{661}",
        "0.5",
        "12.5",
        "1e-1",
        "15e-1",
        "1e-99999999999999999999999999999999999999999999",
        "1e99999999999999999999999999999999999999999999",
        "1e20",
        "18446744073709551616",
        "1.8446744073709551615e+19",
        "18446744073709550592.0",
        "-9223372036854777000.0",
        "-9223372036854775809",
        "123456789012345678901234567890",
    ] {
        assert_eq!(integral_text(text), None, "{}", text);
    }
}

#[test]
fn canonicalize_sorts_every_object() {
    let value = object(vec![
        ("b", object(vec![("z", integer(1)), ("y", integer(2))])),
        ("a", Json::Array(vec![object(vec![("q", integer(3)), ("p", integer(4))])])),
    ]);
    let expected = object(vec![
        ("a", Json::Array(vec![object(vec![("p", integer(4)), ("q", integer(3))])])),
        ("b", object(vec![("y", integer(2)), ("z", integer(1))])),
    ]);
    assert_ne!(value, expected);
    assert_eq!(canonicalize(&value), expected);
}

#[test]
fn canonicalize_is_idempotent() {
    let value = object(vec![("b", integer(1)), ("c", Json::Null), ("a", integer(2))]);
    let once = canonicalize(&value);
    assert_eq!(canonicalize(&once), once);
}

#[test]
fn canonicalize_keeps_arrays_in_order() {
    let value = Json::Array(vec![text("b"), text("a"), Json::Null]);
    assert_eq!(canonicalize(&value), Json::Array(vec![text("b"), text("a"), Json::Null]));
    let other = Json::Array(vec![text("a"), text("b"), Json::Null]);
    assert_ne!(fingerprint_value(&value), fingerprint_value(&other));
}

#[test]
fn keys_sort_by_their_code_units() {
    assert!(key_before("", "a"));
    assert!(key_before("Z", "a"));
    assert!(key_before("a", "aa"));
    assert!(!key_before("aa", "a"));
    assert!(!key_before("a", "a"));
    assert!(key_before("z", "\u{e9}"));
    assert!(key_before("\u{d7ff}", "\u{10000}"));
    assert!(key_before("\u{10000}", "\u{e000}"));
    assert!(key_before("\u{10ffff}", "\u{ffff}"));
    assert!(!key_before("\u{ffff}", "\u{10000}"));
    assert!(key_before("\u{10000}", "\u{10001}"));
    assert!(key_before("\u{103ff}", "\u{10400}"));
    assert!(key_before("a\u{10000}", "a\u{e000}"));
    let value = object(vec![("\u{e000}", integer(1)), ("\u{10000}", integer(2))]);
    assert_eq!(canonical_string(&value), "{\"\u{10000}\":2,\"\u{e000}\":1}");
    let value = object(vec![
        ("\u{10000}", integer(1)),
        ("\u{ffff}", integer(2)),
        ("a", integer(3)),
        ("B", integer(4)),
    ]);
    assert_eq!(
        canonical_string(&value),
        "{\"B\":4,\"a\":3,\"\u{10000}\":1,\"\u{ffff}\":2}"
    );
}

#[test]
fn insert_replaces_in_place() {
    let mut o = Object::new();
    assert_eq!(o.entries().len(), 0);
    o.insert("x".to_string(), integer(1));
    o.insert("y".to_string(), integer(2));
    o.insert("x".to_string(), integer(3));
    assert_eq!(o.entries(), &vec![("x".to_string(), integer(3)), ("y".to_string(), integer(2))]);
}

#[test]
fn text_forms_of_numbers_and_strings_do_not_matter() {
    let a = parse_json("{ \"t\" : 1.50, \"s\": \"\\u0061\", \"n\": 1E2 }").unwrap();
    let b = parse_json("{\"n\":100.0,\"s\":\"a\",\"t\":1.5}").unwrap();
    assert_eq!(fingerprint_value(&a), fingerprint_value(&b));
    assert_eq!(canonical_string(&a), "{\"n\":100,\"s\":\"a\",\"t\":1.5}");
}

fn nested(levels: usize) -> Json {
    let mut value = integer(1);
    for level in 0..levels {
        value = if level % 2 == 0 {
            Json::Array(vec![value])
        } else {
            object(vec![("k", value)])
        };
    }
    value
}

#[test]
fn documents_with_integers_are_read_back_from_their_text() {
    let value = object(vec![
        ("z", Json::Array(vec![integer(i64::MIN), integer(0), Json::Null])),
        ("\u{1f600}\n\"\\", text("\u{0}\u{7f}\u{e9}\u{2028}")),
        ("m", Json::Number(serde_json::Number::from(u64::MAX))),
        ("", object(vec![("b", Json::Bool(true)), ("a", Json::Array(vec![]))])),
    ]);
    let read = parse_json(&canonical_string(&value)).unwrap();
    assert_eq!(read, canonicalize(&value));
    assert_ne!(read, value);
    assert_eq!(fingerprint_value(&read), fingerprint_value(&value));
}

#[test]
fn documents_are_read_back_down_to_a_depth() {
    let deep = nested(127);
    assert_eq!(parse_json(&canonical_string(&deep)).unwrap(), deep);
    assert_eq!(
        parse_json(&canonical_string(&nested(128))).unwrap_err(),
        "recursion limit exceeded at line 1 column 384"
    );
}

#[test]
fn the_last_of_two_equal_keys_counts() {
    let a = parse_json("{\"k\":1,\"k\":2}").unwrap();
    assert_eq!(a, object(vec![("k", integer(2))]));
}

#[test]
fn text_that_is_not_json_is_refused() {
    assert_eq!(
        parse_json("{").unwrap_err(),
        "EOF while parsing an object at line 1 column 1"
    );
    assert_eq!(parse_json("").unwrap_err(), "EOF while parsing a value at line 1 column 0");
}

#[test]
fn values_are_taken_over() {
    let mut map = serde_json::Map::new();
    map.insert(
        "list".to_string(),
        serde_json::Value::Array(vec![
            serde_json::Value::Null,
            serde_json::Value::Bool(true),
            serde_json::Value::from(7),
            serde_json::Value::String("s".to_string()),
        ]),
    );
    let json = from_value(serde_json::Value::Object(map));
    assert_eq!(
        json,
        object(vec![(
            "list",
            Json::Array(vec![Json::Null, Json::Bool(true), integer(7), text("s")])
        )])
    );
}
