use f3dx_cache::bridge::{self, DiffMode, Failure, PyData};
use f3dx_cache::cache::Cache;
use f3dx_cache::error::CacheError;
use f3dx_cache::fingerprint::{canonical_bytes, fingerprint_value};
use f3dx_cache::json::Json;
use f3dx_cache::stats::CacheStats;
use f3dx_cache::value::parse_json;

fn open() -> Cache {
    Cache::open().resume(Ok(())).unwrap()
}

#[test]
fn modes_have_names() {
    assert_eq!(bridge::parse_mode("bytes"), Ok(DiffMode::Bytes));
    assert_eq!(bridge::parse_mode("structured"), Ok(DiffMode::Structured));
    assert_eq!(bridge::parse_mode("embedding"), Ok(DiffMode::Embedding));
    assert_eq!(bridge::parse_mode("judge"), Ok(DiffMode::Judge));
}

#[test]
fn unknown_modes_are_refused() {
    assert_eq!(
        bridge::parse_mode("By\"tes\n"),
        Err(Failure::Value(
            "unknown diff mode \"By\\\"tes\\n\"; expected bytes|structured|embedding|judge"
                .to_string()
        ))
    );
    assert_eq!(
        bridge::parse_mode(""),
        Err(Failure::Value(
            "unknown diff mode \"\"; expected bytes|structured|embedding|judge".to_string()
        ))
    );
}

#[test]
fn documents_become_python_data() {
    let json = parse_json(
        "{\"a\":[null,true,-3,9223372036854775807,9223372036854775808,1.5,\"s\"],\"b\":{}}",
    )
    .unwrap();
    let float = |n: serde_json::Number| PyData::Float(n);
    assert_eq!(
        bridge::json_to_pyobject(&json),
        PyData::Dict(vec![
            (
                "a".to_string(),
                PyData::List(vec![
                    PyData::Nothing,
                    PyData::Bool(true),
                    PyData::Int(-3),
                    PyData::Int(i64::MAX),
                    float(serde_json::Number::from(9223372036854775808u64)),
                    float(serde_json::Number::from_f64(1.5).unwrap()),
                    PyData::Str("s".to_string()),
                ])
            ),
            ("b".to_string(), PyData::Dict(vec![])),
        ])
    );
}

#[test]
fn rows_become_dictionaries() {
    let row = parse_json("{\"id\":\"x\",\"n\":2}").unwrap();
    assert_eq!(
        bridge::row_to_pydict(&row),
        vec![
            ("id".to_string(), PyData::Str("x".to_string())),
            ("n".to_string(), PyData::Int(2)),
        ]
    );
    assert_eq!(bridge::row_to_pydict(&Json::Array(vec![Json::Null])), vec![]);
}

#[test]
fn rows_of_a_trace_become_dictionaries_in_order() {
    let row = |key: &str| {
        let mut map = serde_json::Map::new();
        map.insert(key.to_string(), serde_json::Value::from(1));
        Ok(serde_json::Value::Object(map))
    };
    assert_eq!(
        bridge::rows_to_pydicts(vec![row("b"), row("a"), Ok(serde_json::Value::Null)]),
        Ok(vec![
            vec![("b".to_string(), PyData::Int(1))],
            vec![("a".to_string(), PyData::Int(1))],
            vec![],
        ])
    );
    assert_eq!(bridge::rows_to_pydicts(vec![]), Ok(vec![]));
    assert_eq!(
        bridge::rows_to_pydicts(vec![
            row("b"),
            Err("first".to_string()),
            Err("second".to_string())
        ]),
        Err(Failure::Runtime("first".to_string()))
    );
}

#[test]
fn floats_stay_floats_in_python() {
    let json = parse_json("[1, 1.0, -0.0, 1e2]").unwrap();
    let float = |x: f64| PyData::Float(serde_json::Number::from_f64(x).unwrap());
    assert_eq!(
        bridge::json_to_pyobject(&json),
        PyData::List(vec![PyData::Int(1), float(1.0), float(-0.0), float(100.0)])
    );
}

#[test]
fn new_metadata_starts_uncounted() {
    let meta = bridge::new_meta(
        Some(1_700_000_000_123),
        Some("gpt-4".to_string()),
        None,
        Some(7),
    );
    assert_eq!(meta.created_at_ms, 1_700_000_000_123);
    assert_eq!(meta.hit_count, 0);
    assert_eq!(meta.model, Some("gpt-4".to_string()));
    assert_eq!(meta.system_fingerprint, None);
    assert_eq!(meta.response_duration_ms, Some(7));
    assert_eq!(bridge::new_meta(None, None, None, None).created_at_ms, 0);
    assert_eq!(bridge::new_meta(Some((1u128 << 64) + 9), None, None, None).created_at_ms, 9);
}

#[test]
fn requests_are_read_from_text() {
    let cache = open();
    let request = "{\"b\": 1, \"a\": 2}";
    let json = parse_json(request).unwrap();
    let fingerprint = fingerprint_value(&json);
    assert_eq!(bridge::fingerprint(&cache, request), Ok(fingerprint.clone()));
    assert_eq!(bridge::get(&cache, request).unwrap().fingerprint, fingerprint);
    assert_eq!(bridge::peek(&cache, request).unwrap().fingerprint, fingerprint);
    let entry = bridge::put(
        &cache,
        request,
        b"r",
        Some(1),
        None,
        Some("sf".to_string()),
        None,
    )
    .unwrap();
    assert_eq!(entry.fingerprint, fingerprint);
    assert_eq!(entry.request, canonical_bytes(&json));
    assert_eq!(entry.response, b"r");
    assert_eq!(entry.meta, bridge::new_meta(Some(1), None, Some("sf".to_string()), None));
}

#[test]
fn stored_requests_are_read_back() {
    let cache = open();
    let entry =
        bridge::put(&cache, "{\"b\": [1, -2], \"a\": {}}", b"r", None, None, None, None).unwrap();
    assert_eq!(entry.fingerprint.len(), 64);
    let stored = String::from_utf8(entry.request).unwrap();
    let read = bridge::read_request(&stored).unwrap();
    assert_eq!(read, parse_json("{\"a\":{},\"b\":[1,-2]}").unwrap());
    assert_eq!(bridge::fingerprint(&cache, &stored), Ok(entry.fingerprint));
}

#[test]
fn malformed_requests_are_value_errors() {
    let cache = open();
    let refused = || Failure::Value("expected value at line 1 column 1".to_string());
    assert_eq!(bridge::fingerprint(&cache, "x"), Err(refused()));
    assert_eq!(bridge::get(&cache, "x").err(), Some(refused()));
    assert_eq!(bridge::peek(&cache, "x").err(), Some(refused()));
    assert_eq!(bridge::put(&cache, "x", b"", None, None, None, None).err(), Some(refused()));
    assert_eq!(bridge::read_request("x"), Err(refused()));
}

#[test]
fn cache_failures_are_runtime_errors() {
    assert_eq!(
        bridge::runtime_failure(&CacheError::RedbDb("locked".to_string())),
        Failure::Runtime("redb db: locked".to_string())
    );
}

#[test]
fn totals_have_names() {
    let stats = CacheStats {
        entries: 1,
        hits: 2,
        misses: 3,
        bytes_requests: 4,
        bytes_responses: 5,
    };
    assert_eq!(
        bridge::stats_items(&stats),
        [
            ("entries", 1),
            ("hits", 2),
            ("misses", 3),
            ("bytes_requests", 4),
            ("bytes_responses", 5),
        ]
    );
}

#[test]
fn numbers_are_integers_where_they_can_be() {
    let number = serde_json::Number::from(4);
    assert_eq!(bridge::number_data(&number, Some(4)), PyData::Int(4));
    assert_eq!(bridge::number_data(&number, None), PyData::Float(number.clone()));
}

#[test]
fn the_refusal_of_a_mode_names_the_modes() {
    assert_eq!(
        bridge::unknown_mode("'x'"),
        Failure::Value(
            "unknown diff mode 'x'; expected bytes|structured|embedding|judge".to_string()
        )
    );
}
