//! The operations, carried out in a redb file.

use f3dx_cache::cache::{self, GetStep};
use f3dx_cache::json::{Json, Object};
use f3dx_cache::meta::CachedMeta;
use f3dx_cache::stats::{CacheStats, Snapshot};
use f3dx_cache::value::parse_json;
use redb::{Database, ReadableTable, TableDefinition};

type Table = TableDefinition<'static, &'static str, &'static [u8]>;

const REQUESTS: Table = TableDefinition::new("requests");
const RESPONSES: Table = TableDefinition::new("responses");
const META: Table = TableDefinition::new("meta");

struct Disk {
    db: Database,
    cache: cache::Cache,
    _dir: tempfile::TempDir,
}

fn encode(meta: &CachedMeta) -> Vec<u8> {
    let mut map = serde_json::Map::new();
    let text = |t: &Option<String>| match t {
        Some(t) => serde_json::Value::String(t.clone()),
        None => serde_json::Value::Null,
    };
    map.insert("created_at_ms".to_string(), serde_json::Value::from(meta.created_at_ms));
    map.insert("hit_count".to_string(), serde_json::Value::from(meta.hit_count));
    map.insert("model".to_string(), text(&meta.model));
    map.insert("system_fingerprint".to_string(), text(&meta.system_fingerprint));
    let duration = match meta.response_duration_ms {
        Some(ms) => serde_json::Value::from(ms),
        None => serde_json::Value::Null,
    };
    map.insert("response_duration_ms".to_string(), duration);
    serde_json::to_vec(&serde_json::Value::Object(map)).unwrap()
}

fn decode(row: &[u8]) -> CachedMeta {
    let value: serde_json::Value = serde_json::from_slice(row).unwrap();
    let text = |name: &str| value[name].as_str().map(|t| t.to_string());
    CachedMeta {
        created_at_ms: value["created_at_ms"].as_u64().unwrap(),
        hit_count: value["hit_count"].as_u64().unwrap(),
        model: text("model"),
        system_fingerprint: text("system_fingerprint"),
        response_duration_ms: value["response_duration_ms"].as_u64(),
    }
}

impl Disk {
    fn open() -> Disk {
        Disk::open_in(tempfile::tempdir().unwrap())
    }

    fn reopen(self) -> Disk {
        let Disk { db, _dir: dir, .. } = self;
        drop(db);
        Disk::open_in(dir)
    }

    fn open_in(dir: tempfile::TempDir) -> Disk {
        let db = Database::create(dir.path().join("c.redb")).unwrap();
        let step = cache::Cache::open();
        let txn = db.begin_write().unwrap();
        for name in step.tables {
            txn.open_table(Table::new(name)).unwrap();
        }
        txn.commit().unwrap();
        let cache = step.resume(Ok(())).unwrap();
        Disk { db, cache, _dir: dir }
    }

    fn put(&self, request: &Json, response: &[u8], meta: &CachedMeta) -> String {
        let entry = self.cache.put(request, response, meta);
        let fingerprint = entry.fingerprint.as_str();
        let txn = self.db.begin_write().unwrap();
        {
            let mut requests = txn.open_table(REQUESTS).unwrap();
            requests.insert(fingerprint, entry.request.as_slice()).unwrap();
            let mut responses = txn.open_table(RESPONSES).unwrap();
            responses.insert(fingerprint, entry.response.as_slice()).unwrap();
            let mut meta = txn.open_table(META).unwrap();
            meta.insert(fingerprint, encode(&entry.meta).as_slice()).unwrap();
        }
        txn.commit().unwrap();
        entry.resume(Ok(())).unwrap()
    }

    fn response(&self, fingerprint: &str) -> Option<Vec<u8>> {
        let txn = self.db.begin_read().unwrap();
        let responses = txn.open_table(RESPONSES).unwrap();
        let row = responses.get(fingerprint).unwrap();
        row.map(|v| v.value().to_vec())
    }

    fn peek(&self, request: &Json) -> Option<Vec<u8>> {
        let lookup = self.cache.peek(request);
        let row = self.response(&lookup.fingerprint);
        lookup.resume(Ok(row)).unwrap()
    }

    fn get(&self, request: &Json) -> Option<Vec<u8>> {
        let lookup = self.cache.get(request);
        let row = self.response(&lookup.fingerprint);
        let mut step = lookup.resume(Ok(row));
        loop {
            step = match step {
                GetStep::ReadMeta(read) => {
                    let txn = self.db.begin_read().unwrap();
                    let table = txn.open_table(META).unwrap();
                    let row = table.get(read.fingerprint.as_str()).unwrap();
                    let meta = row.map(|v| decode(v.value()));
                    read.resume(Ok(meta))
                }
                GetStep::WriteMeta(write) => {
                    let txn = self.db.begin_write().unwrap();
                    if let Some(meta) = &write.meta {
                        let mut table = txn.open_table(META).unwrap();
                        table
                            .insert(write.fingerprint.as_str(), encode(meta).as_slice())
                            .unwrap();
                    }
                    txn.commit().unwrap();
                    write.resume(Ok(()))
                }
                GetStep::Finished(result) => return result.unwrap(),
            };
        }
    }

    fn stats(&self) -> CacheStats {
        let step = self.cache.stats();
        let txn = self.db.begin_read().unwrap();
        let mut rows = Snapshot { requests: vec![], responses: vec![], meta: vec![] };
        for row in txn.open_table(REQUESTS).unwrap().iter().unwrap() {
            rows.requests.push(row.unwrap().1.value().to_vec());
        }
        for row in txn.open_table(RESPONSES).unwrap().iter().unwrap() {
            rows.responses.push(row.unwrap().1.value().to_vec());
        }
        for row in txn.open_table(META).unwrap().iter().unwrap() {
            rows.meta.push(decode(row.unwrap().1.value()));
        }
        assert!(rows.totals_fit());
        step.resume(Ok(rows)).unwrap()
    }
}

fn text(s: &str) -> Json {
    Json::String(s.to_string())
}

fn object(entries: Vec<(&str, Json)>) -> Json {
    let mut object = Object::new();
    for (key, value) in entries {
        object.insert(key.to_string(), value);
    }
    Json::Object(object)
}

fn chat(content: &str) -> Json {
    object(vec![
        ("model", text("gpt-4")),
        (
            "messages",
            Json::Array(vec![object(vec![("role", text("user")), ("content", text(content))])]),
        ),
    ])
}

fn blank_meta() -> CachedMeta {
    CachedMeta {
        created_at_ms: 0,
        hit_count: 0,
        model: None,
        system_fingerprint: None,
        response_duration_ms: None,
    }
}

#[test]
fn put_get_roundtrip() {
    let cache = Disk::open();
    let req = chat("hi");
    let resp = b"hello, world";
    let meta = CachedMeta {
        created_at_ms: 0,
        hit_count: 0,
        model: Some("gpt-4".into()),
        system_fingerprint: None,
        response_duration_ms: Some(123),
    };
    let fp = cache.put(&req, resp, &meta);
    assert_eq!(fp.len(), 64);
    let got = cache.get(&req).unwrap();
    assert_eq!(got, resp);
    let stats = cache.stats();
    assert_eq!(stats.entries, 1);
    assert_eq!(stats.hits, 1);
}

#[test]
fn peek_does_not_bump_hit_count() {
    let cache = Disk::open();
    let req = chat("x");
    let resp = b"r";
    let meta = blank_meta();
    cache.put(&req, resp, &meta);

    // Three peeks should all return the bytes, but stats.hits stays 0.
    for _ in 0..3 {
        let got = cache.peek(&req).unwrap();
        assert_eq!(got, resp);
    }
    let stats = cache.stats();
    assert_eq!(stats.entries, 1);
    assert_eq!(stats.hits, 0);

    // Now exercise get() once and confirm hit_count moves to 1.
    let _ = cache.get(&req);
    let stats = cache.stats();
    assert_eq!(stats.hits, 1);
}

#[test]
fn peek_returns_none_for_missing_key() {
    let cache = Disk::open();
    let req = object(vec![("model", text("x")), ("messages", Json::Array(vec![]))]);
    assert!(cache.peek(&req).is_none());
}

#[test]
fn get_returns_none_for_missing_key() {
    let cache = Disk::open();
    cache.put(&chat("a"), b"a", &blank_meta());
    assert!(cache.get(&chat("b")).is_none());
    assert_eq!(cache.stats().hits, 0);
}

#[test]
fn a_request_in_another_order_finds_the_response() {
    let cache = Disk::open();
    let stored = object(vec![("a", text("1")), ("b", object(vec![("c", text("2")), ("d", Json::Null)]))]);
    let asked = object(vec![("b", object(vec![("d", Json::Null), ("c", text("2"))])), ("a", text("1"))]);
    let fp = cache.put(&stored, b"same", &blank_meta());
    assert_eq!(cache.cache.fingerprint(&asked), Ok(fp));
    assert_eq!(cache.get(&asked).unwrap(), b"same");
    assert_eq!(cache.peek(&asked).unwrap(), b"same");
}

#[test]
fn a_request_with_an_integer_written_otherwise_finds_the_response() {
    let cache = Disk::open();
    let number = |text: &str| object(vec![("temperature", parse_json(text).unwrap())]);
    let fp = cache.put(&number("1.0"), b"same", &blank_meta());
    for asked in ["1", "10e-1", "1.000"] {
        assert_eq!(cache.cache.fingerprint(&number(asked)), Ok(fp.clone()));
        assert_eq!(cache.get(&number(asked)).unwrap(), b"same");
    }
    assert_eq!(cache.peek(&number("1.5")), None);
}

#[test]
fn a_response_stays_through_other_operations() {
    let cache = Disk::open();
    cache.put(&chat("kept"), b"kept", &blank_meta());
    let first = cache.stats();
    for round in 0..4 {
        cache.put(&chat("other"), &[round], &blank_meta());
        assert_eq!(cache.get(&chat("kept")).unwrap(), b"kept");
        assert_eq!(cache.peek(&chat("kept")).unwrap(), b"kept");
        assert_eq!(cache.get(&chat("missing")), None);
        cache.get(&chat("other"));
    }
    let last = cache.stats();
    assert_eq!(first.hits, 0);
    assert_eq!(last.hits, 5);
    assert_eq!(last.entries, 2);
    for _ in 0..7 {
        cache.get(&chat("kept"));
        cache.get(&chat("other"));
        cache.get(&chat("missing"));
    }
    assert_eq!(cache.stats().hits, last.hits + 14);
    assert_eq!(cache.stats().bytes_requests, last.bytes_requests);
}

#[test]
fn opening_a_cache_again_changes_nothing() {
    let cache = Disk::open();
    assert_eq!(cache.stats().entries, 0);
    cache.put(&chat("hi"), b"kept", &blank_meta());
    assert_eq!(cache.get(&chat("hi")).unwrap(), b"kept");
    let before = cache.stats();
    let cache = cache.reopen();
    assert_eq!(cache.stats(), before);
    assert_eq!(cache.peek(&chat("hi")).unwrap(), b"kept");
}

#[test]
fn a_second_response_replaces_the_first() {
    let cache = Disk::open();
    let first = cache.put(&chat("a"), b"one", &blank_meta());
    cache.get(&chat("a"));
    let second = cache.put(&chat("a"), b"two", &blank_meta());
    assert_eq!(first, second);
    assert_eq!(cache.peek(&chat("a")).unwrap(), b"two");
    let stats = cache.stats();
    assert_eq!(stats.entries, 1);
    assert_eq!(stats.hits, 0);
    assert_eq!(stats.bytes_responses, 3);
}

#[test]
fn entries_do_not_disturb_each_other() {
    let cache = Disk::open();
    cache.put(&chat("a"), b"one", &blank_meta());
    cache.put(&chat("b"), b"three", &blank_meta());
    assert_eq!(cache.get(&chat("a")).unwrap(), b"one");
    assert_eq!(cache.get(&chat("b")).unwrap(), b"three");
    assert_eq!(cache.get(&chat("b")).unwrap(), b"three");
    let stats = cache.stats();
    assert_eq!(
        stats,
        CacheStats {
            entries: 2,
            hits: 3,
            misses: 0,
            bytes_requests: 120,
            bytes_responses: 8,
        }
    );
}
