use f3dx_cache::cache::{Cache, GetStep};
use f3dx_cache::error::CacheError;
use f3dx_cache::fingerprint::{canonical_bytes, fingerprint_value};
use f3dx_cache::json::{Json, Object};
use f3dx_cache::meta::CachedMeta;
use f3dx_cache::stats::{CacheStats, Snapshot};

fn request() -> Json {
    let mut o = Object::new();
    o.insert("model".to_string(), Json::String("m".to_string()));
    o.insert("a".to_string(), Json::Bool(true));
    Json::Object(o)
}

fn meta(hit_count: u64) -> CachedMeta {
    CachedMeta {
        created_at_ms: 5,
        hit_count,
        model: Some("m".to_string()),
        system_fingerprint: Some("fp".to_string()),
        response_duration_ms: None,
    }
}

fn open() -> Cache {
    let step = Cache::open();
    assert_eq!(step.tables, ["requests", "responses", "meta"]);
    step.resume(Ok(())).unwrap()
}

fn failure() -> CacheError {
    CacheError::RedbTxn("closed".to_string())
}

#[test]
fn open_fails_with_the_store() {
    assert_eq!(Cache::open().resume(Err(failure())).err(), Some(failure()));
}

#[test]
fn put_writes_the_three_rows() {
    let step = open().put(&request(), b"answer", &meta(0));
    assert_eq!(step.fingerprint, fingerprint_value(&request()));
    assert_eq!(step.request, canonical_bytes(&request()));
    assert_eq!(step.response, b"answer");
    assert_eq!(step.meta, meta(0));
    assert_eq!(step.resume(Ok(())).unwrap(), fingerprint_value(&request()));
}

#[test]
fn put_fails_with_the_store() {
    let step = open().put(&request(), b"answer", &meta(0));
    assert_eq!(step.resume(Err(failure())), Err(failure()));
}

#[test]
fn fingerprint_needs_no_store() {
    assert_eq!(open().fingerprint(&request()), Ok(fingerprint_value(&request())));
}

#[test]
fn get_counts_before_it_answers() {
    let lookup = open().get(&request());
    assert_eq!(lookup.fingerprint, fingerprint_value(&request()));
    let GetStep::ReadMeta(read) = lookup.resume(Ok(Some(b"answer".to_vec()))) else {
        panic!("the hit is not counted");
    };
    assert_eq!(read.fingerprint, fingerprint_value(&request()));
    let GetStep::WriteMeta(write) = read.resume(Ok(Some(meta(41)))) else {
        panic!("the hit is not written");
    };
    assert_eq!(write.fingerprint, fingerprint_value(&request()));
    assert_eq!(write.meta, Some(meta(42)));
    let GetStep::Finished(result) = write.resume(Ok(())) else {
        panic!("no answer");
    };
    assert_eq!(result, Ok(Some(b"answer".to_vec())));
}

#[test]
fn get_of_a_missing_response_is_over_at_once() {
    let GetStep::Finished(result) = open().get(&request()).resume(Ok(None)) else {
        panic!("a miss is counted");
    };
    assert_eq!(result, Ok(None));
}

#[test]
fn get_without_metadata_writes_none() {
    let GetStep::ReadMeta(read) = open().get(&request()).resume(Ok(Some(vec![1]))) else {
        panic!("the hit is not counted");
    };
    let GetStep::WriteMeta(write) = read.resume(Ok(None)) else {
        panic!("the transaction is left open");
    };
    assert_eq!(write.meta, None);
    let GetStep::Finished(result) = write.resume(Ok(())) else {
        panic!("no answer");
    };
    assert_eq!(result, Ok(Some(vec![1])));
}

#[test]
fn get_fails_at_every_step() {
    let cache = open();
    let GetStep::Finished(result) = cache.get(&request()).resume(Err(failure())) else {
        panic!("a failed lookup goes on");
    };
    assert_eq!(result, Err(failure()));

    let GetStep::ReadMeta(read) = cache.get(&request()).resume(Ok(Some(vec![1]))) else {
        panic!("the hit is not counted");
    };
    let garbled = CacheError::Json("expected value".to_string());
    let GetStep::Finished(result) = read.resume(Err(garbled)) else {
        panic!("a failed read goes on");
    };
    assert_eq!(result, Err(CacheError::Json("expected value".to_string())));

    let GetStep::ReadMeta(read) = cache.get(&request()).resume(Ok(Some(vec![1]))) else {
        panic!("the hit is not counted");
    };
    let GetStep::WriteMeta(write) = read.resume(Ok(Some(meta(0)))) else {
        panic!("the hit is not written");
    };
    let GetStep::Finished(result) = write.resume(Err(failure())) else {
        panic!("a failed commit goes on");
    };
    assert_eq!(result, Err(failure()));
}

#[test]
fn the_hit_count_stops_at_its_largest_value() {
    assert_eq!(meta(u64::MAX).count_hit(), meta(u64::MAX));
    assert_eq!(meta(u64::MAX - 1).count_hit(), meta(u64::MAX));
}

#[test]
fn peek_hands_the_row_on() {
    let cache = open();
    let lookup = cache.peek(&request());
    assert_eq!(lookup.fingerprint, fingerprint_value(&request()));
    assert_eq!(lookup.resume(Ok(Some(vec![7]))), Ok(Some(vec![7])));
    assert_eq!(cache.peek(&request()).resume(Ok(None)), Ok(None));
    assert_eq!(cache.peek(&request()).resume(Err(failure())), Err(failure()));
}

#[test]
fn stats_add_up() {
    let step = open().stats();
    assert_eq!(step.tables, ["requests", "responses", "meta"]);
    let rows = Snapshot {
        requests: vec![vec![0; 3], vec![0; 4]],
        responses: vec![vec![0; 10], vec![]],
        meta: vec![meta(2), meta(5)],
    };
    assert!(rows.totals_fit());
    assert_eq!(
        step.resume(Ok(rows)),
        Ok(CacheStats {
            entries: 2,
            hits: 7,
            misses: 0,
            bytes_requests: 7,
            bytes_responses: 10,
        })
    );
}

#[test]
fn stats_of_an_empty_cache_are_zero() {
    let rows = Snapshot { requests: vec![], responses: vec![], meta: vec![] };
    assert_eq!(open().stats().resume(Ok(rows)), Ok(CacheStats::default()));
}

#[test]
fn stats_fail_with_the_store() {
    assert_eq!(open().stats().resume(Err(failure())), Err(failure()));
}

#[test]
fn totals_can_be_too_large() {
    let rows = Snapshot {
        requests: vec![],
        responses: vec![],
        meta: vec![meta(u64::MAX), meta(1)],
    };
    assert!(!rows.totals_fit());
    let rows = Snapshot {
        requests: vec![],
        responses: vec![],
        meta: vec![meta(u64::MAX), meta(0)],
    };
    assert!(rows.totals_fit());
    assert_eq!(rows.totals().hits, u64::MAX);
}

#[test]
fn failures_are_described() {
    let m = || "m".to_string();
    assert_eq!(CacheError::Redb(m()).describe(), "redb: m");
    assert_eq!(CacheError::RedbStorage(m()).describe(), "redb storage: m");
    assert_eq!(CacheError::RedbTxn(m()).describe(), "redb txn: m");
    assert_eq!(CacheError::RedbTable(m()).describe(), "redb table: m");
    assert_eq!(CacheError::RedbCommit(m()).describe(), "redb commit: m");
    assert_eq!(CacheError::RedbDb(m()).describe(), "redb db: m");
    assert_eq!(CacheError::Json(m()).describe(), "json: m");
}
