//! The cache's operations.
//!
//! The cache lives in three tables of a store: canonical requests, responses
//! and metadata, each keyed by fingerprint. An operation is a sequence of steps.
//! A step says what is to be done in the store; whoever holds the store does it
//! and hands the outcome to the step's `resume`, which gives the next step or
//! the operation's result. A failure in the store ends the operation with that
//! failure.
use vstd::prelude::*;
use vstd::slice::slice_to_vec;
use vstd::utf8::valid_utf8;

use crate::error::CacheError;
use crate::fingerprint::{canonical_bytes, canonical_text, fingerprint_of, fingerprint_value};
use crate::json::Json;
use crate::meta::CachedMeta;
use crate::stats::{CacheStats, Snapshot};

verus! {

/// The name of the table of canonical requests.
pub const REQUESTS: &'static str = "requests";

/// The name of the table of responses.
pub const RESPONSES: &'static str = "responses";

/// The name of the table of metadata.
pub const META: &'static str = "meta";

/// An open cache.
#[derive(Clone, Copy)]
pub struct Cache {
    opened: (),
}

/// Opening: create each of the tables that is not there yet, in one write
/// transaction.
pub struct CreateTables {
    pub tables: [&'static str; 3],
}

/// Storing: put the rows into their tables under the fingerprint, each in place
/// of the row that is there, in one write transaction.
pub struct WriteEntry {
    pub fingerprint: String,
    pub request: Vec<u8>,
    pub response: Vec<u8>,
    pub meta: CachedMeta,
}

/// Looking up with the hit counted: read the response under the fingerprint.
pub struct Lookup {
    pub fingerprint: String,
}

/// Looking up with nothing counted: read the response under the fingerprint.
pub struct Peek {
    pub fingerprint: String,
}

/// Counting a hit: begin a write transaction and read the metadata under the
/// fingerprint in it.
pub struct ReadMeta {
    pub fingerprint: String,
    pub response: Vec<u8>,
}

/// Counting a hit, continued: in the transaction that is open, put the metadata,
/// if there is any, in place of the row under the fingerprint; then commit.
pub struct WriteMeta {
    pub fingerprint: String,
    pub response: Vec<u8>,
    pub meta: Option<CachedMeta>,
}

/// Taking totals: read every row of the tables, in one read transaction.
pub struct ScanTables {
    pub tables: [&'static str; 3],
}

/// What comes next in a lookup that counts the hit.
pub enum GetStep {
    ReadMeta(ReadMeta),
    WriteMeta(WriteMeta),
    Finished(Result<Option<Vec<u8>>, CacheError>),
}

/// What a `GetStep` holds.
pub enum GetStepView {
    ReadMeta { fingerprint: Seq<char>, response: Seq<u8> },
    WriteMeta { fingerprint: Seq<char>, response: Seq<u8>, meta: Option<CachedMeta> },
    Finished(Result<Option<Seq<u8>>, CacheError>),
}

/// The bytes of a row that was asked for.
pub open spec fn row_view(row: Result<Option<Vec<u8>>, CacheError>) -> Result<
    Option<Seq<u8>>,
    CacheError,
> {
    match row {
        Ok(Some(bytes)) => Ok(Some(bytes@)),
        Ok(None) => Ok(None),
        Err(e) => Err(e),
    }
}

impl View for GetStep {
    type V = GetStepView;

    open spec fn view(&self) -> GetStepView {
        match *self {
            GetStep::ReadMeta(s) => GetStepView::ReadMeta {
                fingerprint: s.fingerprint@,
                response: s.response@,
            },
            GetStep::WriteMeta(s) => GetStepView::WriteMeta {
                fingerprint: s.fingerprint@,
                response: s.response@,
                meta: s.meta,
            },
            GetStep::Finished(r) => GetStepView::Finished(row_view(r)),
        }
    }
}

/// What follows the lookup: without a response the operation is over, with one
/// the hit is counted first.
pub open spec fn after_lookup(
    fingerprint: Seq<char>,
    row: Result<Option<Seq<u8>>, CacheError>,
) -> GetStepView {
    match row {
        Ok(Some(response)) => GetStepView::ReadMeta { fingerprint, response },
        Ok(None) => GetStepView::Finished(Ok(None)),
        Err(e) => GetStepView::Finished(Err(e)),
    }
}

/// What follows the reading of the metadata: metadata that is there is written
/// back with one more hit, and where there is none nothing is written.
pub open spec fn after_read_meta(
    fingerprint: Seq<char>,
    response: Seq<u8>,
    row: Result<Option<CachedMeta>, CacheError>,
) -> GetStepView {
    match row {
        Ok(Some(meta)) => GetStepView::WriteMeta { fingerprint, response, meta: Some(meta.hit()) },
        Ok(None) => GetStepView::WriteMeta { fingerprint, response, meta: None },
        Err(e) => GetStepView::Finished(Err(e)),
    }
}

/// What follows the counting: the response is given.
pub open spec fn after_write_meta(response: Seq<u8>, done: Result<(), CacheError>) -> GetStepView {
    match done {
        Ok(()) => GetStepView::Finished(Ok(Some(response))),
        Err(e) => GetStepView::Finished(Err(e)),
    }
}

/// The names of the tables.
pub proof fn tables_are_named()
    ensures
        REQUESTS@ == "requests"@,
        RESPONSES@ == "responses"@,
        META@ == "meta"@,
{
}

/// A row that was asked for stands for its bytes, its absence or the failure to
/// read it.
pub proof fn row_is_spelled_out(bytes: Vec<u8>, e: CacheError)
    ensures
        row_view(Ok(Some(bytes))) == Ok::<Option<Seq<u8>>, CacheError>(Some(bytes@)),
        row_view(Ok(None)) == Ok::<Option<Seq<u8>>, CacheError>(None),
        row_view(Err(e)) == Err::<Option<Seq<u8>>, CacheError>(e),
{
}

/// A failure of the store at any step of a lookup ends it with that failure, and
/// nothing is written after it.
pub proof fn failures_end_a_lookup(fingerprint: Seq<char>, response: Seq<u8>, e: CacheError)
    ensures
        after_lookup(fingerprint, Err(e)) == GetStepView::Finished(Err(e)),
        after_read_meta(fingerprint, response, Err(e)) == GetStepView::Finished(Err(e)),
        after_write_meta(response, Err(e)) == GetStepView::Finished(Err(e)),
{
}

/// A lookup that finds a response reads the metadata under the same fingerprint,
/// writes it there with one more hit in its count, or nothing where there is none,
/// and gives the response that was found. One that finds none is over.
pub proof fn lookups_go_on(fingerprint: Seq<char>, response: Seq<u8>, meta: CachedMeta)
    ensures
        after_lookup(fingerprint, Ok(None)) == GetStepView::Finished(Ok(None)),
        after_lookup(fingerprint, Ok(Some(response))) == (GetStepView::ReadMeta {
            fingerprint,
            response,
        }),
        after_read_meta(fingerprint, response, Ok(None)) == (GetStepView::WriteMeta {
            fingerprint,
            response,
            meta: None,
        }),
        after_read_meta(fingerprint, response, Ok(Some(meta))) matches GetStepView::WriteMeta {
            fingerprint: f,
            response: r,
            meta: Some(written),
        } && {
            &&& f == fingerprint
            &&& r == response
            &&& meta.hit_count < 0xFFFF_FFFF_FFFF_FFFF ==> written == CachedMeta {
                hit_count: (meta.hit_count + 1) as u64,
                ..meta
            }
            &&& meta.hit_count == 0xFFFF_FFFF_FFFF_FFFF ==> written == meta
        },
        after_write_meta(response, Ok(())) == GetStepView::Finished(Ok(Some(response))),
{
}

impl Cache {
    /// Opens the cache in a store.
    pub fn open() -> (r: CreateTables)
        ensures
            r.tables@ == seq![REQUESTS, RESPONSES, META],
    {
        let r = CreateTables { tables: [REQUESTS, RESPONSES, META] };
        assert(r.tables@ =~= seq![REQUESTS, RESPONSES, META]);
        r
    }

    /// The fingerprint of a request: the BLAKE3 hash of its canonical text.
    pub fn fingerprint(&self, request: &Json) -> (r: Result<String, CacheError>)
        ensures
            r matches Ok(fingerprint) && fingerprint@ == fingerprint_of(request@)
                && fingerprint@.len() == 64,
    {
        Ok(fingerprint_value(request))
    }

    /// Stores a response to a request, under the request's fingerprint.
    pub fn put(&self, request: &Json, response: &[u8], meta: &CachedMeta) -> (r: WriteEntry)
        ensures
            r.fingerprint@ == fingerprint_of(request@),
            r.fingerprint@.len() == 64,
            r.request@ == canonical_text(request@),
            valid_utf8(r.request@),
            r.response@ == response@,
            r.meta == *meta,
    {
        WriteEntry {
            fingerprint: fingerprint_value(request),
            request: canonical_bytes(request),
            response: slice_to_vec(response),
            meta: meta.copy(),
        }
    }

    /// Looks up the response to a request, and counts the hit if there is one.
    pub fn get(&self, request: &Json) -> (r: Lookup)
        ensures
            r.fingerprint@ == fingerprint_of(request@),
            r.fingerprint@.len() == 64,
    {
        Lookup { fingerprint: fingerprint_value(request) }
    }

    /// Looks up the response to a request, and counts nothing.
    pub fn peek(&self, request: &Json) -> (r: Peek)
        ensures
            r.fingerprint@ == fingerprint_of(request@),
            r.fingerprint@.len() == 64,
    {
        Peek { fingerprint: fingerprint_value(request) }
    }

    /// Takes totals over the cache.
    pub fn stats(&self) -> (r: ScanTables)
        ensures
            r.tables@ == seq![REQUESTS, RESPONSES, META],
    {
        let r = ScanTables { tables: [REQUESTS, RESPONSES, META] };
        assert(r.tables@ =~= seq![REQUESTS, RESPONSES, META]);
        r
    }
}

impl CreateTables {
    /// The cache, open once the tables are there.
    pub fn resume(self, done: Result<(), CacheError>) -> (r: Result<Cache, CacheError>)
        ensures
            match done {
                Ok(()) => r is Ok,
                Err(e) => r == Err::<Cache, CacheError>(e),
            },
    {
        match done {
            Ok(()) => Ok(Cache { opened: () }),
            Err(e) => Err(e),
        }
    }
}

impl WriteEntry {
    /// The fingerprint under which the rows are, once they are committed.
    pub fn resume(self, done: Result<(), CacheError>) -> (r: Result<String, CacheError>)
        ensures
            r == match done {
                Ok(()) => Ok::<String, CacheError>(self.fingerprint),
                Err(e) => Err(e),
            },
    {
        match done {
            Ok(()) => Ok(self.fingerprint),
            Err(e) => Err(e),
        }
    }
}

impl Lookup {
    /// What follows when the row has been read.
    pub fn resume(self, row: Result<Option<Vec<u8>>, CacheError>) -> (r: GetStep)
        ensures
            r@ == after_lookup(self.fingerprint@, row_view(row)),
            match row {
                Ok(Some(response)) => r == GetStep::ReadMeta(
                    ReadMeta { fingerprint: self.fingerprint, response },
                ),
                Ok(None) => r == GetStep::Finished(Ok(None)),
                Err(e) => r == GetStep::Finished(Err(e)),
            },
    {
        match row {
            Ok(Some(response)) => GetStep::ReadMeta(
                ReadMeta { fingerprint: self.fingerprint, response },
            ),
            Ok(None) => GetStep::Finished(Ok(None)),
            Err(e) => GetStep::Finished(Err(e)),
        }
    }
}

impl ReadMeta {
    /// What follows when the metadata has been read.
    pub fn resume(self, row: Result<Option<CachedMeta>, CacheError>) -> (r: GetStep)
        ensures
            r@ == after_read_meta(self.fingerprint@, self.response@, row),
            match row {
                Ok(Some(meta)) => r matches GetStep::WriteMeta(write) && {
                    &&& write.fingerprint == self.fingerprint
                    &&& write.response == self.response
                    &&& write.meta matches Some(written) && {
                        &&& meta.hit_count < u64::MAX ==> written.hit_count == meta.hit_count + 1
                        &&& meta.hit_count == u64::MAX ==> written.hit_count == u64::MAX
                        &&& written.created_at_ms == meta.created_at_ms
                        &&& written.model == meta.model
                        &&& written.system_fingerprint == meta.system_fingerprint
                        &&& written.response_duration_ms == meta.response_duration_ms
                    }
                },
                Ok(None) => r == GetStep::WriteMeta(
                    WriteMeta {
                        fingerprint: self.fingerprint,
                        response: self.response,
                        meta: None,
                    },
                ),
                Err(e) => r == GetStep::Finished(Err(e)),
            },
    {
        match row {
            Ok(Some(meta)) => GetStep::WriteMeta(
                WriteMeta {
                    fingerprint: self.fingerprint,
                    response: self.response,
                    meta: Some(meta.count_hit()),
                },
            ),
            Ok(None) => GetStep::WriteMeta(
                WriteMeta { fingerprint: self.fingerprint, response: self.response, meta: None },
            ),
            Err(e) => GetStep::Finished(Err(e)),
        }
    }
}

impl WriteMeta {
    /// What follows when the transaction has been committed.
    pub fn resume(self, done: Result<(), CacheError>) -> (r: GetStep)
        ensures
            r@ == after_write_meta(self.response@, done),
            match done {
                Ok(()) => r == GetStep::Finished(Ok(Some(self.response))),
                Err(e) => r == GetStep::Finished(Err(e)),
            },
    {
        match done {
            Ok(()) => GetStep::Finished(Ok(Some(self.response))),
            Err(e) => GetStep::Finished(Err(e)),
        }
    }
}

impl Peek {
    /// The response, if there is one.
    pub fn resume(self, row: Result<Option<Vec<u8>>, CacheError>) -> (r: Result<
        Option<Vec<u8>>,
        CacheError,
    >)
        ensures
            r == row,
    {
        row
    }
}

impl ScanTables {
    /// The totals over the rows.
    pub fn resume(self, rows: Result<Snapshot, CacheError>) -> (r: Result<CacheStats, CacheError>)
        requires
            rows matches Ok(snapshot) ==> snapshot@.totals_fit(),
        ensures
            r == match rows {
                Ok(snapshot) => Ok::<CacheStats, CacheError>(snapshot@.totals()),
                Err(e) => Err(e),
            },
    {
        match rows {
            Ok(snapshot) => Ok(snapshot.totals()),
            Err(e) => Err(e),
        }
    }
}

} // verus!
