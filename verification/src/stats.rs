//! Totals over what the cache holds.
use vstd::prelude::*;

use crate::meta::CachedMeta;

verus! {

/// Totals over the cache.
#[derive(Debug, Clone, PartialEq, Eq)]
pub struct CacheStats {
    /// Requests held.
    pub entries: u64,
    /// Hits counted, over all entries.
    pub hits: u64,
    /// Misses; they are not counted, so this stays at zero.
    pub misses: u64,
    /// Bytes of canonical request text.
    pub bytes_requests: u64,
    /// Bytes of responses.
    pub bytes_responses: u64,
}

impl Default for CacheStats {
    /// All totals at zero.
    fn default() -> (r: CacheStats)
        ensures
            r == (CacheStats {
                entries: 0,
                hits: 0,
                misses: 0,
                bytes_requests: 0,
                bytes_responses: 0,
            }),
    {
        CacheStats { entries: 0, hits: 0, misses: 0, bytes_requests: 0, bytes_responses: 0 }
    }
}

/// The rows of the three tables, as one read transaction sees them.
pub struct Snapshot {
    pub requests: Vec<Vec<u8>>,
    pub responses: Vec<Vec<u8>>,
    pub meta: Vec<CachedMeta>,
}

/// The rows that a `Snapshot` holds.
pub struct SnapshotView {
    pub requests: Seq<Seq<u8>>,
    pub responses: Seq<Seq<u8>>,
    pub meta: Seq<CachedMeta>,
}

/// The bytes of each row.
pub open spec fn rows_view(rows: Seq<Vec<u8>>) -> Seq<Seq<u8>> {
    Seq::new(rows.len(), |i: int| rows[i]@)
}

impl View for Snapshot {
    type V = SnapshotView;

    open spec fn view(&self) -> SnapshotView {
        SnapshotView {
            requests: rows_view(self.requests@),
            responses: rows_view(self.responses@),
            meta: self.meta@,
        }
    }
}

/// How many bytes the rows have together.
pub open spec fn total_bytes(rows: Seq<Seq<u8>>) -> nat
    decreases rows.len(),
{
    if rows.len() == 0 {
        0
    } else {
        total_bytes(rows.drop_last()) + rows.last().len()
    }
}

/// How many hits were counted together.
pub open spec fn total_hits(meta: Seq<CachedMeta>) -> nat
    decreases meta.len(),
{
    if meta.len() == 0 {
        0
    } else {
        total_hits(meta.drop_last()) + meta.last().hit_count as nat
    }
}

impl SnapshotView {
    /// Whether the totals are numbers of 64 bits.
    pub open spec fn totals_fit(self) -> bool {
        &&& self.requests.len() <= u64::MAX
        &&& total_bytes(self.requests) <= u64::MAX
        &&& total_bytes(self.responses) <= u64::MAX
        &&& total_hits(self.meta) <= u64::MAX
    }

    /// The totals.
    pub open spec fn totals(self) -> CacheStats {
        CacheStats {
            entries: self.requests.len() as u64,
            hits: total_hits(self.meta) as u64,
            misses: 0,
            bytes_requests: total_bytes(self.requests) as u64,
            bytes_responses: total_bytes(self.responses) as u64,
        }
    }
}

/// How bytes add up: none for no rows, and one more row adds its length.
pub proof fn bytes_add_up(rows: Seq<Seq<u8>>, row: Seq<u8>)
    ensures
        total_bytes(Seq::empty()) == 0,
        total_bytes(rows.push(row)) == total_bytes(rows) + row.len(),
{
    assert(rows.push(row).drop_last() =~= rows);
}

/// How hits add up: none for no metadata, and one more row of it adds its count.
pub proof fn hits_add_up(meta: Seq<CachedMeta>, row: CachedMeta)
    ensures
        total_hits(Seq::empty()) == 0,
        total_hits(meta.push(row)) == total_hits(meta) + row.hit_count,
{
    assert(meta.push(row).drop_last() =~= meta);
}

/// What the totals are, where each is a number of 64 bits: the number of requests,
/// the sum of the hits, no misses, and the sums of the bytes. Where one is not,
/// they do not fit.
pub proof fn totals_are_sums(rows: SnapshotView)
    ensures
        rows.totals_fit() <==> rows.requests.len() <= 0xFFFF_FFFF_FFFF_FFFF && total_bytes(
            rows.requests,
        ) <= 0xFFFF_FFFF_FFFF_FFFF && total_bytes(rows.responses) <= 0xFFFF_FFFF_FFFF_FFFF
            && total_hits(rows.meta) <= 0xFFFF_FFFF_FFFF_FFFF,
        rows.totals_fit() ==> {
            &&& rows.totals().entries == rows.requests.len()
            &&& rows.totals().hits == total_hits(rows.meta)
            &&& rows.totals().misses == 0
            &&& rows.totals().bytes_requests == total_bytes(rows.requests)
            &&& rows.totals().bytes_responses == total_bytes(rows.responses)
        },
{
}

/// One more row in each table raises the totals by one entry, by the lengths of the
/// request and of the response, and by the hits of the metadata. No rows have
/// totals of zero.
pub proof fn totals_grow_by_the_row(
    rows: SnapshotView,
    request: Seq<u8>,
    response: Seq<u8>,
    meta: CachedMeta,
)
    ensures
        ({
            let empty = SnapshotView {
                requests: Seq::empty(),
                responses: Seq::empty(),
                meta: Seq::empty(),
            };
            let none = empty.totals();
            &&& empty.totals_fit()
            &&& none.entries == 0 && none.hits == 0 && none.misses == 0 && none.bytes_requests == 0
                && none.bytes_responses == 0
        }),
        ({
            let more = SnapshotView {
                requests: rows.requests.push(request),
                responses: rows.responses.push(response),
                meta: rows.meta.push(meta),
            };
            more.totals_fit() ==> {
                &&& rows.totals_fit()
                &&& more.totals().entries == rows.totals().entries + 1
                &&& more.totals().hits == rows.totals().hits + meta.hit_count
                &&& more.totals().misses == rows.totals().misses
                &&& more.totals().bytes_requests == rows.totals().bytes_requests + request.len()
                &&& more.totals().bytes_responses == rows.totals().bytes_responses + response.len()
            }
        }),
{
    bytes_add_up(rows.requests, request);
    bytes_add_up(rows.responses, response);
    hits_add_up(rows.meta, meta);
}

/// A snapshot stands for the rows that it holds, byte for byte and in order.
pub proof fn snapshot_is_spelled_out(snapshot: Snapshot)
    ensures
        snapshot@.requests.len() == snapshot.requests@.len(),
        forall|i: int|
            0 <= i < snapshot.requests@.len() ==> #[trigger] snapshot@.requests[i]
                == snapshot.requests@[i]@,
        snapshot@.responses.len() == snapshot.responses@.len(),
        forall|i: int|
            0 <= i < snapshot.responses@.len() ==> #[trigger] snapshot@.responses[i]
                == snapshot.responses@[i]@,
        snapshot@.meta == snapshot.meta@,
{
}

proof fn lemma_total_bytes_prefix(rows: Seq<Seq<u8>>, n: int)
    requires
        0 <= n <= rows.len(),
    ensures
        total_bytes(rows.take(n)) <= total_bytes(rows),
    decreases rows.len(),
{
    if n == rows.len() {
        assert(rows.take(n) =~= rows);
    } else {
        assert(rows.take(n) =~= rows.drop_last().take(n));
        lemma_total_bytes_prefix(rows.drop_last(), n);
    }
}

proof fn lemma_total_hits_prefix(meta: Seq<CachedMeta>, n: int)
    requires
        0 <= n <= meta.len(),
    ensures
        total_hits(meta.take(n)) <= total_hits(meta),
    decreases meta.len(),
{
    if n == meta.len() {
        assert(meta.take(n) =~= meta);
    } else {
        assert(meta.take(n) =~= meta.drop_last().take(n));
        lemma_total_hits_prefix(meta.drop_last(), n);
    }
}

/// Adds up the bytes of the rows, if the sum has 64 bits.
fn sum_bytes(rows: &Vec<Vec<u8>>) -> (r: Option<u64>)
    ensures
        match r {
            Some(sum) => sum == total_bytes(rows_view(rows@)),
            None => total_bytes(rows_view(rows@)) > u64::MAX,
        },
{
    let ghost view = rows_view(rows@);
    let mut sum: u64 = 0;
    let mut i: usize = 0;
    while i < rows.len()
        invariant
            view == rows_view(rows@),
            i <= rows@.len(),
            sum == total_bytes(view.take(i as int)),
        decreases rows@.len() - i,
    {
        proof {
            assert(view.take(i + 1).drop_last() =~= view.take(i as int));
            lemma_total_bytes_prefix(view, i + 1);
        }
        match sum.checked_add(rows[i].len() as u64) {
            Some(next) => {
                sum = next;
            },
            None => {
                return None;
            },
        }
        i = i + 1;
    }
    assert(view.take(i as int) =~= view);
    Some(sum)
}

/// Adds up the hits, if the sum has 64 bits.
fn sum_hits(meta: &Vec<CachedMeta>) -> (r: Option<u64>)
    ensures
        match r {
            Some(sum) => sum == total_hits(meta@),
            None => total_hits(meta@) > u64::MAX,
        },
{
    let mut sum: u64 = 0;
    let mut i: usize = 0;
    while i < meta.len()
        invariant
            i <= meta@.len(),
            sum == total_hits(meta@.take(i as int)),
        decreases meta@.len() - i,
    {
        proof {
            assert(meta@.take(i + 1).drop_last() =~= meta@.take(i as int));
            lemma_total_hits_prefix(meta@, i + 1);
        }
        match sum.checked_add(meta[i].hit_count) {
            Some(next) => {
                sum = next;
            },
            None => {
                return None;
            },
        }
        i = i + 1;
    }
    assert(meta@.take(i as int) =~= meta@);
    Some(sum)
}

impl Snapshot {
    /// Whether the totals are numbers of 64 bits.
    pub fn totals_fit(&self) -> (r: bool)
        ensures
            r == self@.totals_fit(),
    {
        assert(self.requests.len() <= u64::MAX);
        sum_bytes(&self.requests).is_some() && sum_bytes(&self.responses).is_some() && sum_hits(
            &self.meta,
        ).is_some()
    }

    /// The totals.
    pub fn totals(&self) -> (r: CacheStats)
        requires
            self@.totals_fit(),
        ensures
            r == self@.totals(),
            r.entries == self.requests@.len(),
            r.hits == total_hits(self.meta@),
            r.misses == 0,
            r.bytes_requests == total_bytes(self@.requests),
            r.bytes_responses == total_bytes(self@.responses),
    {
        let mut stats = CacheStats::default();
        stats.entries = self.requests.len() as u64;
        stats.bytes_requests = sum_bytes(&self.requests).unwrap();
        stats.bytes_responses = sum_bytes(&self.responses).unwrap();
        stats.hits = sum_hits(&self.meta).unwrap();
        stats
    }
}

} // verus!
