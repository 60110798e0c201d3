//! What the cache's operations amount to on a store that does what each step
//! asks of it.
use vstd::prelude::*;

use crate::cache::{after_lookup, after_read_meta, after_write_meta, GetStepView};
use crate::error::CacheError;
use crate::fingerprint::{canonical_text, fingerprint_of, same_meaning_same_fingerprint};
use crate::meta::CachedMeta;
use crate::model::{meaning, well_formed, JsonView};
use crate::stats::{total_bytes, total_hits, totals_grow_by_the_row, SnapshotView};

verus! {

/// The three tables. A row of metadata stands for what it decodes to, or for the
/// failure to decode it.
#[verifier::ext_equal]
pub struct Tables {
    pub requests: Map<Seq<char>, Seq<u8>>,
    pub responses: Map<Seq<char>, Seq<u8>>,
    pub meta: Map<Seq<char>, Result<CachedMeta, CacheError>>,
}

/// What a store holds before the cache is opened in it: any of the tables may not
/// be there yet.
#[verifier::ext_equal]
pub struct Store {
    pub requests: Option<Map<Seq<char>, Seq<u8>>>,
    pub responses: Option<Map<Seq<char>, Seq<u8>>>,
    pub meta: Option<Map<Seq<char>, Result<CachedMeta, CacheError>>>,
}

/// An operation of the cache.
pub enum Operation {
    Put { request: JsonView, response: Seq<u8>, meta: CachedMeta },
    Get { request: JsonView },
    Peek { request: JsonView },
}

impl Operation {
    /// The request that the operation is given.
    pub open spec fn request(self) -> JsonView {
        match self {
            Operation::Put { request, .. } => request,
            Operation::Get { request } => request,
            Operation::Peek { request } => request,
        }
    }
}

impl Store {
    /// A new store.
    pub open spec fn new() -> Store {
        Store { requests: None, responses: None, meta: None }
    }

    /// The tables after each that was not there has been created, empty.
    pub open spec fn create_tables(self) -> Tables {
        Tables {
            requests: match self.requests {
                Some(rows) => rows,
                None => Map::empty(),
            },
            responses: match self.responses {
                Some(rows) => rows,
                None => Map::empty(),
            },
            meta: match self.meta {
                Some(rows) => rows,
                None => Map::empty(),
            },
        }
    }
}

impl Tables {
    /// What the store holds once the cache is closed.
    pub open spec fn close(self) -> Store {
        Store {
            requests: Some(self.requests),
            responses: Some(self.responses),
            meta: Some(self.meta),
        }
    }

    /// The tables of a new store.
    pub open spec fn empty() -> Tables {
        Tables { requests: Map::empty(), responses: Map::empty(), meta: Map::empty() }
    }

    /// The metadata under a fingerprint, as it is read.
    pub open spec fn read_meta(self, fingerprint: Seq<char>) -> Result<
        Option<CachedMeta>,
        CacheError,
    > {
        if self.meta.contains_key(fingerprint) {
            match self.meta[fingerprint] {
                Ok(meta) => Ok(Some(meta)),
                Err(e) => Err(e),
            }
        } else {
            Ok(None)
        }
    }

    /// The tables after the rows of an entry have been written.
    pub open spec fn write_entry(
        self,
        fingerprint: Seq<char>,
        request: Seq<u8>,
        response: Seq<u8>,
        meta: CachedMeta,
    ) -> Tables {
        Tables {
            requests: self.requests.insert(fingerprint, request),
            responses: self.responses.insert(fingerprint, response),
            meta: self.meta.insert(fingerprint, Ok(meta)),
        }
    }

    /// The tables after metadata has been written, if there is any to write.
    pub open spec fn write_meta(self, fingerprint: Seq<char>, meta: Option<CachedMeta>) -> Tables {
        match meta {
            Some(meta) => Tables { meta: self.meta.insert(fingerprint, Ok(meta)), ..self },
            None => self,
        }
    }

    /// The tables after a response to a request has been stored.
    pub open spec fn put(self, request: JsonView, response: Seq<u8>, meta: CachedMeta) -> Tables {
        self.write_entry(fingerprint_of(request), canonical_text(request), response, meta)
    }

    /// The answer to a lookup that counts nothing. The tables stay as they are.
    pub open spec fn peek(self, request: JsonView) -> Option<Seq<u8>> {
        self.responses.get(fingerprint_of(request))
    }

    /// The tables and the result when a lookup goes on from a step to its end.
    pub open spec fn run(self, step: GetStepView) -> (
        Tables,
        Result<Option<Seq<u8>>, CacheError>,
    )
        decreases
                (match step {
                    GetStepView::ReadMeta { .. } => 2nat,
                    GetStepView::WriteMeta { .. } => 1nat,
                    GetStepView::Finished(_) => 0nat,
                }),
    {
        match step {
            GetStepView::ReadMeta { fingerprint, response } => self.run(
                after_read_meta(fingerprint, response, self.read_meta(fingerprint)),
            ),
            GetStepView::WriteMeta { fingerprint, response, meta } => self.write_meta(
                fingerprint,
                meta,
            ).run(after_write_meta(response, Ok(()))),
            GetStepView::Finished(result) => (self, result),
        }
    }

    /// The tables and the result after a lookup that counts the hit.
    pub open spec fn get(self, request: JsonView) -> (
        Tables,
        Result<Option<Seq<u8>>, CacheError>,
    ) {
        let fingerprint = fingerprint_of(request);
        self.run(after_lookup(fingerprint, Ok(self.responses.get(fingerprint))))
    }

    /// The tables after an operation.
    pub open spec fn apply(self, operation: Operation) -> Tables {
        match operation {
            Operation::Put { request, response, meta } => self.put(request, response, meta),
            Operation::Get { request } => self.get(request).0,
            Operation::Peek { .. } => self,
        }
    }

    /// The tables after operations, one after the other.
    pub open spec fn after(self, operations: Seq<Operation>) -> Tables
        decreases operations.len(),
    {
        if operations.len() == 0 {
            self
        } else {
            self.after(operations.drop_last()).apply(operations.last())
        }
    }

    /// What holds of the tables of a cache: they have the same fingerprints, each
    /// the fingerprint of the canonical request under it, and the metadata decodes.
    pub open spec fn consistent(self) -> bool {
        &&& self.requests.dom().finite()
        &&& self.responses.dom() == self.requests.dom()
        &&& self.meta.dom() == self.requests.dom()
        &&& forall|fingerprint: Seq<char>| #[trigger]
            self.requests.contains_key(fingerprint) ==> {
                &&& exists|request: JsonView| #[trigger]
                    well_formed(request) && fingerprint == fingerprint_of(request)
                        && self.requests[fingerprint] == canonical_text(request)
                &&& self.meta[fingerprint] is Ok
            }
    }

    /// Whether `fingerprints` lists the fingerprints in the cache, each once.
    pub open spec fn listed_by(self, fingerprints: Seq<Seq<char>>) -> bool {
        &&& fingerprints.no_duplicates()
        &&& forall|fingerprint: Seq<char>| #[trigger]
            fingerprints.contains(fingerprint) <==> self.requests.contains_key(fingerprint)
    }

    /// The rows of the tables, in the order of a list of the fingerprints.
    pub open spec fn scan(self, fingerprints: Seq<Seq<char>>) -> SnapshotView {
        SnapshotView {
            requests: fingerprints.map_values(|f: Seq<char>| self.requests[f]),
            responses: fingerprints.map_values(|f: Seq<char>| self.responses[f]),
            meta: fingerprints.map_values(|f: Seq<char>| self.meta[f]->Ok_0),
        }
    }
}

/// Opening the cache in a new store gives empty tables. Opening it where it has
/// been before changes nothing, and where some of the tables are there it keeps
/// their rows.
pub proof fn opening_keeps_rows(store: Store, tables: Tables)
    ensures
        Store::new().create_tables() == Tables::empty(),
        tables.close().create_tables() == tables,
        store.requests matches Some(rows) ==> store.create_tables().requests == rows,
        store.responses matches Some(rows) ==> store.create_tables().responses == rows,
        store.meta matches Some(rows) ==> store.create_tables().meta == rows,
{
}

/// How a lookup that counts the hit ends, for every state of the tables: without
/// a response, with nothing changed; with the response and one more hit in the
/// metadata, if there is any; or, where the metadata does not decode, with that
/// failure and nothing changed.
pub proof fn get_outcome(tables: Tables, request: JsonView)
    ensures
        tables.get(request) == {
            let fingerprint = fingerprint_of(request);
            match (tables.responses.get(fingerprint), tables.read_meta(fingerprint)) {
                (None, _) => (tables, Ok(None)),
                (Some(response), Ok(Some(meta))) => (
                    tables.write_meta(fingerprint, Some(meta.hit())),
                    Ok(Some(response)),
                ),
                (Some(response), Ok(None)) => (tables, Ok(Some(response))),
                (Some(response), Err(e)) => (tables, Err(e)),
            }
        },
{
    reveal_with_fuel(Tables::run, 4);
}

/// A response that was stored is found again, by any request that says the same,
/// and is found with its hit counted.
pub proof fn put_then_get(
    tables: Tables,
    stored: JsonView,
    response: Seq<u8>,
    meta: CachedMeta,
    asked: JsonView,
)
    requires
        well_formed(stored),
        well_formed(asked),
        meaning(stored) == meaning(asked),
    ensures
        tables.put(stored, response, meta).peek(asked) == Some(response),
        tables.put(stored, response, meta).get(asked) == (
            tables.put(stored, response, meta.hit()),
            Ok::<Option<Seq<u8>>, CacheError>(Some(response)),
        ),
{
    same_meaning_same_fingerprint(stored, asked);
    let after = tables.put(stored, response, meta);
    get_outcome(after, asked);
    assert(after.write_meta(fingerprint_of(asked), Some(meta.hit())) =~= tables.put(
        stored,
        response,
        meta.hit(),
    ));
}

/// Storing a response changes no answer to a request with another fingerprint.
pub proof fn put_leaves_others(
    tables: Tables,
    stored: JsonView,
    response: Seq<u8>,
    meta: CachedMeta,
    asked: JsonView,
)
    requires
        fingerprint_of(stored) != fingerprint_of(asked),
    ensures
        tables.put(stored, response, meta).peek(asked) == tables.peek(asked),
        tables.put(stored, response, meta).get(asked).1 == tables.get(asked).1,
        tables.put(stored, response, meta).read_meta(fingerprint_of(asked)) == tables.read_meta(
            fingerprint_of(asked),
        ),
{
    get_outcome(tables, asked);
    get_outcome(tables.put(stored, response, meta), asked);
}

/// Storing a second response under a fingerprint replaces the first: nothing is
/// left of it.
pub proof fn put_replaces(
    tables: Tables,
    first: JsonView,
    second: JsonView,
    response: Seq<u8>,
    meta: CachedMeta,
    new_response: Seq<u8>,
    new_meta: CachedMeta,
)
    requires
        well_formed(first),
        well_formed(second),
        meaning(first) == meaning(second),
    ensures
        tables.put(first, response, meta).put(second, new_response, new_meta) == tables.put(
            second,
            new_response,
            new_meta,
        ),
{
    same_meaning_same_fingerprint(first, second);
    assert(tables.put(first, response, meta).put(second, new_response, new_meta) =~= tables.put(
        second,
        new_response,
        new_meta,
    ));
}

/// A lookup changes nothing but the hit count under its own fingerprint.
pub proof fn get_changes_hits_only(tables: Tables, request: JsonView)
    ensures
        ({
            let after = tables.get(request).0;
            let fingerprint = fingerprint_of(request);
            &&& after.requests == tables.requests
            &&& after.responses == tables.responses
            &&& after.meta.remove(fingerprint) == tables.meta.remove(fingerprint)
            &&& after.meta.dom() == tables.meta.dom()
            &&& tables.read_meta(fingerprint) matches Ok(Some(meta)) ==> {
                ||| after.meta[fingerprint] == Ok::<CachedMeta, CacheError>(meta)
                ||| after.meta[fingerprint] == Ok::<CachedMeta, CacheError>(meta.hit())
            }
        }),
{
    get_outcome(tables, request);
    let after = tables.get(request).0;
    let fingerprint = fingerprint_of(request);
    assert(after.meta.remove(fingerprint) =~= tables.meta.remove(fingerprint));
    assert(after.meta.dom() =~= tables.meta.dom());
}

/// The two lookups give the same answer, where counting the hit does not fail.
pub proof fn get_answers_as_peek(tables: Tables, request: JsonView)
    ensures
        tables.get(request).1 matches Ok(answer) ==> answer == tables.peek(request),
{
    get_outcome(tables, request);
}

/// The tables after a number of lookups by one request.
pub open spec fn after_gets(tables: Tables, request: JsonView, count: nat) -> Tables
    decreases count,
{
    if count == 0 {
        tables
    } else {
        after_gets(tables.get(request).0, request, (count - 1) as nat)
    }
}

/// Every lookup that finds a response is counted: after any number of them the
/// entry has as many hits more, or its largest count, and the same response.
pub proof fn every_hit_is_counted(tables: Tables, request: JsonView, meta: CachedMeta, count: nat)
    requires
        tables.peek(request) is Some,
        tables.read_meta(fingerprint_of(request)) == Ok::<Option<CachedMeta>, CacheError>(
            Some(meta),
        ),
    ensures
        after_gets(tables, request, count).peek(request) == tables.peek(request),
        after_gets(tables, request, count).read_meta(fingerprint_of(request)) == Ok::<
            Option<CachedMeta>,
            CacheError,
        >(
            Some(
                CachedMeta {
                    hit_count: if meta.hit_count + count <= u64::MAX {
                        (meta.hit_count + count) as u64
                    } else {
                        u64::MAX
                    },
                    ..meta
                },
            ),
        ),
    decreases count,
{
    if count > 0 {
        get_outcome(tables, request);
        every_hit_is_counted(tables.get(request).0, request, meta.hit(), (count - 1) as nat);
    }
}

/// A lookup keeps the tables consistent.
proof fn lemma_get_keeps_consistency(tables: Tables, request: JsonView)
    requires
        tables.consistent(),
    ensures
        tables.get(request).0.consistent(),
{
    get_changes_hits_only(tables, request);
    get_outcome(tables, request);
}

/// A new store is consistent, and every operation keeps it so.
pub proof fn consistency_is_kept(
    tables: Tables,
    request: JsonView,
    response: Seq<u8>,
    meta: CachedMeta,
)
    requires
        tables.consistent(),
        well_formed(request),
    ensures
        Tables::empty().consistent(),
        tables.put(request, response, meta).consistent(),
        tables.get(request).0.consistent(),
{
    let empty = Tables::empty();
    assert(empty.responses.dom() =~= empty.requests.dom());
    assert(empty.meta.dom() =~= empty.requests.dom());
    let stored = tables.put(request, response, meta);
    assert(stored.responses.dom() =~= stored.requests.dom());
    assert(stored.meta.dom() =~= stored.requests.dom());
    assert forall|fingerprint: Seq<char>| #[trigger]
        stored.requests.contains_key(fingerprint) implies {
        &&& exists|r: JsonView| #[trigger]
            well_formed(r) && fingerprint == fingerprint_of(r) && stored.requests[fingerprint]
                == canonical_text(r)
        &&& stored.meta[fingerprint] is Ok
    } by {
        if fingerprint != fingerprint_of(request) {
            assert(tables.requests.contains_key(fingerprint));
        }
    }
    lemma_get_keeps_consistency(tables, request);
}

/// Whatever operations are carried out, tables that were consistent are, and so
/// every state that is reached from a new store is.
pub proof fn every_reached_state_is_consistent(tables: Tables, operations: Seq<Operation>)
    requires
        forall|i: int|
            0 <= i < operations.len() ==> well_formed((#[trigger] operations[i]).request()),
    ensures
        tables.consistent() ==> tables.after(operations).consistent(),
        Tables::empty().after(operations).consistent(),
    decreases operations.len(),
{
    let empty = Tables::empty();
    if operations.len() == 0 {
        assert(empty.responses.dom() =~= empty.requests.dom());
        assert(empty.meta.dom() =~= empty.requests.dom());
    } else {
        let before = operations.drop_last();
        let last = operations[operations.len() - 1];
        assert forall|i: int| 0 <= i < before.len() implies well_formed(
            (#[trigger] before[i]).request(),
        ) by {
            assert(before[i] == operations[i]);
        }
        every_reached_state_is_consistent(tables, before);
        assert(well_formed(last.request()));
        match last {
            Operation::Put { request, response, meta } => {
                consistency_is_kept(empty.after(before), request, response, meta);
                if tables.consistent() {
                    consistency_is_kept(tables.after(before), request, response, meta);
                }
            },
            Operation::Get { request } => {
                lemma_get_keeps_consistency(empty.after(before), request);
                if tables.consistent() {
                    lemma_get_keeps_consistency(tables.after(before), request);
                }
            },
            Operation::Peek { .. } => {},
        }
    }
}

/// How many of the operations are lookups that count under a fingerprint.
pub open spec fn lookups(operations: Seq<Operation>, fingerprint: Seq<char>) -> nat
    decreases operations.len(),
{
    if operations.len() == 0 {
        0
    } else {
        lookups(operations.drop_last(), fingerprint) + match operations.last() {
            Operation::Get { request } if fingerprint_of(request) == fingerprint => 1nat,
            _ => 0nat,
        }
    }
}

/// A response that was stored is found, by any request that says the same, after
/// any operations that store none under its fingerprint. Its metadata has counted
/// every lookup since, up to the largest count, and is otherwise what was stored.
pub proof fn stored_response_stays(
    tables: Tables,
    stored: JsonView,
    response: Seq<u8>,
    meta: CachedMeta,
    operations: Seq<Operation>,
    asked: JsonView,
)
    requires
        well_formed(stored),
        well_formed(asked),
        meaning(stored) == meaning(asked),
        forall|i: int|
            0 <= i < operations.len() && (#[trigger] operations[i]) is Put ==> fingerprint_of(
                operations[i].request(),
            ) != fingerprint_of(stored),
    ensures
        ({
            let after = tables.put(stored, response, meta).after(operations);
            let hits = meta.hit_count + lookups(operations, fingerprint_of(stored));
            &&& after.peek(asked) == Some(response)
            &&& after.get(asked).1 == Ok::<Option<Seq<u8>>, CacheError>(Some(response))
            &&& after.requests.get(fingerprint_of(stored)) == Some(canonical_text(stored))
            &&& after.read_meta(fingerprint_of(stored)) == Ok::<Option<CachedMeta>, CacheError>(
                Some(
                    CachedMeta {
                        hit_count: if hits <= u64::MAX {
                            hits as u64
                        } else {
                            u64::MAX
                        },
                        ..meta
                    },
                ),
            )
        }),
    decreases operations.len(),
{
    same_meaning_same_fingerprint(stored, asked);
    let start = tables.put(stored, response, meta);
    let after = start.after(operations);
    if operations.len() > 0 {
        let earlier = operations.drop_last();
        let last = operations[operations.len() - 1];
        assert forall|i: int| 0 <= i < earlier.len() && (#[trigger] earlier[i]) is Put implies
            fingerprint_of(earlier[i].request()) != fingerprint_of(stored) by {
            assert(earlier[i] == operations[i]);
        }
        stored_response_stays(tables, stored, response, meta, earlier, asked);
        assert(last is Put ==> fingerprint_of(last.request()) != fingerprint_of(stored));
        if let Operation::Get { request } = last {
            get_outcome(start.after(earlier), request);
        }
    }
    get_outcome(after, asked);
}

/// In a consistent cache no lookup fails.
pub proof fn consistent_get_succeeds(tables: Tables, request: JsonView)
    requires
        tables.consistent(),
    ensures
        tables.get(request).1 == Ok::<Option<Seq<u8>>, CacheError>(tables.peek(request)),
{
    get_outcome(tables, request);
    let fingerprint = fingerprint_of(request);
    if tables.responses.dom().contains(fingerprint) {
        assert(tables.requests.contains_key(fingerprint));
    }
}

/// The sum of a measure over listed fingerprints.
spec fn sum_over(fingerprints: Seq<Seq<char>>, measure: spec_fn(Seq<char>) -> nat) -> nat
    decreases fingerprints.len(),
{
    if fingerprints.len() == 0 {
        0
    } else {
        sum_over(fingerprints.drop_last(), measure) + measure(fingerprints.last())
    }
}

proof fn lemma_sum_remove(
    fingerprints: Seq<Seq<char>>,
    measure: spec_fn(Seq<char>) -> nat,
    i: int,
)
    requires
        0 <= i < fingerprints.len(),
    ensures
        sum_over(fingerprints, measure) == sum_over(fingerprints.remove(i), measure) + measure(
            fingerprints[i],
        ),
    decreases fingerprints.len(),
{
    if i == fingerprints.len() - 1 {
        assert(fingerprints.remove(i) =~= fingerprints.drop_last());
    } else {
        lemma_sum_remove(fingerprints.drop_last(), measure, i);
        assert(fingerprints.remove(i).drop_last() =~= fingerprints.drop_last().remove(i));
        assert(fingerprints.remove(i).last() == fingerprints.last());
    }
}

proof fn lemma_sum_order(
    a: Seq<Seq<char>>,
    b: Seq<Seq<char>>,
    measure: spec_fn(Seq<char>) -> nat,
)
    requires
        a.no_duplicates(),
        b.no_duplicates(),
        forall|f: Seq<char>| #[trigger] a.contains(f) <==> b.contains(f),
    ensures
        a.len() == b.len(),
        sum_over(a, measure) == sum_over(b, measure),
    decreases a.len(),
{
    if a.len() == 0 {
        if b.len() > 0 {
            assert(b.contains(b[0]));
            assert(a.contains(b[0]));
        }
    } else {
        let last = a.last();
        assert(a.contains(last)) by {
            assert(a[a.len() - 1] == last);
        }
        assert(b.contains(last));
        let j = choose|j: int| 0 <= j < b.len() && b[j] == last;
        let rest = a.drop_last();
        let other = b.remove(j);
        assert(other.no_duplicates());
        assert forall|f: Seq<char>| #[trigger] rest.contains(f) <==> other.contains(f) by {
            if rest.contains(f) {
                let i = choose|i: int| 0 <= i < rest.len() && rest[i] == f;
                assert(a[i] == f);
                assert(a.contains(f));
                assert(b.contains(f));
                let k = choose|k: int| 0 <= k < b.len() && b[k] == f;
                assert(k != j);
                let m = if k < j { k } else { k - 1 };
                assert(other[m] == f);
            }
            if other.contains(f) {
                let m = choose|m: int| 0 <= m < other.len() && other[m] == f;
                let k = if m < j { m } else { m + 1 };
                assert(b[k] == f);
                assert(b.contains(f));
                assert(a.contains(f));
                let i = choose|i: int| 0 <= i < a.len() && a[i] == f;
                assert(i != a.len() - 1);
                assert(rest[i] == f);
            }
        }
        lemma_sum_order(rest, other, measure);
        lemma_sum_remove(b, measure, j);
    }
}

proof fn lemma_sum_same(
    fingerprints: Seq<Seq<char>>,
    a: spec_fn(Seq<char>) -> nat,
    b: spec_fn(Seq<char>) -> nat,
)
    requires
        forall|i: int| 0 <= i < fingerprints.len() ==> a(#[trigger] fingerprints[i]) == b(
            fingerprints[i],
        ),
    ensures
        sum_over(fingerprints, a) == sum_over(fingerprints, b),
    decreases fingerprints.len(),
{
    if fingerprints.len() > 0 {
        let last = fingerprints.len() - 1;
        assert(a(fingerprints[last]) == b(fingerprints[last]));
        assert forall|i: int| 0 <= i < last implies a(#[trigger] fingerprints.drop_last()[i]) == b(
            fingerprints.drop_last()[i],
        ) by {
            assert(a(fingerprints[i]) == b(fingerprints[i]));
        }
        lemma_sum_same(fingerprints.drop_last(), a, b);
    }
}

proof fn lemma_total_bytes_is_sum(fingerprints: Seq<Seq<char>>, rows: Map<Seq<char>, Seq<u8>>)
    ensures
        total_bytes(fingerprints.map_values(|f: Seq<char>| rows[f])) == sum_over(
            fingerprints,
            |f: Seq<char>| rows[f].len(),
        ),
    decreases fingerprints.len(),
{
    if fingerprints.len() > 0 {
        lemma_total_bytes_is_sum(fingerprints.drop_last(), rows);
        assert(fingerprints.map_values(|f: Seq<char>| rows[f]).drop_last()
            =~= fingerprints.drop_last().map_values(|f: Seq<char>| rows[f]));
    }
}

proof fn lemma_total_hits_is_sum(
    fingerprints: Seq<Seq<char>>,
    rows: Map<Seq<char>, Result<CachedMeta, CacheError>>,
)
    ensures
        total_hits(fingerprints.map_values(|f: Seq<char>| rows[f]->Ok_0)) == sum_over(
            fingerprints,
            |f: Seq<char>| rows[f]->Ok_0.hit_count as nat,
        ),
    decreases fingerprints.len(),
{
    if fingerprints.len() > 0 {
        lemma_total_hits_is_sum(fingerprints.drop_last(), rows);
        assert(fingerprints.map_values(|f: Seq<char>| rows[f]->Ok_0).drop_last()
            =~= fingerprints.drop_last().map_values(|f: Seq<char>| rows[f]->Ok_0));
    }
}

/// A list of the fingerprints is as long as the cache has entries.
pub proof fn listed_entries(tables: Tables, fingerprints: Seq<Seq<char>>)
    requires
        tables.listed_by(fingerprints),
    ensures
        tables.scan(fingerprints).requests.len() == tables.requests.dom().len(),
{
    fingerprints.unique_seq_to_set();
    assert(fingerprints.to_set() =~= tables.requests.dom()) by {
        assert forall|f: Seq<char>| fingerprints.to_set().contains(f)
            <==> tables.requests.dom().contains(f) by {
            assert(fingerprints.contains(f) <==> tables.requests.contains_key(f));
        }
    }
}

/// The totals do not depend on the order in which the tables are walked.
pub proof fn totals_ignore_order(tables: Tables, a: Seq<Seq<char>>, b: Seq<Seq<char>>)
    requires
        tables.listed_by(a),
        tables.listed_by(b),
    ensures
        tables.scan(a).totals_fit() == tables.scan(b).totals_fit(),
        tables.scan(a).totals() == tables.scan(b).totals(),
{
    assert forall|f: Seq<char>| #[trigger] a.contains(f) <==> b.contains(f) by {
        assert(a.contains(f) <==> tables.requests.contains_key(f));
        assert(b.contains(f) <==> tables.requests.contains_key(f));
    }
    lemma_total_bytes_is_sum(a, tables.requests);
    lemma_total_bytes_is_sum(b, tables.requests);
    lemma_total_bytes_is_sum(a, tables.responses);
    lemma_total_bytes_is_sum(b, tables.responses);
    lemma_total_hits_is_sum(a, tables.meta);
    lemma_total_hits_is_sum(b, tables.meta);
    lemma_sum_order(a, b, |f: Seq<char>| tables.requests[f].len());
    lemma_sum_order(a, b, |f: Seq<char>| tables.responses[f].len());
    lemma_sum_order(a, b, |f: Seq<char>| tables.meta[f]->Ok_0.hit_count as nat);
}

/// Storing a response under a new fingerprint adds one entry, its bytes, and the
/// hits that its metadata already counts.
pub proof fn put_new_adds_entry(
    tables: Tables,
    fingerprints: Seq<Seq<char>>,
    request: JsonView,
    response: Seq<u8>,
    meta: CachedMeta,
)
    requires
        tables.listed_by(fingerprints),
        !tables.requests.contains_key(fingerprint_of(request)),
    ensures
        ({
            let after = tables.put(request, response, meta);
            let listed = fingerprints.push(fingerprint_of(request));
            let old_rows = tables.scan(fingerprints);
            let new_rows = after.scan(listed);
            &&& after.listed_by(listed)
            &&& new_rows.requests == old_rows.requests.push(canonical_text(request))
            &&& new_rows.responses == old_rows.responses.push(response)
            &&& new_rows.meta == old_rows.meta.push(meta)
            &&& total_bytes(new_rows.requests) == total_bytes(old_rows.requests) + canonical_text(
                request,
            ).len()
            &&& total_bytes(new_rows.responses) == total_bytes(old_rows.responses) + response.len()
            &&& total_hits(new_rows.meta) == total_hits(old_rows.meta) + meta.hit_count
        }),
{
    let fingerprint = fingerprint_of(request);
    let after = tables.put(request, response, meta);
    let listed = fingerprints.push(fingerprint);
    assert(!fingerprints.contains(fingerprint));
    assert forall|i: int| 0 <= i < fingerprints.len() implies #[trigger] fingerprints[i]
        != fingerprint by {
        assert(fingerprints.contains(fingerprints[i]));
    }
    assert forall|f: Seq<char>| #[trigger] listed.contains(f) <==> after.requests.contains_key(
        f,
    ) by {
        if listed.contains(f) && f != fingerprint {
            let i = choose|i: int| 0 <= i < listed.len() && listed[i] == f;
            assert(fingerprints[i] == f);
            assert(fingerprints.contains(f));
        }
        if after.requests.contains_key(f) {
            if f == fingerprint {
                assert(listed[fingerprints.len() as int] == f);
            } else {
                assert(tables.requests.contains_key(f));
                assert(fingerprints.contains(f));
                let i = choose|i: int| 0 <= i < fingerprints.len() && fingerprints[i] == f;
                assert(listed[i] == f);
            }
        }
    }
    let old_rows = tables.scan(fingerprints);
    let new_rows = after.scan(listed);
    assert(new_rows.requests =~= old_rows.requests.push(canonical_text(request)));
    assert(new_rows.responses =~= old_rows.responses.push(response));
    assert(new_rows.meta =~= old_rows.meta.push(meta));
    assert(new_rows.requests.drop_last() =~= old_rows.requests);
    assert(new_rows.responses.drop_last() =~= old_rows.responses);
    assert(new_rows.meta.drop_last() =~= old_rows.meta);
}

/// Storing a response under a new fingerprint raises the totals by one entry, by
/// the lengths of the request's canonical text and of the response, and by the hits
/// that its metadata already counts. The totals of an empty cache are zero.
pub proof fn put_new_raises_totals(
    tables: Tables,
    fingerprints: Seq<Seq<char>>,
    request: JsonView,
    response: Seq<u8>,
    meta: CachedMeta,
)
    requires
        tables.listed_by(fingerprints),
        !tables.requests.contains_key(fingerprint_of(request)),
    ensures
        ({
            let none = Tables::empty().scan(Seq::empty());
            &&& none.totals_fit()
            &&& none.totals().entries == 0
            &&& none.totals().hits == 0
            &&& none.totals().misses == 0
            &&& none.totals().bytes_requests == 0
            &&& none.totals().bytes_responses == 0
        }),
        ({
            let after = tables.put(request, response, meta);
            let old_rows = tables.scan(fingerprints);
            let new_rows = after.scan(fingerprints.push(fingerprint_of(request)));
            new_rows.totals_fit() ==> {
                &&& old_rows.totals_fit()
                &&& new_rows.totals().entries == old_rows.totals().entries + 1
                &&& new_rows.totals().hits == old_rows.totals().hits + meta.hit_count
                &&& new_rows.totals().misses == 0
                &&& new_rows.totals().bytes_requests == old_rows.totals().bytes_requests
                    + canonical_text(request).len()
                &&& new_rows.totals().bytes_responses == old_rows.totals().bytes_responses
                    + response.len()
            }
        }),
{
    let empty = Tables::empty().scan(Seq::empty());
    let old_rows = tables.scan(fingerprints);
    put_new_adds_entry(tables, fingerprints, request, response, meta);
    totals_grow_by_the_row(old_rows, canonical_text(request), response, meta);
    assert(empty.requests =~= Seq::empty());
    assert(empty.responses =~= Seq::empty());
    assert(empty.meta =~= Seq::empty());
    listed_entries(tables, fingerprints);
}

/// Storing a response under a fingerprint that is there adds no entry.
pub proof fn put_again_adds_none(
    tables: Tables,
    fingerprints: Seq<Seq<char>>,
    request: JsonView,
    response: Seq<u8>,
    meta: CachedMeta,
)
    requires
        tables.listed_by(fingerprints),
        tables.requests.contains_key(fingerprint_of(request)),
    ensures
        tables.put(request, response, meta).listed_by(fingerprints),
{
    let after = tables.put(request, response, meta);
    assert forall|f: Seq<char>| #[trigger] fingerprints.contains(f)
        <==> after.requests.contains_key(f) by {
        assert(fingerprints.contains(f) <==> tables.requests.contains_key(f));
    }
}

/// A lookup that finds a response leaves every total but the hits as it is, and
/// raises the hits by one unless the entry's count has reached its largest value.
/// A lookup that finds none leaves them all.
pub proof fn get_adds_one_hit(tables: Tables, fingerprints: Seq<Seq<char>>, request: JsonView)
    requires
        tables.consistent(),
        tables.listed_by(fingerprints),
    ensures
        ({
            let after = tables.get(request).0;
            let fingerprint = fingerprint_of(request);
            let old_rows = tables.scan(fingerprints);
            let new_rows = after.scan(fingerprints);
            &&& after.listed_by(fingerprints)
            &&& new_rows.requests == old_rows.requests
            &&& new_rows.responses == old_rows.responses
            &&& total_hits(new_rows.meta) == total_hits(old_rows.meta) + if tables.peek(
                request,
            ) is Some && tables.meta[fingerprint]->Ok_0.hit_count < u64::MAX {
                1nat
            } else {
                0nat
            }
        }),
{
    let after = tables.get(request).0;
    let fingerprint = fingerprint_of(request);
    get_outcome(tables, request);
    get_changes_hits_only(tables, request);
    assert(after.scan(fingerprints).requests =~= tables.scan(fingerprints).requests);
    assert(after.scan(fingerprints).responses =~= tables.scan(fingerprints).responses);
    assert forall|f: Seq<char>| #[trigger] fingerprints.contains(f)
        <==> after.requests.contains_key(f) by {
        assert(fingerprints.contains(f) <==> tables.requests.contains_key(f));
    }
    if tables.responses.dom().contains(fingerprint) {
        assert(tables.requests.contains_key(fingerprint));
        assert(tables.meta[fingerprint] is Ok);
        assert(fingerprints.contains(fingerprint));
        let j = choose|j: int| 0 <= j < fingerprints.len() && fingerprints[j] == fingerprint;
        let before_hits = |f: Seq<char>| tables.meta[f]->Ok_0.hit_count as nat;
        let after_hits = |f: Seq<char>| after.meta[f]->Ok_0.hit_count as nat;
        lemma_total_hits_is_sum(fingerprints, tables.meta);
        lemma_total_hits_is_sum(fingerprints, after.meta);
        lemma_sum_remove(fingerprints, before_hits, j);
        lemma_sum_remove(fingerprints, after_hits, j);
        let rest = fingerprints.remove(j);
        assert forall|i: int| 0 <= i < rest.len() implies before_hits(#[trigger] rest[i])
            == after_hits(rest[i]) by {
            let k = if i < j { i } else { i + 1 };
            assert(rest[i] == fingerprints[k]);
            assert(fingerprints[k] != fingerprints[j]);
        }
        lemma_sum_same(rest, before_hits, after_hits);
    } else {
        assert(after == tables);
    }
}

/// How many of the operations are lookups that find a response in the tables and
/// count it.
pub open spec fn found(tables: Tables, operations: Seq<Operation>) -> nat
    decreases operations.len(),
{
    if operations.len() == 0 {
        0
    } else {
        found(tables, operations.drop_last()) + match operations.last() {
            Operation::Get { request } if tables.peek(request) is Some => 1nat,
            _ => 0nat,
        }
    }
}

/// Any lookups raise the hits in the totals by one for each that finds a response
/// and counts it, and leave the other totals, where no entry's count is so close
/// to its largest value that it could be reached.
pub proof fn lookups_add_to_totals(
    tables: Tables,
    fingerprints: Seq<Seq<char>>,
    operations: Seq<Operation>,
)
    requires
        tables.consistent(),
        tables.listed_by(fingerprints),
        forall|i: int| 0 <= i < operations.len() ==> !((#[trigger] operations[i]) is Put),
        forall|fingerprint: Seq<char>| #[trigger]
            tables.requests.contains_key(fingerprint) ==> tables.meta[fingerprint]->Ok_0.hit_count
                + operations.len() <= u64::MAX,
    ensures
        ({
            let after = tables.after(operations);
            let old_rows = tables.scan(fingerprints);
            let new_rows = after.scan(fingerprints);
            &&& after.consistent()
            &&& after.listed_by(fingerprints)
            &&& after.requests == tables.requests
            &&& after.responses == tables.responses
            &&& new_rows.requests == old_rows.requests
            &&& new_rows.responses == old_rows.responses
            &&& total_hits(new_rows.meta) == total_hits(old_rows.meta) + found(tables, operations)
            &&& forall|fingerprint: Seq<char>| #[trigger]
                tables.requests.contains_key(fingerprint)
                    ==> after.meta[fingerprint]->Ok_0.hit_count
                    <= tables.meta[fingerprint]->Ok_0.hit_count + operations.len()
        }),
    decreases operations.len(),
{
    if operations.len() > 0 {
        let earlier = operations.drop_last();
        let last = operations[operations.len() - 1];
        assert forall|i: int| 0 <= i < earlier.len() implies !((#[trigger] earlier[i]) is Put) by {
            assert(earlier[i] == operations[i]);
        }
        lookups_add_to_totals(tables, fingerprints, earlier);
        let middle = tables.after(earlier);
        assert(!(last is Put));
        if let Operation::Get { request } = last {
            get_adds_one_hit(middle, fingerprints, request);
            get_outcome(middle, request);
            get_changes_hits_only(middle, request);
            lemma_get_keeps_consistency(middle, request);
            let fingerprint = fingerprint_of(request);
            if middle.responses.dom().contains(fingerprint) {
                assert(middle.requests.contains_key(fingerprint));
                assert(tables.requests.contains_key(fingerprint));
            }
        }
    }
}

} // verus!
