//! What the cache keeps beside a response.
use vstd::prelude::*;

verus! {

/// The metadata of one entry.
#[derive(Debug, Clone, PartialEq, Eq)]
pub struct CachedMeta {
    pub created_at_ms: u64,
    pub hit_count: u64,
    pub model: Option<String>,
    pub system_fingerprint: Option<String>,
    pub response_duration_ms: Option<u64>,
}

fn copy_text(text: &Option<String>) -> (r: Option<String>)
    ensures
        r == *text,
{
    match text {
        Some(s) => Some(s.clone()),
        None => None,
    }
}

/// What a hit does to metadata: it raises the count by one, unless that is already
/// the largest, and changes nothing else.
pub proof fn hit_counts_one(meta: CachedMeta)
    ensures
        meta.hit_count < 0xFFFF_FFFF_FFFF_FFFF ==> meta.hit().hit_count == meta.hit_count + 1,
        meta.hit_count == 0xFFFF_FFFF_FFFF_FFFF ==> meta.hit().hit_count == meta.hit_count,
        meta.hit().created_at_ms == meta.created_at_ms,
        meta.hit().model == meta.model,
        meta.hit().system_fingerprint == meta.system_fingerprint,
        meta.hit().response_duration_ms == meta.response_duration_ms,
{
}

impl CachedMeta {
    /// The same metadata with one more hit. The count stops at its largest value.
    pub open spec fn hit(self) -> CachedMeta {
        CachedMeta {
            hit_count: if self.hit_count == u64::MAX {
                u64::MAX
            } else {
                (self.hit_count + 1) as u64
            },
            ..self
        }
    }

    /// Counts one more hit.
    pub fn count_hit(self) -> (r: CachedMeta)
        ensures
            r == self.hit(),
            self.hit_count < u64::MAX ==> r.hit_count == self.hit_count + 1,
            self.hit_count == u64::MAX ==> r.hit_count == u64::MAX,
            r.created_at_ms == self.created_at_ms,
            r.model == self.model,
            r.system_fingerprint == self.system_fingerprint,
            r.response_duration_ms == self.response_duration_ms,
    {
        CachedMeta {
            created_at_ms: self.created_at_ms,
            hit_count: self.hit_count.saturating_add(1),
            model: self.model,
            system_fingerprint: self.system_fingerprint,
            response_duration_ms: self.response_duration_ms,
        }
    }

    /// A copy of the metadata.
    pub(crate) fn copy(&self) -> (r: CachedMeta)
        ensures
            r == *self,
    {
        CachedMeta {
            created_at_ms: self.created_at_ms,
            hit_count: self.hit_count,
            model: copy_text(&self.model),
            system_fingerprint: copy_text(&self.system_fingerprint),
            response_duration_ms: self.response_duration_ms,
        }
    }
}

} // verus!
