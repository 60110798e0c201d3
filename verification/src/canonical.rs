//! Canonical form of JSON documents: the entries of every object, at every depth,
//! in the order of their keys, and every number in normal form.
use vstd::prelude::*;

use crate::json::{entries_view, json_view, Json, Object};
use crate::key_order::{key_before, key_lt, lemma_key_lt};
use crate::model::{
    ascending, canonical, canonical_form_says_the_same, distinct, has_key, in_canonical_form,
    lemma_ascending_distinct, lemma_parts_smaller, lemma_same_meaning, meaning, says,
    canonical_form_is_unique, well_formed, JsonView,
};
use crate::number::{normal_text_keeps_value, normalize, number_text};

verus! {

/// Puts an entry with a new key into ascending entries, where its key belongs.
fn insert_sorted(sorted: &mut Vec<(String, Json)>, key: String, value: Json)
    requires
        ascending(entries_view(old(sorted)@)),
        !has_key(entries_view(old(sorted)@), key@),
    ensures
        ascending(entries_view(final(sorted)@)),
        exists|at: int|
            0 <= at <= old(sorted)@.len() && final(sorted)@ == #[trigger] old(sorted)@.insert(
                at,
                (key, value),
            ),
{
    let ghost before = entries_view(sorted@);
    let mut at: usize = sorted.len();
    while at > 0 && key_before(key.as_str(), sorted[at - 1].0.as_str())
        invariant
            at <= sorted@.len(),
            before == entries_view(sorted@),
            forall|i: int| at <= i < before.len() ==> key_lt(key@, #[trigger] before[i].0),
        decreases at,
    {
        assert(before[at - 1].0 == sorted@[at - 1].0@);
        at = at - 1;
    }
    proof {
        lemma_key_lt();
        if at > 0 {
            assert(before[at - 1].0 == sorted@[at - 1].0@);
            assert(before[at - 1].0 != key@);
            assert(key_lt(before[at - 1].0, key@));
        }
    }
    let ghost v = value@;
    sorted.insert(at, (key, value));
    proof {
        let after = entries_view(sorted@);
        assert(after =~= before.insert(at as int, (key@, v)));
        assert forall|i: int, j: int| 0 <= i < j < after.len() implies key_lt(
            #[trigger] after[i].0,
            #[trigger] after[j].0,
        ) by {
            let x = if i < at { i } else { i - 1 };
            let y = if j < at { j } else { j - 1 };
            if i == at {
                assert(after[j].0 == before[y].0);
            } else if j == at {
                assert(after[i].0 == before[x].0);
                if i < at - 1 {
                    assert(key_lt(before[i].0, before[at - 1].0));
                }
            } else {
                assert(after[i].0 == before[x].0 && after[j].0 == before[y].0);
                assert(key_lt(before[x].0, before[y].0));
            }
        }
    }
}

/// Whether `sorted` holds values of the meaning of those of `entries[..n]` under
/// their keys, each in canonical form, and nothing else.
spec fn holds_first(
    sorted: Seq<(Seq<char>, JsonView)>,
    entries: Seq<(Seq<char>, JsonView)>,
    n: int,
) -> bool {
    &&& forall|j: int| 0 <= j < sorted.len() ==> in_canonical_form((#[trigger] sorted[j]).1)
    &&& forall|j: int| 0 <= j < sorted.len() ==> #[trigger] has_key(entries.take(n), sorted[j].0)
    &&& forall|i: int| 0 <= i < n ==> #[trigger] says(sorted, entries[i])
}

proof fn lemma_holds_one_more(
    sorted: Seq<(Seq<char>, JsonView)>,
    entries: Seq<(Seq<char>, JsonView)>,
    n: int,
    at: int,
    v: JsonView,
)
    requires
        0 <= n < entries.len(),
        holds_first(sorted, entries, n),
        0 <= at <= sorted.len(),
        in_canonical_form(v),
        meaning(v) == meaning(entries[n].1),
    ensures
        holds_first(sorted.insert(at, (entries[n].0, v)), entries, n + 1),
{
    let after = sorted.insert(at, (entries[n].0, v));
    let seen = entries.take(n);
    let now = entries.take(n + 1);
    assert forall|j: int| 0 <= j < after.len() implies in_canonical_form((#[trigger] after[j]).1)
        && has_key(now, after[j].0) by {
        if j == at {
            assert(now[n].0 == after[j].0);
        } else {
            let k = if j < at { j } else { j - 1 };
            assert(after[j] == sorted[k]);
            assert(has_key(seen, sorted[k].0));
            let i = choose|i: int| 0 <= i < seen.len() && #[trigger] seen[i].0 == sorted[k].0;
            assert(now[i].0 == after[j].0);
        }
    }
    assert forall|i: int| 0 <= i < n + 1 implies #[trigger] says(after, entries[i]) by {
        if i == n {
            assert(after[at].0 == entries[i].0);
        } else {
            assert(says(sorted, entries[i]));
            let j = choose|j: int|
                0 <= j < sorted.len() && #[trigger] sorted[j].0 == entries[i].0 && meaning(
                    sorted[j].1,
                ) == meaning(entries[i].1);
            let k = if j < at { j } else { j + 1 };
            assert(after[k] == sorted[j]);
            assert(after[k].0 == entries[i].0);
        }
    }
}

/// Sorts the entries of every object in a document, at every depth, by their
/// keys, and turns every number whose text stands for an integer of 64 bits into
/// that integer. Everything else stays as it is.
pub fn canonicalize(value: &Json) -> (r: Json)
    ensures
        well_formed(value@),
        r@ == canonical(value@),
        in_canonical_form(r@),
        meaning(r@) == meaning(value@),
    decreases value@,
{
    let r = match value {
        Json::Null => Json::Null,
        Json::Bool(b) => Json::Bool(*b),
        Json::Number(n) => {
            proof {
                normal_text_keeps_value(number_text(*n));
            }
            Json::Number(normalize(n))
        },
        Json::String(s) => Json::String(s.clone()),
        Json::Array(items) => {
            let ghost view = value@->Array_0;
            let mut out: Vec<Json> = Vec::new();
            let mut i: usize = 0;
            while i < items.len()
                invariant
                    value@ == JsonView::Array(view),
                    view.len() == items@.len(),
                    forall|j: int| 0 <= j < items@.len() ==> view[j] == json_view(
                        #[trigger] items@[j],
                    ),
                    i <= items@.len(),
                    out@.len() == i,
                    forall|j: int|
                        0 <= j < i ==> {
                            &&& well_formed(#[trigger] view[j])
                            &&& in_canonical_form(json_view(out@[j]))
                            &&& meaning(json_view(out@[j])) == meaning(view[j])
                        },
                decreases items@.len() - i,
            {
                proof {
                    lemma_parts_smaller(value@);
                    assert(value@->Array_0[i as int] == json_view(items@[i as int]));
                }
                out.push(canonicalize(&items[i]));
                i = i + 1;
            }
            let r = Json::Array(out);
            proof {
                let done = r@->Array_0;
                assert forall|j: int| 0 <= j < done.len() implies in_canonical_form(#[trigger] done[j]) by {
                    assert(well_formed(view[j]));
                }
                assert(meaning(r@)->Array_0 =~= meaning(value@)->Array_0) by {
                    assert forall|j: int| 0 <= j < view.len() implies meaning(
                        #[trigger] done[j],
                    ) == meaning(view[j]) by {
                        assert(well_formed(view[j]));
                    }
                }
            }
            r
        },
        Json::Object(o) => {
            let entries = o.entries();
            let ghost view = entries_view(entries@);
            let mut sorted: Vec<(String, Json)> = Vec::new();
            let mut i: usize = 0;
            while i < entries.len()
                invariant
                    value@ == JsonView::Object(view),
                    view == entries_view(entries@),
                    distinct(view),
                    i <= entries@.len(),
                    ascending(entries_view(sorted@)),
                    holds_first(entries_view(sorted@), view, i as int),
                    forall|j: int| 0 <= j < i ==> well_formed((#[trigger] view[j]).1),
                decreases entries@.len() - i,
            {
                proof {
                    lemma_parts_smaller(value@);
                    assert(value@->Object_0[i as int].1 == json_view(entries@[i as int].1));
                }
                let v = canonicalize(&entries[i].1);
                let key = entries[i].0.clone();
                let ghost before = sorted@;
                proof {
                    let s = entries_view(sorted@);
                    let seen = view.take(i as int);
                    if has_key(s, key@) {
                        let j = choose|j: int| 0 <= j < s.len() && #[trigger] s[j].0 == key@;
                        assert(has_key(seen, s[j].0));
                        let k = choose|k: int| 0 <= k < seen.len() && #[trigger] seen[k].0 == s[j].0;
                        assert(view[k].0 != view[i as int].0);
                    }
                }
                insert_sorted(&mut sorted, key, v);
                proof {
                    let at = choose|at: int|
                        0 <= at <= before.len() && sorted@ == #[trigger] before.insert(
                            at,
                            (key, v),
                        );
                    lemma_holds_one_more(entries_view(before), view, i as int, at, v@);
                    assert(entries_view(sorted@) =~= entries_view(before).insert(
                        at,
                        (view[i as int].0, v@),
                    ));
                }
                i = i + 1;
            }
            proof {
                let s = entries_view(sorted@);
                lemma_ascending_distinct(s);
                assert(view.take(i as int) =~= view);
                lemma_same_meaning(view, s);
            }
            Json::Object(Object::from_entries(sorted))
        },
    };
    proof {
        canonical_form_says_the_same(value@);
        canonical_form_is_unique(r@, canonical(value@));
    }
    r
}

} // verus!
