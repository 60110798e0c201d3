//! JSON documents as mathematical values: what a document holds in writing
//! order, what it means regardless of that order, and its canonical form.
use vstd::prelude::*;

use crate::key_order::{key_le, key_lt, key_order_is_total, lemma_key_lt};
use crate::number::{
    decimal_of, integer_is_normal, integral, is_integer, normal_text, normal_text_keeps_value,
    normal_text_loses_no_value,
};

verus! {

/// A JSON document, with the entries of each object in the order in which they
/// are written, and each number as its decimal text.
pub enum JsonView {
    Null,
    Bool(bool),
    Number(Seq<char>),
    String(Seq<char>),
    Array(Seq<JsonView>),
    Object(Seq<(Seq<char>, JsonView)>),
}

/// What a JSON document says: an object is a map from its keys, with no order of
/// entries left, and a number whose text stands for an integer of 64 bits is that
/// integer, however it is written.
pub enum Meaning {
    Null,
    Bool(bool),
    Number(Seq<char>),
    String(Seq<char>),
    Array(Seq<Meaning>),
    Object(Map<Seq<char>, Meaning>),
}

/// Whether `key` is the key of one of `entries`.
pub open spec fn has_key(entries: Seq<(Seq<char>, JsonView)>, key: Seq<char>) -> bool {
    exists|i: int| 0 <= i < entries.len() && #[trigger] entries[i].0 == key
}

/// The index of an entry with the given key.
pub open spec fn position(entries: Seq<(Seq<char>, JsonView)>, key: Seq<char>) -> int {
    choose|i: int| 0 <= i < entries.len() && #[trigger] entries[i].0 == key
}

/// The keys of `entries`, in their order.
pub open spec fn keys_of(entries: Seq<(Seq<char>, JsonView)>) -> Seq<Seq<char>> {
    Seq::new(entries.len(), |i: int| entries[i].0)
}

/// No key occurs twice.
pub open spec fn distinct(entries: Seq<(Seq<char>, JsonView)>) -> bool {
    forall|i: int, j: int|
        0 <= i < j < entries.len() ==> #[trigger] entries[i].0 != #[trigger] entries[j].0
}

/// Each key comes before those that follow it.
pub open spec fn ascending(entries: Seq<(Seq<char>, JsonView)>) -> bool {
    forall|i: int, j: int|
        0 <= i < j < entries.len() ==> key_lt(#[trigger] entries[i].0, #[trigger] entries[j].0)
}

/// Every number in the document is a decimal text, and no object has a key twice.
pub open spec fn well_formed(v: JsonView) -> bool
    decreases v,
{
    match v {
        JsonView::Number(text) => decimal_of(text) is Some,
        JsonView::Array(items) => forall|i: int|
            0 <= i < items.len() ==> well_formed(#[trigger] items[i]),
        JsonView::Object(entries) => {
            &&& distinct(entries)
            &&& forall|i: int| 0 <= i < entries.len() ==> well_formed((#[trigger] entries[i]).1)
        },
        _ => true,
    }
}

/// The keys of every object in the document ascend, and every number is in normal
/// form.
pub open spec fn in_canonical_form(v: JsonView) -> bool
    decreases v,
{
    match v {
        JsonView::Number(text) => decimal_of(text) is Some && normal_text(text) == text,
        JsonView::Array(items) => forall|i: int|
            0 <= i < items.len() ==> in_canonical_form(#[trigger] items[i]),
        JsonView::Object(entries) => {
            &&& ascending(entries)
            &&& forall|i: int| 0 <= i < entries.len() ==> in_canonical_form((#[trigger] entries[i]).1)
        },
        _ => true,
    }
}

/// Every number in the document is an integer of 64 bits.
pub open spec fn integers_only(v: JsonView) -> bool
    decreases v,
{
    match v {
        JsonView::Number(text) => is_integer(text),
        JsonView::Array(items) => forall|i: int|
            0 <= i < items.len() ==> integers_only(#[trigger] items[i]),
        JsonView::Object(entries) => forall|i: int|
            0 <= i < entries.len() ==> integers_only((#[trigger] entries[i]).1),
        _ => true,
    }
}

/// Arrays and objects stand within each other no more than `levels` deep.
pub open spec fn nests_within(v: JsonView, levels: nat) -> bool
    decreases v,
{
    match v {
        JsonView::Array(items) => levels > 0 && forall|i: int|
            0 <= i < items.len() ==> nests_within(#[trigger] items[i], (levels - 1) as nat),
        JsonView::Object(entries) => levels > 0 && forall|i: int|
            0 <= i < entries.len() ==> nests_within(
                (#[trigger] entries[i]).1,
                (levels - 1) as nat,
            ),
        _ => true,
    }
}

/// What a document says.
pub open spec fn meaning(v: JsonView) -> Meaning
    decreases v,
{
    match v {
        JsonView::Null => Meaning::Null,
        JsonView::Bool(b) => Meaning::Bool(b),
        JsonView::Number(text) => Meaning::Number(normal_text(text)),
        JsonView::String(s) => Meaning::String(s),
        JsonView::Array(items) => Meaning::Array(
            Seq::new(
                items.len(),
                |i: int|
                    if 0 <= i < items.len() {
                        meaning(items[i])
                    } else {
                        arbitrary()
                    },
            ),
        ),
        JsonView::Object(entries) => Meaning::Object(
            Map::new(
                |key: Seq<char>| has_key(entries, key),
                |key: Seq<char>|
                    {
                        let i = position(entries, key);
                        if 0 <= i < entries.len() {
                            meaning(entries[i].1)
                        } else {
                            arbitrary()
                        }
                    },
            ),
        ),
    }
}

/// The canonical form of a document: the same document with every number in
/// normal form and the entries of every object, at every depth, in ascending
/// order of their keys.
pub open spec fn canonical(v: JsonView) -> JsonView
    decreases v,
{
    match v {
        JsonView::Number(text) => JsonView::Number(normal_text(text)),
        JsonView::Array(items) => JsonView::Array(
            Seq::new(
                items.len(),
                |i: int|
                    if 0 <= i < items.len() {
                        canonical(items[i])
                    } else {
                        arbitrary()
                    },
            ),
        ),
        JsonView::Object(entries) => {
            let keys = keys_of(entries).sort_by(|a: Seq<char>, b: Seq<char>| key_le(a, b));
            JsonView::Object(
                Seq::new(
                    keys.len(),
                    |i: int|
                        {
                            let at = position(entries, keys[i]);
                            if 0 <= at < entries.len() {
                                (keys[i], canonical(entries[at].1))
                            } else {
                                arbitrary()
                            }
                        },
                ),
            )
        },
        _ => v,
    }
}

/// With distinct keys, the position of a key is where it stands.
proof fn lemma_position(entries: Seq<(Seq<char>, JsonView)>, i: int)
    requires
        distinct(entries),
        0 <= i < entries.len(),
    ensures
        has_key(entries, entries[i].0),
        position(entries, entries[i].0) == i,
{
    let key = entries[i].0;
    assert(entries[i].0 == key);
    let p = position(entries, key);
    assert(0 <= p < entries.len() && entries[p].0 == key);
}

/// Two ascending sequences of keys with the same members are equal.
proof fn lemma_ascending_unique(
    a: Seq<(Seq<char>, JsonView)>,
    b: Seq<(Seq<char>, JsonView)>,
    n: int,
)
    requires
        ascending(a),
        ascending(b),
        forall|key: Seq<char>| has_key(a, key) ==> has_key(b, key),
        forall|key: Seq<char>| has_key(b, key) ==> has_key(a, key),
        0 <= n <= a.len(),
    ensures
        n <= b.len(),
        forall|i: int| 0 <= i < n ==> a[i].0 == b[i].0,
    decreases n,
{
    if n > 0 {
        lemma_key_lt();
        let i = n - 1;
        lemma_ascending_unique(a, b, i);
        assert(a[i].0 == a[i].0);
        assert(has_key(a, a[i].0));
        let j = position(b, a[i].0);
        assert(0 <= j < b.len() && b[j].0 == a[i].0);
        if j < i {
            assert(a[j].0 == b[j].0);
            assert(key_lt(a[j].0, a[i].0));
        }
        assert(i < b.len());
        if j > i {
            assert(key_lt(b[i].0, b[j].0));
            assert(has_key(b, b[i].0));
            let k = position(a, b[i].0);
            assert(0 <= k < a.len() && a[k].0 == b[i].0);
            if k < i {
                assert(a[k].0 == b[k].0);
                assert(key_lt(b[k].0, b[i].0));
            } else if k > i {
                assert(key_lt(a[i].0, a[k].0));
            }
        }
    }
}

pub(crate) proof fn lemma_ascending_distinct(entries: Seq<(Seq<char>, JsonView)>)
    requires
        ascending(entries),
    ensures
        distinct(entries),
{
    assert forall|i: int, j: int| 0 <= i < j < entries.len() implies #[trigger] entries[i].0
        != #[trigger] entries[j].0 by {
        assert(key_lt(entries[i].0, entries[j].0));
    }
}

/// A document in canonical form is well formed.
pub proof fn lemma_canonical_well_formed(v: JsonView)
    requires
        in_canonical_form(v),
    ensures
        well_formed(v),
    decreases v,
{
    match v {
        JsonView::Array(items) => {
            assert forall|i: int| 0 <= i < items.len() implies well_formed(#[trigger] items[i]) by {
                lemma_canonical_well_formed(items[i]);
            }
        },
        JsonView::Object(entries) => {
            lemma_ascending_distinct(entries);
            assert forall|i: int| 0 <= i < entries.len() implies well_formed(
                (#[trigger] entries[i]).1,
            ) by {
                lemma_canonical_well_formed(entries[i].1);
            }
        },
        _ => {},
    }
}

/// Documents that say the same and are both in canonical form are the same
/// document.
pub proof fn canonical_form_is_unique(a: JsonView, b: JsonView)
    requires
        in_canonical_form(a),
        in_canonical_form(b),
        meaning(a) == meaning(b),
    ensures
        a == b,
    decreases a,
{
    match (a, b) {
        (JsonView::Array(x), JsonView::Array(y)) => {
            let mx = meaning(a)->Array_0;
            let my = meaning(b)->Array_0;
            assert(mx.len() == x.len() && my.len() == y.len());
            assert forall|i: int| 0 <= i < x.len() implies x[i] == y[i] by {
                assert(mx[i] == meaning(x[i]));
                assert(my[i] == meaning(y[i]));
                canonical_form_is_unique(x[i], y[i]);
            }
            assert(x =~= y);
        },
        (JsonView::Object(x), JsonView::Object(y)) => {
            let mx = meaning(a)->Object_0;
            let my = meaning(b)->Object_0;
            assert(mx == my);
            lemma_ascending_distinct(x);
            lemma_ascending_distinct(y);
            assert forall|key: Seq<char>| has_key(x, key) implies has_key(y, key) by {
                assert(mx.dom().contains(key));
                assert(my.dom().contains(key));
            }
            assert forall|key: Seq<char>| has_key(y, key) implies has_key(x, key) by {
                assert(my.dom().contains(key));
                assert(mx.dom().contains(key));
            }
            lemma_ascending_unique(x, y, x.len() as int);
            lemma_ascending_unique(y, x, y.len() as int);
            assert forall|i: int| 0 <= i < x.len() implies x[i] == y[i] by {
                lemma_position(x, i);
                lemma_position(y, i);
                assert(mx[x[i].0] == meaning(x[i].1));
                assert(my[y[i].0] == meaning(y[i].1));
                canonical_form_is_unique(x[i].1, y[i].1);
            }
            assert(x =~= y);
        },
        _ => {},
    }
}

/// Whether one of `entries` has the key of `entry` and a value of the same
/// meaning.
pub open spec fn says(entries: Seq<(Seq<char>, JsonView)>, entry: (Seq<char>, JsonView)) -> bool {
    exists|j: int|
        0 <= j < entries.len() && #[trigger] entries[j].0 == entry.0 && meaning(entries[j].1)
            == meaning(entry.1)
}

/// Entries that list the same keys with values of the same meaning say the same.
pub(crate) proof fn lemma_same_meaning(
    a: Seq<(Seq<char>, JsonView)>,
    b: Seq<(Seq<char>, JsonView)>,
)
    requires
        distinct(a),
        distinct(b),
        forall|i: int| 0 <= i < a.len() ==> #[trigger] says(b, a[i]),
        forall|j: int| 0 <= j < b.len() ==> #[trigger] has_key(a, b[j].0),
    ensures
        meaning(JsonView::Object(a)) == meaning(JsonView::Object(b)),
{
    let ma = meaning(JsonView::Object(a))->Object_0;
    let mb = meaning(JsonView::Object(b))->Object_0;
    assert forall|key: Seq<char>| ma.dom().contains(key) <==> mb.dom().contains(key) by {
        if has_key(a, key) {
            let i = position(a, key);
            assert(says(b, a[i]));
            let j = choose|j: int| 0 <= j < b.len() && #[trigger] b[j].0 == a[i].0;
            assert(b[j].0 == key);
        }
        if has_key(b, key) {
            let j = position(b, key);
            assert(has_key(a, b[j].0));
        }
    }
    assert forall|key: Seq<char>| ma.dom().contains(key) implies ma[key] == mb[key] by {
        let i = position(a, key);
        assert(says(b, a[i]));
        let j = choose|j: int|
            0 <= j < b.len() && #[trigger] b[j].0 == a[i].0 && meaning(b[j].1) == meaning(a[i].1);
        lemma_position(a, i);
        lemma_position(b, j);
    }
    assert(ma =~= mb);
}

/// The canonical form is one, and says what the document says.
pub proof fn canonical_form_says_the_same(v: JsonView)
    requires
        well_formed(v),
    ensures
        in_canonical_form(canonical(v)),
        meaning(canonical(v)) == meaning(v),
    decreases v,
{
    match v {
        JsonView::Array(items) => {
            let c = canonical(v)->Array_0;
            assert forall|i: int| 0 <= i < c.len() implies in_canonical_form(#[trigger] c[i]) && meaning(
                c[i],
            ) == meaning(items[i]) by {
                canonical_form_says_the_same(items[i]);
            }
            assert(meaning(canonical(v))->Array_0 =~= meaning(v)->Array_0);
        },
        JsonView::Object(entries) => {
            let c = canonical(v)->Object_0;
            lemma_sorted_keys(entries);
            let keys = keys_of(entries).sort_by(|a: Seq<char>, b: Seq<char>| key_le(a, b));
            assert forall|i: int| 0 <= i < c.len() implies {
                let at = position(entries, keys[i]);
                &&& 0 <= at < entries.len()
                &&& entries[at].0 == keys[i]
                &&& (#[trigger] c[i]).0 == keys[i]
                &&& c[i].1 == canonical(entries[at].1)
                &&& in_canonical_form(c[i].1)
                &&& meaning(c[i].1) == meaning(entries[at].1)
            } by {
                assert(has_key(entries, keys[i]));
                canonical_form_says_the_same(entries[position(entries, keys[i])].1);
            }
            assert forall|i: int, j: int| 0 <= i < j < c.len() implies key_lt(
                #[trigger] c[i].0,
                #[trigger] c[j].0,
            ) by {
                assert(c[i].0 == keys[i] && c[j].0 == keys[j]);
            }
            lemma_ascending_distinct(c);
            assert forall|i: int| 0 <= i < entries.len() implies #[trigger] says(c, entries[i]) by {
                assert(keys.contains(entries[i].0));
                let j = choose|j: int| 0 <= j < keys.len() && keys[j] == entries[i].0;
                lemma_position(entries, i);
                assert(c[j].0 == keys[j]);
            }
            assert forall|j: int| 0 <= j < c.len() implies #[trigger] has_key(
                entries,
                c[j].0,
            ) by {
                assert(c[j].0 == keys[j]);
            }
            lemma_same_meaning(entries, c);
        },
        JsonView::Number(text) => {
            normal_text_keeps_value(text);
        },
        _ => {},
    }
}

/// The parts of a document are smaller than the document.
pub(crate) proof fn lemma_parts_smaller(v: JsonView)
    ensures
        v is Array ==> forall|i: int|
            0 <= i < v->Array_0.len() ==> decreases_to!(v => #[trigger] v->Array_0[i]),
        v is Object ==> forall|i: int|
            0 <= i < v->Object_0.len() ==> decreases_to!(v => (#[trigger] v->Object_0[i]).1),
{
}

/// Two documents have the same canonical form exactly when they say the same:
/// only the order of entries is forgotten, and how an integer is written.
pub proof fn canonical_iff_same_meaning(a: JsonView, b: JsonView)
    requires
        well_formed(a),
        well_formed(b),
    ensures
        canonical(a) == canonical(b) <==> meaning(a) == meaning(b),
{
    canonical_form_says_the_same(a);
    canonical_form_says_the_same(b);
    if meaning(a) == meaning(b) {
        canonical_form_is_unique(canonical(a), canonical(b));
    }
}

/// A canonical form is its own canonical form.
pub proof fn canonical_is_idempotent(v: JsonView)
    requires
        well_formed(v),
    ensures
        well_formed(canonical(v)),
        canonical(canonical(v)) == canonical(v),
{
    canonical_form_says_the_same(v);
    lemma_canonical_well_formed(canonical(v));
    canonical_iff_same_meaning(canonical(v), v);
}

/// The canonical form of what has no parts: nothing but a number changes, and a
/// number only to its normal text.
pub proof fn canonical_of_scalars(b: bool, text: Seq<char>)
    ensures
        canonical(JsonView::Null) == JsonView::Null,
        canonical(JsonView::Bool(b)) == JsonView::Bool(b),
        canonical(JsonView::String(text)) == JsonView::String(text),
        canonical(JsonView::Number(text)) == JsonView::Number(normal_text(text)),
        integral(text) is None ==> canonical(JsonView::Number(text)) == JsonView::Number(text),
{
}

/// The canonical form of an array has the canonical forms of its items, in their
/// order.
pub proof fn canonical_of_array(items: Seq<JsonView>)
    ensures
        canonical(JsonView::Array(items)) matches JsonView::Array(c) && c.len() == items.len()
            && forall|i: int| 0 <= i < items.len() ==> #[trigger] c[i] == canonical(items[i]),
{
}

/// The canonical form of an object has as many entries, each key before those that
/// follow it. The entry `k` of the object is among them with the canonical form of
/// its value, and the entry `k` among them is one of the object's, with its value
/// in canonical form.
pub proof fn canonical_of_object(entries: Seq<(Seq<char>, JsonView)>, k: int)
    requires
        forall|i: int, j: int|
            0 <= i < j < entries.len() ==> #[trigger] entries[i].0 != #[trigger] entries[j].0,
        0 <= k < entries.len(),
    ensures
        canonical(JsonView::Object(entries)) matches JsonView::Object(c) && {
            &&& c.len() == entries.len()
            &&& forall|i: int, j: int|
                0 <= i < j < c.len() ==> key_lt(#[trigger] c[i].0, #[trigger] c[j].0)
            &&& exists|j: int|
                0 <= j < c.len() && #[trigger] c[j] == (entries[k].0, canonical(entries[k].1))
            &&& exists|i: int|
                0 <= i < entries.len() && c[k].0 == #[trigger] entries[i].0 && c[k].1 == canonical(
                    entries[i].1,
                )
        },
{
    assert(distinct(entries));
    lemma_sorted_keys(entries);
    let c = canonical(JsonView::Object(entries))->Object_0;
    let keys = keys_of(entries).sort_by(|a: Seq<char>, b: Seq<char>| key_le(a, b));
    assert forall|i: int, j: int| 0 <= i < j < c.len() implies key_lt(
        #[trigger] c[i].0,
        #[trigger] c[j].0,
    ) by {
        assert(has_key(entries, keys[i]) && has_key(entries, keys[j]));
        assert(c[i].0 == keys[i] && c[j].0 == keys[j]);
    }
    assert(keys.contains(entries[k].0));
    let j = choose|j: int| 0 <= j < keys.len() && keys[j] == entries[k].0;
    lemma_position(entries, k);
    assert(c[j] == (entries[k].0, canonical(entries[k].1)));
    assert(has_key(entries, keys[k]));
    let at = position(entries, keys[k]);
    assert(c[k].0 == entries[at].0 && c[k].1 == canonical(entries[at].1));
}

/// An object without entries is its own canonical form.
pub proof fn canonical_of_empty_object()
    ensures
        canonical(JsonView::Object(Seq::empty())) == JsonView::Object(Seq::empty()),
{
    let entries = Seq::<(Seq<char>, JsonView)>::empty();
    lemma_sorted_keys(entries);
    assert(canonical(JsonView::Object(entries))->Object_0 =~= entries);
}

/// A well-formed document is in canonical form exactly if it is its own canonical
/// form.
pub proof fn canonical_form_is_a_fixed_point(v: JsonView)
    requires
        well_formed(v),
    ensures
        in_canonical_form(v) <==> canonical(v) == v,
{
    canonical_form_says_the_same(v);
    if in_canonical_form(v) {
        canonical_form_is_unique(canonical(v), v);
    }
}

/// What a document without parts says: its kind and its boolean or text. Numbers
/// say the same exactly if they have the same text or are the same integer.
pub proof fn meaning_of_scalars(b: bool, text: Seq<char>, other: Seq<char>)
    ensures
        meaning(JsonView::Null) == Meaning::Null,
        meaning(JsonView::Bool(b)) == Meaning::Bool(b),
        meaning(JsonView::String(text)) == Meaning::String(text),
        meaning(JsonView::Number(text)) is Number,
        meaning(JsonView::Number(text)) == meaning(JsonView::Number(other)) <==> text == other || (
        integral(text) is Some && integral(text) == integral(other)),
{
    normal_text_loses_no_value(text, other);
}

/// What an array says: what its items say, in their order.
pub proof fn meaning_of_array(items: Seq<JsonView>)
    ensures
        meaning(JsonView::Array(items)) matches Meaning::Array(m) && m.len() == items.len()
            && forall|i: int| 0 <= i < items.len() ==> #[trigger] m[i] == meaning(items[i]),
{
}

/// What an object says: under each of its keys what the value there says, and
/// under no other key anything.
pub proof fn meaning_of_object(entries: Seq<(Seq<char>, JsonView)>, key: Seq<char>)
    requires
        forall|i: int, j: int|
            0 <= i < j < entries.len() ==> #[trigger] entries[i].0 != #[trigger] entries[j].0,
    ensures
        meaning(JsonView::Object(entries)) matches Meaning::Object(m) && {
            &&& forall|i: int|
                0 <= i < entries.len() ==> m.dom().contains((#[trigger] entries[i]).0)
                    && m[entries[i].0] == meaning(entries[i].1)
            &&& m.dom().contains(key) ==> exists|i: int|
                0 <= i < entries.len() && #[trigger] entries[i].0 == key
        },
{
    assert(distinct(entries));
    let m = meaning(JsonView::Object(entries))->Object_0;
    assert forall|i: int| 0 <= i < entries.len() implies m.dom().contains((#[trigger] entries[i]).0)
        && m[entries[i].0] == meaning(entries[i].1) by {
        lemma_position(entries, i);
    }
}

/// The canonical form of a document has integers only where the document has, and
/// nests no deeper.
pub proof fn canonical_keeps_integers(v: JsonView, levels: nat)
    requires
        well_formed(v),
        integers_only(v),
        nests_within(v, levels),
    ensures
        integers_only(canonical(v)),
        nests_within(canonical(v), levels),
    decreases v,
{
    match v {
        JsonView::Array(items) => {
            let c = canonical(v)->Array_0;
            assert forall|i: int| 0 <= i < c.len() implies integers_only(#[trigger] c[i])
                && nests_within(c[i], (levels - 1) as nat) by {
                canonical_keeps_integers(items[i], (levels - 1) as nat);
            }
        },
        JsonView::Object(entries) => {
            let c = canonical(v)->Object_0;
            lemma_sorted_keys(entries);
            let keys = keys_of(entries).sort_by(|a: Seq<char>, b: Seq<char>| key_le(a, b));
            assert forall|i: int| 0 <= i < c.len() implies integers_only((#[trigger] c[i]).1)
                && nests_within(c[i].1, (levels - 1) as nat) by {
                assert(has_key(entries, keys[i]));
                let at = position(entries, keys[i]);
                assert(0 <= at < entries.len());
                assert(integers_only(entries[at].1));
                canonical_keeps_integers(entries[at].1, (levels - 1) as nat);
            }
        },
        JsonView::Number(text) => {
            integer_is_normal(text);
        },
        _ => {},
    }
}

/// Sorting distinct keys keeps them all and puts them in strictly ascending order.
proof fn lemma_sorted_keys(entries: Seq<(Seq<char>, JsonView)>)
    requires
        distinct(entries),
    ensures
        ({
            let keys = keys_of(entries).sort_by(|a: Seq<char>, b: Seq<char>| key_le(a, b));
            &&& keys.len() == entries.len()
            &&& forall|i: int| 0 <= i < keys.len() ==> has_key(entries, #[trigger] keys[i])
            &&& forall|i: int|
                0 <= i < entries.len() ==> keys.contains((#[trigger] entries[i]).0)
            &&& forall|i: int, j: int|
                0 <= i < j < keys.len() ==> key_lt(#[trigger] keys[i], #[trigger] keys[j])
        }),
{
    let leq = |a: Seq<char>, b: Seq<char>| key_le(a, b);
    let all = keys_of(entries);
    let keys = all.sort_by(leq);
    key_order_is_total();
    all.lemma_sort_by_ensures(leq);
    assert(all.no_duplicates());
    all.lemma_multiset_has_no_duplicates();
    broadcast use vstd::seq_lib::group_to_multiset_ensures;

    assert(keys.len() == keys.to_multiset().len());
    assert(all.len() == all.to_multiset().len());
    keys.lemma_multiset_has_no_duplicates_conv();
    assert forall|i: int| 0 <= i < keys.len() implies has_key(entries, #[trigger] keys[i]) by {
        assert(keys.contains(keys[i]));
        assert(all.contains(keys[i]));
        let k = choose|k: int| 0 <= k < all.len() && all[k] == keys[i];
        assert(entries[k].0 == keys[i]);
    }
    assert forall|i: int| 0 <= i < entries.len() implies keys.contains(
        (#[trigger] entries[i]).0,
    ) by {
        assert(all[i] == entries[i].0);
        assert(all.contains(all[i]));
        assert(all.to_multiset().count(all[i]) > 0);
    }
    assert forall|i: int, j: int| 0 <= i < j < keys.len() implies key_lt(
        #[trigger] keys[i],
        #[trigger] keys[j],
    ) by {
        assert(leq(keys[i], keys[j]));
        assert(keys[i] != keys[j]);
    }
}

} // verus!
