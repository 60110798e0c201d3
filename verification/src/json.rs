//! JSON documents.
use vstd::prelude::*;

use crate::model::{distinct, has_key, position, JsonView};
use crate::number::number_text;

verus! {

/// A JSON document.
#[derive(Debug, PartialEq)]
pub enum Json {
    Null,
    Bool(bool),
    Number(serde_json::Number),
    String(String),
    Array(Vec<Json>),
    Object(Object),
}

/// A JSON object: entries in the order in which their keys were first inserted,
/// no key twice.
#[derive(Debug, PartialEq)]
pub struct Object {
    entries: Vec<(String, Json)>,
}

/// The document that a `Json` holds.
pub open spec fn json_view(v: Json) -> JsonView
    decreases v,
{
    match v {
        Json::Null => JsonView::Null,
        Json::Bool(b) => JsonView::Bool(b),
        Json::Number(n) => JsonView::Number(number_text(n)),
        Json::String(s) => JsonView::String(s@),
        Json::Array(items) => JsonView::Array(
            Seq::new(
                items@.len(),
                |i: int|
                    if 0 <= i < items@.len() {
                        json_view(items@[i])
                    } else {
                        arbitrary()
                    },
            ),
        ),
        Json::Object(o) => JsonView::Object(object_view(o)),
    }
}

/// The entries that an `Object` holds.
pub closed spec fn object_view(o: Object) -> Seq<(Seq<char>, JsonView)>
    decreases o,
{
    Seq::new(
        o.entries@.len(),
        |i: int|
            if 0 <= i < o.entries@.len() {
                (o.entries@[i].0@, json_view(o.entries@[i].1))
            } else {
                arbitrary()
            },
    )
}

/// The entries that a vector of them holds.
pub open spec fn entries_view(entries: Seq<(String, Json)>) -> Seq<(Seq<char>, JsonView)> {
    Seq::new(entries.len(), |i: int| (entries[i].0@, json_view(entries[i].1)))
}

/// A `Json` stands for the document that it spells out: each kind for the same
/// kind, with the same boolean, text, items or entries.
pub proof fn json_is_spelled_out(
    b: bool,
    number: serde_json::Number,
    s: String,
    items: Vec<Json>,
    object: Object,
)
    ensures
        Json::Null@ == JsonView::Null,
        Json::Bool(b)@ == JsonView::Bool(b),
        Json::Number(number)@ == JsonView::Number(number_text(number)),
        Json::String(s)@ == JsonView::String(s@),
        Json::Array(items)@ matches JsonView::Array(view) && view.len() == items@.len() && forall|
            i: int,
        |
            0 <= i < items@.len() ==> #[trigger] view[i] == items@[i]@,
        Json::Object(object)@ == JsonView::Object(object@),
{
}

/// Entries stand for the keys and documents that they spell out, in order.
pub proof fn entries_are_spelled_out(entries: Seq<(String, Json)>)
    ensures
        entries_view(entries).len() == entries.len(),
        forall|i: int|
            0 <= i < entries.len() ==> #[trigger] entries_view(entries)[i] == (
                entries[i].0@,
                entries[i].1@,
            ),
{
}

impl View for Json {
    type V = JsonView;

    open spec fn view(&self) -> JsonView {
        json_view(*self)
    }
}

impl View for Object {
    type V = Seq<(Seq<char>, JsonView)>;

    open spec fn view(&self) -> Seq<(Seq<char>, JsonView)> {
        object_view(*self)
    }
}

impl Object {
    #[verifier::type_invariant]
    spec fn keys_distinct(&self) -> bool {
        distinct(entries_view(self.entries@))
    }

    /// The object with no entries.
    pub fn new() -> (r: Object)
        ensures
            r@ == Seq::<(Seq<char>, JsonView)>::empty(),
    {
        let r = Object { entries: Vec::new() };
        assert(r@ =~= Seq::<(Seq<char>, JsonView)>::empty());
        r
    }

    /// The object with the given entries.
    pub(crate) fn from_entries(entries: Vec<(String, Json)>) -> (r: Object)
        requires
            distinct(entries_view(entries@)),
        ensures
            r@ == entries_view(entries@),
    {
        let r = Object { entries };
        assert(r@ =~= entries_view(entries@));
        r
    }

    /// The entries, in order.
    pub fn entries(&self) -> (r: &Vec<(String, Json)>)
        ensures
            entries_view(r@) == self@,
            distinct(self@),
    {
        proof {
            use_type_invariant(self);
            assert(entries_view(self.entries@) =~= self@);
        }
        &self.entries
    }

    /// Puts `value` under `key`: in place of the value that is there, else at
    /// the end.
    pub fn insert(&mut self, key: String, value: Json)
        ensures
            has_key(old(self)@, key@) ==> final(self)@ == old(self)@.update(
                position(old(self)@, key@),
                (key@, value@),
            ),
            !has_key(old(self)@, key@) ==> final(self)@ == old(self)@.push((key@, value@)),
            exists|i: int|
                0 <= i < final(self)@.len() && #[trigger] final(self)@[i] == (key@, value@),
            forall|i: int|
                0 <= i < old(self)@.len() && (#[trigger] old(self)@[i]).0 != key@ ==> i
                    < final(self)@.len() && final(self)@[i] == old(self)@[i],
            forall|i: int|
                0 <= i < final(self)@.len() && (#[trigger] final(self)@[i]).0 != key@ ==> i
                    < old(self)@.len() && final(self)@[i] == old(self)@[i],
            forall|i: int, j: int|
                0 <= i < j < final(self)@.len() ==> #[trigger] final(self)@[i].0
                    != #[trigger] final(self)@[j].0,
    {
        proof {
            use_type_invariant(&*self);
            assert(entries_view(self.entries@) =~= self@);
        }
        let ghost before = self@;
        let mut entries: Vec<(String, Json)> = Vec::new();
        std::mem::swap(&mut entries, &mut self.entries);
        let ghost all = entries@;
        let mut i: usize = 0;
        while i < entries.len()
            invariant
                i <= entries@.len(),
                entries@ == all,
                forall|j: int| 0 <= j < i ==> (#[trigger] all[j]).0@ != key@,
            ensures
                i < entries@.len() ==> all[i as int].0@ == key@,
            decreases entries@.len() - i,
        {
            if entries[i].0 == key {
                break;
            }
            i = i + 1;
        }
        if i < entries.len() {
            proof {
                assert(before[i as int].0 == key@);
                assert(position(before, key@) == i);
            }
            entries.set(i, (key, value));
            assert(entries_view(entries@) =~= before.update(i as int, (key@, value@)));
        } else {
            assert forall|j: int| 0 <= j < before.len() implies (#[trigger] before[j]).0 != key@ by {
                assert(all[j].0@ != key@);
            }
            entries.push((key, value));
            assert(entries_view(entries@) =~= before.push((key@, value@)));
        }
        self.entries = entries;
        assert(self@ =~= entries_view(entries@));
        proof {
            let at = if i < before.len() { i as int } else { before.len() as int };
            assert(self@[at] == (key@, value@));
        }
    }
}

} // verus!
