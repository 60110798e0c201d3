//! The boundary to `serde_json`: its documents, their text, and what is read
//! from text. Everything here that calls `serde_json` is trusted to do what its
//! contract says; the conversions built on it are proved.
use vstd::prelude::*;
use vstd::utf8::{encode_utf8, valid_utf8};

use crate::json::{entries_view, json_view, Json, Object};
use crate::model::{
    distinct, integers_only, lemma_parts_smaller, nests_within, well_formed, JsonView,
};
use crate::number::number_text;

verus! {

/// `serde_json::Value`: a JSON document.
#[verifier::external_type_specification]
#[verifier::external_body]
pub struct ExValue(serde_json::Value);

/// `serde_json::Error`: why a text is not JSON.
#[verifier::external_type_specification]
#[verifier::external_body]
pub struct ExError(serde_json::Error);

/// The document that a `serde_json::Value` holds, the entries of each object in
/// the order in which its map is walked.
pub uninterp spec fn value_view(value: serde_json::Value) -> JsonView;

/// The compact JSON text that `serde_json::to_vec` writes for a document.
pub uninterp spec fn json_text(document: JsonView) -> Seq<u8>;

/// What `serde_json::from_str` reads from a text.
pub uninterp spec fn parsed_json(text: Seq<char>) -> Result<JsonView, serde_json::Error>;

/// Whether a document is well formed, has integers for all of its numbers, and no
/// more than 127 arrays and objects within each other: such documents are read
/// back from their text.
pub open spec fn readable(document: JsonView) -> bool {
    well_formed(document) && integers_only(document) && nests_within(document, 127)
}

/// The text in which a `serde_json::Error` displays itself.
pub uninterp spec fn error_text(error: serde_json::Error) -> Seq<char>;

/// One level of a `serde_json::Value`, with its variants told apart.
enum Shape {
    Null,
    Bool(bool),
    Number(serde_json::Number),
    String(String),
    Array(Vec<serde_json::Value>),
    Object(Vec<(String, serde_json::Value)>),
}

/// The entries that a vector of them holds.
spec fn value_entries(entries: Seq<(String, serde_json::Value)>) -> Seq<
    (Seq<char>, JsonView),
> {
    Seq::new(entries.len(), |i: int| (entries[i].0@, value_view(entries[i].1)))
}

/// The document that a `Shape` holds.
spec fn shape_view(shape: Shape) -> JsonView {
    match shape {
        Shape::Null => JsonView::Null,
        Shape::Bool(b) => JsonView::Bool(b),
        Shape::Number(n) => JsonView::Number(number_text(n)),
        Shape::String(s) => JsonView::String(s@),
        Shape::Array(items) => JsonView::Array(
            Seq::new(items@.len(), |i: int| value_view(items@[i])),
        ),
        Shape::Object(entries) => JsonView::Object(value_entries(entries@)),
    }
}

/// One level of a value stands for the kind of document that it is, with the same
/// boolean, text, items or entries.
proof fn shape_is_spelled_out(
    b: bool,
    number: serde_json::Number,
    s: String,
    items: Vec<serde_json::Value>,
    entries: Vec<(String, serde_json::Value)>,
)
    ensures
        shape_view(Shape::Null) == JsonView::Null,
        shape_view(Shape::Bool(b)) == JsonView::Bool(b),
        shape_view(Shape::Number(number)) == JsonView::Number(number_text(number)),
        shape_view(Shape::String(s)) == JsonView::String(s@),
        shape_view(Shape::Array(items)) matches JsonView::Array(view) && view.len() == items@.len()
            && forall|i: int| 0 <= i < items@.len() ==> #[trigger] view[i] == value_view(items@[i]),
        shape_view(Shape::Object(entries)) matches JsonView::Object(view) && view.len()
            == entries@.len() && forall|i: int|
            0 <= i < entries@.len() ==> #[trigger] view[i] == (
                entries@[i].0@,
                value_view(entries@[i].1),
            ),
{
}

/// Takes a `serde_json::Value` apart, by its variants and
/// `serde_json::Map::into_iter`: the parts are those of the value, and a map has
/// no key twice.
#[verifier::external_body]
fn open_value(value: serde_json::Value) -> (r: Shape)
    ensures
        shape_view(r) == value_view(value),
        r matches Shape::Object(entries) ==> distinct(value_entries(entries@)),
{
    match value {
        serde_json::Value::Null => Shape::Null,
        serde_json::Value::Bool(b) => Shape::Bool(b),
        serde_json::Value::Number(n) => Shape::Number(n),
        serde_json::Value::String(s) => Shape::String(s),
        serde_json::Value::Array(items) => Shape::Array(items),
        serde_json::Value::Object(map) => Shape::Object(map.into_iter().collect()),
    }
}

/// Puts a `serde_json::Value` together, by its variants and
/// `serde_json::Map::from_iter`. With the crate's `preserve_order` on, a map
/// built from entries with distinct keys is walked in the order of the entries,
/// so the value holds what the parts hold.
#[verifier::external_body]
fn close_value(shape: Shape) -> (r: serde_json::Value)
    requires
        shape matches Shape::Object(entries) ==> distinct(value_entries(entries@)),
    ensures
        value_view(r) == shape_view(shape),
{
    match shape {
        Shape::Null => serde_json::Value::Null,
        Shape::Bool(b) => serde_json::Value::Bool(b),
        Shape::Number(n) => serde_json::Value::Number(n),
        Shape::String(s) => serde_json::Value::String(s),
        Shape::Array(items) => serde_json::Value::Array(items),
        Shape::Object(entries) => serde_json::Value::Object(entries.into_iter().collect()),
    }
}

/// `serde_json::to_vec` on a value. It does not fail there: every key is a
/// string and every number finite. Strings are quoted and escaped, integers
/// written in decimal, and floating-point numbers as the shortest decimal that
/// stands for them alone, always with a point or an exponent, so that a number is
/// written as the decimal text that it displays: no two documents have the same
/// text. The text is UTF-8.
#[verifier::external_body]
fn value_text(value: &serde_json::Value) -> (r: Vec<u8>)
    ensures
        r@ == json_text(value_view(*value)),
        forall|other: JsonView|
            well_formed(other) && #[trigger] json_text(other) == r@ ==> other == value_view(*value),
        valid_utf8(r@),
{
    serde_json::to_vec(value).expect("a value serializes")
}

/// `serde_json::from_str`, reading a value. From the text that
/// `serde_json::to_vec` writes it reads the document that was written, where the
/// numbers are integers and the nesting stays below the reader's limit. Nothing
/// is said of reading other numbers back, which can come as a neighbour of the
/// number that was written.
#[verifier::external_body]
fn parse_value(text: &str) -> (r: Result<serde_json::Value, serde_json::Error>)
    ensures
        match r {
            Ok(value) => parsed_json(text@) == Ok::<JsonView, serde_json::Error>(value_view(value)),
            Err(error) => parsed_json(text@) == Err::<JsonView, serde_json::Error>(error),
        },
        forall|document: JsonView|
            readable(document) && #[trigger] json_text(document) == encode_utf8(text@) ==> match r {
                Ok(value) => value_view(value) == document,
                Err(_) => false,
            },
{
    serde_json::from_str(text)
}

/// `serde_json::Error::to_string`.
#[verifier::external_body]
fn describe_error(error: &serde_json::Error) -> (r: String)
    ensures
        r@ == error_text(*error),
{
    error.to_string()
}

/// The document that a `serde_json::Value` holds.
pub fn from_value(value: serde_json::Value) -> (r: Json)
    ensures
        r@ == value_view(value),
    decreases value_view(value),
{
    let ghost view = value_view(value);
    proof {
        lemma_parts_smaller(view);
    }
    match open_value(value) {
        Shape::Null => Json::Null,
        Shape::Bool(b) => Json::Bool(b),
        Shape::Number(n) => Json::Number(n),
        Shape::String(s) => Json::String(s),
        Shape::Array(items) => {
            let ghost parts = items@;
            let mut out: Vec<Json> = Vec::new();
            for item in iter: items.into_iter()
                invariant
                    iter.seq() == parts,
                    view == value_view(value),
                    view is Array,
                    view->Array_0.len() == parts.len(),
                    forall|j: int|
                        0 <= j < parts.len() ==> #[trigger] view->Array_0[j] == value_view(parts[j]),
                    forall|j: int|
                        0 <= j < parts.len() ==> decreases_to!(view => #[trigger] view->Array_0[j]),
                    out@.len() == iter.index(),
                    forall|j: int|
                        0 <= j < out@.len() ==> json_view(#[trigger] out@[j]) == view->Array_0[j],
            {
                assert(decreases_to!(view => view->Array_0[out@.len() as int]));
                out.push(from_value(item));
            }
            let r = Json::Array(out);
            assert(r@->Array_0 =~= view->Array_0);
            r
        },
        Shape::Object(entries) => {
            let ghost parts = entries@;
            let mut out: Vec<(String, Json)> = Vec::new();
            for entry in iter: entries.into_iter()
                invariant
                    iter.seq() == parts,
                    view == value_view(value),
                    view is Object,
                    view->Object_0 == value_entries(parts),
                    forall|j: int|
                        0 <= j < parts.len() ==> decreases_to!(view => (#[trigger] view->Object_0[j]).1),
                    out@.len() == iter.index(),
                    forall|j: int|
                        0 <= j < out@.len() ==> {
                            &&& (#[trigger] out@[j]).0@ == view->Object_0[j].0
                            &&& json_view(out@[j].1) == view->Object_0[j].1
                        },
            {
                assert(decreases_to!(view => view->Object_0[out@.len() as int].1));
                out.push((entry.0, from_value(entry.1)));
            }
            assert(entries_view(out@) =~= view->Object_0);
            Json::Object(Object::from_entries(out))
        },
    }
}

/// The `serde_json::Value` that holds a document.
fn to_value(json: &Json) -> (r: serde_json::Value)
    ensures
        value_view(r) == json@,
    decreases json@,
{
    proof {
        lemma_parts_smaller(json@);
    }
    match json {
        Json::Null => close_value(Shape::Null),
        Json::Bool(b) => close_value(Shape::Bool(*b)),
        Json::Number(n) => close_value(Shape::Number(n.clone())),
        Json::String(s) => close_value(Shape::String(s.clone())),
        Json::Array(items) => {
            let ghost view = json@;
            let mut out: Vec<serde_json::Value> = Vec::new();
            let mut i: usize = 0;
            while i < items.len()
                invariant
                    view == json@,
                    view is Array,
                    view->Array_0.len() == items@.len(),
                    forall|j: int|
                        0 <= j < items@.len() ==> #[trigger] view->Array_0[j] == json_view(items@[j]),
                    forall|j: int|
                        0 <= j < items@.len() ==> decreases_to!(view => #[trigger] view->Array_0[j]),
                    i <= items@.len(),
                    out@.len() == i,
                    forall|j: int|
                        0 <= j < i ==> value_view(#[trigger] out@[j]) == view->Array_0[j],
                decreases items@.len() - i,
            {
                assert(decreases_to!(view => view->Array_0[i as int]));
                out.push(to_value(&items[i]));
                i = i + 1;
            }
            let shape = Shape::Array(out);
            assert(shape_view(shape)->Array_0 =~= view->Array_0);
            close_value(shape)
        },
        Json::Object(o) => {
            let ghost view = json@;
            let entries = o.entries();
            let mut out: Vec<(String, serde_json::Value)> = Vec::new();
            let mut i: usize = 0;
            while i < entries.len()
                invariant
                    view == json@,
                    view is Object,
                    view->Object_0 == entries_view(entries@),
                    forall|j: int|
                        0 <= j < entries@.len() ==> decreases_to!(view => (#[trigger] view->Object_0[j]).1),
                    i <= entries@.len(),
                    out@.len() == i,
                    forall|j: int|
                        0 <= j < i ==> {
                            &&& (#[trigger] out@[j]).0@ == view->Object_0[j].0
                            &&& value_view(out@[j].1) == view->Object_0[j].1
                        },
                decreases entries@.len() - i,
            {
                assert(decreases_to!(view => view->Object_0[i as int].1));
                out.push((entries[i].0.clone(), to_value(&entries[i].1)));
                i = i + 1;
            }
            assert(value_entries(out@) =~= view->Object_0);
            close_value(Shape::Object(out))
        },
    }
}

/// The compact JSON text of a document. No other document has the same text.
pub(crate) fn to_text(json: &Json) -> (r: Vec<u8>)
    ensures
        r@ == json_text(json@),
        forall|other: JsonView|
            well_formed(other) && #[trigger] json_text(other) == r@ ==> other == json@,
        valid_utf8(r@),
{
    value_text(&to_value(json))
}

/// Reads a document from JSON text; else says why the text is none. From the text
/// of a document with integers only, not too deep, that document is read.
pub fn parse_json(text: &str) -> (r: Result<Json, String>)
    ensures
        match parsed_json(text@) {
            Ok(document) => r matches Ok(json) && json@ == document,
            Err(error) => r matches Err(message) && message@ == error_text(error),
        },
        forall|document: JsonView|
            readable(document) && #[trigger] json_text(document) == encode_utf8(text@) ==> (
            r matches Ok(json) && json@ == document),
{
    match parse_value(text) {
        Ok(value) => Ok(from_value(value)),
        Err(error) => Err(describe_error(&error)),
    }
}

} // verus!
