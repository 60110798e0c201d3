//! What the Python module does between its arguments and the cache: it reads
//! requests from text, makes metadata, names diff modes and lays out results as
//! Python data.
use vstd::prelude::*;
use vstd::string::*;
use vstd::utf8::encode_utf8;

use crate::cache::{Cache, Lookup, Peek, WriteEntry};
use crate::error::CacheError;
use crate::fingerprint::{canonical_form_is_readable, canonical_text, fingerprint_of};
use crate::json::{entries_view, json_view, Json};
use crate::meta::CachedMeta;
use crate::model::{canonical, lemma_parts_smaller, meaning, JsonView};
use crate::number::{as_i64, decimal, decimal_reads_back, number_text};
use crate::stats::CacheStats;
use crate::value::{
    error_text, from_value, json_text, parse_json, parsed_json, readable, value_view,
};

verus! {

/// How two outputs are compared.
#[derive(Debug, Clone, Copy, PartialEq, Eq)]
pub enum DiffMode {
    Bytes,
    Structured,
    Embedding,
    Judge,
}

/// A failure, by the Python exception that reports it.
#[derive(Debug, PartialEq, Eq)]
pub enum Failure {
    /// `ValueError`: an argument is not what it must be.
    Value(String),
    /// `RuntimeError`: the cache failed.
    Runtime(String),
}

/// Data as Python has it.
#[derive(Debug, PartialEq)]
pub enum PyData {
    Nothing,
    Bool(bool),
    Int(i64),
    /// A number that is no integer of 64 bits.
    Float(serde_json::Number),
    Str(String),
    List(Vec<PyData>),
    Dict(Vec<(String, PyData)>),
}

/// What a `PyData` holds.
pub enum PyView {
    Nothing,
    Bool(bool),
    Int(i64),
    Float(Seq<char>),
    Str(Seq<char>),
    List(Seq<PyView>),
    Dict(Seq<(Seq<char>, PyView)>),
}

/// What a `PyData` holds.
pub open spec fn py_view(data: PyData) -> PyView
    decreases data,
{
    match data {
        PyData::Nothing => PyView::Nothing,
        PyData::Bool(b) => PyView::Bool(b),
        PyData::Int(i) => PyView::Int(i),
        PyData::Float(n) => PyView::Float(number_text(n)),
        PyData::Str(s) => PyView::Str(s@),
        PyData::List(items) => PyView::List(
            Seq::new(
                items@.len(),
                |i: int|
                    if 0 <= i < items@.len() {
                        py_view(items@[i])
                    } else {
                        arbitrary()
                    },
            ),
        ),
        PyData::Dict(entries) => PyView::Dict(
            Seq::new(
                entries@.len(),
                |i: int|
                    if 0 <= i < entries@.len() {
                        (entries@[i].0@, py_view(entries@[i].1))
                    } else {
                        arbitrary()
                    },
            ),
        ),
    }
}

/// Python data stands for what it spells out: each kind for the same kind, with the
/// same boolean, integer, text, items or entries.
pub proof fn python_data_is_spelled_out(
    b: bool,
    i: i64,
    number: serde_json::Number,
    s: String,
    items: Vec<PyData>,
    entries: Vec<(String, PyData)>,
)
    ensures
        PyData::Nothing@ == PyView::Nothing,
        PyData::Bool(b)@ == PyView::Bool(b),
        PyData::Int(i)@ == PyView::Int(i),
        PyData::Float(number)@ == PyView::Float(number_text(number)),
        PyData::Str(s)@ == PyView::Str(s@),
        PyData::List(items)@ matches PyView::List(view) && view.len() == items@.len() && forall|
            k: int,
        |
            0 <= k < items@.len() ==> #[trigger] view[k] == items@[k]@,
        PyData::Dict(entries)@ matches PyView::Dict(view) && view.len() == entries@.len() && forall|
            k: int,
        |
            0 <= k < entries@.len() ==> #[trigger] view[k] == (entries@[k].0@, entries@[k].1@),
{
}

/// Items stand for the keys and data that they spell out, in order.
pub proof fn items_are_spelled_out(items: Seq<(String, PyData)>)
    ensures
        items_view(items).len() == items.len(),
        forall|k: int|
            0 <= k < items.len() ==> #[trigger] items_view(items)[k] == (items[k].0@, items[k].1@),
{
}

impl View for PyData {
    type V = PyView;

    open spec fn view(&self) -> PyView {
        py_view(*self)
    }
}

/// The items that a vector of them holds.
pub open spec fn items_view(items: Seq<(String, PyData)>) -> Seq<(Seq<char>, PyView)> {
    Seq::new(items.len(), |i: int| (items[i].0@, py_view(items[i].1)))
}

/// The text that `{:?}` formats a string to.
pub uninterp spec fn debug_text(text: Seq<char>) -> Seq<char>;

/// The `Debug` form of a string, as `format!` writes it.
#[verifier::external_body]
fn format_debug(text: &str) -> (r: String)
    ensures
        r@ == debug_text(text@),
{
    format!("{:?}", text)
}

/// A number as Python data: an integer where its text is that of an integer of 64
/// bits, without a point or an exponent.
pub open spec fn python_number(text: Seq<char>) -> PyView {
    if exists|i: i64| text == #[trigger] decimal(i as int) {
        PyView::Int(choose|i: i64| text == #[trigger] decimal(i as int))
    } else {
        PyView::Float(text)
    }
}

/// A document as Python data.
pub open spec fn python_form(v: JsonView) -> PyView
    decreases v,
{
    match v {
        JsonView::Null => PyView::Nothing,
        JsonView::Bool(b) => PyView::Bool(b),
        JsonView::Number(text) => python_number(text),
        JsonView::String(s) => PyView::Str(s),
        JsonView::Array(items) => PyView::List(
            Seq::new(
                items.len(),
                |i: int|
                    if 0 <= i < items.len() {
                        python_form(items[i])
                    } else {
                        arbitrary()
                    },
            ),
        ),
        JsonView::Object(entries) => PyView::Dict(
            Seq::new(
                entries.len(),
                |i: int|
                    if 0 <= i < entries.len() {
                        (entries[i].0, python_form(entries[i].1))
                    } else {
                        arbitrary()
                    },
            ),
        ),
    }
}

/// The items of the dictionary that stands for a row: those of an object, and
/// none for any other document.
pub open spec fn row_items(row: JsonView) -> Seq<(Seq<char>, PyView)> {
    match row {
        JsonView::Object(_) => python_form(row)->Dict_0,
        _ => Seq::empty(),
    }
}

/// How documents without parts are laid out: null as nothing, a boolean as the
/// boolean that it is, a string as its text, the integer `i` as `i`, and a number
/// whose text is that of no integer of 64 bits with a sign as the number of that
/// text.
pub proof fn python_form_of_scalars(b: bool, text: Seq<char>, i: i64)
    ensures
        python_form(JsonView::Null) == PyView::Nothing,
        python_form(JsonView::Bool(b)) == PyView::Bool(b),
        python_form(JsonView::String(text)) == PyView::Str(text),
        python_form(JsonView::Number(decimal(i as int))) == PyView::Int(i),
        (forall|j: i64| text != #[trigger] decimal(j as int)) ==> python_form(JsonView::Number(text))
            == PyView::Float(text),
{
    let written = decimal(i as int);
    let j = choose|j: i64| written == #[trigger] decimal(j as int);
    assert(written == decimal(j as int));
    decimal_reads_back(i as int);
    decimal_reads_back(j as int);
}

/// How arrays are laid out: item by item, in order.
pub proof fn python_form_of_array(items: Seq<JsonView>)
    ensures
        python_form(JsonView::Array(items)) matches PyView::List(view) && view.len() == items.len()
            && forall|k: int| 0 <= k < items.len() ==> #[trigger] view[k] == python_form(items[k]),
{
}

/// How objects are laid out: entry by entry, in order, under the same keys. A row
/// that is an object has these items, and any other row has none.
pub proof fn python_form_of_object(entries: Seq<(Seq<char>, JsonView)>, other: JsonView)
    ensures
        python_form(JsonView::Object(entries)) matches PyView::Dict(view) && {
            &&& view.len() == entries.len()
            &&& forall|k: int|
                0 <= k < entries.len() ==> #[trigger] view[k] == (
                    entries[k].0,
                    python_form(entries[k].1),
                )
            &&& row_items(JsonView::Object(entries)) == view
        },
        !(other is Object) ==> row_items(other).len() == 0,
{
}

/// Python data, read as a document again.
pub open spec fn document_of(data: PyView) -> JsonView
    decreases data,
{
    match data {
        PyView::Nothing => JsonView::Null,
        PyView::Bool(b) => JsonView::Bool(b),
        PyView::Int(i) => JsonView::Number(decimal(i as int)),
        PyView::Float(text) => JsonView::Number(text),
        PyView::Str(s) => JsonView::String(s),
        PyView::List(items) => JsonView::Array(
            Seq::new(
                items.len(),
                |i: int|
                    if 0 <= i < items.len() {
                        document_of(items[i])
                    } else {
                        arbitrary()
                    },
            ),
        ),
        PyView::Dict(entries) => JsonView::Object(
            Seq::new(
                entries.len(),
                |i: int|
                    if 0 <= i < entries.len() {
                        (entries[i].0, document_of(entries[i].1))
                    } else {
                        arbitrary()
                    },
            ),
        ),
    }
}

/// Laying a document out as Python data loses nothing: read again, the data is the
/// document.
pub proof fn python_form_reads_back(v: JsonView)
    ensures
        document_of(python_form(v)) == v,
    decreases v,
{
    lemma_parts_smaller(v);
    match v {
        JsonView::Number(text) => {
            if exists|i: i64| text == #[trigger] decimal(i as int) {
                let i = choose|i: i64| text == #[trigger] decimal(i as int);
                assert(text == decimal(i as int));
            }
        },
        JsonView::Array(items) => {
            let read = document_of(python_form(v))->Array_0;
            assert forall|k: int| 0 <= k < items.len() implies read[k] == items[k] by {
                python_form_reads_back(items[k]);
            }
            assert(read =~= items);
        },
        JsonView::Object(entries) => {
            let read = document_of(python_form(v))->Object_0;
            assert forall|k: int| 0 <= k < entries.len() implies read[k] == entries[k] by {
                python_form_reads_back(entries[k].1);
            }
            assert(read =~= entries);
        },
        _ => {},
    }
}

/// Different documents are laid out differently.
pub proof fn python_form_is_injective(a: JsonView, b: JsonView)
    requires
        python_form(a) == python_form(b),
    ensures
        a == b,
{
    python_form_reads_back(a);
    python_form_reads_back(b);
}

/// A number as Python data, given the integer of 64 bits that it is, if any.
pub fn number_data(number: &serde_json::Number, integer: Option<i64>) -> (r: PyData)
    ensures
        r@ == match integer {
            Some(i) => PyView::Int(i),
            None => PyView::Float(number_text(*number)),
        },
        r == match integer {
            Some(i) => PyData::Int(i),
            None => PyData::Float(*number),
        },
{
    match integer {
        Some(i) => PyData::Int(i),
        None => PyData::Float(number.clone()),
    }
}

/// Lays a document out as Python data.
pub fn json_to_pyobject(value: &Json) -> (r: PyData)
    ensures
        r@ == python_form(value@),
        match *value {
            Json::Null => r == PyData::Nothing,
            Json::Bool(b) => r == PyData::Bool(b),
            Json::Number(n) => match r {
                PyData::Int(i) => number_text(n) == decimal(i as int),
                PyData::Float(m) => m == n,
                _ => false,
            },
            Json::String(s) => r matches PyData::Str(t) && t@ == s@,
            Json::Array(items) => r matches PyData::List(list) && list@.len() == items@.len(),
            Json::Object(o) => r matches PyData::Dict(dict) && dict@.len() == o@.len(),
        },
    decreases value@,
{
    proof {
        lemma_parts_smaller(value@);
    }
    match value {
        Json::Null => PyData::Nothing,
        Json::Bool(b) => PyData::Bool(*b),
        Json::Number(n) => {
            let integer = as_i64(n);
            proof {
                if let Some(i) = integer {
                    let text = number_text(*n);
                    assert(text == decimal(i as int));
                    let j = choose|j: i64| text == #[trigger] decimal(j as int);
                    decimal_reads_back(i as int);
                    decimal_reads_back(j as int);
                }
            }
            number_data(n, integer)
        },
        Json::String(s) => PyData::Str(s.clone()),
        Json::Array(items) => {
            let ghost view = value@;
            let mut out: Vec<PyData> = Vec::new();
            let mut i: usize = 0;
            while i < items.len()
                invariant
                    view == value@,
                    view is Array,
                    view->Array_0.len() == items@.len(),
                    forall|j: int|
                        0 <= j < items@.len() ==> #[trigger] view->Array_0[j] == json_view(items@[j]),
                    forall|j: int|
                        0 <= j < items@.len() ==> decreases_to!(view => #[trigger] view->Array_0[j]),
                    i <= items@.len(),
                    out@.len() == i,
                    forall|j: int|
                        0 <= j < i ==> py_view(#[trigger] out@[j]) == python_form(view->Array_0[j]),
                decreases items@.len() - i,
            {
                assert(decreases_to!(view => view->Array_0[i as int]));
                out.push(json_to_pyobject(&items[i]));
                i = i + 1;
            }
            let r = PyData::List(out);
            assert(r@->List_0 =~= python_form(view)->List_0);
            r
        },
        Json::Object(o) => {
            let ghost view = value@;
            let entries = o.entries();
            let mut out: Vec<(String, PyData)> = Vec::new();
            let mut i: usize = 0;
            while i < entries.len()
                invariant
                    view == value@,
                    view is Object,
                    view->Object_0 == entries_view(entries@),
                    forall|j: int|
                        0 <= j < entries@.len() ==> decreases_to!(view => (#[trigger] view->Object_0[j]).1),
                    i <= entries@.len(),
                    out@.len() == i,
                    forall|j: int|
                        0 <= j < i ==> {
                            &&& (#[trigger] out@[j]).0@ == view->Object_0[j].0
                            &&& py_view(out@[j].1) == python_form(view->Object_0[j].1)
                        },
                decreases entries@.len() - i,
            {
                assert(decreases_to!(view => view->Object_0[i as int].1));
                out.push((entries[i].0.clone(), json_to_pyobject(&entries[i].1)));
                i = i + 1;
            }
            let r = PyData::Dict(out);
            assert(r@->Dict_0 =~= python_form(view)->Dict_0);
            r
        },
    }
}

/// The items of the dictionary that stands for a row of a trace.
pub fn row_to_pydict(row: &Json) -> (r: Vec<(String, PyData)>)
    ensures
        items_view(r@) == row_items(row@),
{
    let r = match json_to_pyobject(row) {
        PyData::Dict(items) => items,
        _ => Vec::new(),
    };
    assert(items_view(r@) =~= row_items(row@));
    r
}

/// The dictionaries that stand for the rows of a trace, one for each, in order.
/// Where a row could not be read, the first such failure is a `RuntimeError`.
pub fn rows_to_pydicts(rows: Vec<Result<serde_json::Value, String>>) -> (r: Result<
    Vec<Vec<(String, PyData)>>,
    Failure,
>)
    ensures
        match r {
            Ok(dicts) => {
                &&& dicts@.len() == rows@.len()
                &&& forall|i: int|
                    0 <= i < rows@.len() ==> (#[trigger] rows@[i] matches Ok(row) && items_view(
                        dicts@[i]@,
                    ) == row_items(value_view(row)))
            },
            Err(failure) => exists|i: int|
                #![trigger rows@[i]]
                0 <= i < rows@.len() && (rows@[i] matches Err(message) && failure
                    == Failure::Runtime(message)) && forall|j: int|
                    0 <= j < i ==> #[trigger] rows@[j] is Ok,
        },
{
    let ghost all = rows@;
    let mut dicts: Vec<Vec<(String, PyData)>> = Vec::new();
    for row in iter: rows.into_iter()
        invariant
            iter.seq() == all,
            dicts@.len() == iter.index(),
            forall|i: int|
                0 <= i < dicts@.len() ==> (#[trigger] all[i] matches Ok(row) && items_view(
                    dicts@[i]@,
                ) == row_items(value_view(row))),
    {
        assert(row == all[dicts@.len() as int]);
        match row {
            Ok(value) => {
                dicts.push(row_to_pydict(&from_value(value)));
            },
            Err(message) => {
                return Err(Failure::Runtime(message));
            },
        }
    }
    Ok(dicts)
}

/// The mode with the given name, if there is one.
pub open spec fn mode_named(name: Seq<char>) -> Option<DiffMode> {
    if name == "bytes"@ {
        Some(DiffMode::Bytes)
    } else if name == "structured"@ {
        Some(DiffMode::Structured)
    } else if name == "embedding"@ {
        Some(DiffMode::Embedding)
    } else if name == "judge"@ {
        Some(DiffMode::Judge)
    } else {
        None
    }
}

/// Which names modes have: these four and no others.
pub proof fn modes_are_named(name: Seq<char>)
    ensures
        mode_named(name) == Some(DiffMode::Bytes) <==> name == "bytes"@,
        mode_named(name) == Some(DiffMode::Structured) <==> name == "structured"@,
        mode_named(name) == Some(DiffMode::Embedding) <==> name == "embedding"@,
        mode_named(name) == Some(DiffMode::Judge) <==> name == "judge"@,
{
    reveal_strlit("bytes");
    reveal_strlit("structured");
    reveal_strlit("embedding");
    reveal_strlit("judge");
    assert("bytes"@[0] == 'b' && "structured"@[0] == 's' && "embedding"@[0] == 'e' && "judge"@[0]
        == 'j');
}

/// The `ValueError` for a name of no mode, given the name in quotes: it says
/// which modes there are.
pub fn unknown_mode(quoted: &str) -> (r: Failure)
    ensures
        r matches Failure::Value(message) && message@ == "unknown diff mode "@ + quoted@
            + "; expected bytes|structured|embedding|judge"@,
{
    let mut message = "unknown diff mode ".to_owned();
    message.append(quoted);
    message.append("; expected bytes|structured|embedding|judge");
    Failure::Value(message)
}

/// Finds the mode with the given name; a name of none is a `ValueError` that
/// says which there are.
pub fn parse_mode(mode: &str) -> (r: Result<DiffMode, Failure>)
    ensures
        match mode_named(mode@) {
            Some(found) => r == Ok::<DiffMode, Failure>(found),
            None => r matches Err(Failure::Value(message)) && message@ == "unknown diff mode "@
                + debug_text(mode@) + "; expected bytes|structured|embedding|judge"@,
        },
{
    let name = mode.to_owned();
    if name == "bytes".to_owned() {
        Ok(DiffMode::Bytes)
    } else if name == "structured".to_owned() {
        Ok(DiffMode::Structured)
    } else if name == "embedding".to_owned() {
        Ok(DiffMode::Embedding)
    } else if name == "judge".to_owned() {
        Ok(DiffMode::Judge)
    } else {
        Err(unknown_mode(format_debug(mode).as_str()))
    }
}

/// The metadata of an entry that is made at a time in milliseconds since the
/// Unix epoch, none where the clock stands before it.
pub open spec fn new_meta_of(
    now_ms: Option<u128>,
    model: Option<String>,
    system_fingerprint: Option<String>,
    response_duration_ms: Option<u64>,
) -> CachedMeta {
    CachedMeta {
        created_at_ms: match now_ms {
            Some(ms) => (ms % 0x1_0000_0000_0000_0000) as u64,
            None => 0,
        },
        hit_count: 0,
        model,
        system_fingerprint,
        response_duration_ms,
    }
}

/// What new metadata holds: what is given, no hits, and of the time the lowest 64
/// bits, or zero where there is none.
pub proof fn new_meta_holds_what_is_given(
    now_ms: Option<u128>,
    model: Option<String>,
    system_fingerprint: Option<String>,
    response_duration_ms: Option<u64>,
)
    ensures
        ({
            let meta = new_meta_of(now_ms, model, system_fingerprint, response_duration_ms);
            &&& meta.model == model
            &&& meta.system_fingerprint == system_fingerprint
            &&& meta.response_duration_ms == response_duration_ms
            &&& meta.hit_count == 0
            &&& now_ms is None ==> meta.created_at_ms == 0
            &&& now_ms matches Some(ms) ==> (ms - meta.created_at_ms) % 0x1_0000_0000_0000_0000 == 0
            &&& now_ms matches Some(ms) ==> (ms <= 0xFFFF_FFFF_FFFF_FFFF ==> meta.created_at_ms
                == ms)
        }),
{
}

/// Makes the metadata of a new entry. The time is kept to 64 bits.
pub fn new_meta(
    now_ms: Option<u128>,
    model: Option<String>,
    system_fingerprint: Option<String>,
    response_duration_ms: Option<u64>,
) -> (r: CachedMeta)
    ensures
        r == new_meta_of(now_ms, model, system_fingerprint, response_duration_ms),
        r.model == model,
        r.system_fingerprint == system_fingerprint,
        r.response_duration_ms == response_duration_ms,
        r.hit_count == 0,
        r.created_at_ms == match now_ms {
            Some(ms) => ms as int % 0x1_0000_0000_0000_0000,
            None => 0,
        },
{
    let created_at_ms: u64 = match now_ms {
        Some(ms) => (ms % 0x1_0000_0000_0000_0000) as u64,
        None => 0,
    };
    CachedMeta { created_at_ms, hit_count: 0, model, system_fingerprint, response_duration_ms }
}

/// A failure of the cache, as Python reports it.
pub fn runtime_failure(error: &CacheError) -> (r: Failure)
    ensures
        r matches Failure::Runtime(message) && message@ == error.origin() + error.message(),
{
    Failure::Runtime(error.describe())
}

/// Reads a request; text that is not JSON is a `ValueError` that says why. From
/// the canonical text of a request, as it is stored, its canonical form is read,
/// which says what the request says, where the numbers are integers and the
/// request is not too deep.
pub fn read_request(request_json: &str) -> (r: Result<Json, Failure>)
    ensures
        match parsed_json(request_json@) {
            Ok(document) => r matches Ok(json) && json@ == document,
            Err(error) => r matches Err(Failure::Value(message)) && message@ == error_text(error),
        },
        forall|request: JsonView|
            readable(request) && #[trigger] canonical_text(request) == encode_utf8(request_json@)
                ==> (r matches Ok(json) && json@ == canonical(request) && meaning(json@) == meaning(
                request,
            )),
{
    proof {
        assert forall|request: JsonView|
            readable(request) && #[trigger] canonical_text(request) == encode_utf8(
                request_json@,
            ) implies readable(canonical(request)) && json_text(canonical(request)) == encode_utf8(
            request_json@,
        ) && meaning(canonical(request)) == meaning(request) by {
            canonical_form_is_readable(request);
        }
    }
    match parse_json(request_json) {
        Ok(json) => Ok(json),
        Err(message) => Err(Failure::Value(message)),
    }
}

/// The fingerprint of a request given as text.
pub fn fingerprint(cache: &Cache, request_json: &str) -> (r: Result<String, Failure>)
    ensures
        match parsed_json(request_json@) {
            Ok(document) => r matches Ok(fingerprint) && fingerprint@ == fingerprint_of(document)
                && fingerprint@.len() == 64,
            Err(error) => r matches Err(Failure::Value(message)) && message@ == error_text(error),
        },
{
    match read_request(request_json) {
        Ok(request) => match cache.fingerprint(&request) {
            Ok(fingerprint) => Ok(fingerprint),
            Err(error) => Err(runtime_failure(&error)),
        },
        Err(failure) => Err(failure),
    }
}

/// Stores a response to a request given as text, with new metadata.
pub fn put(
    cache: &Cache,
    request_json: &str,
    response: &[u8],
    now_ms: Option<u128>,
    model: Option<String>,
    system_fingerprint: Option<String>,
    response_duration_ms: Option<u64>,
) -> (r: Result<WriteEntry, Failure>)
    ensures
        match parsed_json(request_json@) {
            Ok(document) => {
                &&& r matches Ok(entry)
                &&& entry.fingerprint@ == fingerprint_of(document)
                &&& entry.fingerprint@.len() == 64
                &&& entry.request@ == canonical_text(document)
                &&& entry.response@ == response@
                &&& entry.meta == new_meta_of(
                    now_ms,
                    model,
                    system_fingerprint,
                    response_duration_ms,
                )
                &&& entry.meta.model == model
                &&& entry.meta.system_fingerprint == system_fingerprint
                &&& entry.meta.response_duration_ms == response_duration_ms
                &&& entry.meta.hit_count == 0
                &&& entry.meta.created_at_ms == match now_ms {
                    Some(ms) => ms as int % 0x1_0000_0000_0000_0000,
                    None => 0,
                }
            },
            Err(error) => r matches Err(Failure::Value(message)) && message@ == error_text(error),
        },
{
    match read_request(request_json) {
        Ok(request) => {
            let meta = new_meta(now_ms, model, system_fingerprint, response_duration_ms);
            Ok(cache.put(&request, response, &meta))
        },
        Err(failure) => Err(failure),
    }
}

/// Looks up the response to a request given as text, and counts the hit.
pub fn get(cache: &Cache, request_json: &str) -> (r: Result<Lookup, Failure>)
    ensures
        match parsed_json(request_json@) {
            Ok(document) => r matches Ok(lookup) && lookup.fingerprint@ == fingerprint_of(document)
                && lookup.fingerprint@.len() == 64,
            Err(error) => r matches Err(Failure::Value(message)) && message@ == error_text(error),
        },
{
    match read_request(request_json) {
        Ok(request) => Ok(cache.get(&request)),
        Err(failure) => Err(failure),
    }
}

/// Looks up the response to a request given as text, and counts nothing.
pub fn peek(cache: &Cache, request_json: &str) -> (r: Result<Peek, Failure>)
    ensures
        match parsed_json(request_json@) {
            Ok(document) => r matches Ok(lookup) && lookup.fingerprint@ == fingerprint_of(document)
                && lookup.fingerprint@.len() == 64,
            Err(error) => r matches Err(Failure::Value(message)) && message@ == error_text(error),
        },
{
    match read_request(request_json) {
        Ok(request) => Ok(cache.peek(&request)),
        Err(failure) => Err(failure),
    }
}

/// The items of the dictionary that stands for totals.
pub fn stats_items(stats: &CacheStats) -> (r: [(&'static str, u64); 5])
    ensures
        r@ == seq![
            ("entries", stats.entries),
            ("hits", stats.hits),
            ("misses", stats.misses),
            ("bytes_requests", stats.bytes_requests),
            ("bytes_responses", stats.bytes_responses),
        ],
{
    let r = [
        ("entries", stats.entries),
        ("hits", stats.hits),
        ("misses", stats.misses),
        ("bytes_requests", stats.bytes_requests),
        ("bytes_responses", stats.bytes_responses),
    ];
    assert(r@ =~= seq![
        ("entries", stats.entries),
        ("hits", stats.hits),
        ("misses", stats.misses),
        ("bytes_requests", stats.bytes_requests),
        ("bytes_responses", stats.bytes_responses),
    ]);
    r
}

} // verus!
