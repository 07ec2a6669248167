//! JSON documents: reading them, building them and writing them out.

use vstd::prelude::*;

use crate::common::bytes::slice_vec;
use crate::common::ordmap::{ascending, OrdKey};
use crate::common::text::{i128_text, int_text, same_text};

verus! {

/// A JSON document. A number that is not an integer is held as the text that it is written
/// as.
#[derive(Debug)]
pub enum JsonValue {
    Null,
    Bool(bool),
    Int(i128),
    Real(String),
    Text(String),
    Array(Vec<JsonValue>),
    Object(Vec<(String, JsonValue)>),
}

/// The model of a JSON document.
pub enum Json {
    Null,
    Bool(bool),
    Int(int),
    Real(Seq<char>),
    Text(Seq<char>),
    Array(Seq<Json>),
    Object(Seq<(Seq<char>, Json)>),
}

/// The model of a document.
pub open spec fn json_view(v: JsonValue) -> Json
    decreases v,
{
    match v {
        JsonValue::Null => Json::Null,
        JsonValue::Bool(b) => Json::Bool(b),
        JsonValue::Int(i) => Json::Int(i as int),
        JsonValue::Real(t) => Json::Real(t@),
        JsonValue::Text(t) => Json::Text(t@),
        JsonValue::Array(items) => Json::Array(
            Seq::new(
                items@.len(),
                |i: int|
                    if 0 <= i < items@.len() {
                        json_view(items@[i])
                    } else {
                        Json::Null
                    },
            ),
        ),
        JsonValue::Object(fields) => Json::Object(
            Seq::new(
                fields@.len(),
                |i: int|
                    if 0 <= i < fields@.len() {
                        (fields@[i].0@, json_view(fields@[i].1))
                    } else {
                        (Seq::empty(), Json::Null)
                    },
            ),
        ),
    }
}

impl View for JsonValue {
    type V = Json;

    open spec fn view(&self) -> Json {
        json_view(*self)
    }
}

impl DeepView for JsonValue {
    type V = Json;

    open spec fn deep_view(&self) -> Json {
        json_view(*self)
    }
}

/// Where and why a text is not JSON.
#[derive(Debug)]
pub struct JsonFault {
    pub line: usize,
    pub column: usize,
    pub message: String,
}

/// The model of a fault.
#[verifier::ext_equal]
pub struct JsonFaultView {
    pub line: usize,
    pub column: usize,
    pub message: Seq<char>,
}

impl View for JsonFault {
    type V = JsonFaultView;

    open spec fn view(&self) -> JsonFaultView {
        JsonFaultView { line: self.line, column: self.column, message: self.message@ }
    }
}

// ---------------------------------------------------------------------------
// The outside documents

/// `serde_json::Value`, a parsed document.
#[verifier::external_type_specification]
#[verifier::external_body]
pub struct OutsideJson(serde_json::Value);

/// What a parsed document holds.
pub uninterp spec fn json_contents(v: serde_json::Value) -> Json;

/// What `serde_json::from_slice` makes of some bytes as a document.
pub uninterp spec fn json_parsed(bytes: Seq<u8>) -> Result<Json, JsonFaultView>;

/// How `serde_json::to_string` writes a text: in double quotes, with what JSON does not
/// allow in them escaped.
pub uninterp spec fn json_quoted(text: Seq<char>) -> Seq<char>;

/// `serde_json::Value::is_null` tells whether a document is `null`.
pub assume_specification[ serde_json::Value::is_null ](v: &serde_json::Value) -> (r: bool)
    ensures
        r == (json_contents(*v) is Null),
;

/// `serde_json::Value::as_bool` gives a truth value, and nothing for other documents.
pub assume_specification[ serde_json::Value::as_bool ](v: &serde_json::Value) -> (r: Option<bool>)
    ensures
        r == match json_contents(*v) {
            Json::Bool(b) => Some(b),
            _ => None,
        },
;

/// `serde_json::Value::as_i64` gives an integer that fits, and nothing for other documents.
pub assume_specification[ serde_json::Value::as_i64 ](v: &serde_json::Value) -> (r: Option<i64>)
    ensures
        r == match json_contents(*v) {
            Json::Int(i) => if i64::MIN <= i <= i64::MAX {
                Some(i as i64)
            } else {
                None
            },
            _ => None,
        },
;

/// `serde_json::Value::as_u64` gives an integer that fits, and nothing for other documents.
/// No integer of a document fits neither `i64` nor `u64`.
pub assume_specification[ serde_json::Value::as_u64 ](v: &serde_json::Value) -> (r: Option<u64>)
    ensures
        r == match json_contents(*v) {
            Json::Int(i) => if 0 <= i <= u64::MAX {
                Some(i as u64)
            } else {
                None
            },
            _ => None,
        },
        json_contents(*v) matches Json::Int(i) ==> (r is None ==> i64::MIN <= i < 0),
;

/// `serde_json::Value::as_str` gives a text, and nothing for other documents.
pub assume_specification<'a>[ serde_json::Value::as_str ](v: &'a serde_json::Value) -> (r: Option<
    &'a str,
>)
    ensures
        match r {
            Some(s) => json_contents(*v) == Json::Text(s@),
            None => !(json_contents(*v) is Text),
        },
;

/// `serde_json::Value::as_array` gives the items of an array, and nothing for other
/// documents.
pub assume_specification<'a>[ serde_json::Value::as_array ](v: &'a serde_json::Value) -> (r: Option<
    &'a Vec<serde_json::Value>,
>)
    ensures
        match r {
            Some(items) => json_contents(*v) == Json::Array(
                Seq::new(items@.len(), |i: int| json_contents(items@[i])),
            ),
            None => !(json_contents(*v) is Array),
        },
;

/// `serde_json::Value::as_object` gives the fields of an object, and nothing for other
/// documents. Its map keeps them in ascending order of their names, each name once.
#[verifier::external_body]
fn object_fields<'a>(v: &'a serde_json::Value) -> (r: Option<Vec<(String, &'a serde_json::Value)>>)
    ensures
        match r {
            Some(fields) => {
                &&& json_contents(*v) == Json::Object(
                    Seq::new(fields@.len(), |i: int| (fields@[i].0@, json_contents(*fields@[i].1))),
                )
                &&& ascending::<String>(Seq::new(fields@.len(), |i: int| fields@[i].0@))
            },
            None => !(json_contents(*v) is Object),
        },
{
    v.as_object().map(|map| map.iter().map(|(k, v)| (k.clone(), v)).collect())
}

/// The `Display` of `serde_json::Value` writes a number that is not an integer as JSON does.
#[verifier::external_body]
fn number_text(v: &serde_json::Value) -> (r: String)
    ensures
        json_contents(*v) matches Json::Real(t) ==> r@ == t,
{
    v.to_string()
}

/// `serde_json::from_slice` reads a document. What [`render`] makes of a document is read as
/// that document, up to the order of the fields of objects, provided that it is not nested
/// too deeply for the reader, its integers fit 64 bits, no name stands twice in an object
/// and no number in it is anything but an integer.
#[verifier::external_body]
fn parse_outside(bytes: &[u8]) -> (r: Result<serde_json::Value, JsonFault>)
    ensures
        match r {
            Ok(v) => json_parsed(bytes@) == Ok::<_, JsonFaultView>(json_contents(v)),
            Err(e) => json_parsed(bytes@) == Err::<Json, _>(e@),
        },
        forall|j: Json|
            #![trigger json_bytes(j)]
            bytes@ == json_bytes(j) && storable(j, 127) ==> match r {
                Ok(v) => same_json(json_contents(v), j),
                Err(_) => false,
            },
{
    serde_json::from_slice::<serde_json::Value>(bytes).map_err(
        |e| JsonFault { line: e.line(), column: e.column(), message: e.to_string() },
    )
}

/// `serde_json::to_string` writes a text as a JSON string. It does not fail on texts.
#[verifier::external_body]
pub(crate) fn quote_json(text: &str) -> (r: String)
    ensures
        r@ == json_quoted(text@),
{
    serde_json::to_string(text).unwrap_or_default()
}

// ---------------------------------------------------------------------------
// Documents

/// Copies a parsed document.
fn from_outside(v: &serde_json::Value) -> (r: JsonValue)
    ensures
        r@ == json_contents(*v),
        stored_in_order(r@),
    decreases json_contents(*v),
{
    if v.is_null() {
        return JsonValue::Null;
    }
    if let Some(b) = v.as_bool() {
        return JsonValue::Bool(b);
    }
    if let Some(i) = v.as_i64() {
        return JsonValue::Int(i as i128);
    }
    if let Some(u) = v.as_u64() {
        return JsonValue::Int(u as i128);
    }
    if let Some(s) = v.as_str() {
        return JsonValue::Text(s.to_owned());
    }
    if let Some(items) = v.as_array() {
        let mut list: Vec<JsonValue> = Vec::new();
        let mut i: usize = 0;
        while i < items.len()
            invariant
                i <= items@.len(),
                list@.len() == i,
                json_contents(*v) == Json::Array(
                    Seq::new(items@.len(), |j: int| json_contents(items@[j])),
                ),
                forall|j: int| 0 <= j < i ==> (#[trigger] list@[j])@ == json_contents(items@[j]),
                forall|j: int| 0 <= j < i ==> stored_in_order((#[trigger] list@[j])@),
            decreases items@.len() - i,
        {
            proof {
                let contents = json_contents(*v)->Array_0;
                assert(contents[i as int] == json_contents(items@[i as int]));
                assert(decreases_to!(json_contents(*v) => contents[i as int]));
            }
            list.push(from_outside(&items[i]));
            i = i + 1;
        }
        let r = JsonValue::Array(list);
        proof {
            assert(r@->Array_0 =~= json_contents(*v)->Array_0);
            assert forall|j: int| 0 <= j < list@.len() implies stored_in_order(
                #[trigger] (r@->Array_0)[j],
            ) by {
                assert((r@->Array_0)[j] == list@[j]@);
            }
        }
        return r;
    }
    if let Some(fields) = object_fields(v) {
        let mut list: Vec<(String, JsonValue)> = Vec::new();
        let mut i: usize = 0;
        while i < fields.len()
            invariant
                i <= fields@.len(),
                list@.len() == i,
                json_contents(*v) == Json::Object(
                    Seq::new(fields@.len(), |j: int| (fields@[j].0@, json_contents(*fields@[j].1))),
                ),
                forall|j: int|
                    0 <= j < i ==> (#[trigger] list@[j]).0@ == fields@[j].0@ && list@[j].1@
                        == json_contents(*fields@[j].1),
                forall|j: int| 0 <= j < i ==> stored_in_order((#[trigger] list@[j]).1@),
            decreases fields@.len() - i,
        {
            proof {
                let contents = json_contents(*v)->Object_0;
                assert(contents[i as int].1 == json_contents(*fields@[i as int].1));
                assert(decreases_to!(json_contents(*v) => contents[i as int].1));
            }
            let value = from_outside(fields[i].1);
            list.push((fields[i].0.clone(), value));
            i = i + 1;
        }
        let r = JsonValue::Object(list);
        proof {
            assert(r@->Object_0 =~= json_contents(*v)->Object_0);
            assert(names(r@->Object_0) =~= Seq::new(fields@.len(), |j: int| fields@[j].0@));
            assert forall|j: int| 0 <= j < list@.len() implies stored_in_order(
                (#[trigger] (r@->Object_0)[j]).1,
            ) by {
                assert((r@->Object_0)[j].1 == list@[j].1@);
            }
        }
        return r;
    }
    JsonValue::Real(number_text(v))
}

/// Reads a document.
pub fn parse_json(bytes: &[u8]) -> (r: Result<JsonValue, JsonFault>)
    ensures
        match r {
            Ok(v) => json_parsed(bytes@) == Ok::<_, JsonFaultView>(v@) && stored_in_order(v@),
            Err(e) => json_parsed(bytes@) == Err::<Json, _>(e@),
        },
        forall|j: Json|
            #![trigger json_bytes(j)]
            bytes@ == json_bytes(j) && storable(j, 127) ==> match r {
                Ok(v) => same_json(v@, j),
                Err(_) => false,
            },
{
    match parse_outside(bytes) {
        Ok(v) => Ok(from_outside(&v)),
        Err(e) => Err(e),
    }
}

/// The names of the fields of an object.
pub open spec fn names(fields: Seq<(Seq<char>, Json)>) -> Seq<Seq<char>> {
    fields.map_values(|f: (Seq<char>, Json)| f.0)
}

/// Whether the fields of every object in a document stand in ascending order.
pub open spec fn stored_in_order(j: Json) -> bool
    decreases j,
{
    match j {
        Json::Array(items) => forall|i: int|
            0 <= i < items.len() ==> stored_in_order(#[trigger] items[i]),
        Json::Object(fields) => ascending::<String>(names(fields)) && forall|i: int|
            0 <= i < fields.len() ==> stored_in_order((#[trigger] fields[i]).1),
        _ => true,
    }
}

/// Whether a document can be written and read back: its integers fit 64 bits, no name stands
/// twice in an object, no number is anything but an integer, and it is nested at most
/// `depth` deep.
pub open spec fn storable(j: Json, depth: int) -> bool
    decreases j,
{
    match j {
        Json::Int(i) => i64::MIN <= i <= u64::MAX,
        Json::Real(_) => false,
        Json::Array(items) => depth > 0 && forall|i: int|
            0 <= i < items.len() ==> storable(#[trigger] items[i], depth - 1),
        Json::Object(fields) => depth > 0 && names(fields).no_duplicates() && forall|i: int|
            0 <= i < fields.len() ==> storable((#[trigger] fields[i]).1, depth - 1),
        _ => true,
    }
}

/// Whether two documents are the same up to the order of the fields of objects.
pub open spec fn same_json(a: Json, b: Json) -> bool
    decreases a,
{
    match (a, b) {
        (Json::Array(x), Json::Array(y)) => x.len() == y.len() && forall|i: int|
            0 <= i < x.len() ==> same_json(#[trigger] x[i], y[i]),
        (Json::Object(x), Json::Object(y)) => {
            &&& x.len() == y.len()
            &&& forall|i: int|
                0 <= i < x.len() ==> exists|k: int|
                    0 <= k < y.len() && (#[trigger] y[k]).0 == (#[trigger] x[i]).0 && same_json(
                        x[i].1,
                        y[k].1,
                    )
            &&& forall|k: int|
                0 <= k < y.len() ==> exists|i: int|
                    0 <= i < x.len() && (#[trigger] x[i]).0 == (#[trigger] y[k]).0
        },
        _ => a == b,
    }
}

/// The text of some documents, separated by commas.
pub open spec fn render_items(items: Seq<Json>) -> Seq<char>
    decreases items,
{
    if items.len() == 0 {
        Seq::empty()
    } else if items.len() == 1 {
        render(items[0])
    } else {
        render_items(items.drop_last()) + seq![','] + render(items.last())
    }
}

/// The text of some fields, separated by commas.
pub open spec fn render_fields(fields: Seq<(Seq<char>, Json)>) -> Seq<char>
    decreases fields,
{
    if fields.len() == 0 {
        Seq::empty()
    } else if fields.len() == 1 {
        json_quoted(fields[0].0) + seq![':'] + render(fields[0].1)
    } else {
        render_fields(fields.drop_last()) + seq![','] + json_quoted(fields.last().0) + seq![':']
            + render(fields.last().1)
    }
}

/// The text of a document, without blanks.
pub open spec fn render(j: Json) -> Seq<char>
    decreases j,
{
    match j {
        Json::Null => seq!['n', 'u', 'l', 'l'],
        Json::Bool(b) => if b {
            seq!['t', 'r', 'u', 'e']
        } else {
            seq!['f', 'a', 'l', 's', 'e']
        },
        Json::Int(i) => int_text(i),
        Json::Real(t) => t,
        Json::Text(t) => json_quoted(t),
        Json::Array(items) => seq!['['] + render_items(items) + seq![']'],
        Json::Object(fields) => seq!['{'] + render_fields(fields) + seq!['}'],
    }
}

/// The bytes of a document.
pub open spec fn json_bytes(j: Json) -> Seq<u8> {
    vstd::utf8::encode_utf8(render(j))
}

proof fn lemma_render_items_next(items: Seq<Json>, n: int)
    requires
        0 <= n < items.len(),
    ensures
        render_items(items.take(n + 1)) == if n == 0 {
            render(items[0])
        } else {
            render_items(items.take(n)) + seq![','] + render(items[n])
        },
{
    assert(items.take(n + 1).drop_last() =~= items.take(n));
    assert(items.take(n + 1).last() == items[n]);
}

proof fn lemma_render_fields_next(fields: Seq<(Seq<char>, Json)>, n: int)
    requires
        0 <= n < fields.len(),
    ensures
        render_fields(fields.take(n + 1)) == if n == 0 {
            json_quoted(fields[0].0) + seq![':'] + render(fields[0].1)
        } else {
            render_fields(fields.take(n)) + seq![','] + json_quoted(fields[n].0) + seq![':']
                + render(fields[n].1)
        },
{
    assert(fields.take(n + 1).drop_last() =~= fields.take(n));
    assert(fields.take(n + 1).last() == fields[n]);
}

/// Writes the text of a document behind a text.
pub fn push_json(out: &mut String, v: &JsonValue)
    ensures
        final(out)@ == old(out)@ + render(v@),
    decreases v,
{
    let ghost before = out@;
    match v {
        JsonValue::Null => {
            out.append("null");
            proof {
                reveal_strlit("null");
                assert("null"@ =~= render(v@));
            }
        },
        JsonValue::Bool(b) => {
            if *b {
                out.append("true");
                proof {
                    reveal_strlit("true");
                    assert("true"@ =~= render(v@));
                }
            } else {
                out.append("false");
                proof {
                    reveal_strlit("false");
                    assert("false"@ =~= render(v@));
                }
            }
        },
        JsonValue::Int(i) => {
            out.append(i128_text(*i).as_str());
        },
        JsonValue::Real(t) => {
            out.append(t.as_str());
        },
        JsonValue::Text(t) => {
            out.append(quote_json(t.as_str()).as_str());
        },
        JsonValue::Array(items) => {
            out.push('[');
            let mut i: usize = 0;
            assert(v@->Array_0.take(0) =~= Seq::<Json>::empty());
            assert(out@ =~= before + seq!['['] + render_items(v@->Array_0.take(0)));
            while i < items.len()
                invariant
                    *v == JsonValue::Array(*items),
                    v@ is Array,
                    v@->Array_0.len() == items@.len(),
                    i <= items@.len(),
                    out@ == before + seq!['['] + render_items(v@->Array_0.take(i as int)),
                decreases items@.len() - i,
            {
                proof {
                    lemma_render_items_next(v@->Array_0, i as int);
                    assert(v@->Array_0[i as int] == items@[i as int]@);
                    assert(decreases_to!(*v => v->Array_0@[i as int]));
                }
                if i > 0 {
                    out.push(',');
                }
                push_json(out, &items[i]);
                assert(out@ =~= before + seq!['['] + render_items(v@->Array_0.take(i + 1)));
                i = i + 1;
            }
            assert(v@->Array_0.take(items@.len() as int) =~= v@->Array_0);
            out.push(']');
            assert(out@ =~= before + render(v@));
        },
        JsonValue::Object(fields) => {
            out.push('{');
            let mut i: usize = 0;
            assert(v@->Object_0.take(0) =~= Seq::<(Seq<char>, Json)>::empty());
            assert(out@ =~= before + seq!['{'] + render_fields(v@->Object_0.take(0)));
            while i < fields.len()
                invariant
                    *v == JsonValue::Object(*fields),
                    v@ is Object,
                    v@->Object_0.len() == fields@.len(),
                    i <= fields@.len(),
                    out@ == before + seq!['{'] + render_fields(v@->Object_0.take(i as int)),
                decreases fields@.len() - i,
            {
                proof {
                    lemma_render_fields_next(v@->Object_0, i as int);
                    assert(v@->Object_0[i as int] == (fields@[i as int].0@, fields@[i as int].1@));
                    assert(decreases_to!(*v => v->Object_0@[i as int].1));
                }
                if i > 0 {
                    out.push(',');
                }
                out.append(quote_json(fields[i].0.as_str()).as_str());
                out.push(':');
                push_json(out, &fields[i].1);
                assert(out@ =~= before + seq!['{'] + render_fields(v@->Object_0.take(i + 1)));
                i = i + 1;
            }
            assert(v@->Object_0.take(fields@.len() as int) =~= v@->Object_0);
            out.push('}');
            assert(out@ =~= before + render(v@));
        },
    }
}

/// The text of a document.
pub fn json_text(v: &JsonValue) -> (r: String)
    ensures
        r@ == render(v@),
{
    let mut r = String::new();
    push_json(&mut r, v);
    assert(r@ =~= render(v@));
    r
}

/// The position of a name among fields from a position on.
pub open spec fn field_from(fields: Seq<(Seq<char>, Json)>, key: Seq<char>, i: int) -> Option<int>
    decreases fields.len() - i,
{
    if i < 0 || i >= fields.len() {
        None
    } else if fields[i].0 == key {
        Some(i)
    } else {
        field_from(fields, key, i + 1)
    }
}

/// What stands under a name among fields.
pub open spec fn field(fields: Seq<(Seq<char>, Json)>, key: Seq<char>) -> Option<Json> {
    match field_from(fields, key, 0) {
        Some(i) => Some(fields[i].1),
        None => None,
    }
}

/// Items as fields, in the order of names.
pub open spec fn named(names: Seq<Seq<char>>, items: Seq<Json>) -> Seq<(Seq<char>, Json)> {
    Seq::new(items.len(), |i: int| (names[i], items[i]))
}

/// The fields of a document that stands for a record: those of an object, or as many items as
/// the record has fields, in their order.
pub open spec fn record_fields(j: Json, names: Seq<Seq<char>>) -> Option<Seq<(Seq<char>, Json)>> {
    match j {
        Json::Object(fields) => Some(fields),
        Json::Array(items) => if items.len() == names.len() {
            Some(named(names, items))
        } else {
            None
        },
        _ => None,
    }
}

/// Names items, in their order.
pub fn name_items(items: &Vec<JsonValue>, names: &Vec<String>) -> (r: Vec<(String, JsonValue)>)
    requires
        items@.len() == names@.len(),
    ensures
        fields_view(r@) == named(names.deep_view(), items_view(items@)),
{
    let mut r: Vec<(String, JsonValue)> = Vec::new();
    let mut i: usize = 0;
    while i < items.len()
        invariant
            i <= items@.len() == names@.len(),
            r@.len() == i,
            forall|k: int|
                0 <= k < i ==> (#[trigger] r@[k]).0@ == names@[k]@ && r@[k].1@ == items@[k]@,
        decreases items@.len() - i,
    {
        r.push((names[i].clone(), copy_json(&items[i])));
        i = i + 1;
    }
    assert(fields_view(r@) =~= named(names.deep_view(), items_view(items@)));
    r
}

proof fn lemma_field_from(fields: Seq<(Seq<char>, Json)>, key: Seq<char>, i: int)
    requires
        0 <= i,
    ensures
        match field_from(fields, key, i) {
            Some(k) => i <= k < fields.len() && fields[k].0 == key,
            None => forall|k: int| i <= k < fields.len() ==> (#[trigger] fields[k]).0 != key,
        },
    decreases fields.len() - i,
{
    if i < fields.len() && fields[i].0 != key {
        lemma_field_from(fields, key, i + 1);
    }
}

/// Objects that are the same up to the order of their fields have the same under each name.
pub proof fn lemma_same_field(
    x: Seq<(Seq<char>, Json)>,
    y: Seq<(Seq<char>, Json)>,
    key: Seq<char>,
)
    requires
        same_json(Json::Object(x), Json::Object(y)),
        names(y).no_duplicates(),
    ensures
        match field(y, key) {
            Some(b) => field(x, key) matches Some(a) && same_json(a, b),
            None => field(x, key) is None,
        },
{
    lemma_field_from(x, key, 0);
    lemma_field_from(y, key, 0);
    match field_from(x, key, 0) {
        Some(i) => {
            let k = choose|k: int|
                0 <= k < y.len() && (#[trigger] y[k]).0 == x[i].0 && same_json(x[i].1, y[k].1);
            assert(y[k].0 == key);
            let n = field_from(y, key, 0)->Some_0;
            assert(names(y)[k] == names(y)[n]);
        },
        None => {
            match field_from(y, key, 0) {
                Some(n) => {
                    let i = choose|i: int| 0 <= i < x.len() && (#[trigger] x[i]).0 == y[n].0;
                    assert(x[i].0 == key);
                },
                None => {},
            }
        },
    }
}

/// The model of fields.
pub open spec fn fields_view(fields: Seq<(String, JsonValue)>) -> Seq<(Seq<char>, Json)> {
    Seq::new(fields.len(), |i: int| (fields[i].0@, fields[i].1@))
}

/// The model of items.
pub open spec fn items_view(items: Seq<JsonValue>) -> Seq<Json> {
    Seq::new(items.len(), |i: int| items[i]@)
}

/// The model of a container is made of those of its parts.
pub proof fn lemma_container_views(v: JsonValue)
    ensures
        v matches JsonValue::Array(items) ==> v@ == Json::Array(items_view(items@)),
        v matches JsonValue::Object(fields) ==> v@ == Json::Object(fields_view(fields@)),
{
    match v {
        JsonValue::Array(items) => {
            assert(v@->Array_0 =~= items_view(items@));
        },
        JsonValue::Object(fields) => {
            assert(v@->Object_0 =~= fields_view(fields@));
        },
        _ => {},
    }
}

/// The position of the first field with a name.
pub fn search_field(fields: &Vec<(String, JsonValue)>, key: &str) -> (r: Option<usize>)
    ensures
        match r {
            Some(i) => field_from(fields_view(fields@), key@, 0) == Some(i as int) && i
                < fields@.len() && fields@[i as int].0@ == key@,
            None => field_from(fields_view(fields@), key@, 0) is None,
        },
{
    let mut i: usize = 0;
    while i < fields.len()
        invariant
            i <= fields@.len(),
            field_from(fields_view(fields@), key@, i as int) == field_from(
                fields_view(fields@),
                key@,
                0,
            ),
        decreases fields@.len() - i,
    {
        if same_text(fields[i].0.as_str(), key) {
            return Some(i);
        }
        i = i + 1;
    }
    None
}

/// The bytes of a document.
pub fn json_vec(v: &JsonValue) -> (r: Vec<u8>)
    ensures
        r@ == json_bytes(v@),
{
    let text = json_text(v);
    let bytes = text.as_str().as_bytes();
    let r = slice_vec(bytes, 0, bytes.len());
    assert(bytes@.subrange(0, bytes@.len() as int) =~= bytes@);
    r
}

/// Copies a document.
pub fn copy_json(v: &JsonValue) -> (r: JsonValue)
    ensures
        r@ == v@,
    decreases v,
{
    match v {
        JsonValue::Null => JsonValue::Null,
        JsonValue::Bool(b) => JsonValue::Bool(*b),
        JsonValue::Int(i) => JsonValue::Int(*i),
        JsonValue::Real(t) => JsonValue::Real(t.clone()),
        JsonValue::Text(t) => JsonValue::Text(t.clone()),
        JsonValue::Array(items) => {
            let mut list: Vec<JsonValue> = Vec::new();
            let mut i: usize = 0;
            while i < items.len()
                invariant
                    *v == JsonValue::Array(*items),
                    i <= items@.len(),
                    list@.len() == i,
                    forall|j: int| 0 <= j < i ==> (#[trigger] list@[j])@ == items@[j]@,
                decreases items@.len() - i,
            {
                assert(decreases_to!(*v => v->Array_0@[i as int]));
                list.push(copy_json(&items[i]));
                i = i + 1;
            }
            let r = JsonValue::Array(list);
            assert(r@->Array_0 =~= v@->Array_0);
            r
        },
        JsonValue::Object(fields) => {
            let mut list: Vec<(String, JsonValue)> = Vec::new();
            let mut i: usize = 0;
            while i < fields.len()
                invariant
                    *v == JsonValue::Object(*fields),
                    i <= fields@.len(),
                    list@.len() == i,
                    forall|j: int|
                        0 <= j < i ==> (#[trigger] list@[j]).0@ == fields@[j].0@ && list@[j].1@
                            == fields@[j].1@,
                decreases fields@.len() - i,
            {
                assert(decreases_to!(*v => v->Object_0@[i as int].1));
                let value = copy_json(&fields[i].1);
                list.push((fields[i].0.clone(), value));
                i = i + 1;
            }
            let r = JsonValue::Object(list);
            assert(r@->Object_0 =~= v@->Object_0);
            r
        },
    }
}

} // verus!
