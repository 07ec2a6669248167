//! Values of rows as JSON documents.

use vstd::prelude::*;

use crate::common::json::{
    fields_view, items_view, lemma_container_views, names, same_json, storable, Json, JsonValue,
};
use crate::common::text::same_text;
use crate::common::value::{DbValue, SqlValue};

verus! {

/// Bytes as numbers.
pub open spec fn bytes_json(bytes: Seq<u8>) -> Json {
    Json::Array(Seq::new(bytes.len(), |i: int| Json::Int(bytes[i] as int)))
}

/// An object with one field.
pub open spec fn tagged(name: Seq<char>, j: Json) -> Json {
    Json::Object(seq![(name, j)])
}

/// A value: its kind, and under it what it holds. A real number is written as the number that
/// its bits make.
pub open spec fn value_json(v: SqlValue) -> Json {
    match v {
        SqlValue::Null => Json::Text("Null"@),
        SqlValue::Boolean(b) => tagged("Boolean"@, Json::Bool(b)),
        SqlValue::Integer(i) => tagged("Integer"@, Json::Int(i as int)),
        SqlValue::Real(bits) => tagged("Real"@, Json::Int(bits as int)),
        SqlValue::Blob(bytes) => tagged("Blob"@, bytes_json(bytes)),
        SqlValue::Text(text) => tagged("Text"@, Json::Text(text)),
    }
}

/// The bytes that numbers make, from one on.
pub open spec fn bytes_from(items: Seq<Json>, i: int, out: Seq<u8>) -> Option<Seq<u8>>
    decreases items.len() - i,
{
    if i < 0 || i >= items.len() {
        Some(out)
    } else {
        match items[i] {
            Json::Int(n) => if 0 <= n <= 255 {
                bytes_from(items, i + 1, out.push(n as u8))
            } else {
                None
            },
            _ => None,
        }
    }
}

/// The bytes that a document holds.
pub open spec fn json_byte_list(j: Json) -> Option<Seq<u8>> {
    match j {
        Json::Array(items) => bytes_from(items, 0, Seq::empty()),
        _ => None,
    }
}

/// The value of a kind with what it holds.
pub open spec fn tagged_value(name: Seq<char>, j: Json) -> Option<SqlValue> {
    if name == "Null"@ {
        match j {
            Json::Null => Some(SqlValue::Null),
            _ => None,
        }
    } else if name == "Boolean"@ {
        match j {
            Json::Bool(b) => Some(SqlValue::Boolean(b)),
            _ => None,
        }
    } else if name == "Integer"@ {
        match j {
            Json::Int(i) => if i64::MIN <= i <= i64::MAX {
                Some(SqlValue::Integer(i as i64))
            } else {
                None
            },
            _ => None,
        }
    } else if name == "Real"@ {
        match j {
            Json::Int(i) => if 0 <= i <= u64::MAX {
                Some(SqlValue::Real(i as u64))
            } else {
                None
            },
            _ => None,
        }
    } else if name == "Blob"@ {
        match json_byte_list(j) {
            Some(bytes) => Some(SqlValue::Blob(bytes)),
            None => None,
        }
    } else if name == "Text"@ {
        match j {
            Json::Text(t) => Some(SqlValue::Text(t)),
            _ => None,
        }
    } else {
        None
    }
}

/// The value that a document stands for.
pub open spec fn json_value(j: Json) -> Option<SqlValue> {
    match j {
        Json::Text(t) => if t == "Null"@ {
            Some(SqlValue::Null)
        } else {
            None
        },
        Json::Object(fields) => if fields.len() == 1 {
            tagged_value(fields[0].0, fields[0].1)
        } else {
            None
        },
        _ => None,
    }
}

/// Makes an object with one field.
pub fn tag(name: &str, j: JsonValue) -> (r: JsonValue)
    ensures
        r@ == tagged(name@, j@),
{
    let mut fields: Vec<(String, JsonValue)> = Vec::new();
    fields.push((name.to_owned(), j));
    assert(fields_view(fields@) =~= seq![(name@, j@)]);
    let r = JsonValue::Object(fields);
    proof {
        lemma_container_views(r);
    }
    r
}

/// Writes bytes as numbers.
pub fn bytes_to_json(bytes: &[u8]) -> (r: JsonValue)
    ensures
        r@ == bytes_json(bytes@),
{
    let mut items: Vec<JsonValue> = Vec::new();
    let mut i: usize = 0;
    while i < bytes.len()
        invariant
            i <= bytes@.len(),
            items@.len() == i,
            forall|k: int| 0 <= k < i ==> (#[trigger] items@[k])@ == Json::Int(bytes@[k] as int),
        decreases bytes@.len() - i,
    {
        items.push(JsonValue::Int(bytes[i] as i128));
        i = i + 1;
    }
    let r = JsonValue::Array(items);
    proof {
        lemma_container_views(r);
        assert(items_view(items@) =~= bytes_json(bytes@)->Array_0);
    }
    r
}

/// The bytes that a document holds.
pub fn json_to_bytes(j: &JsonValue) -> (r: Option<Vec<u8>>)
    ensures
        match r {
            Some(bytes) => json_byte_list(j@) == Some(bytes@),
            None => json_byte_list(j@) is None,
        },
{
    match j {
        JsonValue::Array(items) => {
            proof {
                lemma_container_views(*j);
            }
            let mut out: Vec<u8> = Vec::new();
            let mut i: usize = 0;
            while i < items.len()
                invariant
                    i <= items@.len(),
                    j@ == Json::Array(items_view(items@)),
                    bytes_from(items_view(items@), i as int, out@) == json_byte_list(j@),
                decreases items@.len() - i,
            {
                assert(items_view(items@)[i as int] == items@[i as int]@);
                match &items[i] {
                    JsonValue::Int(n) => {
                        if *n < 0 || *n > 255 {
                            return None;
                        }
                        out.push(*n as u8);
                    },
                    _ => {
                        return None;
                    },
                }
                i = i + 1;
            }
            Some(out)
        },
        _ => None,
    }
}

/// Writes a value.
pub fn value_to_json(v: &DbValue) -> (r: JsonValue)
    ensures
        r@ == value_json(v@),
{
    match v {
        DbValue::Null => JsonValue::Text("Null".to_owned()),
        DbValue::Boolean(b) => tag("Boolean", JsonValue::Bool(*b)),
        DbValue::Integer(i) => tag("Integer", JsonValue::Int(*i as i128)),
        DbValue::Real(bits) => tag("Real", JsonValue::Int(*bits as i128)),
        DbValue::Blob(bytes) => tag("Blob", bytes_to_json(bytes.as_slice())),
        DbValue::Text(text) => tag("Text", JsonValue::Text(text.clone())),
    }
}

/// The model of an optional value.
pub open spec fn opt_value(v: Option<DbValue>) -> Option<SqlValue> {
    match v {
        Some(x) => Some(x@),
        None => None,
    }
}

fn tagged_to_value(name: &str, j: &JsonValue) -> (r: Option<DbValue>)
    ensures
        opt_value(r) == tagged_value(name@, j@),
{
    if same_text(name, "Null") {
        match j {
            JsonValue::Null => Some(DbValue::Null),
            _ => None,
        }
    } else if same_text(name, "Boolean") {
        match j {
            JsonValue::Bool(b) => Some(DbValue::Boolean(*b)),
            _ => None,
        }
    } else if same_text(name, "Integer") {
        match j {
            JsonValue::Int(i) => if i64::MIN as i128 <= *i && *i <= i64::MAX as i128 {
                Some(DbValue::Integer(*i as i64))
            } else {
                None
            },
            _ => None,
        }
    } else if same_text(name, "Real") {
        match j {
            JsonValue::Int(i) => if 0 <= *i && *i <= u64::MAX as i128 {
                Some(DbValue::Real(*i as u64))
            } else {
                None
            },
            _ => None,
        }
    } else if same_text(name, "Blob") {
        match json_to_bytes(j) {
            Some(bytes) => Some(DbValue::Blob(bytes)),
            None => None,
        }
    } else if same_text(name, "Text") {
        match j {
            JsonValue::Text(t) => Some(DbValue::Text(t.clone())),
            _ => None,
        }
    } else {
        None
    }
}

/// The value that a document stands for.
pub fn json_to_value(j: &JsonValue) -> (r: Option<DbValue>)
    ensures
        opt_value(r) == json_value(j@),
{
    proof {
        lemma_container_views(*j);
    }
    match j {
        JsonValue::Text(t) => {
            if same_text(t.as_str(), "Null") {
                Some(DbValue::Null)
            } else {
                None
            }
        },
        JsonValue::Object(fields) => {
            if fields.len() == 1 {
                assert(fields_view(fields@)[0] == (fields@[0].0@, fields@[0].1@));
                tagged_to_value(fields[0].0.as_str(), &fields[0].1)
            } else {
                None
            }
        },
        _ => None,
    }
}

/// Values, each written.
pub open spec fn row_json(row: Seq<SqlValue>) -> Json {
    Json::Array(Seq::new(row.len(), |i: int| value_json(row[i])))
}

/// The values that documents stand for, from one on.
pub open spec fn row_from(items: Seq<Json>, i: int, out: Seq<SqlValue>) -> Option<Seq<SqlValue>>
    decreases items.len() - i,
{
    if i < 0 || i >= items.len() {
        Some(out)
    } else {
        match json_value(items[i]) {
            Some(v) => row_from(items, i + 1, out.push(v)),
            None => None,
        }
    }
}

/// The values that a document holds.
pub open spec fn json_row(j: Json) -> Option<Seq<SqlValue>> {
    match j {
        Json::Array(items) => row_from(items, 0, Seq::empty()),
        _ => None,
    }
}

/// Writes values.
pub fn row_to_json(row: &[DbValue]) -> (r: JsonValue)
    ensures
        r@ == row_json(row.deep_view()),
{
    let mut items: Vec<JsonValue> = Vec::new();
    let mut i: usize = 0;
    while i < row.len()
        invariant
            i <= row@.len(),
            items@.len() == i,
            forall|k: int| 0 <= k < i ==> (#[trigger] items@[k])@ == value_json(row@[k]@),
        decreases row@.len() - i,
    {
        items.push(value_to_json(&row[i]));
        i = i + 1;
    }
    let r = JsonValue::Array(items);
    proof {
        lemma_container_views(r);
        assert(items_view(items@) =~= row_json(row.deep_view())->Array_0);
    }
    r
}

/// The model of optional values.
pub open spec fn opt_row(v: Option<Vec<DbValue>>) -> Option<Seq<SqlValue>> {
    match v {
        Some(x) => Some(x.deep_view()),
        None => None,
    }
}

/// The values that a document holds.
pub fn json_to_row(j: &JsonValue) -> (r: Option<Vec<DbValue>>)
    ensures
        opt_row(r) == json_row(j@),
{
    match j {
        JsonValue::Array(items) => {
            proof {
                lemma_container_views(*j);
            }
            let mut out: Vec<DbValue> = Vec::new();
            assert(out.deep_view() =~= Seq::<SqlValue>::empty());
            let mut i: usize = 0;
            while i < items.len()
                invariant
                    i <= items@.len(),
                    j@ == Json::Array(items_view(items@)),
                    row_from(items_view(items@), i as int, out.deep_view()) == json_row(j@),
                decreases items@.len() - i,
            {
                assert(items_view(items@)[i as int] == items@[i as int]@);
                match json_to_value(&items[i]) {
                    Some(v) => {
                        let ghost before = out.deep_view();
                        out.push(v);
                        assert(out.deep_view() =~= before.push(v@));
                    },
                    None => {
                        return None;
                    },
                }
                i = i + 1;
            }
            Some(out)
        },
        _ => None,
    }
}

// ---------------------------------------------------------------------------
// Reading back what was written

proof fn lemma_names_differ()
    ensures
        "Null"@ != "Boolean"@,
        "Null"@ != "Integer"@,
        "Null"@ != "Real"@,
        "Null"@ != "Blob"@,
        "Null"@ != "Text"@,
        "Boolean"@ != "Integer"@,
        "Boolean"@ != "Real"@,
        "Boolean"@ != "Blob"@,
        "Boolean"@ != "Text"@,
        "Integer"@ != "Real"@,
        "Integer"@ != "Blob"@,
        "Integer"@ != "Text"@,
        "Real"@ != "Blob"@,
        "Real"@ != "Text"@,
        "Blob"@ != "Text"@,
{
    reveal_strlit("Null");
    reveal_strlit("Boolean");
    reveal_strlit("Integer");
    reveal_strlit("Real");
    reveal_strlit("Blob");
    reveal_strlit("Text");
    assert("Null"@[0] == 'N' && "Boolean"@[0] == 'B' && "Integer"@[0] == 'I' && "Real"@[0] == 'R');
    assert("Blob"@[0] == 'B' && "Text"@[0] == 'T');
    assert("Boolean"@.len() != "Blob"@.len());
}

proof fn lemma_bytes_read(items: Seq<Json>, bytes: Seq<u8>, i: int)
    requires
        0 <= i <= items.len() == bytes.len(),
        forall|k: int| 0 <= k < items.len() ==> #[trigger] items[k] == Json::Int(bytes[k] as int),
    ensures
        bytes_from(items, i, bytes.take(i)) == Some(bytes),
    decreases items.len() - i,
{
    if i < items.len() {
        assert(items[i] == Json::Int(bytes[i] as int));
        assert(bytes.take(i).push(bytes[i]) =~= bytes.take(i + 1));
        lemma_bytes_read(items, bytes, i + 1);
    } else {
        assert(bytes.take(i) =~= bytes);
    }
}

/// Bytes that were written as numbers are read back.
pub proof fn lemma_byte_list_read(j: Json, bytes: Seq<u8>)
    requires
        same_json(j, bytes_json(bytes)),
    ensures
        json_byte_list(j) == Some(bytes),
{
    let items = j->Array_0;
    assert forall|k: int| 0 <= k < items.len() implies #[trigger] items[k] == Json::Int(
        bytes[k] as int,
    ) by {
        assert(same_json(items[k], bytes_json(bytes)->Array_0[k]));
    }
    lemma_bytes_read(items, bytes, 0);
    assert(bytes.take(0) =~= Seq::empty());
}

/// A value that was written is read back.
pub proof fn lemma_value_read(j: Json, v: SqlValue)
    requires
        same_json(j, value_json(v)),
    ensures
        json_value(j) == Some(v),
{
    lemma_names_differ();
    match v {
        SqlValue::Null => {},
        _ => {
            let x = j->Object_0;
            let y = value_json(v)->Object_0;
            assert(x.len() == 1);
            assert(x[0].0 == y[0].0 && same_json(x[0].1, y[0].1)) by {
                let k = choose|k: int|
                    0 <= k < y.len() && (#[trigger] y[k]).0 == x[0].0 && same_json(x[0].1, y[k].1);
                assert(k == 0);
            }
            match v {
                SqlValue::Blob(bytes) => {
                    lemma_byte_list_read(x[0].1, bytes);
                },
                _ => {},
            }
        },
    }
}

/// A value that was written can be read.
pub proof fn lemma_value_storable(v: SqlValue, depth: int)
    requires
        depth >= 2,
    ensures
        storable(value_json(v), depth),
{
    match v {
        SqlValue::Null => {},
        SqlValue::Blob(bytes) => {
            let fields = value_json(v)->Object_0;
            let items = bytes_json(bytes)->Array_0;
            assert forall|i: int| 0 <= i < items.len() implies storable(
                #[trigger] items[i],
                depth - 2,
            ) by {}
            assert(storable(fields[0].1, depth - 1));
            assert(names(fields).no_duplicates());
        },
        _ => {
            let fields = value_json(v)->Object_0;
            assert(storable(fields[0].1, depth - 1));
            assert(names(fields).no_duplicates());
        },
    }
}

proof fn lemma_row_from(items: Seq<Json>, row: Seq<SqlValue>, i: int)
    requires
        0 <= i <= items.len() == row.len(),
        forall|k: int| 0 <= k < items.len() ==> same_json(#[trigger] items[k], value_json(row[k])),
    ensures
        row_from(items, i, row.take(i)) == Some(row),
    decreases items.len() - i,
{
    if i < items.len() {
        lemma_value_read(items[i], row[i]);
        assert(row.take(i).push(row[i]) =~= row.take(i + 1));
        lemma_row_from(items, row, i + 1);
    } else {
        assert(row.take(i) =~= row);
    }
}

/// Values that were written are read back.
pub proof fn lemma_row_read(j: Json, row: Seq<SqlValue>)
    requires
        same_json(j, row_json(row)),
    ensures
        json_row(j) == Some(row),
{
    let items = j->Array_0;
    assert forall|k: int| 0 <= k < items.len() implies same_json(
        #[trigger] items[k],
        value_json(row[k]),
    ) by {
        assert(same_json(items[k], row_json(row)->Array_0[k]));
    }
    lemma_row_from(items, row, 0);
    assert(row.take(0) =~= Seq::empty());
}

/// Values that were written can be read.
pub proof fn lemma_row_storable(row: Seq<SqlValue>, depth: int)
    requires
        depth >= 3,
    ensures
        storable(row_json(row), depth),
{
    let items = row_json(row)->Array_0;
    assert forall|i: int| 0 <= i < items.len() implies storable(#[trigger] items[i], depth - 1) by {
        lemma_value_storable(row[i], depth - 1);
    }
}

} // verus!
