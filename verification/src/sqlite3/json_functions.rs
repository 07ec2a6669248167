//! Functions of expressions on JSON.

use vstd::prelude::*;
use vstd::utf8::encode_utf8;

use crate::common::json::{
    copy_json, json_parsed, json_quoted, json_text, quote_json, render, Json, JsonValue,
};
use crate::common::text::{i64_text, int_text, same_text, u64_text};
use crate::common::value::{DbValue, SqlValue};
use crate::sqlite3::json_values::{
    document, fault_position, is_strict_json, json_error_position, json_merge_patch, json_of_value,
    json_path_lookup, json_pretty_render, json_remove_path, json_type_name, json_value_to_sql,
    json_write_path, lookup, merged, name_of_type, parse_sqlite_json_value, pretty, read_document,
    read_json, removed, sql_value_to_json, value_of_json, written, JsonWriteMode,
};
use crate::sqlite3::reals::{fail, stop_view, storage_stop, Eval, Facts, RealFacts, Stop, StopView};
use crate::sqlite3::values::{
    cast_to_integer, coerce_text_like_value, integer_cast, real_text, sqlite_real_to_text,
    value_text,
};

verus! {

/// The document that the text of a value holds; none of null.
pub open spec fn document_of(f: Facts, v: SqlValue) -> Result<Option<Json>, StopView> {
    if v is Null {
        Ok(None)
    } else {
        match value_text(f, v) {
            Err(s) => Err(s),
            Ok(t) => match document(t) {
                Err(s) => Err(s),
                Ok(j) => Ok(Some(j)),
            },
        }
    }
}

/// The model of a document that may be missing.
pub open spec fn maybe_document(r: Eval<Option<JsonValue>>) -> Result<Option<Json>, StopView> {
    match r {
        Ok(Some(j)) => Ok(Some(j@)),
        Ok(None) => Ok(None),
        Err(s) => Err(s@),
    }
}

fn read_value(facts: &RealFacts, v: &DbValue) -> (r: Eval<Option<JsonValue>>)
    ensures
        maybe_document(r) == document_of(facts@, v@),
{
    if let DbValue::Null = v {
        return Ok(None);
    }
    let t = coerce_text_like_value(facts, v)?;
    let j = read_document(t.as_str())?;
    Ok(Some(j))
}

/// The text of a value; none of null.
pub open spec fn text_of_value(f: Facts, v: SqlValue) -> Result<Option<Seq<char>>, StopView> {
    if v is Null {
        Ok(None)
    } else {
        match value_text(f, v) {
            Err(s) => Err(s),
            Ok(t) => Ok(Some(t)),
        }
    }
}

fn read_text(facts: &RealFacts, v: &DbValue) -> (r: Eval<Option<String>>)
    ensures
        crate::sqlite3::printf::optional_view(r) == text_of_value(facts@, v@),
{
    if let DbValue::Null = v {
        return Ok(None);
    }
    let t = coerce_text_like_value(facts, v)?;
    Ok(Some(t))
}

/// What `JSON` gives of a value: the document written without white space.
pub open spec fn normalized(f: Facts, v: SqlValue) -> Result<SqlValue, StopView> {
    match document_of(f, v) {
        Err(s) => Err(s),
        Ok(None) => Ok(SqlValue::Null),
        Ok(Some(j)) => Ok(SqlValue::Text(render(j))),
    }
}

pub fn json_normalize_value(facts: &RealFacts, v: &DbValue) -> (r: Eval<DbValue>)
    ensures
        stop_view(r) == normalized(facts@, v@),
{
    match read_value(facts, v)? {
        None => Ok(DbValue::Null),
        Some(j) => Ok(DbValue::Text(json_text(&j))),
    }
}

/// The flags of `JSON_VALID`.
pub open spec fn valid_flags(f: Facts, v: SqlValue) -> Result<i64, StopView> {
    match cast_to_integer(f, v) {
        Err(s) => Err(s),
        Ok(SqlValue::Integer(i)) => if 1 <= i <= 15 {
            Ok(i)
        } else {
            Err(storage_stop("FLAGS parameter to json_valid() must be between 1 and 15"@))
        },
        Ok(_) => Err(storage_stop("FLAGS parameter to json_valid() must be between 1 and 15"@)),
    }
}

pub fn json_valid_flags(facts: &RealFacts, v: &DbValue) -> (r: Eval<i64>)
    ensures
        crate::sqlite3::reals::plain_view(r) == valid_flags(facts@, v@),
        r matches Ok(i) ==> 1 <= i <= 15,
{
    match integer_cast(facts, v)? {
        DbValue::Integer(i) => {
            if 1 <= i && i <= 15 {
                return Ok(i);
            }
        },
        _ => {},
    }
    Err(fail("FLAGS parameter to json_valid() must be between 1 and 15"))
}

/// An integer that stands for a truth value.
pub open spec fn truth(b: bool) -> SqlValue {
    SqlValue::Integer(
        if b {
            1
        } else {
            0
        },
    )
}

/// What `JSON_VALID` gives: whether a text is JSON, or with the second flag JSON5.
pub open spec fn valid_value(f: Facts, args: Seq<SqlValue>) -> Result<SqlValue, StopView> {
    match text_of_value(f, args[0]) {
        Err(s) => Err(s),
        Ok(None) => Ok(SqlValue::Null),
        Ok(Some(t)) => if args.len() == 2 {
            match valid_flags(f, args[1]) {
                Err(s) => Err(s),
                Ok(flags) => Ok(
                    truth(
                        if flags / 2 % 2 == 1 {
                            read_json(t) is Ok
                        } else {
                            json_parsed(encode_utf8(t)) is Ok
                        },
                    ),
                ),
            }
        } else {
            Ok(truth(json_parsed(encode_utf8(t)) is Ok))
        },
    }
}

fn truth_value(b: bool) -> (r: DbValue)
    ensures
        r@ == truth(b),
{
    if b {
        DbValue::Integer(1)
    } else {
        DbValue::Integer(0)
    }
}

pub fn json_valid_values(facts: &RealFacts, args: &[DbValue]) -> (r: Eval<DbValue>)
    requires
        1 <= args@.len() <= 2,
    ensures
        stop_view(r) == valid_value(facts@, args.deep_view()),
{
    assert(args.deep_view()[0] == args@[0]@);
    let t = match read_text(facts, &args[0])? {
        None => {
            return Ok(DbValue::Null);
        },
        Some(t) => t,
    };
    if args.len() == 2 {
        assert(args.deep_view()[1] == args@[1]@);
        let flags: i64 = json_valid_flags(facts, &args[1])?;
        if flags / 2 % 2 == 1 {
            return Ok(truth_value(parse_sqlite_json_value(t.as_str()).is_ok()));
        }
    }
    Ok(truth_value(is_strict_json(t.as_str())))
}

/// What `JSON_ERROR_POSITION` gives: zero where there is no error.
pub open spec fn error_position(f: Facts, v: SqlValue) -> Result<SqlValue, StopView> {
    match text_of_value(f, v) {
        Err(s) => Err(s),
        Ok(None) => Ok(SqlValue::Null),
        Ok(Some(t)) => Ok(
            SqlValue::Integer(
                match read_json(t) {
                    Ok(_) => 0,
                    Err(e) => fault_position(t, e) as i64,
                },
            ),
        ),
    }
}

pub fn json_error_position_value(facts: &RealFacts, v: &DbValue) -> (r: Eval<DbValue>)
    ensures
        stop_view(r) == error_position(facts@, v@),
{
    let t = match read_text(facts, v)? {
        None => {
            return Ok(DbValue::Null);
        },
        Some(t) => t,
    };
    match parse_sqlite_json_value(t.as_str()) {
        Ok(_) => Ok(DbValue::Integer(0)),
        Err(e) => Ok(DbValue::Integer(json_error_position(t.as_str(), &e) as i64)),
    }
}

/// What `JSON_PRETTY` gives: the second value is the indentation.
pub open spec fn pretty_value(f: Facts, args: Seq<SqlValue>) -> Result<SqlValue, StopView> {
    match text_of_value(f, args[0]) {
        Err(s) => Err(s),
        Ok(None) => Ok(SqlValue::Null),
        Ok(Some(t)) => match (if args.len() == 2 {
            text_of_value(f, args[1])
        } else {
            Ok(None)
        }) {
            Err(s) => Err(s),
            Ok(indent) => match document(t) {
                Err(s) => Err(s),
                Ok(j) => Ok(
                    SqlValue::Text(
                        pretty(
                            j,
                            match indent {
                                Some(i) => i,
                                None => "    "@,
                            },
                            Seq::empty(),
                        ),
                    ),
                ),
            },
        },
    }
}

pub fn json_pretty_value(facts: &RealFacts, args: &[DbValue]) -> (r: Eval<DbValue>)
    requires
        1 <= args@.len() <= 2,
    ensures
        stop_view(r) == pretty_value(facts@, args.deep_view()),
{
    assert(args.deep_view()[0] == args@[0]@);
    let t = match read_text(facts, &args[0])? {
        None => {
            return Ok(DbValue::Null);
        },
        Some(t) => t,
    };
    let mut indent: Option<String> = None;
    if args.len() == 2 {
        assert(args.deep_view()[1] == args@[1]@);
        indent = read_text(facts, &args[1])?;
    }
    let j = read_document(t.as_str())?;
    match indent {
        Some(i) => Ok(DbValue::Text(json_pretty_render(&j, i.as_str()))),
        None => Ok(DbValue::Text(json_pretty_render(&j, "    "))),
    }
}

/// The fields that pairs of labels and values from a position on make.
pub open spec fn object_from(
    f: Facts,
    args: Seq<SqlValue>,
    i: int,
    out: Seq<(Seq<char>, Json)>,
) -> Result<SqlValue, StopView>
    decreases args.len() - i,
{
    if i < 0 || i + 1 >= args.len() {
        Ok(SqlValue::Text(render(Json::Object(out))))
    } else {
        match args[i] {
            SqlValue::Text(label) => match json_of_value(f, args[i + 1]) {
                Err(s) => Err(s),
                Ok(j) => object_from(f, args, i + 2, out.push((label, j))),
            },
            _ => Err(storage_stop("json_object() labels must be TEXT"@)),
        }
    }
}

pub fn json_object_value(facts: &RealFacts, args: &[DbValue]) -> (r: Eval<DbValue>)
    ensures
        stop_view(r) == object_from(facts@, args.deep_view(), 0, Seq::empty()),
{
    let ghost a = args.deep_view();
    let total: usize = args.len();
    let mut fields: Vec<(String, JsonValue)> = Vec::new();
    let ghost mut out: Seq<(Seq<char>, Json)> = Seq::empty();
    let mut i: usize = 0;
    while i < total && total - i >= 2
        invariant
            a == args.deep_view(),
            i <= args@.len() == total,
            out.len() == fields@.len(),
            forall|k: int|
                0 <= k < out.len() ==> #[trigger] out[k] == (fields@[k].0@, fields@[k].1@),
            object_from(facts@, a, i as int, out) == object_from(facts@, a, 0, Seq::empty()),
        decreases total - i,
    {
        assert(a[i as int] == args@[i as int]@);
        assert(a[i + 1] == args@[i + 1]@);
        match &args[i] {
            DbValue::Text(label) => {
                let j = sql_value_to_json(facts, &args[i + 1])?;
                proof {
                    out = out.push((label@, j@));
                }
                fields.push((label.clone(), j));
            },
            _ => {
                return Err(fail("json_object() labels must be TEXT"));
            },
        }
        i = i + 2;
    }
    let object = JsonValue::Object(fields);
    assert(object@->Object_0 =~= out);
    Ok(DbValue::Text(json_text(&object)))
}

/// The document that values from a position on make as an array.
pub open spec fn array_from(f: Facts, args: Seq<SqlValue>, i: int, out: Seq<Json>) -> Result<
    SqlValue,
    StopView,
>
    decreases args.len() - i,
{
    if i < 0 || i >= args.len() {
        Ok(SqlValue::Text(render(Json::Array(out))))
    } else {
        match json_of_value(f, args[i]) {
            Err(s) => Err(s),
            Ok(j) => array_from(f, args, i + 1, out.push(j)),
        }
    }
}

pub fn json_array_value(facts: &RealFacts, args: &[DbValue]) -> (r: Eval<DbValue>)
    ensures
        stop_view(r) == array_from(facts@, args.deep_view(), 0, Seq::empty()),
{
    let ghost a = args.deep_view();
    let mut items: Vec<JsonValue> = Vec::new();
    let ghost mut out: Seq<Json> = Seq::empty();
    let mut i: usize = 0;
    while i < args.len()
        invariant
            a == args.deep_view(),
            i <= args@.len(),
            out.len() == items@.len(),
            forall|k: int| 0 <= k < out.len() ==> #[trigger] out[k] == items@[k]@,
            array_from(facts@, a, i as int, out) == array_from(facts@, a, 0, Seq::empty()),
        decreases args@.len() - i,
    {
        assert(a[i as int] == args@[i as int]@);
        let j = sql_value_to_json(facts, &args[i])?;
        proof {
            out = out.push(j@);
        }
        items.push(j);
        i = i + 1;
    }
    let array = JsonValue::Array(items);
    assert(array@->Array_0 =~= out);
    Ok(DbValue::Text(json_text(&array)))
}

/// What a path leads to from a document; none where it leads nowhere or is null.
pub open spec fn followed(f: Facts, args: Seq<SqlValue>, j: Json) -> Result<Option<Json>, StopView> {
    if args.len() == 2 {
        match text_of_value(f, args[1]) {
            Err(s) => Err(s),
            Ok(None) => Ok(None),
            Ok(Some(path)) => lookup(j, path),
        }
    } else {
        Ok(Some(j))
    }
}

fn follow<'a>(facts: &RealFacts, args: &[DbValue], j: &'a JsonValue) -> (r: Eval<
    Option<&'a JsonValue>,
>)
    requires
        1 <= args@.len() <= 2,
    ensures
        crate::sqlite3::json_values::found_view(r) == followed(facts@, args.deep_view(), j@),
{
    if args.len() == 2 {
        assert(args.deep_view()[1] == args@[1]@);
        match read_text(facts, &args[1])? {
            None => Ok(None),
            Some(path) => json_path_lookup(j, path.as_str()),
        }
    } else {
        Ok(Some(j))
    }
}

/// What `JSON_ARRAY_LENGTH` gives: zero of what is no array.
pub open spec fn array_length(f: Facts, args: Seq<SqlValue>) -> Result<SqlValue, StopView> {
    match document_of(f, args[0]) {
        Err(s) => Err(s),
        Ok(None) => Ok(SqlValue::Null),
        Ok(Some(j)) => match followed(f, args, j) {
            Err(s) => Err(s),
            Ok(None) => Ok(SqlValue::Null),
            Ok(Some(Json::Array(items))) => Ok(SqlValue::Integer(items.len() as i64)),
            Ok(Some(_)) => Ok(SqlValue::Integer(0)),
        },
    }
}

pub fn json_array_length_value(facts: &RealFacts, args: &[DbValue]) -> (r: Eval<DbValue>)
    requires
        1 <= args@.len() <= 2,
    ensures
        stop_view(r) == array_length(facts@, args.deep_view()),
{
    assert(args.deep_view()[0] == args@[0]@);
    let j = match read_value(facts, &args[0])? {
        None => {
            return Ok(DbValue::Null);
        },
        Some(j) => j,
    };
    match follow(facts, args, &j)? {
        None => Ok(DbValue::Null),
        Some(JsonValue::Array(items)) => Ok(DbValue::Integer(items.len() as i64)),
        Some(_) => Ok(DbValue::Integer(0)),
    }
}

/// What `JSON_TYPE` gives.
pub open spec fn type_value(f: Facts, args: Seq<SqlValue>) -> Result<SqlValue, StopView> {
    match document_of(f, args[0]) {
        Err(s) => Err(s),
        Ok(None) => Ok(SqlValue::Null),
        Ok(Some(j)) => match followed(f, args, j) {
            Err(s) => Err(s),
            Ok(None) => Ok(SqlValue::Null),
            Ok(Some(found)) => Ok(SqlValue::Text(name_of_type(found))),
        },
    }
}

pub fn json_type_value(facts: &RealFacts, args: &[DbValue]) -> (r: Eval<DbValue>)
    requires
        1 <= args@.len() <= 2,
    ensures
        stop_view(r) == type_value(facts@, args.deep_view()),
{
    assert(args.deep_view()[0] == args@[0]@);
    let j = match read_value(facts, &args[0])? {
        None => {
            return Ok(DbValue::Null);
        },
        Some(j) => j,
    };
    match follow(facts, args, &j)? {
        None => Ok(DbValue::Null),
        Some(found) => Ok(DbValue::Text(json_type_name(found).to_owned())),
    }
}

/// The failure that a path cannot be followed.
pub open spec fn bad_path(path: Seq<char>) -> StopView {
    storage_stop("bad JSON path: '"@ + path + "'"@)
}

fn fail_path(path: &str) -> (r: Stop)
    ensures
        r@ == bad_path(path@),
{
    let mut message = "bad JSON path: '".to_owned();
    message.append(path);
    message.append("'");
    fail(message.as_str())
}

/// A document without what the paths from a position on lead to.
pub open spec fn removed_from(f: Facts, args: Seq<SqlValue>, i: int, j: Json) -> Result<
    SqlValue,
    StopView,
>
    decreases args.len() - i,
{
    if i < 0 || i >= args.len() {
        Ok(SqlValue::Text(render(j)))
    } else {
        match text_of_value(f, args[i]) {
            Err(s) => Err(s),
            Ok(None) => Ok(SqlValue::Null),
            Ok(Some(path)) => if path == "$"@ {
                Ok(SqlValue::Null)
            } else {
                match removed(j, path) {
                    Err(_) => Err(bad_path(path)),
                    Ok(rest) => removed_from(f, args, i + 1, rest),
                }
            },
        }
    }
}

/// What `JSON_REMOVE` gives.
pub open spec fn removed_value(f: Facts, args: Seq<SqlValue>) -> Result<SqlValue, StopView> {
    match document_of(f, args[0]) {
        Err(s) => Err(s),
        Ok(None) => Ok(SqlValue::Null),
        Ok(Some(j)) => removed_from(f, args, 1, j),
    }
}

pub fn json_remove_value(facts: &RealFacts, args: &[DbValue]) -> (r: Eval<DbValue>)
    requires
        args@.len() >= 1,
    ensures
        stop_view(r) == removed_value(facts@, args.deep_view()),
{
    let ghost a = args.deep_view();
    assert(a[0] == args@[0]@);
    let mut j = match read_value(facts, &args[0])? {
        None => {
            return Ok(DbValue::Null);
        },
        Some(j) => j,
    };
    let mut i: usize = 1;
    while i < args.len()
        invariant
            a == args.deep_view(),
            1 <= i <= args@.len(),
            removed_from(facts@, a, i as int, j@) == removed_value(facts@, a),
        decreases args@.len() - i,
    {
        assert(a[i as int] == args@[i as int]@);
        let path = match read_text(facts, &args[i])? {
            None => {
                return Ok(DbValue::Null);
            },
            Some(path) => path,
        };
        if same_text(path.as_str(), "$") {
            return Ok(DbValue::Null);
        }
        j = match json_remove_path(j, path.as_str()) {
            Err(_) => {
                return Err(fail_path(path.as_str()));
            },
            Ok(rest) => rest,
        };
        i = i + 1;
    }
    Ok(DbValue::Text(json_text(&j)))
}

/// A document after pairs of paths and values from a position on were written to it. A null
/// path is passed over.
pub open spec fn written_from(
    f: Facts,
    args: Seq<SqlValue>,
    i: int,
    j: Json,
    mode: JsonWriteMode,
) -> Result<SqlValue, StopView>
    decreases args.len() - i,
{
    if i < 0 || i + 1 >= args.len() {
        Ok(SqlValue::Text(render(j)))
    } else {
        match text_of_value(f, args[i]) {
            Err(s) => Err(s),
            Ok(None) => written_from(f, args, i + 2, j, mode),
            Ok(Some(path)) => match json_of_value(f, args[i + 1]) {
                Err(s) => Err(s),
                Ok(value) => if path == "$"@ {
                    written_from(
                        f,
                        args,
                        i + 2,
                        if mode is Insert {
                            j
                        } else {
                            value
                        },
                        mode,
                    )
                } else {
                    match written(j, path, value, mode) {
                        Err(_) => Err(bad_path(path)),
                        Ok(next) => written_from(f, args, i + 2, next, mode),
                    }
                },
            },
        }
    }
}

/// What `JSON_SET`, `JSON_INSERT` and `JSON_REPLACE` give.
pub open spec fn written_value(f: Facts, args: Seq<SqlValue>, mode: JsonWriteMode) -> Result<
    SqlValue,
    StopView,
> {
    match document_of(f, args[0]) {
        Err(s) => Err(s),
        Ok(None) => Ok(SqlValue::Null),
        Ok(Some(j)) => written_from(f, args, 1, j, mode),
    }
}

pub fn json_write_value(facts: &RealFacts, args: &[DbValue], mode: JsonWriteMode) -> (r: Eval<
    DbValue,
>)
    requires
        args@.len() >= 1,
    ensures
        stop_view(r) == written_value(facts@, args.deep_view(), mode),
{
    let ghost a = args.deep_view();
    assert(a[0] == args@[0]@);
    let mut j = match read_value(facts, &args[0])? {
        None => {
            return Ok(DbValue::Null);
        },
        Some(j) => j,
    };
    let total: usize = args.len();
    let mut i: usize = 1;
    while i < total && total - i >= 2
        invariant
            a == args.deep_view(),
            1 <= i <= args@.len() == total,
            written_from(facts@, a, i as int, j@, mode) == written_value(facts@, a, mode),
        decreases total - i,
    {
        assert(a[i as int] == args@[i as int]@);
        assert(a[i + 1] == args@[i + 1]@);
        match read_text(facts, &args[i])? {
            None => {},
            Some(path) => {
                let value = sql_value_to_json(facts, &args[i + 1])?;
                if same_text(path.as_str(), "$") {
                    match mode {
                        JsonWriteMode::Insert => {},
                        _ => {
                            j = value;
                        },
                    }
                } else {
                    j = match json_write_path(j, path.as_str(), value, mode) {
                        Err(_) => {
                            return Err(fail_path(path.as_str()));
                        },
                        Ok(next) => next,
                    };
                }
            },
        }
        i = i + 2;
    }
    Ok(DbValue::Text(json_text(&j)))
}

/// What `JSON_PATCH` gives.
pub open spec fn patched(f: Facts, target: SqlValue, patch: SqlValue) -> Result<
    SqlValue,
    StopView,
> {
    match text_of_value(f, target) {
        Err(s) => Err(s),
        Ok(None) => Ok(SqlValue::Null),
        Ok(Some(t)) => match text_of_value(f, patch) {
            Err(s) => Err(s),
            Ok(None) => Ok(SqlValue::Null),
            Ok(Some(p)) => match document(t) {
                Err(s) => Err(s),
                Ok(a) => match document(p) {
                    Err(s) => Err(s),
                    Ok(b) => Ok(SqlValue::Text(render(merged(a, b)))),
                },
            },
        },
    }
}

pub fn json_patch_value(facts: &RealFacts, target: &DbValue, patch: &DbValue) -> (r: Eval<DbValue>)
    ensures
        stop_view(r) == patched(facts@, target@, patch@),
{
    let t = match read_text(facts, target)? {
        None => {
            return Ok(DbValue::Null);
        },
        Some(t) => t,
    };
    let p = match read_text(facts, patch)? {
        None => {
            return Ok(DbValue::Null);
        },
        Some(p) => p,
    };
    let a = read_document(t.as_str())?;
    let b = read_document(p.as_str())?;
    let out = json_merge_patch(a, &b);
    Ok(DbValue::Text(json_text(&out)))
}

/// What one path leads to from a document, as a value.
pub open spec fn extracted_one(f: Facts, t: Seq<char>, path: Seq<char>) -> Result<
    SqlValue,
    StopView,
> {
    match document(t) {
        Err(s) => Err(s),
        Ok(j) => match lookup(j, path) {
            Err(s) => Err(s),
            Ok(None) => Ok(SqlValue::Null),
            Ok(Some(found)) => value_of_json(f, found),
        },
    }
}

pub fn json_extract_value(facts: &RealFacts, t: &str, path: &str) -> (r: Eval<DbValue>)
    ensures
        stop_view(r) == extracted_one(facts@, t@, path@),
{
    let j = read_document(t)?;
    match json_path_lookup(&j, path)? {
        None => Ok(DbValue::Null),
        Some(found) => json_value_to_sql(facts, found),
    }
}

/// The texts of values from a position on; none where one of them is null.
pub open spec fn paths_from(f: Facts, args: Seq<SqlValue>, i: int, out: Seq<Seq<char>>) -> Result<
    Option<Seq<Seq<char>>>,
    StopView,
>
    decreases args.len() - i,
{
    if i < 0 || i >= args.len() {
        Ok(Some(out))
    } else {
        match text_of_value(f, args[i]) {
            Err(s) => Err(s),
            Ok(None) => match paths_from(f, args, i + 1, out) {
                Err(s) => Err(s),
                Ok(_) => Ok(None),
            },
            Ok(Some(t)) => paths_from(f, args, i + 1, out.push(t)),
        }
    }
}

/// The model of paths that may be missing.
pub open spec fn paths_view(r: Eval<Option<Vec<String>>>) -> Result<
    Option<Seq<Seq<char>>>,
    StopView,
> {
    match r {
        Ok(Some(v)) => Ok(Some(v.deep_view())),
        Ok(None) => Ok(None),
        Err(s) => Err(s@),
    }
}

fn collect_paths(facts: &RealFacts, args: &[DbValue], from: usize, paths: Vec<String>) -> (r: Eval<
    Option<Vec<String>>,
>)
    requires
        from <= args@.len(),
    ensures
        paths_view(r) == paths_from(facts@, args.deep_view(), from as int, paths.deep_view()),
    decreases args@.len() - from,
{
    if from >= args.len() {
        return Ok(Some(paths));
    }
    assert(args.deep_view()[from as int] == args@[from as int]@);
    match read_text(facts, &args[from])? {
        None => match collect_paths(facts, args, from + 1, paths)? {
            _ => Ok(None),
        },
        Some(t) => {
            let mut next = paths;
            let ghost before = next.deep_view();
            next.push(t);
            assert(next.deep_view() =~= before.push(t@));
            collect_paths(facts, args, from + 1, next)
        },
    }
}

/// What several paths lead to from a document, as an array; null where one leads nowhere.
pub open spec fn extracted_from(j: Json, paths: Seq<Seq<char>>, i: int, out: Seq<Json>) -> Result<
    SqlValue,
    StopView,
>
    decreases paths.len() - i,
{
    if i < 0 || i >= paths.len() {
        Ok(SqlValue::Text(render(Json::Array(out))))
    } else {
        match lookup(j, paths[i]) {
            Err(s) => Err(s),
            Ok(None) => extracted_from(j, paths, i + 1, out.push(Json::Null)),
            Ok(Some(found)) => extracted_from(j, paths, i + 1, out.push(found)),
        }
    }
}

/// What several paths lead to from the document in a text.
pub open spec fn extracted_many(t: Seq<char>, paths: Seq<Seq<char>>) -> Result<SqlValue, StopView> {
    match document(t) {
        Err(s) => Err(s),
        Ok(j) => extracted_from(j, paths, 0, Seq::empty()),
    }
}

pub fn json_extract_multi_value(t: &str, paths: &Vec<String>) -> (r: Eval<DbValue>)
    ensures
        stop_view(r) == extracted_many(t@, paths.deep_view()),
{
    let j = read_document(t)?;
    let ghost p = paths.deep_view();
    let mut items: Vec<JsonValue> = Vec::new();
    let ghost mut out: Seq<Json> = Seq::empty();
    let mut i: usize = 0;
    while i < paths.len()
        invariant
            p == paths.deep_view(),
            i <= paths@.len(),
            out.len() == items@.len(),
            forall|k: int| 0 <= k < out.len() ==> #[trigger] out[k] == items@[k]@,
            extracted_from(j@, p, i as int, out) == extracted_many(t@, p),
        decreases paths@.len() - i,
    {
        assert(p[i as int] == paths@[i as int]@);
        let item = match json_path_lookup(&j, paths[i].as_str())? {
            None => JsonValue::Null,
            Some(found) => copy_json(found),
        };
        proof {
            out = out.push(item@);
        }
        items.push(item);
        i = i + 1;
    }
    let array = JsonValue::Array(items);
    assert(array@->Array_0 =~= out);
    Ok(DbValue::Text(json_text(&array)))
}

/// What `JSON_EXTRACT` gives: one path gives a value, several give an array.
pub open spec fn extracted(f: Facts, args: Seq<SqlValue>) -> Result<SqlValue, StopView> {
    match text_of_value(f, args[0]) {
        Err(s) => Err(s),
        Ok(None) => Ok(SqlValue::Null),
        Ok(Some(t)) => if args.len() == 2 {
            match text_of_value(f, args[1]) {
                Err(s) => Err(s),
                Ok(None) => Ok(SqlValue::Null),
                Ok(Some(path)) => extracted_one(f, t, path),
            }
        } else {
            match paths_from(f, args, 1, Seq::empty()) {
                Err(s) => Err(s),
                Ok(None) => Ok(SqlValue::Null),
                Ok(Some(paths)) => extracted_many(t, paths),
            }
        },
    }
}

pub fn json_extract_values(facts: &RealFacts, args: &[DbValue]) -> (r: Eval<DbValue>)
    requires
        args@.len() >= 2,
    ensures
        stop_view(r) == extracted(facts@, args.deep_view()),
{
    assert(args.deep_view()[0] == args@[0]@);
    assert(args.deep_view()[1] == args@[1]@);
    let t = match read_text(facts, &args[0])? {
        None => {
            return Ok(DbValue::Null);
        },
        Some(t) => t,
    };
    if args.len() == 2 {
        return match read_text(facts, &args[1])? {
            None => Ok(DbValue::Null),
            Some(path) => json_extract_value(facts, t.as_str(), path.as_str()),
        };
    }
    let none: Vec<String> = Vec::new();
    assert(none.deep_view() =~= Seq::<Seq<char>>::empty());
    match collect_paths(facts, args, 1, none)? {
        None => Ok(DbValue::Null),
        Some(paths) => json_extract_multi_value(t.as_str(), &paths),
    }
}

/// What `JSON_QUOTE` gives of a value.
pub open spec fn json_literal(f: Facts, v: SqlValue) -> Result<Seq<char>, StopView> {
    match v {
        SqlValue::Null => Ok("null"@),
        SqlValue::Boolean(b) => Ok(
            if b {
                "1"@
            } else {
                "0"@
            },
        ),
        SqlValue::Integer(i) => Ok(int_text(i as int)),
        SqlValue::Real(bits) => real_text(f, bits),
        SqlValue::Text(t) => Ok(json_quoted(t)),
        SqlValue::Blob(_) => Err(storage_stop("JSON cannot hold BLOB values"@)),
    }
}

pub fn json_quote_value(facts: &RealFacts, v: &DbValue) -> (r: Eval<String>)
    ensures
        stop_view(r) == json_literal(facts@, v@),
{
    match v {
        DbValue::Null => Ok("null".to_owned()),
        DbValue::Boolean(b) => {
            if *b {
                Ok("1".to_owned())
            } else {
                Ok("0".to_owned())
            }
        },
        DbValue::Integer(i) => Ok(i64_text(*i)),
        DbValue::Real(bits) => sqlite_real_to_text(facts, *bits),
        DbValue::Text(t) => Ok(quote_json(t.as_str())),
        DbValue::Blob(_) => Err(fail("JSON cannot hold BLOB values")),
    }
}

/// The path that the right side of an arrow stands for: an integer is an index, from the end
/// where it is negative, and a text that is no path is a name.
pub open spec fn arrow_target(f: Facts, v: SqlValue) -> Result<Seq<char>, StopView> {
    match v {
        SqlValue::Integer(i) => Ok(
            if i >= 0 {
                "$["@ + int_text(i as int) + "]"@
            } else {
                "$[#-"@ + int_text(-(i as int)) + "]"@
            },
        ),
        SqlValue::Text(t) => Ok(
            if t.len() > 0 && t[0] == '$' {
                t
            } else {
                "$."@ + t
            },
        ),
        _ => match value_text(f, v) {
            Err(s) => Err(s),
            Ok(t) => Ok("$."@ + t),
        },
    }
}

pub fn sqlite_json_arrow_path(facts: &RealFacts, v: &DbValue) -> (r: Eval<String>)
    ensures
        stop_view(r) == arrow_target(facts@, v@),
{
    match v {
        DbValue::Integer(i) => {
            if *i >= 0 {
                let mut out = "$[".to_owned();
                out.append(i64_text(*i).as_str());
                out.append("]");
                Ok(out)
            } else {
                let mut out = "$[#-".to_owned();
                out.append(u64_text(crate::common::text::magnitude(*i)).as_str());
                out.append("]");
                Ok(out)
            }
        },
        DbValue::Text(t) => {
            let chars = crate::common::text::char_vec(t.as_str());
            if chars.len() > 0 && chars[0] == '$' {
                Ok(t.clone())
            } else {
                Ok(crate::common::text::joined("$.", t.as_str()))
            }
        },
        _ => {
            let t = coerce_text_like_value(facts, v)?;
            Ok(crate::common::text::joined("$.", t.as_str()))
        },
    }
}

/// What `->` and `->>` give: the JSON that a path leads to, or its value.
pub open spec fn arrow_value(f: Facts, json: SqlValue, path: SqlValue, as_value: bool) -> Result<
    SqlValue,
    StopView,
> {
    if json is Null || path is Null {
        Ok(SqlValue::Null)
    } else {
        match value_text(f, json) {
            Err(s) => Err(s),
            Ok(t) => match arrow_target(f, path) {
                Err(s) => Err(s),
                Ok(p) => match document(t) {
                    Err(s) => Err(s),
                    Ok(j) => match lookup(j, p) {
                        Err(s) => Err(s),
                        Ok(None) => Ok(SqlValue::Null),
                        Ok(Some(found)) => if as_value {
                            value_of_json(f, found)
                        } else {
                            Ok(SqlValue::Text(render(found)))
                        },
                    },
                },
            },
        }
    }
}

pub fn evaluate_json_arrow_operator(
    facts: &RealFacts,
    json: &DbValue,
    path: &DbValue,
    as_value: bool,
) -> (r: Eval<DbValue>)
    ensures
        stop_view(r) == arrow_value(facts@, json@, path@, as_value),
{
    match (json, path) {
        (DbValue::Null, _) => {
            return Ok(DbValue::Null);
        },
        (_, DbValue::Null) => {
            return Ok(DbValue::Null);
        },
        _ => {},
    }
    let t = coerce_text_like_value(facts, json)?;
    let p = sqlite_json_arrow_path(facts, path)?;
    let j = read_document(t.as_str())?;
    match json_path_lookup(&j, p.as_str())? {
        None => Ok(DbValue::Null),
        Some(found) => {
            if as_value {
                json_value_to_sql(facts, found)
            } else {
                Ok(DbValue::Text(json_text(found)))
            }
        },
    }
}

} // verus!
