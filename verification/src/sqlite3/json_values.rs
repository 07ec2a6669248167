//! JSON documents in expressions: reading them, paths into them, and changing them.

use vstd::prelude::*;
use vstd::utf8::encode_utf8;

use crate::common::json::{
    copy_json, field_from, fields_view, items_view, json_parsed, json_quoted, json_text,
    lemma_container_views, parse_json, quote_json, render, search_field, Json, JsonFault,
    JsonFaultView, JsonValue,
};
use crate::common::text::{char_vec, i128_text, int_text, joined, same_text, text_before, text_of};
use crate::common::value::{DbValue, SqlValue};
use crate::sqlite3::json5::{quote_json5_object_keys, strict_json};
use crate::sqlite3::printf::{char_width, width_of};
use crate::sqlite3::reals::{
    fail, optional_text_answer, parsed_real, stop_view, storage_stop, Eval, Facts, RealFacts,
    RealOp, StopView,
};
use crate::sqlite3::strings::{char_from, find_char, occurs_at, stands_at, text_usize, usize_of};
use crate::sqlite3::values::{bool_int, int_of_bool};

verus! {

// ---------------------------------------------------------------------------
// Reading

/// What a text is read as: strict JSON, or else relaxed JSON.
pub open spec fn read_json(s: Seq<char>) -> Result<Json, JsonFaultView> {
    match json_parsed(encode_utf8(s)) {
        Ok(j) => Ok(j),
        Err(fault) => match strict_json(s) {
            Some(t) => json_parsed(encode_utf8(t)),
            None => Err(fault),
        },
    }
}

/// Reads a text as strict JSON, or else as relaxed JSON.
pub fn parse_sqlite_json_value(json: &str) -> (r: Result<JsonValue, JsonFault>)
    ensures
        match r {
            Ok(v) => read_json(json@) == Ok::<_, JsonFaultView>(v@),
            Err(e) => read_json(json@) == Err::<Json, _>(e@),
        },
{
    match parse_json(json.as_bytes()) {
        Ok(v) => Ok(v),
        Err(fault) => match quote_json5_object_keys(json) {
            Some(t) => parse_json(t.as_str().as_bytes()),
            None => Err(fault),
        },
    }
}

/// Whether a text is strict JSON.
pub fn is_strict_json(json: &str) -> (r: bool)
    ensures
        r == (json_parsed(encode_utf8(json@)) is Ok),
{
    parse_json(json.as_bytes()).is_ok()
}

/// A document, or the failure to read it.
pub open spec fn document(s: Seq<char>) -> Result<Json, StopView> {
    match read_json(s) {
        Ok(j) => Ok(j),
        Err(fault) => Err(storage_stop("malformed JSON: "@ + fault.message)),
    }
}

/// Reads a document.
pub fn read_document(json: &str) -> (r: Eval<JsonValue>)
    ensures
        stop_view(r) == document(json@),
{
    match parse_sqlite_json_value(json) {
        Ok(v) => Ok(v),
        Err(fault) => Err(fail(joined("malformed JSON: ", fault.message.as_str()).as_str())),
    }
}

/// The position in bytes of a line and column, counted from one: that of the first character
/// at it, or the end.
pub open spec fn position_from(
    s: Seq<char>,
    line: usize,
    column: usize,
    i: int,
    at: int,
    l: int,
    c: int,
) -> int
    decreases s.len() - i,
{
    if i < 0 || i >= s.len() {
        at + 1
    } else if l == line && c == column {
        at + 1
    } else if s[i] == '\n' {
        position_from(s, line, column, i + 1, at + char_width(s[i]), l + 1, 1)
    } else {
        position_from(s, line, column, i + 1, at + char_width(s[i]), l, c + 1)
    }
}

/// The position in bytes of a fault, counted from one.
pub open spec fn fault_position(s: Seq<char>, fault: JsonFaultView) -> int {
    if fault.line == 0 || fault.column == 0 {
        1
    } else {
        position_from(s, fault.line, fault.column, 0, 0, 1, 1)
    }
}

/// The position in bytes of a fault, counted from one.
pub fn json_error_position(json: &str, fault: &JsonFault) -> (r: u128)
    ensures
        r == fault_position(json@, fault@),
{
    if fault.line == 0 || fault.column == 0 {
        return 1;
    }
    let s = char_vec(json);
    let total: usize = s.len();
    let mut i: usize = 0;
    let mut at: u128 = 0;
    let mut l: u128 = 1;
    let mut c: u128 = 1;
    while i < total
        invariant
            s@ == json@,
            total == s@.len(),
            i <= total,
            at <= 4 * i,
            1 <= l <= i + 1,
            1 <= c <= i + 1,
            fault.line > 0,
            fault.column > 0,
            position_from(s@, fault.line, fault.column, i as int, at as int, l as int, c as int)
                == fault_position(json@, fault@),
        decreases total - i,
    {
        if l == fault.line as u128 && c == fault.column as u128 {
            return at + 1;
        }
        if s[i] == '\n' {
            l = l + 1;
            c = 1;
        } else {
            c = c + 1;
        }
        at = at + width_of(s[i]) as u128;
        i = i + 1;
    }
    at + 1
}

// ---------------------------------------------------------------------------
// Values

/// A value as a document.
pub open spec fn json_of_value(f: Facts, v: SqlValue) -> Result<Json, StopView> {
    match v {
        SqlValue::Null => Ok(Json::Null),
        SqlValue::Boolean(b) => Ok(Json::Int(bool_int(b) as int)),
        SqlValue::Integer(i) => Ok(Json::Int(i as int)),
        SqlValue::Real(bits) => match optional_text_answer(f, RealOp::JsonText, bits) {
            Err(s) => Err(s),
            Ok(Some(t)) => Ok(Json::Real(t)),
            Ok(None) => Ok(Json::Null),
        },
        SqlValue::Text(t) => Ok(Json::Text(t)),
        SqlValue::Blob(_) => Err(storage_stop("JSON cannot hold BLOB values"@)),
    }
}

/// A value as a document.
pub fn sql_value_to_json(facts: &RealFacts, v: &DbValue) -> (r: Eval<JsonValue>)
    ensures
        stop_view(r) == json_of_value(facts@, v@),
{
    match v {
        DbValue::Null => Ok(JsonValue::Null),
        DbValue::Boolean(b) => Ok(JsonValue::Int(int_of_bool(*b) as i128)),
        DbValue::Integer(i) => Ok(JsonValue::Int(*i as i128)),
        DbValue::Real(bits) => match facts.optional_text_result(RealOp::JsonText, *bits)? {
            Some(t) => Ok(JsonValue::Real(t)),
            None => Ok(JsonValue::Null),
        },
        DbValue::Text(t) => Ok(JsonValue::Text(t.clone())),
        DbValue::Blob(_) => Err(fail("JSON cannot hold BLOB values")),
    }
}

/// A number of a document that is no integer of 64 bits, as a value.
pub open spec fn value_of_number(f: Facts, t: Seq<char>) -> Result<SqlValue, StopView> {
    match parsed_real(f, t) {
        Err(s) => Err(s),
        Ok(Some(bits)) => Ok(SqlValue::Real(bits)),
        Ok(None) => Ok(SqlValue::Null),
    }
}

fn number_value(facts: &RealFacts, t: String) -> (r: Eval<DbValue>)
    ensures
        stop_view(r) == value_of_number(facts@, t@),
{
    match facts.parse(t)? {
        Some(bits) => Ok(DbValue::Real(bits)),
        None => Ok(DbValue::Null),
    }
}

/// A document as a value: arrays and objects as their text.
pub open spec fn value_of_json(f: Facts, j: Json) -> Result<SqlValue, StopView> {
    match j {
        Json::Null => Ok(SqlValue::Null),
        Json::Bool(b) => Ok(SqlValue::Integer(bool_int(b))),
        Json::Int(i) => if i64::MIN <= i <= i64::MAX {
            Ok(SqlValue::Integer(i as i64))
        } else {
            value_of_number(f, int_text(i))
        },
        Json::Real(t) => value_of_number(f, t),
        Json::Text(t) => Ok(SqlValue::Text(t)),
        _ => Ok(SqlValue::Text(render(j))),
    }
}

/// A document as a value.
pub fn json_value_to_sql(facts: &RealFacts, j: &JsonValue) -> (r: Eval<DbValue>)
    ensures
        stop_view(r) == value_of_json(facts@, j@),
{
    match j {
        JsonValue::Null => Ok(DbValue::Null),
        JsonValue::Bool(b) => Ok(DbValue::Integer(int_of_bool(*b))),
        JsonValue::Int(i) => {
            if i64::MIN as i128 <= *i && *i <= i64::MAX as i128 {
                Ok(DbValue::Integer(*i as i64))
            } else {
                number_value(facts, i128_text(*i))
            }
        },
        JsonValue::Real(t) => number_value(facts, t.clone()),
        JsonValue::Text(t) => Ok(DbValue::Text(t.clone())),
        _ => Ok(DbValue::Text(json_text(j))),
    }
}

/// The name of the type of a document.
pub open spec fn name_of_type(j: Json) -> Seq<char> {
    match j {
        Json::Null => "null"@,
        Json::Bool(b) => if b {
            "true"@
        } else {
            "false"@
        },
        Json::Int(_) => "integer"@,
        Json::Real(_) => "real"@,
        Json::Text(_) => "text"@,
        Json::Array(_) => "array"@,
        Json::Object(_) => "object"@,
    }
}

/// The name of the type of a document.
pub fn json_type_name(j: &JsonValue) -> (r: &'static str)
    ensures
        r@ == name_of_type(j@),
{
    match j {
        JsonValue::Null => "null",
        JsonValue::Bool(b) => {
            if *b {
                "true"
            } else {
                "false"
            }
        },
        JsonValue::Int(_) => "integer",
        JsonValue::Real(_) => "real",
        JsonValue::Text(_) => "text",
        JsonValue::Array(_) => "array",
        JsonValue::Object(_) => "object",
    }
}

// ---------------------------------------------------------------------------
// Paths

/// The error about a path.
pub open spec fn bad_path() -> StopView {
    storage_stop("invalid JSON path"@)
}

/// The error about an index in a path.
pub open spec fn bad_index() -> StopView {
    storage_stop("invalid JSON array index"@)
}

/// The position behind the closing quote of a text in quotes, from a position in it on.
pub open spec fn quote_end(s: Seq<char>, i: int, escaped: bool) -> Option<int>
    decreases s.len() - i,
{
    if i < 0 || i >= s.len() {
        None
    } else if escaped {
        quote_end(s, i + 1, false)
    } else if s[i] == '\\' {
        quote_end(s, i + 1, true)
    } else if s[i] == '"' {
        Some(i + 1)
    } else {
        quote_end(s, i + 1, false)
    }
}

fn find_quote_end(s: &Vec<char>, from: usize) -> (r: Option<usize>)
    ensures
        match r {
            Some(e) => quote_end(s@, from as int, false) == Some(e as int) && from < e <= s@.len(),
            None => quote_end(s@, from as int, false) is None,
        },
{
    let mut i: usize = from;
    let mut escaped = false;
    while i < s.len()
        invariant
            from <= i,
            quote_end(s@, i as int, escaped) == quote_end(s@, from as int, false),
        decreases s@.len() - i,
    {
        if escaped {
            escaped = false;
        } else if s[i] == '\\' {
            escaped = true;
        } else if s[i] == '"' {
            return Some(i + 1);
        }
        i = i + 1;
    }
    None
}

/// The end of a name without quotes in a path: before a dot or a bracket.
pub open spec fn key_end(s: Seq<char>, i: int) -> int
    decreases s.len() - i,
{
    if i < 0 || i >= s.len() {
        s.len() as int
    } else if s[i] == '.' || s[i] == '[' {
        i
    } else {
        key_end(s, i + 1)
    }
}

fn find_key_end(s: &Vec<char>, from: usize) -> (r: usize)
    requires
        from <= s@.len(),
    ensures
        r == key_end(s@, from as int),
        from <= r <= s@.len(),
{
    let mut i: usize = from;
    while i < s.len() && !(s[i] == '.' || s[i] == '[')
        invariant
            from <= i <= s@.len(),
            key_end(s@, i as int) == key_end(s@, from as int),
        decreases s@.len() - i,
    {
        i = i + 1;
    }
    i
}

/// The text that a JSON string stands for.
pub open spec fn text_of_json(s: Seq<char>) -> Option<Seq<char>> {
    match json_parsed(encode_utf8(s)) {
        Ok(Json::Text(t)) => Some(t),
        _ => None,
    }
}

fn parse_string(s: &str) -> (r: Option<String>)
    ensures
        match r {
            Some(t) => text_of_json(s@) == Some(t@),
            None => text_of_json(s@) is None,
        },
{
    match parse_json(s.as_bytes()) {
        Ok(JsonValue::Text(t)) => Some(t),
        _ => None,
    }
}

/// A step of a path: into a field, or to an item.
pub enum PathStep {
    Key(Seq<char>),
    Index(Seq<char>),
}

/// The first step of a path from a position on, and where the next one starts.
pub open spec fn step_at(s: Seq<char>, i: int) -> Result<(PathStep, int), StopView> {
    if i < 0 || i >= s.len() {
        Err(bad_path())
    } else if s[i] == '.' {
        if i + 1 < s.len() && s[i + 1] == '"' {
            match quote_end(s, i + 2, false) {
                None => Err(bad_path()),
                Some(e) => match text_of_json(s.subrange(i + 1, e)) {
                    Some(key) => Ok((PathStep::Key(key), e)),
                    None => Err(bad_path()),
                },
            }
        } else {
            let e = key_end(s, i + 1);
            if e == i + 1 {
                Err(bad_path())
            } else {
                Ok((PathStep::Key(s.subrange(i + 1, e)), e))
            }
        }
    } else if s[i] == '[' {
        let e = char_from(s, ']', i + 1);
        if e >= s.len() {
            Err(bad_path())
        } else {
            Ok((PathStep::Index(s.subrange(i + 1, e)), e + 1))
        }
    } else {
        Err(bad_path())
    }
}

/// A step of a path.
enum Step {
    Key(String),
    Index(String),
}

spec fn step_view(s: Step) -> PathStep {
    match s {
        Step::Key(t) => PathStep::Key(t@),
        Step::Index(t) => PathStep::Index(t@),
    }
}

fn read_step(s: &Vec<char>, i: usize) -> (r: Eval<(Step, usize)>)
    requires
        i < s@.len(),
    ensures
        match r {
            Ok((step, e)) => step_at(s@, i as int) == Ok::<_, StopView>(
                (step_view(step), e as int),
            ) && i < e <= s@.len(),
            Err(x) => step_at(s@, i as int) == Err::<(PathStep, int), _>(x@),
        },
{
    let total: usize = s.len();
    if s[i] == '.' {
        if i + 1 < total && s[i + 1] == '"' {
            match find_quote_end(s, i + 2) {
                None => Err(fail("invalid JSON path")),
                Some(e) => {
                    let quoted = text_of(s, i + 1, e);
                    match parse_string(quoted.as_str()) {
                        Some(key) => Ok((Step::Key(key), e)),
                        None => Err(fail("invalid JSON path")),
                    }
                },
            }
        } else {
            let e: usize = find_key_end(s, i + 1);
            if e == i + 1 {
                Err(fail("invalid JSON path"))
            } else {
                Ok((Step::Key(text_of(s, i + 1, e)), e))
            }
        }
    } else if s[i] == '[' {
        let e: usize = find_char(s, ']', i + 1);
        if e >= total {
            Err(fail("invalid JSON path"))
        } else {
            Ok((Step::Index(text_of(s, i + 1, e)), e + 1))
        }
    } else {
        Err(fail("invalid JSON path"))
    }
}

/// The number of items of an array.
pub open spec fn array_len(j: Json) -> Option<int> {
    match j {
        Json::Array(items) => Some(items.len() as int),
        _ => None,
    }
}

/// The index that a step names in a document: counted from the end behind `#-`, and none
/// behind `#` alone, for a text in quotes and for what lies before the start.
pub open spec fn index_of_step(j: Json, t: Seq<char>) -> Result<Option<int>, StopView> {
    if t == "#"@ {
        Ok(None)
    } else if t.len() > 0 && t[0] == '"' && text_of_json(t) is Some {
        Ok(None)
    } else if occurs_at(t, "#-"@, 0) {
        match usize_of(t.skip("#-"@.len() as int)) {
            None => Err(bad_index()),
            Some(n) => match array_len(j) {
                None => Ok(None),
                Some(len) => if n <= len {
                    Ok(Some(len - n))
                } else {
                    Ok(None)
                },
            },
        }
    } else {
        match usize_of(t) {
            None => Err(bad_index()),
            Some(n) => Ok(Some(n as int)),
        }
    }
}

fn json_path_array_index(j: &JsonValue, t: &str) -> (r: Eval<Option<usize>>)
    ensures
        match r {
            Ok(Some(n)) => index_of_step(j@, t@) == Ok::<_, StopView>(Some(n as int)),
            Ok(None) => index_of_step(j@, t@) == Ok::<Option<int>, StopView>(None),
            Err(s) => index_of_step(j@, t@) == Err::<Option<int>, _>(s@),
        },
{
    if same_text(t, "#") {
        return Ok(None);
    }
    let c = char_vec(t);
    if c.len() > 0 && c[0] == '"' {
        if let Some(_) = parse_string(t) {
            return Ok(None);
        }
    }
    let start = char_vec("#-");
    if stands_at(&c, &start, 0) {
        let tail = text_of(&c, start.len(), c.len());
        assert(tail@ =~= t@.skip(start@.len() as int));
        return match text_usize(tail.as_str()) {
            None => Err(fail("invalid JSON array index")),
            Some(n) => match j {
                JsonValue::Array(items) => {
                    let len: usize = items.len();
                    assert(array_len(j@) == Some(len as int));
                    if n <= len {
                        Ok(Some(len - n))
                    } else {
                        Ok(None)
                    }
                },
                _ => Ok(None),
            },
        };
    }
    match text_usize(t) {
        None => Err(fail("invalid JSON array index")),
        Some(n) => Ok(Some(n)),
    }
}

/// What a step leads to in a document.
pub open spec fn stepped(j: Json, step: PathStep) -> Result<Option<Json>, StopView> {
    match step {
        PathStep::Key(key) => match j {
            Json::Object(fields) => match field_from(fields, key, 0) {
                Some(i) => Ok(Some(fields[i].1)),
                None => Ok(None),
            },
            _ => Ok(None),
        },
        PathStep::Index(t) => match index_of_step(j, t) {
            Err(s) => Err(s),
            Ok(None) => Ok(None),
            Ok(Some(n)) => match j {
                Json::Array(items) => if n < items.len() {
                    Ok(Some(items[n]))
                } else {
                    Ok(None)
                },
                _ => Ok(None),
            },
        },
    }
}

/// What a path leads to in a document, from a position on.
pub open spec fn lookup_from(j: Json, s: Seq<char>, i: int) -> Result<Option<Json>, StopView>
    decreases s.len() - i,
{
    if i < 0 || i >= s.len() {
        Ok(Some(j))
    } else {
        match step_at(s, i) {
            Err(e) => Err(e),
            Ok((step, next)) => match stepped(j, step) {
                Err(e) => Err(e),
                Ok(None) => Ok(None),
                Ok(Some(k)) => if i < next <= s.len() {
                    lookup_from(k, s, next)
                } else {
                    Err(bad_path())
                },
            },
        }
    }
}

/// What a path leads to in a document.
pub open spec fn lookup(j: Json, s: Seq<char>) -> Result<Option<Json>, StopView> {
    if s.len() > 0 && s[0] == '$' {
        lookup_from(j, s, 1)
    } else {
        Err(storage_stop("JSON path must start with '$'"@))
    }
}

/// What an optional document is.
pub open spec fn found_view(r: Eval<Option<&JsonValue>>) -> Result<Option<Json>, StopView> {
    match r {
        Ok(Some(v)) => Ok(Some(v@)),
        Ok(None) => Ok(None),
        Err(s) => Err(s@),
    }
}

fn take_step<'a>(j: &'a JsonValue, step: &Step) -> (r: Eval<Option<&'a JsonValue>>)
    ensures
        found_view(r) == stepped(j@, step_view(*step)),
{
    proof {
        lemma_container_views(*j);
    }
    match step {
        Step::Key(key) => match j {
            JsonValue::Object(fields) => match search_field(fields, key.as_str()) {
                Some(i) => {
                    assert(j@->Object_0[i as int].1 == fields@[i as int].1@);
                    Ok(Some(&fields[i].1))
                },
                None => Ok(None),
            },
            _ => Ok(None),
        },
        Step::Index(t) => match json_path_array_index(j, t.as_str())? {
            None => Ok(None),
            Some(n) => match j {
                JsonValue::Array(items) => {
                    if n < items.len() {
                        assert(j@->Array_0[n as int] == items@[n as int]@);
                        Ok(Some(&items[n]))
                    } else {
                        Ok(None)
                    }
                },
                _ => Ok(None),
            },
        },
    }
}

/// What a path leads to in a document.
pub fn json_path_lookup<'a>(j: &'a JsonValue, path: &str) -> (r: Eval<Option<&'a JsonValue>>)
    ensures
        found_view(r) == lookup(j@, path@),
{
    let s = char_vec(path);
    let total: usize = s.len();
    if total == 0 || s[0] != '$' {
        return Err(fail("JSON path must start with '$'"));
    }
    let mut current: &'a JsonValue = j;
    let mut i: usize = 1;
    while i < total
        invariant
            s@ == path@,
            total == s@.len(),
            1 <= i <= total,
            lookup_from(current@, s@, i as int) == lookup(j@, path@),
        decreases total - i,
    {
        let (step, next) = read_step(&s, i)?;
        match take_step(current, &step)? {
            None => {
                return Ok(None);
            },
            Some(found) => {
                current = found;
            },
        }
        i = next;
    }
    Ok(Some(current))
}

// ---------------------------------------------------------------------------
// Changing

/// When a document is changed at a path.
#[derive(Debug, Clone, Copy, PartialEq, Eq, Structural)]
pub enum JsonWriteMode {
    /// Whether or not something is there.
    Put,
    /// Where nothing is there.
    Insert,
    /// Where something is there.
    Replace,
}

/// Fields with one set, from a position on: in its place by name.
pub open spec fn with_field_from(
    fields: Seq<(Seq<char>, Json)>,
    key: Seq<char>,
    j: Json,
    i: int,
) -> Seq<(Seq<char>, Json)>
    decreases fields.len() - i,
{
    if i < 0 || i >= fields.len() {
        fields.push((key, j))
    } else if fields[i].0 == key {
        fields.update(i, (key, j))
    } else if text_before(key, fields[i].0) {
        fields.insert(i, (key, j))
    } else {
        with_field_from(fields, key, j, i + 1)
    }
}

/// Fields with one set.
pub open spec fn with_field(fields: Seq<(Seq<char>, Json)>, key: Seq<char>, j: Json) -> Seq<
    (Seq<char>, Json),
> {
    with_field_from(fields, key, j, 0)
}

/// Fields without one.
pub open spec fn without_field(fields: Seq<(Seq<char>, Json)>, key: Seq<char>) -> Seq<
    (Seq<char>, Json),
> {
    match field_from(fields, key, 0) {
        Some(i) => fields.remove(i),
        None => fields,
    }
}

fn set_field(fields: &mut Vec<(String, JsonValue)>, key: String, j: JsonValue)
    ensures
        fields_view(final(fields)@) == with_field(fields_view(old(fields)@), key@, j@),
{
    let ghost before = fields_view(fields@);
    let mut i: usize = 0;
    while i < fields.len()
        invariant
            i <= fields@.len(),
            fields_view(fields@) == before,
            before == fields_view(old(fields)@),
            with_field_from(before, key@, j@, i as int) == with_field(before, key@, j@),
        decreases fields@.len() - i,
    {
        assert(before[i as int].0 == fields@[i as int].0@);
        match crate::common::text::compare_text(key.as_str(), fields[i].0.as_str()) {
            crate::common::ordmap::Order::Equal => {
                fields.set(i, (key, j));
                assert(fields_view(fields@) =~= before.update(i as int, (key@, j@)));
                return ;
            },
            crate::common::ordmap::Order::Less => {
                fields.insert(i, (key, j));
                assert(fields_view(fields@) =~= before.insert(i as int, (key@, j@)));
                return ;
            },
            crate::common::ordmap::Order::Greater => {
                i = i + 1;
            },
        }
    }
    fields.push((key, j));
    assert(fields_view(fields@) =~= before.push((key@, j@)));
}

/// The container that a path goes on into.
pub open spec fn container_for(s: Seq<char>, i: int) -> Json {
    if 0 <= i < s.len() && s[i] == '[' {
        Json::Array(Seq::empty())
    } else {
        Json::Object(Seq::empty())
    }
}

fn json_container_for_path_tail(s: &Vec<char>, i: usize) -> (r: JsonValue)
    ensures
        r@ == container_for(s@, i as int),
{
    if i < s.len() && s[i] == '[' {
        empty_array()
    } else {
        empty_object()
    }
}

fn empty_array() -> (r: JsonValue)
    ensures
        r@ == Json::Array(Seq::empty()),
        r is Array,
{
    let items: Vec<JsonValue> = Vec::new();
    assert(items_view(items@) =~= Seq::<Json>::empty());
    let r = JsonValue::Array(items);
    proof {
        lemma_container_views(r);
    }
    r
}

fn empty_object() -> (r: JsonValue)
    ensures
        r@ == Json::Object(Seq::empty()),
        r is Object,
{
    let fields: Vec<(String, JsonValue)> = Vec::new();
    assert(fields_view(fields@) =~= Seq::<(Seq<char>, Json)>::empty());
    let r = JsonValue::Object(fields);
    proof {
        lemma_container_views(r);
    }
    r
}

/// A document with an item removed at a path, from a position in the path on.
pub open spec fn removed_from(j: Json, s: Seq<char>, i: int) -> Result<Json, StopView>
    decreases s.len() - i,
{
    match step_at(s, i) {
        Err(e) => Err(e),
        Ok((step, next)) => match stepped(j, step) {
            Err(e) => Err(e),
            Ok(found) => if !(i < next <= s.len()) {
                Err(bad_path())
            } else {
                match found {
                    None => Ok(j),
                    Some(child) => match (step, j) {
                        (PathStep::Key(key), Json::Object(fields)) => if next == s.len() {
                            Ok(Json::Object(without_field(fields, key)))
                        } else {
                            match removed_from(child, s, next) {
                                Err(e) => Err(e),
                                Ok(k) => Ok(
                                    Json::Object(
                                        fields.update(
                                            field_from(fields, key, 0)->Some_0,
                                            (key, k),
                                        ),
                                    ),
                                ),
                            }
                        },
                        (PathStep::Index(t), Json::Array(items)) => {
                            let n = index_of_step(j, t)->Ok_0->Some_0;
                            if next == s.len() {
                                Ok(Json::Array(items.remove(n)))
                            } else {
                                match removed_from(child, s, next) {
                                    Err(e) => Err(e),
                                    Ok(k) => Ok(Json::Array(items.update(n, k))),
                                }
                            }
                        },
                        _ => Ok(j),
                    },
                }
            },
        },
    }
}

fn json_remove_path_tail(j: JsonValue, s: &Vec<char>, i: usize) -> (r: Eval<JsonValue>)
    requires
        i < s@.len(),
    ensures
        stop_view(r) == removed_from(j@, s@, i as int),
    decreases s@.len() - i,
{
    let (step, next) = read_step(s, i)?;
    let last = next == s.len();
    proof {
        lemma_container_views(j);
    }
    let ghost before = j@;
    match step {
        Step::Key(key) => match j {
            JsonValue::Object(fields) => {
                let mut fields = fields;
                let ghost old_fields = fields_view(fields@);
                match search_field(&fields, key.as_str()) {
                    None => {
                        let r = JsonValue::Object(fields);
                        Ok(r)
                    },
                    Some(k) => {
                        let (name, child) = fields.remove(k);
                        assert(fields_view(fields@) =~= old_fields.remove(k as int));
                        if last {
                            let r = JsonValue::Object(fields);
                            proof {
                                lemma_container_views(r);
                            }
                            return Ok(r);
                        }
                        let changed = json_remove_path_tail(child, s, next)?;
                        fields.insert(k, (name, changed));
                        assert(fields_view(fields@) =~= old_fields.update(
                            k as int,
                            (key@, changed@),
                        ));
                        let r = JsonValue::Object(fields);
                        proof {
                            lemma_container_views(r);
                        }
                        Ok(r)
                    },
                }
            },
            _ => Ok(j),
        },
        Step::Index(t) => match json_path_array_index(&j, t.as_str())? {
            None => Ok(j),
            Some(n) => match j {
                JsonValue::Array(items) => {
                    let mut items = items;
                    let ghost old_items = items_view(items@);
                    if n >= items.len() {
                        return Ok(JsonValue::Array(items));
                    }
                    let child = items.remove(n);
                    assert(items_view(items@) =~= old_items.remove(n as int));
                    if last {
                        let r = JsonValue::Array(items);
                        proof {
                            lemma_container_views(r);
                        }
                        return Ok(r);
                    }
                    let changed = json_remove_path_tail(child, s, next)?;
                    items.insert(n, changed);
                    assert(items_view(items@) =~= old_items.update(n as int, changed@));
                    let r = JsonValue::Array(items);
                    proof {
                        lemma_container_views(r);
                    }
                    Ok(r)
                },
                _ => Ok(j),
            },
        },
    }
}

/// A document with what a path leads to removed.
pub open spec fn removed(j: Json, s: Seq<char>) -> Result<Json, StopView> {
    if s.len() > 0 && s[0] == '$' {
        if s.len() == 1 {
            Err(storage_stop("root path is handled by caller"@))
        } else {
            removed_from(j, s, 1)
        }
    } else {
        Err(storage_stop("JSON path must start with '$'"@))
    }
}

/// A document with what a path leads to removed.
pub fn json_remove_path(j: JsonValue, path: &str) -> (r: Eval<JsonValue>)
    ensures
        stop_view(r) == removed(j@, path@),
{
    let s = char_vec(path);
    if s.len() == 0 || s[0] != '$' {
        return Err(fail("JSON path must start with '$'"));
    }
    if s.len() == 1 {
        return Err(fail("root path is handled by caller"));
    }
    json_remove_path_tail(j, &s, 1)
}

/// Whether a mode writes where something is there, or where nothing is.
pub open spec fn mode_writes(mode: JsonWriteMode, there: bool) -> bool {
    match mode {
        JsonWriteMode::Put => true,
        JsonWriteMode::Insert => !there,
        JsonWriteMode::Replace => there,
    }
}

fn writes(mode: JsonWriteMode, there: bool) -> (r: bool)
    ensures
        r == mode_writes(mode, there),
{
    match mode {
        JsonWriteMode::Put => true,
        JsonWriteMode::Insert => !there,
        JsonWriteMode::Replace => there,
    }
}

/// The fields of a document; none where it is no object.
pub open spec fn fields_of(j: Json) -> Seq<(Seq<char>, Json)> {
    match j {
        Json::Object(fields) => fields,
        _ => Seq::empty(),
    }
}

/// A document with a value written at a path, from a position in the path on. What is no
/// object gives way to one, missing fields and the item behind the last are made, and other
/// items that are not there are left.
pub open spec fn written_from(j: Json, s: Seq<char>, i: int, value: Json, mode: JsonWriteMode) -> Result<
    Json,
    StopView,
>
    decreases s.len() - i,
{
    match step_at(s, i) {
        Err(e) => Err(e),
        Ok((step, next)) => if !(i < next <= s.len()) {
            Err(bad_path())
        } else {
            match step {
                PathStep::Key(key) => if !(j is Object) && mode is Replace {
                    Ok(j)
                } else {
                    let fields = fields_of(j);
                    let found = field_from(fields, key, 0);
                    if next == s.len() {
                        if mode_writes(mode, found is Some) {
                            Ok(Json::Object(with_field(fields, key, value)))
                        } else {
                            Ok(Json::Object(fields))
                        }
                    } else if found is None && mode is Replace {
                        Ok(Json::Object(fields))
                    } else {
                        let child = match found {
                            Some(k) => fields[k].1,
                            None => container_for(s, next),
                        };
                        match written_from(child, s, next, value, mode) {
                            Err(e) => Err(e),
                            Ok(changed) => Ok(Json::Object(with_field(fields, key, changed))),
                        }
                    }
                },
                PathStep::Index(t) => if t == "#"@ {
                    match j {
                        Json::Array(items) => if mode is Replace {
                            Ok(j)
                        } else if next == s.len() {
                            Ok(Json::Array(items.push(value)))
                        } else {
                            match written_from(container_for(s, next), s, next, value, mode) {
                                Err(e) => Err(e),
                                Ok(changed) => Ok(Json::Array(items.push(changed))),
                            }
                        },
                        _ => Ok(j),
                    }
                } else {
                    match index_of_step(j, t) {
                        Err(e) => Err(e),
                        Ok(None) => Ok(j),
                        Ok(Some(n)) => match j {
                            Json::Array(items) => if n > items.len() || n < 0 {
                                Ok(j)
                            } else if n == items.len() && mode is Replace {
                                Ok(j)
                            } else if next == s.len() {
                                if n == items.len() {
                                    Ok(Json::Array(items.push(value)))
                                } else if mode is Insert {
                                    Ok(j)
                                } else {
                                    Ok(Json::Array(items.update(n, value)))
                                }
                            } else {
                                let child = if n == items.len() {
                                    container_for(s, next)
                                } else {
                                    items[n]
                                };
                                match written_from(child, s, next, value, mode) {
                                    Err(e) => Err(e),
                                    Ok(changed) => Ok(
                                        Json::Array(
                                            if n == items.len() {
                                                items.push(changed)
                                            } else {
                                                items.update(n, changed)
                                            },
                                        ),
                                    ),
                                }
                            },
                            _ => Ok(j),
                        },
                    }
                },
            }
        },
    }
}

fn write_key(
    j: JsonValue,
    s: &Vec<char>,
    i: usize,
    key: String,
    next: usize,
    value: JsonValue,
    mode: JsonWriteMode,
) -> (r: Eval<JsonValue>)
    requires
        step_at(s@, i as int) == Ok::<_, StopView>((PathStep::Key(key@), next as int)),
        i < next <= s@.len(),
    ensures
        stop_view(r) == written_from(j@, s@, i as int, value@, mode),
    decreases s@.len() - i, 0int,
{
    let replace = match mode {
        JsonWriteMode::Replace => true,
        _ => false,
    };
    proof {
        lemma_container_views(j);
    }
    let ghost given = fields_of(j@);
    let mut fields: Vec<(String, JsonValue)> = match j {
        JsonValue::Object(fields) => fields,
        other => {
            if replace {
                return Ok(other);
            }
            Vec::new()
        },
    };
    assert(fields_view(fields@) =~= given);
    let found = search_field(&fields, key.as_str());
    if next == s.len() {
        if writes(mode, found.is_some()) {
            set_field(&mut fields, key, value);
        }
        let r = JsonValue::Object(fields);
        proof {
            lemma_container_views(r);
        }
        return Ok(r);
    }
    let child = match found {
        Some(k) => {
            assert(given[k as int].1 == fields@[k as int].1@);
            copy_json(&fields[k].1)
        },
        None => {
            if replace {
                let r = JsonValue::Object(fields);
                proof {
                    lemma_container_views(r);
                }
                return Ok(r);
            }
            json_container_for_path_tail(s, next)
        },
    };
    let changed = json_write_path_tail(child, s, next, value, mode)?;
    set_field(&mut fields, key, changed);
    let r = JsonValue::Object(fields);
    proof {
        lemma_container_views(r);
    }
    Ok(r)
}

fn write_item(
    items: Vec<JsonValue>,
    n: usize,
    s: &Vec<char>,
    next: usize,
    value: JsonValue,
    mode: JsonWriteMode,
) -> (r: Eval<JsonValue>)
    requires
        n <= items@.len(),
        0 < next <= s@.len(),
    ensures
        stop_view(r) == (if next == s@.len() {
            if n == items@.len() {
                Ok::<_, StopView>(Json::Array(items_view(items@).push(value@)))
            } else if mode is Insert {
                Ok(Json::Array(items_view(items@)))
            } else {
                Ok(Json::Array(items_view(items@).update(n as int, value@)))
            }
        } else {
            match written_from(
                if n == items@.len() {
                    container_for(s@, next as int)
                } else {
                    items_view(items@)[n as int]
                },
                s@,
                next as int,
                value@,
                mode,
            ) {
                Err(e) => Err(e),
                Ok(changed) => Ok(
                    Json::Array(
                        if n == items@.len() {
                            items_view(items@).push(changed)
                        } else {
                            items_view(items@).update(n as int, changed)
                        },
                    ),
                ),
            }
        }),
    decreases s@.len() - next, 2int,
{
    let mut items = items;
    let ghost given = items_view(items@);
    let insert = match mode {
        JsonWriteMode::Insert => true,
        _ => false,
    };
    let changed = if next == s.len() {
        if n < items.len() && insert {
            let r = JsonValue::Array(items);
            proof {
                lemma_container_views(r);
            }
            return Ok(r);
        }
        value
    } else {
        let child = if n == items.len() {
            json_container_for_path_tail(s, next)
        } else {
            copy_json(&items[n])
        };
        json_write_path_tail(child, s, next, value, mode)?
    };
    if n == items.len() {
        items.push(changed);
        assert(items_view(items@) =~= given.push(changed@));
    } else {
        items.set(n, changed);
        assert(items_view(items@) =~= given.update(n as int, changed@));
    }
    let r = JsonValue::Array(items);
    proof {
        lemma_container_views(r);
    }
    Ok(r)
}

fn json_write_path_tail(
    j: JsonValue,
    s: &Vec<char>,
    i: usize,
    value: JsonValue,
    mode: JsonWriteMode,
) -> (r: Eval<JsonValue>)
    requires
        i < s@.len(),
    ensures
        stop_view(r) == written_from(j@, s@, i as int, value@, mode),
    decreases s@.len() - i, 1int,
{
    let (step, next) = read_step(s, i)?;
    let replace = match mode {
        JsonWriteMode::Replace => true,
        _ => false,
    };
    proof {
        lemma_container_views(j);
    }
    match step {
        Step::Key(key) => write_key(j, s, i, key, next, value, mode),
        Step::Index(t) => {
            if same_text(t.as_str(), "#") {
                if replace {
                    return Ok(j);
                }
                return match j {
                    JsonValue::Array(items) => {
                        let n: usize = items.len();
                        write_item(items, n, s, next, value, mode)
                    },
                    _ => Ok(j),
                };
            }
            match json_path_array_index(&j, t.as_str())? {
                None => Ok(j),
                Some(n) => match j {
                    JsonValue::Array(items) => {
                        let len: usize = items.len();
                        if n > len || (n == len && replace) {
                            return Ok(JsonValue::Array(items));
                        }
                        write_item(items, n, s, next, value, mode)
                    },
                    _ => Ok(j),
                },
            }
        },
    }
}

/// A document with a value written at a path.
pub open spec fn written(j: Json, s: Seq<char>, value: Json, mode: JsonWriteMode) -> Result<
    Json,
    StopView,
> {
    if s.len() > 0 && s[0] == '$' {
        if s.len() == 1 {
            Err(storage_stop("root path is handled by caller"@))
        } else {
            written_from(j, s, 1, value, mode)
        }
    } else {
        Err(storage_stop("JSON path must start with '$'"@))
    }
}

/// A document with a value written at a path.
pub fn json_write_path(j: JsonValue, path: &str, value: JsonValue, mode: JsonWriteMode) -> (r: Eval<
    JsonValue,
>)
    ensures
        stop_view(r) == written(j@, path@, value@, mode),
{
    let s = char_vec(path);
    if s.len() == 0 || s[0] != '$' {
        return Err(fail("JSON path must start with '$'"));
    }
    if s.len() == 1 {
        return Err(fail("root path is handled by caller"));
    }
    json_write_path_tail(j, &s, 1, value, mode)
}

// ---------------------------------------------------------------------------
// Merging

/// Fields changed by the fields of a patch from a position on.
pub open spec fn merged_from(fields: Seq<(Seq<char>, Json)>, patch: Json, i: int) -> Seq<
    (Seq<char>, Json),
>
    decreases patch, fields_of(patch).len() - i,
{
    if !(patch is Object) || i < 0 || i >= patch->Object_0.len() {
        fields
    } else {
        let (key, value) = patch->Object_0[i];
        let next = if value is Null {
            without_field(fields, key)
        } else {
            match field_from(fields, key, 0) {
                Some(k) => fields.update(k, (key, merged(fields[k].1, patch->Object_0[i].1))),
                None => with_field(fields, key, value),
            }
        };
        merged_from(next, patch, i + 1)
    }
}

/// A document changed by a patch: an object is merged field by field, a null removes a
/// field, and anything else takes the place of the document.
pub open spec fn merged(target: Json, patch: Json) -> Json
    decreases patch, fields_of(patch).len() + 1,
{
    match patch {
        Json::Object(_) => Json::Object(merged_from(fields_of(target), patch, 0)),
        _ => patch,
    }
}

/// A document changed by a patch.
pub fn json_merge_patch(target: JsonValue, patch: &JsonValue) -> (r: JsonValue)
    ensures
        r@ == merged(target@, patch@),
    decreases patch,
{
    proof {
        lemma_container_views(target);
        lemma_container_views(*patch);
    }
    match patch {
        JsonValue::Object(changes) => {
            let ghost given = fields_of(target@);
            let mut fields: Vec<(String, JsonValue)> = match target {
                JsonValue::Object(fields) => fields,
                _ => Vec::new(),
            };
            assert(fields_view(fields@) =~= given);
            let mut i: usize = 0;
            while i < changes.len()
                invariant
                    *patch == JsonValue::Object(*changes),
                    patch@ == Json::Object(fields_view(changes@)),
                    i <= changes@.len(),
                    merged_from(fields_view(fields@), patch@, i as int) == merged_from(
                        given,
                        patch@,
                        0,
                    ),
                decreases changes@.len() - i,
            {
                assert(decreases_to!(*patch => patch->Object_0@[i as int].1));
                let ghost before = fields_view(fields@);
                let ghost change = (changes@[i as int].0@, changes@[i as int].1@);
                assert(patch@->Object_0[i as int] == change);
                let null = match &changes[i].1 {
                    JsonValue::Null => true,
                    _ => false,
                };
                let found = search_field(&fields, changes[i].0.as_str());
                if null {
                    if let Some(k) = found {
                        let _ = fields.remove(k);
                        assert(fields_view(fields@) =~= before.remove(k as int));
                    }
                    assert(fields_view(fields@) == without_field(before, change.0));
                } else {
                    match found {
                        Some(k) => {
                            let (name, child) = fields.remove(k);
                            let changed = json_merge_patch(child, &changes[i].1);
                            assert(changed@ == merged(before[k as int].1, change.1));
                            fields.insert(k, (name, changed));
                            assert(fields_view(fields@) =~= before.update(
                                k as int,
                                (change.0, changed@),
                            ));
                        },
                        None => {
                            let value = copy_json(&changes[i].1);
                            set_field(&mut fields, changes[i].0.clone(), value);
                        },
                    }
                }
                i = i + 1;
            }
            let r = JsonValue::Object(fields);
            proof {
                lemma_container_views(r);
            }
            r
        },
        _ => copy_json(patch),
    }
}

// ---------------------------------------------------------------------------
// Pretty printing

/// The first items of an array or fields of an object, each on a line of its own behind a
/// margin.
pub open spec fn pretty_parts(j: Json, indent: Seq<char>, margin: Seq<char>, n: nat) -> Seq<char>
    decreases j, n,
{
    if n == 0 {
        Seq::empty()
    } else {
        let before = pretty_parts(j, indent, margin, (n - 1) as nat);
        let comma = if n > 1 {
            seq![',']
        } else {
            Seq::empty()
        };
        match j {
            Json::Array(items) => if n <= items.len() {
                before + comma + seq!['\n'] + (margin + indent) + pretty(
                    items[n - 1],
                    indent,
                    margin + indent,
                )
            } else {
                before
            },
            Json::Object(fields) => if n <= fields.len() {
                before + comma + seq!['\n'] + (margin + indent) + json_quoted(fields[n - 1].0)
                    + ": "@ + pretty(fields[n - 1].1, indent, margin + indent)
            } else {
                before
            },
            _ => before,
        }
    }
}

/// The number of items or fields of a document.
pub open spec fn part_count(j: Json) -> nat {
    match j {
        Json::Array(items) => items.len(),
        Json::Object(fields) => fields.len(),
        _ => 0,
    }
}

/// A document with one item or field on each line, further in by an indent for each level.
pub open spec fn pretty(j: Json, indent: Seq<char>, margin: Seq<char>) -> Seq<char>
    decreases j, part_count(j) + 1,
{
    match j {
        Json::Array(items) => if items.len() == 0 {
            "[]"@
        } else {
            seq!['['] + pretty_parts(j, indent, margin, items.len()) + seq!['\n'] + margin
                + seq![']']
        },
        Json::Object(fields) => if fields.len() == 0 {
            "{}"@
        } else {
            seq!['{'] + pretty_parts(j, indent, margin, fields.len()) + seq!['\n'] + margin
                + seq!['}']
        },
        _ => render(j),
    }
}

fn json_pretty_render_into(j: &JsonValue, indent: &str, margin: &str, out: &mut String)
    ensures
        final(out)@ == old(out)@ + pretty(j@, indent@, margin@),
    decreases j,
{
    proof {
        lemma_container_views(*j);
    }
    let ghost before = out@;
    let inner = joined(margin, indent);
    match j {
        JsonValue::Array(items) => {
            if items.len() == 0 {
                out.append("[]");
                return ;
            }
            out.push('[');
            let mut i: usize = 0;
            assert(out@ =~= before + seq!['['] + pretty_parts(j@, indent@, margin@, 0));
            while i < items.len()
                invariant
                    inner@ == margin@ + indent@,
                    *j == JsonValue::Array(*items),
                    j@ == Json::Array(items_view(items@)),
                    i <= items@.len(),
                    out@ == before + seq!['['] + pretty_parts(j@, indent@, margin@, i as nat),
                decreases items@.len() - i,
            {
                assert(decreases_to!(*j => j->Array_0@[i as int]));
                assert(j@->Array_0[i as int] == items@[i as int]@);
                if i > 0 {
                    out.push(',');
                }
                out.push('\n');
                out.append(inner.as_str());
                json_pretty_render_into(&items[i], indent, inner.as_str(), out);
                assert(out@ =~= before + seq!['['] + pretty_parts(
                    j@,
                    indent@,
                    margin@,
                    (i + 1) as nat,
                ));
                i = i + 1;
            }
            out.push('\n');
            out.append(margin);
            out.push(']');
            assert(out@ =~= before + pretty(j@, indent@, margin@));
        },
        JsonValue::Object(fields) => {
            if fields.len() == 0 {
                out.append("{}");
                return ;
            }
            out.push('{');
            let mut i: usize = 0;
            assert(out@ =~= before + seq!['{'] + pretty_parts(j@, indent@, margin@, 0));
            while i < fields.len()
                invariant
                    inner@ == margin@ + indent@,
                    *j == JsonValue::Object(*fields),
                    j@ == Json::Object(fields_view(fields@)),
                    i <= fields@.len(),
                    out@ == before + seq!['{'] + pretty_parts(j@, indent@, margin@, i as nat),
                decreases fields@.len() - i,
            {
                assert(decreases_to!(*j => j->Object_0@[i as int].1));
                assert(j@->Object_0[i as int] == (fields@[i as int].0@, fields@[i as int].1@));
                if i > 0 {
                    out.push(',');
                }
                out.push('\n');
                out.append(inner.as_str());
                out.append(quote_json(fields[i].0.as_str()).as_str());
                out.append(": ");
                json_pretty_render_into(&fields[i].1, indent, inner.as_str(), out);
                assert(out@ =~= before + seq!['{'] + pretty_parts(
                    j@,
                    indent@,
                    margin@,
                    (i + 1) as nat,
                ));
                i = i + 1;
            }
            out.push('\n');
            out.append(margin);
            out.push('}');
            assert(out@ =~= before + pretty(j@, indent@, margin@));
        },
        _ => {
            out.append(json_text(j).as_str());
        },
    }
}

/// A document with one item or field on each line.
pub fn json_pretty_render(j: &JsonValue, indent: &str) -> (r: String)
    ensures
        r@ == pretty(j@, indent@, Seq::empty()),
{
    let mut r = String::new();
    let margin = String::new();
    assert(margin@ =~= Seq::<char>::empty());
    json_pretty_render_into(j, indent, margin.as_str(), &mut r);
    assert(r@ =~= pretty(j@, indent@, Seq::empty()));
    r
}

} // verus!
