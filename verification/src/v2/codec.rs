//! Rows as they are stored: with their versions, and what a transaction sees of them.

use vstd::prelude::*;

use crate::common::error::{about, bare, storage, DbError, DbResult, ErrorCode, ErrorView};
use crate::common::json::{
    field, field_from, fields_view, items_view, json_bytes, json_parsed, json_vec,
    lemma_container_views, lemma_same_field, name_items, names, parse_json, record_fields,
    same_json, search_field, storable, Json, JsonValue,
};
use crate::common::schema::{IndexMeta, Schema};
use crate::common::value::{copy_values, DbValue, Row, RowId, SqlValue, TransactionId};
use crate::v2::tx_types::{SnapshotView, TxnSnapshot};
use crate::v2::values_json::{
    json_row, json_to_row, lemma_row_read, lemma_row_storable, opt_row, row_json, row_to_json,
};

verus! {

/// A version of a row.
#[derive(Debug)]
pub struct RowVersion {
    pub row: Row,
    pub created_by_txn: u64,
    pub created_commit_ts: Option<u64>,
    pub deleted_by_txn: Option<u64>,
    pub deleted_commit_ts: Option<u64>,
}

/// The model of a version of a row.
#[verifier::ext_equal]
pub struct VersionView {
    pub row: Seq<SqlValue>,
    pub created_by_txn: u64,
    pub created_commit_ts: Option<u64>,
    pub deleted_by_txn: Option<u64>,
    pub deleted_commit_ts: Option<u64>,
}

impl View for RowVersion {
    type V = VersionView;

    open spec fn view(&self) -> VersionView {
        VersionView {
            row: self.row.deep_view(),
            created_by_txn: self.created_by_txn,
            created_commit_ts: self.created_commit_ts,
            deleted_by_txn: self.deleted_by_txn,
            deleted_commit_ts: self.deleted_commit_ts,
        }
    }
}

impl DeepView for RowVersion {
    type V = VersionView;

    open spec fn deep_view(&self) -> VersionView {
        self@
    }
}

/// A row with its versions, the latest first.
#[derive(Debug)]
pub struct VersionedRow {
    pub versions: Vec<RowVersion>,
}

// ---------------------------------------------------------------------------
// Documents

/// A number that may be missing.
pub open spec fn opt_json(n: Option<u64>) -> Json {
    match n {
        Some(i) => Json::Int(i as int),
        None => Json::Null,
    }
}

/// A version, written.
pub open spec fn version_json(v: VersionView) -> Json {
    Json::Object(
        seq![
            ("row"@, row_json(v.row)),
            ("created_by_txn"@, Json::Int(v.created_by_txn as int)),
            ("created_commit_ts"@, opt_json(v.created_commit_ts)),
            ("deleted_by_txn"@, opt_json(v.deleted_by_txn)),
            ("deleted_commit_ts"@, opt_json(v.deleted_commit_ts)),
        ],
    )
}

/// Versions, each written.
pub open spec fn version_list(versions: Seq<VersionView>) -> Json {
    Json::Array(Seq::new(versions.len(), |i: int| version_json(versions[i])))
}

/// A row with its versions, written.
pub open spec fn versions_json(versions: Seq<VersionView>) -> Json {
    Json::Object(seq![("versions"@, version_list(versions))])
}

/// The number that a document stands for.
pub open spec fn json_number(j: Option<Json>) -> Option<u64> {
    match j {
        Some(Json::Int(i)) => if 0 <= i <= u64::MAX {
            Some(i as u64)
        } else {
            None
        },
        _ => None,
    }
}

/// The number that a document stands for, which may be missing.
pub open spec fn json_optional(j: Option<Json>) -> Option<Option<u64>> {
    match j {
        None => Some(None),
        Some(Json::Null) => Some(None),
        Some(x) => match json_number(Some(x)) {
            Some(n) => Some(Some(n)),
            None => None,
        },
    }
}

/// The version that fields stand for.
pub open spec fn fields_version(fields: Seq<(Seq<char>, Json)>) -> Option<VersionView> {
    match (
        field(fields, "row"@),
        json_number(field(fields, "created_by_txn"@)),
        json_optional(field(fields, "created_commit_ts"@)),
        json_optional(field(fields, "deleted_by_txn"@)),
        json_optional(field(fields, "deleted_commit_ts"@)),
    ) {
        (
            Some(row),
            Some(created_by_txn),
            Some(created_commit_ts),
            Some(deleted_by_txn),
            Some(deleted_commit_ts),
        ) => match json_row(row) {
            Some(values) => Some(
                VersionView {
                    row: values,
                    created_by_txn,
                    created_commit_ts,
                    deleted_by_txn,
                    deleted_commit_ts,
                },
            ),
            None => None,
        },
        _ => None,
    }
}

/// The names of the fields of a version.
pub open spec fn version_names() -> Seq<Seq<char>> {
    seq![
        "row"@,
        "created_by_txn"@,
        "created_commit_ts"@,
        "deleted_by_txn"@,
        "deleted_commit_ts"@,
    ]
}

/// The version that a document stands for.
pub open spec fn json_version(j: Json) -> Option<VersionView> {
    match record_fields(j, version_names()) {
        Some(fields) => fields_version(fields),
        None => None,
    }
}

/// The versions that documents stand for, from one on.
pub open spec fn versions_from(items: Seq<Json>, i: int, out: Seq<VersionView>) -> Option<
    Seq<VersionView>,
>
    decreases items.len() - i,
{
    if i < 0 || i >= items.len() {
        Some(out)
    } else {
        match json_version(items[i]) {
            Some(v) => versions_from(items, i + 1, out.push(v)),
            None => None,
        }
    }
}

/// A row without versions is one that was always there.
pub open spec fn legacy(row: Seq<SqlValue>) -> VersionView {
    VersionView {
        row,
        created_by_txn: 0,
        created_commit_ts: Some(0),
        deleted_by_txn: None,
        deleted_commit_ts: None,
    }
}

/// The versions of a row that a document stands for: either the values alone, or a record of
/// the versions.
pub open spec fn stored(j: Json) -> Option<Seq<VersionView>> {
    match j {
        Json::Array(parts) => match json_row(j) {
            Some(row) => Some(seq![legacy(row)]),
            None => if parts.len() == 1 {
                match parts[0] {
                    Json::Array(items) => versions_from(items, 0, Seq::empty()),
                    _ => None,
                }
            } else {
                None
            },
        },
        Json::Object(fields) => match field(fields, "versions"@) {
            Some(Json::Array(items)) => versions_from(items, 0, Seq::empty()),
            _ => None,
        },
        _ => None,
    }
}

/// The document in some bytes.
pub open spec fn document(bytes: Seq<u8>) -> Result<Json, ErrorView> {
    match json_parsed(bytes) {
        Ok(j) => Ok(j),
        Err(f) => Err(about(ErrorCode::Json, f.message)),
    }
}

/// The versions of a row in some bytes.
pub open spec fn versions_of(bytes: Seq<u8>) -> Result<Seq<VersionView>, ErrorView> {
    match document(bytes) {
        Err(e) => Err(e),
        Ok(j) => match stored(j) {
            Some(v) => Ok(v),
            None => Err(bare(ErrorCode::JsonShape)),
        },
    }
}

/// Reads the document in some bytes.
pub fn read_document(bytes: &[u8]) -> (r: DbResult<JsonValue>)
    ensures
        match r {
            Ok(j) => document(bytes@) == Ok::<Json, ErrorView>(j@),
            Err(e) => document(bytes@) == Err::<Json, ErrorView>(e@),
        },
        forall|j: Json|
            #![trigger json_bytes(j)]
            bytes@ == json_bytes(j) && storable(j, 127) ==> match r {
                Ok(v) => same_json(v@, j),
                Err(_) => false,
            },
{
    match parse_json(bytes) {
        Ok(j) => Ok(j),
        Err(f) => Err(DbError::about(ErrorCode::Json, f.message.as_str())),
    }
}

fn opt_to_json(n: Option<u64>) -> (r: JsonValue)
    ensures
        r@ == opt_json(n),
{
    match n {
        Some(i) => JsonValue::Int(i as i128),
        None => JsonValue::Null,
    }
}

fn version_to_json(v: &RowVersion) -> (r: JsonValue)
    ensures
        r@ == version_json(v@),
{
    let mut fields: Vec<(String, JsonValue)> = Vec::new();
    fields.push(("row".to_owned(), row_to_json(v.row.as_slice())));
    fields.push(("created_by_txn".to_owned(), JsonValue::Int(v.created_by_txn as i128)));
    fields.push(("created_commit_ts".to_owned(), opt_to_json(v.created_commit_ts)));
    fields.push(("deleted_by_txn".to_owned(), opt_to_json(v.deleted_by_txn)));
    fields.push(("deleted_commit_ts".to_owned(), opt_to_json(v.deleted_commit_ts)));
    let r = JsonValue::Object(fields);
    proof {
        lemma_container_views(r);
        assert(fields_view(fields@) =~= version_json(v@)->Object_0);
    }
    r
}

fn write_versions(versions: &Vec<RowVersion>) -> (r: Vec<u8>)
    ensures
        r@ == json_bytes(versions_json(versions.deep_view())),
{
    let mut items: Vec<JsonValue> = Vec::new();
    let mut i: usize = 0;
    while i < versions.len()
        invariant
            i <= versions@.len(),
            items@.len() == i,
            forall|k: int| 0 <= k < i ==> (#[trigger] items@[k])@ == version_json(versions@[k]@),
        decreases versions@.len() - i,
    {
        items.push(version_to_json(&versions[i]));
        i = i + 1;
    }
    let list = JsonValue::Array(items);
    proof {
        lemma_container_views(list);
        assert(items_view(items@) =~= version_list(versions.deep_view())->Array_0);
    }
    let mut fields: Vec<(String, JsonValue)> = Vec::new();
    fields.push(("versions".to_owned(), list));
    let whole = JsonValue::Object(fields);
    proof {
        lemma_container_views(whole);
        assert(fields_view(fields@) =~= versions_json(versions.deep_view())->Object_0);
    }
    json_vec(&whole)
}

fn find_number(fields: &Vec<(String, JsonValue)>, name: &str) -> (r: Option<u64>)
    ensures
        r == json_number(field(fields_view(fields@), name@)),
{
    match search_field(fields, name) {
        Some(i) => match &fields[i].1 {
            JsonValue::Int(n) => if 0 <= *n && *n <= u64::MAX as i128 {
                Some(*n as u64)
            } else {
                None
            },
            _ => None,
        },
        None => None,
    }
}

fn find_optional(fields: &Vec<(String, JsonValue)>, name: &str) -> (r: Option<Option<u64>>)
    ensures
        r == json_optional(field(fields_view(fields@), name@)),
{
    match search_field(fields, name) {
        Some(i) => match &fields[i].1 {
            JsonValue::Null => Some(None),
            JsonValue::Int(n) => if 0 <= *n && *n <= u64::MAX as i128 {
                Some(Some(*n as u64))
            } else {
                None
            },
            _ => None,
        },
        None => Some(None),
    }
}

/// The model of an optional version.
pub open spec fn opt_version(v: Option<RowVersion>) -> Option<VersionView> {
    match v {
        Some(x) => Some(x@),
        None => None,
    }
}

fn fields_to_version(fields: &Vec<(String, JsonValue)>) -> (r: Option<RowVersion>)
    ensures
        opt_version(r) == fields_version(fields_view(fields@)),
{
    let row = match search_field(fields, "row") {
        Some(i) => match json_to_row(&fields[i].1) {
            Some(row) => row,
            None => {
                return None;
            },
        },
        None => {
            return None;
        },
    };
    match (
        find_number(fields, "created_by_txn"),
        find_optional(fields, "created_commit_ts"),
        find_optional(fields, "deleted_by_txn"),
        find_optional(fields, "deleted_commit_ts"),
    ) {
        (
            Some(created_by_txn),
            Some(created_commit_ts),
            Some(deleted_by_txn),
            Some(deleted_commit_ts),
        ) => Some(
            RowVersion { row, created_by_txn, created_commit_ts, deleted_by_txn, deleted_commit_ts },
        ),
        _ => None,
    }
}

fn list_version_names() -> (r: Vec<String>)
    ensures
        r.deep_view() == version_names(),
{
    let mut r: Vec<String> = Vec::new();
    r.push("row".to_owned());
    r.push("created_by_txn".to_owned());
    r.push("created_commit_ts".to_owned());
    r.push("deleted_by_txn".to_owned());
    r.push("deleted_commit_ts".to_owned());
    assert(r.deep_view() =~= version_names());
    r
}

fn json_to_version(j: &JsonValue) -> (r: Option<RowVersion>)
    ensures
        opt_version(r) == json_version(j@),
{
    proof {
        lemma_container_views(*j);
    }
    match j {
        JsonValue::Object(fields) => fields_to_version(fields),
        JsonValue::Array(items) => {
            let names = list_version_names();
            assert(names.deep_view().len() == names@.len());
            if items.len() != names.len() {
                return None;
            }
            let fields = name_items(items, &names);
            fields_to_version(&fields)
        },
        _ => None,
    }
}

/// The model of optional versions.
pub open spec fn opt_versions(v: Option<Vec<RowVersion>>) -> Option<Seq<VersionView>> {
    match v {
        Some(x) => Some(x.deep_view()),
        None => None,
    }
}

fn list_to_versions(items: &Vec<JsonValue>) -> (r: Option<Vec<RowVersion>>)
    ensures
        opt_versions(r) == versions_from(items_view(items@), 0, Seq::empty()),
{
    let mut out: Vec<RowVersion> = Vec::new();
    assert(out.deep_view() =~= Seq::<VersionView>::empty());
    let mut i: usize = 0;
    while i < items.len()
        invariant
            i <= items@.len(),
            versions_from(items_view(items@), i as int, out.deep_view()) == versions_from(
                items_view(items@),
                0,
                Seq::empty(),
            ),
        decreases items@.len() - i,
    {
        assert(items_view(items@)[i as int] == items@[i as int]@);
        match json_to_version(&items[i]) {
            Some(v) => {
                let ghost before = out.deep_view();
                out.push(v);
                assert(out.deep_view() =~= before.push(v@));
            },
            None => {
                return None;
            },
        }
        i = i + 1;
    }
    Some(out)
}

fn json_to_versions(j: &JsonValue) -> (r: Option<Vec<RowVersion>>)
    ensures
        opt_versions(r) == stored(j@),
{
    proof {
        lemma_container_views(*j);
    }
    match j {
        JsonValue::Array(parts) => match json_to_row(j) {
            Some(row) => {
                let mut out: Vec<RowVersion> = Vec::new();
                let version = RowVersion {
                    row,
                    created_by_txn: 0,
                    created_commit_ts: Some(0),
                    deleted_by_txn: None,
                    deleted_commit_ts: None,
                };
                out.push(version);
                assert(out.deep_view() =~= seq![legacy(version.row.deep_view())]);
                Some(out)
            },
            None => {
                if parts.len() != 1 {
                    return None;
                }
                assert(items_view(parts@)[0] == parts@[0]@);
                proof {
                    lemma_container_views(parts@[0]);
                }
                match &parts[0] {
                    JsonValue::Array(items) => list_to_versions(items),
                    _ => None,
                }
            },
        },
        JsonValue::Object(fields) => match search_field(fields, "versions") {
            Some(i) => {
                proof {
                    lemma_container_views(fields@[i as int].1);
                }
                match &fields[i].1 {
                    JsonValue::Array(items) => list_to_versions(items),
                    _ => None,
                }
            },
            None => None,
        },
        _ => None,
    }
}

proof fn lemma_version_names(v: VersionView)
    ensures
        names(version_json(v)->Object_0).no_duplicates(),
        field(version_json(v)->Object_0, "row"@) == Some(row_json(v.row)),
        field(version_json(v)->Object_0, "created_by_txn"@) == Some(
            Json::Int(v.created_by_txn as int),
        ),
        field(version_json(v)->Object_0, "created_commit_ts"@) == Some(
            opt_json(v.created_commit_ts),
        ),
        field(version_json(v)->Object_0, "deleted_by_txn"@) == Some(opt_json(v.deleted_by_txn)),
        field(version_json(v)->Object_0, "deleted_commit_ts"@) == Some(
            opt_json(v.deleted_commit_ts),
        ),
{
    reveal_strlit("row");
    reveal_strlit("created_by_txn");
    reveal_strlit("created_commit_ts");
    reveal_strlit("deleted_by_txn");
    reveal_strlit("deleted_commit_ts");
    assert("row"@.len() == 3 && "created_by_txn"@.len() == 14 && "created_commit_ts"@.len() == 17);
    assert("deleted_by_txn"@.len() == 14 && "deleted_commit_ts"@.len() == 17);
    assert("created_by_txn"@[0] == 'c' && "deleted_by_txn"@[0] == 'd');
    assert("created_commit_ts"@[0] == 'c' && "deleted_commit_ts"@[0] == 'd');
    let fields = version_json(v)->Object_0;
    let n = names(fields);
    assert(n[0] == "row"@ && n[1] == "created_by_txn"@ && n[2] == "created_commit_ts"@);
    assert(n[3] == "deleted_by_txn"@ && n[4] == "deleted_commit_ts"@);
    assert(n.len() == 5);
    reveal_with_fuel(field_from, 6);
}

proof fn lemma_version_read(j: Json, v: VersionView)
    requires
        same_json(j, version_json(v)),
    ensures
        json_version(j) == Some(v),
{
    lemma_version_names(v);
    let x = j->Object_0;
    let y = version_json(v)->Object_0;
    lemma_same_field(x, y, "row"@);
    lemma_same_field(x, y, "created_by_txn"@);
    lemma_same_field(x, y, "created_commit_ts"@);
    lemma_same_field(x, y, "deleted_by_txn"@);
    lemma_same_field(x, y, "deleted_commit_ts"@);
    lemma_row_read(field(x, "row"@)->Some_0, v.row);
}

proof fn lemma_versions_from(items: Seq<Json>, versions: Seq<VersionView>, i: int)
    requires
        0 <= i <= items.len() == versions.len(),
        forall|k: int|
            0 <= k < items.len() ==> same_json(#[trigger] items[k], version_json(versions[k])),
    ensures
        versions_from(items, i, versions.take(i)) == Some(versions),
    decreases items.len() - i,
{
    if i < items.len() {
        lemma_version_read(items[i], versions[i]);
        assert(versions.take(i).push(versions[i]) =~= versions.take(i + 1));
        lemma_versions_from(items, versions, i + 1);
    } else {
        assert(versions.take(i) =~= versions);
    }
}

proof fn lemma_versions_read(j: Json, versions: Seq<VersionView>)
    requires
        same_json(j, versions_json(versions)),
    ensures
        stored(j) == Some(versions),
{
    let x = j->Object_0;
    let y = versions_json(versions)->Object_0;
    assert(names(y).no_duplicates());
    assert(field(y, "versions"@) == Some(version_list(versions)));
    lemma_same_field(x, y, "versions"@);
    let list = field(x, "versions"@)->Some_0;
    let items = list->Array_0;
    assert forall|k: int| 0 <= k < items.len() implies same_json(
        #[trigger] items[k],
        version_json(versions[k]),
    ) by {
        assert(same_json(items[k], version_list(versions)->Array_0[k]));
    }
    lemma_versions_from(items, versions, 0);
    assert(versions.take(0) =~= Seq::empty());
}

proof fn lemma_versions_storable(versions: Seq<VersionView>)
    ensures
        storable(versions_json(versions), 127),
{
    let list = version_list(versions);
    let items = list->Array_0;
    assert forall|i: int| 0 <= i < items.len() implies storable(#[trigger] items[i], 125) by {
        let v = versions[i];
        let fields = items[i]->Object_0;
        lemma_version_names(v);
        lemma_row_storable(v.row, 124);
        assert forall|k: int| 0 <= k < fields.len() implies storable(
            (#[trigger] fields[k]).1,
            124,
        ) by {}
    }
    let fields = versions_json(versions)->Object_0;
    assert(storable(fields[0].1, 126));
    assert(names(fields).no_duplicates());
}

/// The model of a versioned row.
pub open spec fn versioned_view(r: DbResult<VersionedRow>) -> Result<Seq<VersionView>, ErrorView> {
    match r {
        Ok(v) => Ok(v.versions.deep_view()),
        Err(e) => Err(e@),
    }
}

/// What a table holds of a row: the row alone, which all transactions see, or its versions.
pub enum Held {
    Plain(Seq<SqlValue>),
    Versions(Seq<VersionView>),
}

impl Held {
    /// The versions of the row.
    pub open spec fn versions(self) -> Seq<VersionView> {
        match self {
            Held::Plain(row) => seq![legacy(row)],
            Held::Versions(v) => v,
        }
    }

    /// The bytes in which the row is held.
    pub open spec fn bytes(self) -> Seq<u8> {
        match self {
            Held::Plain(row) => json_bytes(row_json(row)),
            Held::Versions(v) => json_bytes(versions_json(v)),
        }
    }
}

/// Reads the versions of a row. Versions that were written are read back, and so is a row
/// that was written without versions.
pub fn decode_versioned_row(bytes: &[u8]) -> (r: DbResult<VersionedRow>)
    ensures
        versioned_view(r) == versions_of(bytes@),
        forall|h: Held|
            bytes@ == #[trigger] h.bytes() ==> versioned_view(r) == Ok::<_, ErrorView>(
                h.versions(),
            ),
{
    let j = read_document(bytes);
    proof {
        assert forall|h: Held| bytes@ == #[trigger] h.bytes() implies j is Ok && stored(j->Ok_0@)
            == Some(h.versions()) by {
            match h {
                Held::Versions(v) => {
                    lemma_versions_storable(v);
                    lemma_versions_read(j->Ok_0@, v);
                },
                Held::Plain(row) => {
                    lemma_row_storable(row, 127);
                    lemma_row_read(j->Ok_0@, row);
                },
            }
        }
    }
    match json_to_versions(&j?) {
        Some(versions) => Ok(VersionedRow { versions }),
        None => Err(DbError::bare(ErrorCode::JsonShape)),
    }
}

/// Writes a row without versions.
pub fn encode_row(row: &Row) -> (r: DbResult<Vec<u8>>)
    ensures
        r matches Ok(bytes) && bytes@ == json_bytes(row_json(row.deep_view())),
{
    let j = row_to_json(row.as_slice());
    Ok(json_vec(&j))
}

/// The latest version of a row, or no values where there is none.
pub open spec fn latest(versions: Seq<VersionView>) -> Seq<SqlValue> {
    if versions.len() > 0 {
        versions[0].row
    } else {
        Seq::empty()
    }
}

/// The latest version of the row in some bytes.
pub open spec fn row_of(bytes: Seq<u8>) -> Result<Seq<SqlValue>, ErrorView> {
    match versions_of(bytes) {
        Ok(versions) => Ok(latest(versions)),
        Err(e) => Err(e),
    }
}

/// The model of a row or an error.
pub open spec fn row_result(r: DbResult<Row>) -> Result<Seq<SqlValue>, ErrorView> {
    match r {
        Ok(v) => Ok(v.deep_view()),
        Err(e) => Err(e@),
    }
}

/// Reads the latest version of a row. A row that was written is read back.
pub fn decode_row(bytes: &[u8]) -> (r: DbResult<Row>)
    ensures
        row_result(r) == row_of(bytes@),
        forall|h: Held|
            bytes@ == #[trigger] h.bytes() ==> row_result(r) == Ok::<_, ErrorView>(
                latest(h.versions()),
            ),
{
    let versioned = decode_versioned_row(bytes)?;
    if versioned.versions.len() > 0 {
        Ok(copy_values(versioned.versions[0].row.as_slice()))
    } else {
        let none: Row = Vec::new();
        assert(none.deep_view() =~= Seq::<SqlValue>::empty());
        Ok(none)
    }
}

// ---------------------------------------------------------------------------
// Versions and what is seen of them

/// A version that a transaction has made and not committed.
pub open spec fn fresh(row: Seq<SqlValue>, txn: u64) -> VersionView {
    VersionView {
        row,
        created_by_txn: txn,
        created_commit_ts: None,
        deleted_by_txn: None,
        deleted_commit_ts: None,
    }
}

/// Writes a row as a transaction makes it.
pub fn encode_uncommitted_row_version(row: &Row, txn_id: u64) -> (r: DbResult<Vec<u8>>)
    ensures
        r matches Ok(bytes) && bytes@ == json_bytes(
            versions_json(seq![fresh(row.deep_view(), txn_id)]),
        ),
{
    let mut versions: Vec<RowVersion> = Vec::new();
    versions.push(
        RowVersion {
            row: copy_values(row.as_slice()),
            created_by_txn: txn_id,
            created_commit_ts: None,
            deleted_by_txn: None,
            deleted_commit_ts: None,
        },
    );
    assert(versions.deep_view() =~= seq![fresh(row.deep_view(), txn_id)]);
    Ok(write_versions(&versions))
}

/// Whether what a transaction did at a commit, or has not committed, counts for another.
pub open spec fn counts(by: u64, commit_ts: Option<u64>, txn: u64, snapshot: SnapshotView) -> bool {
    match commit_ts {
        Some(ts) => ts <= snapshot.visible_up_to && !snapshot.active_txns.contains(
            TransactionId(by),
        ),
        None => by == txn,
    }
}

/// Whether a transaction sees a version: it was made for it, and not deleted for it.
pub open spec fn sees(v: VersionView, txn: u64, snapshot: SnapshotView) -> bool {
    &&& counts(v.created_by_txn, v.created_commit_ts, txn, snapshot)
    &&& v.deleted_by_txn != Some(txn)
    &&& !(v.deleted_by_txn is Some && v.deleted_commit_ts is Some && counts(
        v.deleted_by_txn->Some_0,
        v.deleted_commit_ts,
        txn,
        snapshot,
    ))
}

/// The first version from one on that a transaction sees.
pub open spec fn seen_from(
    versions: Seq<VersionView>,
    txn: u64,
    snapshot: SnapshotView,
    i: int,
) -> Option<int>
    decreases versions.len() - i,
{
    if i < 0 || i >= versions.len() {
        None
    } else if sees(versions[i], txn, snapshot) {
        Some(i)
    } else {
        seen_from(versions, txn, snapshot, i + 1)
    }
}

fn version_visible_to_snapshot(
    version_txn_id: u64,
    commit_ts: Option<u64>,
    current_txn_id: u64,
    snapshot: &TxnSnapshot,
) -> (r: bool)
    ensures
        r == counts(version_txn_id, commit_ts, current_txn_id, snapshot.deep_view()),
{
    match commit_ts {
        Some(ts) => ts <= snapshot.visible_up_to && !snapshot.active_txns.contains(
            &TransactionId(version_txn_id),
        ),
        None => version_txn_id == current_txn_id,
    }
}

fn is_seen(v: &RowVersion, txn_id: u64, snapshot: &TxnSnapshot) -> (r: bool)
    ensures
        r == sees(v@, txn_id, snapshot.deep_view()),
{
    if !version_visible_to_snapshot(v.created_by_txn, v.created_commit_ts, txn_id, snapshot) {
        return false;
    }
    match v.deleted_by_txn {
        None => true,
        Some(by) => {
            if by == txn_id {
                return false;
            }
            match v.deleted_commit_ts {
                None => true,
                Some(ts) => !version_visible_to_snapshot(by, Some(ts), txn_id, snapshot),
            }
        },
    }
}

fn first_seen(versions: &Vec<RowVersion>, txn_id: u64, snapshot: &TxnSnapshot) -> (r: Option<usize>)
    ensures
        match r {
            Some(i) => i < versions@.len() && seen_from(
                versions.deep_view(),
                txn_id,
                snapshot.deep_view(),
                0,
            ) == Some(i as int),
            None => seen_from(versions.deep_view(), txn_id, snapshot.deep_view(), 0) is None,
        },
{
    let mut i: usize = 0;
    while i < versions.len()
        invariant
            i <= versions@.len(),
            seen_from(versions.deep_view(), txn_id, snapshot.deep_view(), i as int) == seen_from(
                versions.deep_view(),
                txn_id,
                snapshot.deep_view(),
                0,
            ),
        decreases versions@.len() - i,
    {
        assert(versions.deep_view()[i as int] == versions@[i as int]@);
        if is_seen(&versions[i], txn_id, snapshot) {
            return Some(i);
        }
        i = i + 1;
    }
    None
}

/// What a transaction sees of versions.
pub open spec fn seen(versions: Seq<VersionView>, txn: u64, snapshot: SnapshotView) -> Option<
    Seq<SqlValue>,
> {
    match seen_from(versions, txn, snapshot, 0) {
        Some(i) => Some(versions[i].row),
        None => None,
    }
}

/// What a transaction sees of the row in some bytes.
pub open spec fn seen_row(bytes: Seq<u8>, txn: u64, snapshot: SnapshotView) -> Result<
    Option<Seq<SqlValue>>,
    ErrorView,
> {
    match versions_of(bytes) {
        Err(e) => Err(e),
        Ok(versions) => Ok(seen(versions, txn, snapshot)),
    }
}

/// The model of an optional row or an error.
pub open spec fn opt_row_result(r: DbResult<Option<Row>>) -> Result<
    Option<Seq<SqlValue>>,
    ErrorView,
> {
    match r {
        Ok(v) => Ok(opt_row(v)),
        Err(e) => Err(e@),
    }
}

/// What a transaction sees of a row.
pub fn visible_row(bytes: &[u8], txn_id: u64, snapshot: &TxnSnapshot) -> (r: DbResult<Option<Row>>)
    ensures
        opt_row_result(r) == seen_row(bytes@, txn_id, snapshot.deep_view()),
        forall|h: Held|
            bytes@ == #[trigger] h.bytes() ==> opt_row_result(r) == Ok::<_, ErrorView>(
                seen(h.versions(), txn_id, snapshot.deep_view()),
            ),
{
    let versioned = decode_versioned_row(bytes)?;
    match first_seen(&versioned.versions, txn_id, snapshot) {
        Some(i) => {
            assert(versioned.versions.deep_view()[i as int] == versioned.versions@[i as int]@);
            let row = copy_values(versioned.versions[i].row.as_slice());
            Ok(Some(row))
        },
        None => Ok(None),
    }
}

/// A version that a transaction has deleted.
pub open spec fn deleted(v: VersionView, txn: u64) -> VersionView {
    VersionView { deleted_by_txn: Some(txn), deleted_commit_ts: None, ..v }
}

/// Versions once a transaction has deleted what it sees.
pub open spec fn with_deleted(versions: Seq<VersionView>, txn: u64, snapshot: SnapshotView) -> Option<
    Seq<VersionView>,
> {
    match seen_from(versions, txn, snapshot, 0) {
        Some(i) => Some(versions.update(i, deleted(versions[i], txn))),
        None => None,
    }
}

/// Versions as they are written, where there are any.
pub open spec fn written(versions: Option<Seq<VersionView>>) -> Option<Seq<u8>> {
    match versions {
        Some(v) => Some(json_bytes(versions_json(v))),
        None => None,
    }
}

/// What a transaction makes of the row in some bytes by deleting it.
pub open spec fn deleted_bytes(bytes: Seq<u8>, txn: u64, snapshot: SnapshotView) -> Result<
    Option<Seq<u8>>,
    ErrorView,
> {
    match versions_of(bytes) {
        Err(e) => Err(e),
        Ok(versions) => match with_deleted(versions, txn, snapshot) {
            Some(after) => Ok(Some(json_bytes(versions_json(after)))),
            None => Ok(None),
        },
    }
}

/// The model of optional bytes or an error.
pub open spec fn opt_bytes_result(r: DbResult<Option<Vec<u8>>>) -> Result<
    Option<Seq<u8>>,
    ErrorView,
> {
    match r {
        Ok(Some(v)) => Ok(Some(v@)),
        Ok(None) => Ok(None),
        Err(e) => Err(e@),
    }
}

/// Deletes what a transaction sees of a row.
pub fn mark_row_deleted(bytes: &[u8], txn_id: u64, snapshot: &TxnSnapshot) -> (r: DbResult<
    Option<Vec<u8>>,
>)
    ensures
        opt_bytes_result(r) == deleted_bytes(bytes@, txn_id, snapshot.deep_view()),
        forall|h: Held|
            bytes@ == #[trigger] h.bytes() ==> opt_bytes_result(r) == Ok::<_, ErrorView>(
                written(with_deleted(h.versions(), txn_id, snapshot.deep_view())),
            ),
{
    let versioned = decode_versioned_row(bytes)?;
    let mut versions = versioned.versions;
    let ghost before = versions.deep_view();
    match first_seen(&versions, txn_id, snapshot) {
        Some(i) => {
            delete_version(&mut versions, i, txn_id);
            Ok(Some(write_versions(&versions)))
        },
        None => Ok(None),
    }
}

fn delete_version(versions: &mut Vec<RowVersion>, i: usize, txn_id: u64)
    requires
        i < old(versions)@.len(),
    ensures
        final(versions).deep_view() == old(versions).deep_view().update(
            i as int,
            deleted(old(versions).deep_view()[i as int], txn_id),
        ),
{
    let ghost before = versions.deep_view();
    let version = RowVersion {
        row: copy_values(versions[i].row.as_slice()),
        created_by_txn: versions[i].created_by_txn,
        created_commit_ts: versions[i].created_commit_ts,
        deleted_by_txn: Some(txn_id),
        deleted_commit_ts: None,
    };
    assert(version@ =~= deleted(before[i as int], txn_id));
    versions.set(i, version);
    assert(versions.deep_view() =~= before.update(i as int, deleted(before[i as int], txn_id)));
}

/// Versions once a transaction has changed what it sees: a version of its own is replaced, one
/// of another transaction is deleted and gets a successor.
pub open spec fn with_changed(
    versions: Seq<VersionView>,
    row: Seq<SqlValue>,
    txn: u64,
    snapshot: SnapshotView,
) -> Option<Seq<VersionView>> {
    match seen_from(versions, txn, snapshot, 0) {
        None => None,
        Some(i) => if versions[i].created_by_txn == txn && versions[i].created_commit_ts is None {
            Some(versions.update(i, VersionView { row, ..versions[i] }))
        } else {
            Some(versions.update(i, deleted(versions[i], txn)).insert(0, fresh(row, txn)))
        },
    }
}

/// What a transaction makes of the row in some bytes by changing it.
pub open spec fn changed_bytes(
    bytes: Seq<u8>,
    row: Seq<SqlValue>,
    txn: u64,
    snapshot: SnapshotView,
) -> Result<Option<Seq<u8>>, ErrorView> {
    match versions_of(bytes) {
        Err(e) => Err(e),
        Ok(versions) => match with_changed(versions, row, txn, snapshot) {
            Some(after) => Ok(Some(json_bytes(versions_json(after)))),
            None => Ok(None),
        },
    }
}

/// Changes what a transaction sees of a row.
pub fn append_row_version(bytes: &[u8], row: &Row, txn_id: u64, snapshot: &TxnSnapshot) -> (r:
    DbResult<Option<Vec<u8>>>)
    ensures
        opt_bytes_result(r) == changed_bytes(
            bytes@,
            row.deep_view(),
            txn_id,
            snapshot.deep_view(),
        ),
        forall|h: Held|
            bytes@ == #[trigger] h.bytes() ==> opt_bytes_result(r) == Ok::<_, ErrorView>(
                written(
                    with_changed(h.versions(), row.deep_view(), txn_id, snapshot.deep_view()),
                ),
            ),
{
    let versioned = decode_versioned_row(bytes)?;
    let mut versions = versioned.versions;
    let ghost before = versions.deep_view();
    match first_seen(&versions, txn_id, snapshot) {
        None => Ok(None),
        Some(i) => {
            assert(before[i as int] == versions@[i as int]@);
            if versions[i].created_by_txn == txn_id && versions[i].created_commit_ts.is_none() {
                let version = RowVersion {
                    row: copy_values(row.as_slice()),
                    created_by_txn: versions[i].created_by_txn,
                    created_commit_ts: versions[i].created_commit_ts,
                    deleted_by_txn: versions[i].deleted_by_txn,
                    deleted_commit_ts: versions[i].deleted_commit_ts,
                };
                assert(version@ =~= VersionView { row: row.deep_view(), ..before[i as int] });
                versions.set(i, version);
                assert(versions.deep_view() =~= before.update(i as int, version@));
                Ok(Some(write_versions(&versions)))
            } else {
                delete_version(&mut versions, i, txn_id);
                let ghost middle = versions.deep_view();
                let version = RowVersion {
                    row: copy_values(row.as_slice()),
                    created_by_txn: txn_id,
                    created_commit_ts: None,
                    deleted_by_txn: None,
                    deleted_commit_ts: None,
                };
                assert(version@ =~= fresh(row.deep_view(), txn_id));
                versions.insert(0, version);
                assert(versions.deep_view() =~= middle.insert(0, version@));
                Ok(Some(write_versions(&versions)))
            }
        },
    }
}

/// A version once a transaction has committed.
pub open spec fn finalized(v: VersionView, txn: u64, ts: u64) -> VersionView {
    VersionView {
        created_commit_ts: if v.created_by_txn == txn && v.created_commit_ts is None {
            Some(ts)
        } else {
            v.created_commit_ts
        },
        deleted_commit_ts: if v.deleted_by_txn == Some(txn) && v.deleted_commit_ts is None {
            Some(ts)
        } else {
            v.deleted_commit_ts
        },
        ..v
    }
}

/// Versions once a transaction has committed.
pub open spec fn all_finalized(versions: Seq<VersionView>, txn: u64, ts: u64) -> Seq<VersionView> {
    Seq::new(versions.len(), |i: int| finalized(versions[i], txn, ts))
}

/// The row in some bytes once a transaction has committed.
pub open spec fn finalized_bytes(bytes: Seq<u8>, txn: u64, ts: u64) -> Result<Seq<u8>, ErrorView> {
    match versions_of(bytes) {
        Err(e) => Err(e),
        Ok(versions) => Ok(json_bytes(versions_json(all_finalized(versions, txn, ts)))),
    }
}

/// The model of bytes or an error.
pub open spec fn bytes_result(r: DbResult<Vec<u8>>) -> Result<Seq<u8>, ErrorView> {
    match r {
        Ok(v) => Ok(v@),
        Err(e) => Err(e@),
    }
}

/// Notes the commit of a transaction in the versions of a row.
pub fn finalize_row_versions(bytes: &[u8], txn_id: u64, commit_ts: u64) -> (r: DbResult<Vec<u8>>)
    ensures
        bytes_result(r) == finalized_bytes(bytes@, txn_id, commit_ts),
        forall|h: Held|
            bytes@ == #[trigger] h.bytes() ==> bytes_result(r) == Ok::<_, ErrorView>(
                json_bytes(versions_json(all_finalized(h.versions(), txn_id, commit_ts))),
            ),
{
    let versioned = decode_versioned_row(bytes)?;
    let mut out: Vec<RowVersion> = Vec::new();
    let mut i: usize = 0;
    while i < versioned.versions.len()
        invariant
            i <= versioned.versions@.len(),
            out@.len() == i,
            forall|k: int|
                0 <= k < i ==> (#[trigger] out@[k])@ == finalized(
                    versioned.versions@[k]@,
                    txn_id,
                    commit_ts,
                ),
        decreases versioned.versions@.len() - i,
    {
        let v: &RowVersion = &versioned.versions[i];
        let created = v.created_by_txn == txn_id && v.created_commit_ts.is_none();
        let removed = match v.deleted_by_txn {
            Some(by) => by == txn_id && v.deleted_commit_ts.is_none(),
            None => false,
        };
        let version = RowVersion {
            row: copy_values(v.row.as_slice()),
            created_by_txn: v.created_by_txn,
            created_commit_ts: if created {
                Some(commit_ts)
            } else {
                v.created_commit_ts
            },
            deleted_by_txn: v.deleted_by_txn,
            deleted_commit_ts: if removed {
                Some(commit_ts)
            } else {
                v.deleted_commit_ts
            },
        };
        assert(version@ =~= finalized(v@, txn_id, commit_ts));
        out.push(version);
        i = i + 1;
    }
    assert(out.deep_view() =~= all_finalized(versioned.versions.deep_view(), txn_id, commit_ts));
    Ok(write_versions(&out))
}

/// Whether a version is still wanted: it was not deleted by the horizon.
pub open spec fn wanted(v: VersionView, horizon: u64) -> bool {
    !(v.deleted_commit_ts is Some && v.deleted_commit_ts->Some_0 <= horizon)
}

/// The versions that are still wanted, from one on.
pub open spec fn kept_from(versions: Seq<VersionView>, horizon: u64, i: int, out: Seq<VersionView>) -> Seq<
    VersionView,
>
    decreases versions.len() - i,
{
    if i < 0 || i >= versions.len() {
        out
    } else if wanted(versions[i], horizon) {
        kept_from(versions, horizon, i + 1, out.push(versions[i]))
    } else {
        kept_from(versions, horizon, i + 1, out)
    }
}

/// The row in some bytes without the versions that nobody wants, if any is left.
pub open spec fn kept_bytes(bytes: Seq<u8>, horizon: u64) -> Result<Option<Seq<u8>>, ErrorView> {
    match versions_of(bytes) {
        Err(e) => Err(e),
        Ok(versions) => Ok(kept_text(kept_from(versions, horizon, 0, Seq::empty()))),
    }
}

/// The bytes of versions, if there are any.
pub open spec fn kept_text(kept: Seq<VersionView>) -> Option<Seq<u8>> {
    if kept.len() == 0 {
        None
    } else {
        Some(json_bytes(versions_json(kept)))
    }
}

/// Drops the versions of a row that nobody wants any more.
pub fn retained_versions(bytes: &[u8], purge_horizon: u64) -> (r: DbResult<Option<Vec<u8>>>)
    ensures
        opt_bytes_result(r) == kept_bytes(bytes@, purge_horizon),
        forall|h: Held|
            bytes@ == #[trigger] h.bytes() ==> opt_bytes_result(r) == Ok::<_, ErrorView>(
                kept_text(kept_from(h.versions(), purge_horizon, 0, Seq::empty())),
            ),
{
    let versioned = decode_versioned_row(bytes)?;
    let ghost all = versioned.versions.deep_view();
    let mut out: Vec<RowVersion> = Vec::new();
    assert(out.deep_view() =~= Seq::<VersionView>::empty());
    let mut i: usize = 0;
    while i < versioned.versions.len()
        invariant
            i <= versioned.versions@.len(),
            all == versioned.versions.deep_view(),
            kept_from(all, purge_horizon, i as int, out.deep_view()) == kept_from(
                all,
                purge_horizon,
                0,
                Seq::empty(),
            ),
        decreases versioned.versions@.len() - i,
    {
        let v: &RowVersion = &versioned.versions[i];
        assert(all[i as int] == v@);
        let gone = match v.deleted_commit_ts {
            Some(ts) => ts <= purge_horizon,
            None => false,
        };
        if !gone {
            let ghost before = out.deep_view();
            let copy = RowVersion {
                row: copy_values(v.row.as_slice()),
                created_by_txn: v.created_by_txn,
                created_commit_ts: v.created_commit_ts,
                deleted_by_txn: v.deleted_by_txn,
                deleted_commit_ts: v.deleted_commit_ts,
            };
            assert(copy@ =~= v@);
            out.push(copy);
            assert(out.deep_view() =~= before.push(v@));
        }
        i = i + 1;
    }
    if out.len() == 0 {
        return Ok(None);
    }
    Ok(Some(write_versions(&out)))
}

// ---------------------------------------------------------------------------
// Keys of indexes and lists of rows

/// The key in some bytes.
pub open spec fn key_of(bytes: Seq<u8>) -> Result<Seq<SqlValue>, ErrorView> {
    match document(bytes) {
        Err(e) => Err(e),
        Ok(j) => match json_row(j) {
            Some(v) => Ok(v),
            None => Err(bare(ErrorCode::JsonShape)),
        },
    }
}

/// Writes the key of an index.
pub fn encode_index_key(values: &[DbValue]) -> (r: DbResult<Vec<u8>>)
    ensures
        r matches Ok(bytes) && bytes@ == json_bytes(row_json(values.deep_view())),
{
    let j = row_to_json(values);
    Ok(json_vec(&j))
}

/// Reads the key of an index. A key that was written is read back.
pub fn decode_index_key(bytes: &[u8]) -> (r: DbResult<Vec<DbValue>>)
    ensures
        row_result(r) == key_of(bytes@),
        forall|key: Seq<SqlValue>|
            #![trigger row_json(key)]
            bytes@ == json_bytes(row_json(key)) ==> row_result(r) == Ok::<_, ErrorView>(key),
{
    let j = read_document(bytes);
    proof {
        assert forall|key: Seq<SqlValue>|
            #![trigger row_json(key)]
            bytes@ == json_bytes(row_json(key)) implies j is Ok && json_row(j->Ok_0@) == Some(
            key,
        ) by {
            lemma_row_storable(key, 127);
            lemma_row_read(j->Ok_0@, key);
        }
    }
    match json_to_row(&j?) {
        Some(v) => Ok(v),
        None => Err(DbError::bare(ErrorCode::JsonShape)),
    }
}

/// Numbers of rows, written.
pub open spec fn ids_json(ids: Seq<RowId>) -> Json {
    Json::Array(Seq::new(ids.len(), |i: int| Json::Int(ids[i].0 as int)))
}

/// The numbers of rows that documents stand for, from one on.
pub open spec fn ids_from(items: Seq<Json>, i: int, out: Seq<RowId>) -> Option<Seq<RowId>>
    decreases items.len() - i,
{
    if i < 0 || i >= items.len() {
        Some(out)
    } else {
        match json_number(Some(items[i])) {
            Some(n) => ids_from(items, i + 1, out.push(RowId(n))),
            None => None,
        }
    }
}

/// The numbers of rows that a document holds.
pub open spec fn json_ids(j: Json) -> Option<Seq<RowId>> {
    match j {
        Json::Array(items) => ids_from(items, 0, Seq::empty()),
        _ => None,
    }
}

/// The numbers of rows in some bytes.
pub open spec fn ids_of(bytes: Seq<u8>) -> Result<Seq<RowId>, ErrorView> {
    match document(bytes) {
        Err(e) => Err(e),
        Ok(j) => match json_ids(j) {
            Some(v) => Ok(v),
            None => Err(bare(ErrorCode::JsonShape)),
        },
    }
}

/// Writes the numbers of rows.
pub fn encode_row_ids(row_ids: &[RowId]) -> (r: DbResult<Vec<u8>>)
    ensures
        r matches Ok(bytes) && bytes@ == json_bytes(ids_json(row_ids@)),
{
    let mut items: Vec<JsonValue> = Vec::new();
    let mut i: usize = 0;
    while i < row_ids.len()
        invariant
            i <= row_ids@.len(),
            items@.len() == i,
            forall|k: int|
                0 <= k < i ==> (#[trigger] items@[k])@ == Json::Int(row_ids@[k].0 as int),
        decreases row_ids@.len() - i,
    {
        items.push(JsonValue::Int(row_ids[i].0 as i128));
        i = i + 1;
    }
    let j = JsonValue::Array(items);
    proof {
        lemma_container_views(j);
        assert(items_view(items@) =~= ids_json(row_ids@)->Array_0);
    }
    Ok(json_vec(&j))
}

/// The model of numbers of rows or an error.
pub open spec fn ids_result(r: DbResult<Vec<RowId>>) -> Result<Seq<RowId>, ErrorView> {
    match r {
        Ok(v) => Ok(v@),
        Err(e) => Err(e@),
    }
}

fn json_to_ids(j: &JsonValue) -> (r: Option<Vec<RowId>>)
    ensures
        match r {
            Some(v) => json_ids(j@) == Some(v@),
            None => json_ids(j@) is None,
        },
{
    proof {
        lemma_container_views(*j);
    }
    match j {
        JsonValue::Array(items) => {
            let mut out: Vec<RowId> = Vec::new();
            let mut i: usize = 0;
            while i < items.len()
                invariant
                    i <= items@.len(),
                    j@ == Json::Array(items_view(items@)),
                    ids_from(items_view(items@), i as int, out@) == json_ids(j@),
                decreases items@.len() - i,
            {
                assert(items_view(items@)[i as int] == items@[i as int]@);
                match &items[i] {
                    JsonValue::Int(n) => {
                        if *n < 0 || *n > u64::MAX as i128 {
                            return None;
                        }
                        out.push(RowId(*n as u64));
                    },
                    _ => {
                        return None;
                    },
                }
                i = i + 1;
            }
            Some(out)
        },
        _ => None,
    }
}

proof fn lemma_ids_from(items: Seq<Json>, ids: Seq<RowId>, i: int)
    requires
        0 <= i <= items.len() == ids.len(),
        forall|k: int| 0 <= k < items.len() ==> #[trigger] items[k] == Json::Int(ids[k].0 as int),
    ensures
        ids_from(items, i, ids.take(i)) == Some(ids),
    decreases items.len() - i,
{
    if i < items.len() {
        assert(items[i] == Json::Int(ids[i].0 as int));
        assert(ids.take(i).push(ids[i]) =~= ids.take(i + 1));
        lemma_ids_from(items, ids, i + 1);
    } else {
        assert(ids.take(i) =~= ids);
    }
}

/// Reads the numbers of rows. Numbers that were written are read back.
pub fn decode_row_ids(bytes: &[u8]) -> (r: DbResult<Vec<RowId>>)
    ensures
        ids_result(r) == ids_of(bytes@),
        forall|ids: Seq<RowId>|
            #![trigger ids_json(ids)]
            bytes@ == json_bytes(ids_json(ids)) ==> ids_result(r) == Ok::<_, ErrorView>(ids),
{
    let j = read_document(bytes);
    proof {
        assert forall|ids: Seq<RowId>|
            #![trigger ids_json(ids)]
            bytes@ == json_bytes(ids_json(ids)) implies j is Ok && json_ids(j->Ok_0@) == Some(
            ids,
        ) by {
            let items = ids_json(ids)->Array_0;
            assert forall|i: int| 0 <= i < items.len() implies storable(
                #[trigger] items[i],
                126,
            ) by {}
            assert(storable(ids_json(ids), 127));
            let read = j->Ok_0@->Array_0;
            assert(same_json(j->Ok_0@, ids_json(ids)));
            assert forall|k: int| 0 <= k < read.len() implies #[trigger] read[k] == Json::Int(
                ids[k].0 as int,
            ) by {
                assert(same_json(read[k], items[k]));
            }
            lemma_ids_from(read, ids, 0);
            assert(ids.take(0) =~= Seq::empty());
        }
    }
    match json_to_ids(&j?) {
        Some(v) => Ok(v),
        None => Err(DbError::bare(ErrorCode::JsonShape)),
    }
}

/// The failure of a column that a table does not have.
pub open spec fn no_column(column: Seq<char>, table: Seq<char>) -> ErrorView {
    storage("unknown column "@ + column + " on table "@ + table)
}

/// The failure of a row that is too short.
pub open spec fn no_value(column: Seq<char>, table: Seq<char>) -> ErrorView {
    storage("row for table "@ + table + " is missing column "@ + column)
}

/// The key of a row in an index, from a column on.
pub open spec fn projected_from(
    schema: Schema,
    columns: Seq<Seq<char>>,
    row: Seq<SqlValue>,
    i: int,
    out: Seq<SqlValue>,
) -> Result<Seq<SqlValue>, ErrorView>
    decreases columns.len() - i,
{
    if i < 0 || i >= columns.len() {
        Ok(out)
    } else {
        match schema.position(columns[i]) {
            None => Err(no_column(columns[i], schema.name@)),
            Some(k) => if k < row.len() {
                projected_from(schema, columns, row, i + 1, out.push(row[k]))
            } else {
                Err(no_value(columns[i], schema.name@))
            },
        }
    }
}

/// The key of a row in an index.
pub open spec fn projected(schema: Schema, columns: Seq<Seq<char>>, row: Seq<SqlValue>) -> Result<
    Seq<SqlValue>,
    ErrorView,
> {
    projected_from(schema, columns, row, 0, Seq::empty())
}

fn fail_no_column(column: &str, table: &str) -> (r: DbError)
    ensures
        r@ == no_column(column@, table@),
{
    let mut message = "unknown column ".to_owned();
    message.append(column);
    message.append(" on table ");
    message.append(table);
    DbError::storage(message.as_str())
}

fn fail_no_value(column: &str, table: &str) -> (r: DbError)
    ensures
        r@ == no_value(column@, table@),
{
    let mut message = "row for table ".to_owned();
    message.append(table);
    message.append(" is missing column ");
    message.append(column);
    DbError::storage(message.as_str())
}

/// The key of a row in an index: the values of its columns, in their order.
pub fn project_index_key(schema: &Schema, index: &IndexMeta, row: &Row) -> (r: DbResult<
    Vec<DbValue>,
>)
    ensures
        row_result(r) == projected(*schema, index.columns.deep_view(), row.deep_view()),
{
    let mut out: Vec<DbValue> = Vec::new();
    assert(out.deep_view() =~= Seq::<SqlValue>::empty());
    let mut i: usize = 0;
    while i < index.columns.len()
        invariant
            i <= index.columns@.len(),
            projected_from(*schema, index.columns.deep_view(), row.deep_view(), i as int, out.deep_view())
                == projected(*schema, index.columns.deep_view(), row.deep_view()),
        decreases index.columns@.len() - i,
    {
        let column: &String = &index.columns[i];
        assert(index.columns.deep_view()[i as int] == column@);
        match schema.column_index(column.as_str()) {
            None => {
                return Err(fail_no_column(column.as_str(), schema.name.as_str()));
            },
            Some(k) => {
                if k >= row.len() {
                    return Err(fail_no_value(column.as_str(), schema.name.as_str()));
                }
                let ghost before = out.deep_view();
                out.push(row[k].copy());
                assert(out.deep_view() =~= before.push(row.deep_view()[k as int]));
            },
        }
        i = i + 1;
    }
    Ok(out)
}

// ---------------------------------------------------------------------------
// Laws

/// A row that a transaction has made and not committed is seen by that transaction, and by no
/// other.
pub proof fn law_uncommitted_rows_are_private(
    row: Seq<SqlValue>,
    txn: u64,
    other: u64,
    snapshot: SnapshotView,
)
    ensures
        seen(seq![fresh(row, txn)], txn, snapshot) == Some(row),
        other != txn ==> seen(seq![fresh(row, txn)], other, snapshot) is None,
{
    reveal_with_fuel(seen_from, 3);
}

/// A committed row is seen by exactly those transactions whose snapshot was taken after the
/// commit.
pub proof fn law_committed_rows_are_seen_later(
    row: Seq<SqlValue>,
    txn: u64,
    ts: u64,
    reader: u64,
    snapshot: SnapshotView,
)
    ensures
        seen(all_finalized(seq![fresh(row, txn)], txn, ts), reader, snapshot) == if ts
            <= snapshot.visible_up_to && !snapshot.active_txns.contains(TransactionId(txn)) {
            Some(row)
        } else {
            None
        },
{
    let after = all_finalized(seq![fresh(row, txn)], txn, ts);
    assert(after[0] == finalized(fresh(row, txn), txn, ts));
    reveal_with_fuel(seen_from, 3);
}

/// A transaction that has changed what it sees of a row sees the change.
pub proof fn law_changes_are_seen_by_their_maker(
    versions: Seq<VersionView>,
    row: Seq<SqlValue>,
    txn: u64,
    snapshot: SnapshotView,
)
    requires
        seen(versions, txn, snapshot) is Some,
    ensures
        with_changed(versions, row, txn, snapshot) matches Some(after) && seen(
            after,
            txn,
            snapshot,
        ) == Some(row),
{
    let i = seen_from(versions, txn, snapshot, 0)->Some_0;
    lemma_seen_from(versions, txn, snapshot, 0);
    let after = with_changed(versions, row, txn, snapshot)->Some_0;
    if versions[i].created_by_txn == txn && versions[i].created_commit_ts is None {
        assert(sees(after[i], txn, snapshot));
        assert forall|k: int| 0 <= k < i implies !sees(#[trigger] after[k], txn, snapshot) by {
            assert(after[k] == versions[k]);
        }
        lemma_seen_at(after, txn, snapshot, 0, i);
    } else {
        assert(after[0] == fresh(row, txn));
        assert(seen_from(after, txn, snapshot, 0) == Some(0int));
    }
}

/// What a transaction changes or deletes is unchanged for every other transaction until it
/// commits.
pub proof fn law_uncommitted_changes_are_private(
    versions: Seq<VersionView>,
    row: Seq<SqlValue>,
    txn: u64,
    snapshot: SnapshotView,
    other: u64,
    view: SnapshotView,
)
    requires
        other != txn,
        seen_from(versions, txn, snapshot, 0) matches Some(i) ==> !(versions[i].deleted_by_txn is Some
            && versions[i].deleted_commit_ts is Some) && versions[i].deleted_by_txn != Some(other),
    ensures
        with_changed(versions, row, txn, snapshot) matches Some(after) ==> seen(after, other, view)
            == seen(versions, other, view),
        with_deleted(versions, txn, snapshot) matches Some(after) ==> seen(after, other, view)
            == seen(versions, other, view),
{
    match seen_from(versions, txn, snapshot, 0) {
        None => {},
        Some(i) => {
            lemma_seen_from(versions, txn, snapshot, 0);
            lemma_seen_from(versions, other, view, 0);
            let gone = versions.update(i, deleted(versions[i], txn));
            assert forall|k: int| 0 <= k < versions.len() implies sees(
                #[trigger] gone[k],
                other,
                view,
            ) == sees(versions[k], other, view) by {}
            lemma_same_seen(versions, gone, other, view, 0);
            let after = with_changed(versions, row, txn, snapshot)->Some_0;
            if versions[i].created_by_txn == txn && versions[i].created_commit_ts is None {
                assert forall|k: int| 0 <= k < versions.len() implies sees(
                    #[trigger] after[k],
                    other,
                    view,
                ) == sees(versions[k], other, view) by {}
                lemma_same_seen(versions, after, other, view, 0);
                assert(!sees(versions[i], other, view));
            } else {
                assert(!sees(after[0], other, view));
                lemma_shifted_seen(gone, fresh(row, txn), other, view, 0);
                assert(after =~= gone.insert(0, fresh(row, txn)));
            }
        },
    }
}

pub proof fn lemma_seen_from(versions: Seq<VersionView>, txn: u64, snapshot: SnapshotView, i: int)
    requires
        0 <= i,
    ensures
        match seen_from(versions, txn, snapshot, i) {
            Some(k) => i <= k < versions.len() && sees(versions[k], txn, snapshot) && forall|j: int|
                i <= j < k ==> !sees(#[trigger] versions[j], txn, snapshot),
            None => forall|j: int|
                i <= j < versions.len() ==> !sees(#[trigger] versions[j], txn, snapshot),
        },
    decreases versions.len() - i,
{
    if i < versions.len() && !sees(versions[i], txn, snapshot) {
        lemma_seen_from(versions, txn, snapshot, i + 1);
    }
}

proof fn lemma_seen_at(
    versions: Seq<VersionView>,
    txn: u64,
    snapshot: SnapshotView,
    i: int,
    at: int,
)
    requires
        0 <= i <= at < versions.len(),
        sees(versions[at], txn, snapshot),
        forall|j: int| i <= j < at ==> !sees(#[trigger] versions[j], txn, snapshot),
    ensures
        seen_from(versions, txn, snapshot, i) == Some(at),
    decreases at - i,
{
    if i < at {
        assert(!sees(versions[i], txn, snapshot));
        lemma_seen_at(versions, txn, snapshot, i + 1, at);
    }
}

proof fn lemma_same_seen(
    a: Seq<VersionView>,
    b: Seq<VersionView>,
    txn: u64,
    snapshot: SnapshotView,
    i: int,
)
    requires
        0 <= i,
        a.len() == b.len(),
        forall|k: int|
            0 <= k < a.len() ==> sees(#[trigger] b[k], txn, snapshot) == sees(a[k], txn, snapshot),
    ensures
        seen_from(a, txn, snapshot, i) == seen_from(b, txn, snapshot, i),
    decreases a.len() - i,
{
    if i < a.len() {
        assert(sees(b[i], txn, snapshot) == sees(a[i], txn, snapshot));
        lemma_same_seen(a, b, txn, snapshot, i + 1);
    }
}

proof fn lemma_shifted_seen(
    versions: Seq<VersionView>,
    first: VersionView,
    txn: u64,
    snapshot: SnapshotView,
    i: int,
)
    requires
        0 <= i,
        !sees(first, txn, snapshot),
    ensures
        seen_from(versions.insert(0, first), txn, snapshot, i + 1) == match seen_from(
            versions,
            txn,
            snapshot,
            i,
        ) {
            Some(k) => Some(k + 1),
            None => None,
        },
        seen_from(versions.insert(0, first), txn, snapshot, 0) == seen_from(
            versions.insert(0, first),
            txn,
            snapshot,
            1,
        ),
    decreases versions.len() - i,
{
    let all = versions.insert(0, first);
    assert(all[0] == first);
    if i < versions.len() {
        assert(all[i + 1] == versions[i]);
        lemma_shifted_seen(versions, first, txn, snapshot, i + 1);
    }
}

/// What is seen of versions with one more behind them.
proof fn lemma_seen_push(versions: Seq<VersionView>, v: VersionView, txn: u64, snapshot: SnapshotView, i: int)
    requires
        0 <= i <= versions.len(),
    ensures
        seen_from(versions.push(v), txn, snapshot, i) == (if seen_from(
            versions,
            txn,
            snapshot,
            i,
        ) is Some {
            seen_from(versions, txn, snapshot, i)
        } else if sees(v, txn, snapshot) {
            Some(versions.len() as int)
        } else {
            None
        }),
        seen_from(versions, txn, snapshot, i) matches Some(k) ==> i <= k < versions.len(),
    decreases versions.len() - i,
{
    reveal_with_fuel(seen_from, 2);
    if i < versions.len() {
        assert(versions.push(v)[i] == versions[i]);
        lemma_seen_push(versions, v, txn, snapshot, i + 1);
    }
}

proof fn lemma_seen_kept(
    versions: Seq<VersionView>,
    horizon: u64,
    txn: u64,
    snapshot: SnapshotView,
    i: int,
    out: Seq<VersionView>,
)
    requires
        0 <= i <= versions.len(),
        forall|j: int|
            i <= j < versions.len() && !wanted(#[trigger] versions[j], horizon) ==> !sees(
                versions[j],
                txn,
                snapshot,
            ),
    ensures
        seen(kept_from(versions, horizon, i, out), txn, snapshot) == (if seen(
            out,
            txn,
            snapshot,
        ) is Some {
            seen(out, txn, snapshot)
        } else {
            match seen_from(versions, txn, snapshot, i) {
                Some(k) => Some(versions[k].row),
                None => None,
            }
        }),
    decreases versions.len() - i,
{
    if i < versions.len() {
        if wanted(versions[i], horizon) {
            lemma_seen_push(out, versions[i], txn, snapshot, 0);
            lemma_seen_kept(versions, horizon, txn, snapshot, i + 1, out.push(versions[i]));
        } else {
            lemma_seen_kept(versions, horizon, txn, snapshot, i + 1, out);
        }
    }
}

/// Purging takes nothing from a transaction whose snapshot was taken at the horizon or later: it
/// sees of a row what it saw before. Versions that were deleted by the horizon must name a
/// transaction that deleted them, and that was not active when the snapshot was taken.
pub proof fn law_purging_keeps_what_is_seen(
    versions: Seq<VersionView>,
    horizon: u64,
    txn: u64,
    snapshot: SnapshotView,
)
    requires
        horizon <= snapshot.visible_up_to,
        forall|j: int|
            0 <= j < versions.len() && !wanted(#[trigger] versions[j], horizon)
                ==> versions[j].deleted_by_txn is Some && !snapshot.active_txns.contains(
                TransactionId(versions[j].deleted_by_txn->Some_0),
            ),
    ensures
        seen(kept_from(versions, horizon, 0, Seq::empty()), txn, snapshot) == seen(
            versions,
            txn,
            snapshot,
        ),
{
    lemma_seen_kept(versions, horizon, txn, snapshot, 0, Seq::empty());
}

proof fn lemma_seen_alike(
    a: Seq<VersionView>,
    b: Seq<VersionView>,
    txn: u64,
    snapshot: SnapshotView,
    i: int,
)
    requires
        a.len() == b.len(),
        forall|j: int|
            0 <= j < a.len() ==> sees(#[trigger] b[j], txn, snapshot) == sees(a[j], txn, snapshot),
    ensures
        seen_from(b, txn, snapshot, i) == seen_from(a, txn, snapshot, i),
    decreases a.len() - i,
{
    if 0 <= i < a.len() {
        assert(sees(b[i], txn, snapshot) == sees(a[i], txn, snapshot));
        lemma_seen_alike(a, b, txn, snapshot, i + 1);
    }
}

/// A commit changes nothing for other transactions whose snapshot was taken before it: each sees
/// of a row what it saw.
pub proof fn law_commits_leave_earlier_snapshots_alone(
    versions: Seq<VersionView>,
    txn: u64,
    ts: u64,
    reader: u64,
    snapshot: SnapshotView,
)
    requires
        reader != txn,
        snapshot.visible_up_to < ts || snapshot.active_txns.contains(TransactionId(txn)),
    ensures
        seen(all_finalized(versions, txn, ts), reader, snapshot) == seen(
            versions,
            reader,
            snapshot,
        ),
{
    let after = all_finalized(versions, txn, ts);
    assert forall|j: int| 0 <= j < versions.len() implies sees(#[trigger] after[j], reader, snapshot)
        == sees(versions[j], reader, snapshot) by {
        assert(after[j] == finalized(versions[j], txn, ts));
    }
    lemma_seen_alike(versions, after, reader, snapshot, 0);
    reveal_with_fuel(seen_from, 1);
    lemma_seen_from(versions, reader, snapshot, 0);
}

} // verus!
