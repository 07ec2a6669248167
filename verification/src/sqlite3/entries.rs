//! The rows of tables and the keys of indexes, as they stand in trees.

use vstd::prelude::*;

use crate::common::bytes::copy_bytes;
use crate::common::ordmap::Order;
use crate::common::schema::{ColumnType, IndexMeta, PrimaryKeyConstraint, Schema, SortOrder};
use crate::common::value::{copy_values, DbValue, RowId, SqlValue};
use crate::sqlite3::expr::ScalarExpr;
use crate::sqlite3::index_expr::{
    column_value, evaluate_index_term, missing_column, read_column, term_value,
};
use crate::sqlite3::reals::{
    fail, int_order, plain_view, stop_view, storage_stop, Eval, Facts, RealFacts, Stop, StopView,
};
use crate::sqlite3::record::{encode_record, encoded_record};
use crate::sqlite3::render_schema::{is_named, named_from};
use crate::sqlite3::trees::{Leaf, LeafView, TreeKind};
use crate::sqlite3::values::{order_values, value_order};

verus! {

/// A table to be written.
#[derive(Debug)]
pub struct WritableTable {
    pub schema: Schema,
    pub rows: Vec<(RowId, Vec<DbValue>)>,
}

/// An index to be written.
#[derive(Debug)]
pub struct WritableIndex {
    pub meta: IndexMeta,
    /// What each term of the key reads as an expression.
    pub terms: Vec<ScalarExpr>,
    /// Which rows of the table a partial index holds; all of them where this is missing.
    pub members: Option<Vec<bool>>,
}

/// A row or a key with what it is ordered by.
pub struct Entry {
    pub leaf: Leaf,
    pub key: Vec<DbValue>,
}

/// The model of a row or a key.
pub struct EntryView {
    pub leaf: LeafView,
    pub key: Seq<SqlValue>,
}

impl View for Entry {
    type V = EntryView;

    open spec fn view(&self) -> EntryView {
        EntryView { leaf: self.leaf@, key: self.key.deep_view() }
    }
}

impl DeepView for Entry {
    type V = EntryView;

    open spec fn deep_view(&self) -> EntryView {
        self@
    }
}

/// The model of entries that may be missing.
pub open spec fn entries_view(r: Eval<Vec<Entry>>) -> Result<Seq<EntryView>, StopView> {
    match r {
        Ok(v) => Ok(v.deep_view()),
        Err(s) => Err(s@),
    }
}

/// A record of values, or why there is none.
pub open spec fn record_of(values: Seq<SqlValue>) -> Result<Seq<u8>, StopView> {
    match encoded_record(values) {
        Ok(b) => Ok(b),
        Err(e) => Err(StopView::Fail(e)),
    }
}

/// Writes values as a record.
pub fn make_record(values: &Vec<DbValue>) -> (r: Eval<Vec<u8>>)
    ensures
        stop_view(r) == record_of(values.deep_view()),
{
    let slice = values.as_slice();
    assert(slice.deep_view() =~= values.deep_view());
    match encode_record(slice) {
        Ok(b) => Ok(b),
        Err(e) => Err(Stop::Fail(e)),
    }
}

/// The model of values that may be missing.
pub open spec fn row_result(r: Eval<Vec<DbValue>>) -> Result<Seq<SqlValue>, StopView> {
    match r {
        Ok(v) => Ok(v.deep_view()),
        Err(s) => Err(s@),
    }
}

// ---------------------------------------------------------------------------
// Rows of a table

/// Whether a column is the row number under another name.
pub open spec fn is_row_id(schema: Schema, i: int) -> bool {
    let column = schema.columns@[i];
    column.primary_key && column.column_type is Integer && column.primary_key_sort_order != Some(
        SortOrder::Desc,
    )
}

/// A row without the columns that its number stands for, from a column on.
pub open spec fn blanked_from(schema: Schema, row: Seq<SqlValue>, i: int) -> Result<
    Seq<SqlValue>,
    StopView,
>
    decreases schema.columns@.len() - i,
{
    if i < 0 || i >= schema.columns@.len() {
        Ok(row)
    } else if is_row_id(schema, i) {
        if i < row.len() {
            blanked_from(schema, row.update(i, SqlValue::Null), i + 1)
        } else {
            Err(missing_column(schema.name@, schema.columns@[i].name@))
        }
    } else {
        blanked_from(schema, row, i + 1)
    }
}

fn blank_row_id(schema: &Schema, row: &Vec<DbValue>) -> (r: Eval<Vec<DbValue>>)
    ensures
        row_result(r) == blanked_from(*schema, row.deep_view(), 0),
{
    let mut values = copy_values(row.as_slice());
    assert(values.deep_view() =~= row.deep_view());
    let mut i: usize = 0;
    while i < schema.columns.len()
        invariant
            i <= schema.columns@.len(),
            blanked_from(*schema, values.deep_view(), i as int) == blanked_from(
                *schema,
                row.deep_view(),
                0,
            ),
        decreases schema.columns@.len() - i,
    {
        let column = &schema.columns[i];
        let descending = match column.primary_key_sort_order {
            Some(SortOrder::Desc) => true,
            _ => false,
        };
        let integer = match column.column_type {
            ColumnType::Integer => true,
            _ => false,
        };
        if column.primary_key && integer && !descending {
            if i < values.len() {
                let ghost before = values.deep_view();
                values.set(i, DbValue::Null);
                assert(values.deep_view() =~= before.update(i as int, SqlValue::Null));
            } else {
                return Err(
                    crate::sqlite3::index_expr::fail_missing(
                        schema.name.as_str(),
                        column.name.as_str(),
                    ),
                );
            }
        }
        i = i + 1;
    }
    Ok(values)
}

/// The rows of a table from a position on, by their numbers.
pub open spec fn table_entries_from(table: WritableTable, i: int, out: Seq<EntryView>) -> Result<
    Seq<EntryView>,
    StopView,
>
    decreases table.rows@.len() - i,
{
    if i < 0 || i >= table.rows@.len() {
        Ok(out)
    } else {
        match blanked_from(table.schema, table.rows@[i].1.deep_view(), 0) {
            Err(s) => Err(s),
            Ok(values) => match record_of(values) {
                Err(s) => Err(s),
                Ok(payload) => table_entries_from(
                    table,
                    i + 1,
                    out.push(
                        EntryView {
                            leaf: LeafView {
                                row_id: table.rows@[i].0.0,
                                payload,
                                separator: Seq::empty(),
                            },
                            key: Seq::empty(),
                        },
                    ),
                ),
            },
        }
    }
}

fn table_entries(table: &WritableTable) -> (r: Eval<Vec<Entry>>)
    ensures
        entries_view(r) == table_entries_from(*table, 0, Seq::empty()),
{
    let mut out: Vec<Entry> = Vec::new();
    let mut i: usize = 0;
    assert(out.deep_view() =~= Seq::<EntryView>::empty());
    while i < table.rows.len()
        invariant
            i <= table.rows@.len(),
            table_entries_from(*table, i as int, out.deep_view()) == table_entries_from(
                *table,
                0,
                Seq::empty(),
            ),
        decreases table.rows@.len() - i,
    {
        let values = blank_row_id(&table.schema, &table.rows[i].1)?;
        let payload = make_record(&values)?;
        let entry = Entry {
            leaf: Leaf { row_id: table.rows[i].0.0, payload, separator: Vec::new() },
            key: Vec::new(),
        };
        assert(entry.key.deep_view() =~= Seq::<SqlValue>::empty());
        assert(entry@.leaf.separator =~= Seq::<u8>::empty());
        let ghost before = out.deep_view();
        out.push(entry);
        assert(out.deep_view() =~= before.push(entry@));
        i = i + 1;
    }
    Ok(out)
}

// ---------------------------------------------------------------------------
// Rows of a table without row numbers

/// The failure that a table without row numbers has no primary key.
pub open spec fn no_primary_key(schema: Schema) -> StopView {
    storage_stop("WITHOUT ROWID table "@ + schema.name@ + " is missing PRIMARY KEY metadata"@)
}

fn fail_no_primary_key(schema: &Schema) -> (r: Stop)
    ensures
        r@ == no_primary_key(*schema),
{
    let mut message = "WITHOUT ROWID table ".to_owned();
    message.append(schema.name.as_str());
    message.append(" is missing PRIMARY KEY metadata");
    fail(message.as_str())
}

/// The values of named columns from a position on, without those named elsewhere.
pub open spec fn named_values_from(
    schema: Schema,
    row: Seq<SqlValue>,
    names: Seq<String>,
    besides: Seq<String>,
    i: int,
    out: Seq<SqlValue>,
) -> Result<Seq<SqlValue>, StopView>
    decreases names.len() - i,
{
    if i < 0 || i >= names.len() {
        Ok(out)
    } else if named_from(besides, names[i]@, 0) {
        named_values_from(schema, row, names, besides, i + 1, out)
    } else {
        match column_value(schema, row, names[i]@) {
            Err(s) => Err(s),
            Ok(v) => named_values_from(schema, row, names, besides, i + 1, out.push(v)),
        }
    }
}

fn named_values(
    schema: &Schema,
    row: &Vec<DbValue>,
    names: &Vec<String>,
    besides: &Vec<String>,
    start: Vec<DbValue>,
) -> (r: Eval<Vec<DbValue>>)
    ensures
        row_result(r) == named_values_from(
            *schema,
            row.deep_view(),
            names@,
            besides@,
            0,
            start.deep_view(),
        ),
{
    let mut out = start;
    let mut i: usize = 0;
    while i < names.len()
        invariant
            i <= names@.len(),
            named_values_from(
                *schema,
                row.deep_view(),
                names@,
                besides@,
                i as int,
                out.deep_view(),
            ) == named_values_from(
                *schema,
                row.deep_view(),
                names@,
                besides@,
                0,
                start.deep_view(),
            ),
        decreases names@.len() - i,
    {
        if !is_named(besides, names[i].as_str()) {
            let v = read_column(schema, row, names[i].as_str())?;
            let ghost before = out.deep_view();
            out.push(v);
            assert(out.deep_view() =~= before.push(v@));
        }
        i = i + 1;
    }
    Ok(out)
}

/// The values of the columns of a table from a position on that are not in its key.
pub open spec fn other_values_from(
    schema: Schema,
    row: Seq<SqlValue>,
    key: Seq<String>,
    i: int,
    out: Seq<SqlValue>,
) -> Result<Seq<SqlValue>, StopView>
    decreases schema.columns@.len() - i,
{
    if i < 0 || i >= schema.columns@.len() {
        Ok(out)
    } else if named_from(key, schema.columns@[i].name@, 0) {
        other_values_from(schema, row, key, i + 1, out)
    } else {
        match column_value(schema, row, schema.columns@[i].name@) {
            Err(s) => Err(s),
            Ok(v) => other_values_from(schema, row, key, i + 1, out.push(v)),
        }
    }
}

fn other_values(schema: &Schema, row: &Vec<DbValue>, key: &Vec<String>, start: Vec<DbValue>) -> (r:
    Eval<Vec<DbValue>>)
    ensures
        row_result(r) == other_values_from(
            *schema,
            row.deep_view(),
            key@,
            0,
            start.deep_view(),
        ),
{
    let mut out = start;
    let mut i: usize = 0;
    while i < schema.columns.len()
        invariant
            i <= schema.columns@.len(),
            other_values_from(*schema, row.deep_view(), key@, i as int, out.deep_view())
                == other_values_from(*schema, row.deep_view(), key@, 0, start.deep_view()),
        decreases schema.columns@.len() - i,
    {
        let name = schema.columns[i].name.as_str();
        if !is_named(key, name) {
            let v = read_column(schema, row, name)?;
            let ghost before = out.deep_view();
            out.push(v);
            assert(out.deep_view() =~= before.push(v@));
        }
        i = i + 1;
    }
    Ok(out)
}

/// A row of a table without row numbers: the columns of its key first.
pub open spec fn keyed_row(schema: Schema, key: PrimaryKeyConstraint, row: Seq<SqlValue>) -> Result<
    EntryView,
    StopView,
> {
    match named_values_from(schema, row, key.columns@, Seq::empty(), 0, Seq::empty()) {
        Err(s) => Err(s),
        Ok(key_values) => match other_values_from(schema, row, key.columns@, 0, key_values) {
            Err(s) => Err(s),
            Ok(values) => match record_of(values) {
                Err(s) => Err(s),
                Ok(payload) => match record_of(key_values) {
                    Err(s) => Err(s),
                    Ok(separator) => Ok(
                        EntryView {
                            leaf: LeafView { row_id: 0, payload, separator },
                            key: key_values,
                        },
                    ),
                },
            },
        },
    }
}

/// The model of an entry that may be missing.
pub open spec fn entry_view(r: Eval<Entry>) -> Result<EntryView, StopView> {
    match r {
        Ok(e) => Ok(e@),
        Err(s) => Err(s@),
    }
}

fn make_keyed_row(schema: &Schema, key: &PrimaryKeyConstraint, row: &Vec<DbValue>) -> (r: Eval<
    Entry,
>)
    ensures
        entry_view(r) == keyed_row(*schema, *key, row.deep_view()),
{
    let none: Vec<String> = Vec::new();
    assert(none@ =~= Seq::<String>::empty());
    let start: Vec<DbValue> = Vec::new();
    assert(start.deep_view() =~= Seq::<SqlValue>::empty());
    let key_values = named_values(schema, row, &key.columns, &none, start)?;
    let copied = copy_values(key_values.as_slice());
    assert(copied.deep_view() =~= key_values.deep_view());
    let values = other_values(schema, row, &key.columns, copied)?;
    let payload = make_record(&values)?;
    let separator = make_record(&key_values)?;
    Ok(Entry { leaf: Leaf { row_id: 0, payload, separator }, key: key_values })
}

/// The rows of a table without row numbers, from a position on.
pub open spec fn keyed_entries_from(
    table: WritableTable,
    key: PrimaryKeyConstraint,
    i: int,
    out: Seq<EntryView>,
) -> Result<Seq<EntryView>, StopView>
    decreases table.rows@.len() - i,
{
    if i < 0 || i >= table.rows@.len() {
        Ok(out)
    } else {
        match keyed_row(table.schema, key, table.rows@[i].1.deep_view()) {
            Err(s) => Err(s),
            Ok(e) => keyed_entries_from(table, key, i + 1, out.push(e)),
        }
    }
}

fn keyed_entries(table: &WritableTable, key: &PrimaryKeyConstraint) -> (r: Eval<Vec<Entry>>)
    ensures
        entries_view(r) == keyed_entries_from(*table, *key, 0, Seq::empty()),
{
    let mut out: Vec<Entry> = Vec::new();
    let mut i: usize = 0;
    assert(out.deep_view() =~= Seq::<EntryView>::empty());
    while i < table.rows.len()
        invariant
            i <= table.rows@.len(),
            keyed_entries_from(*table, *key, i as int, out.deep_view()) == keyed_entries_from(
                *table,
                *key,
                0,
                Seq::empty(),
            ),
        decreases table.rows@.len() - i,
    {
        let entry = make_keyed_row(&table.schema, key, &table.rows[i].1)?;
        let ghost before = out.deep_view();
        out.push(entry);
        assert(out.deep_view() =~= before.push(entry@));
        i = i + 1;
    }
    Ok(out)
}

// ---------------------------------------------------------------------------
// Keys of an index

/// The values of the terms of an index from a position on.
pub open spec fn terms_from(
    f: Facts,
    schema: Schema,
    index: WritableIndex,
    row: Seq<SqlValue>,
    i: int,
    out: Seq<SqlValue>,
) -> Result<Seq<SqlValue>, StopView>
    decreases index.meta.columns@.len() - i,
{
    if i < 0 || i >= index.meta.columns@.len() || i >= index.terms@.len() {
        Ok(out)
    } else {
        match term_value(f, schema, row, index.meta.columns@[i]@, index.terms@[i], false) {
            Err(s) => Err(s),
            Ok(v) => terms_from(f, schema, index, row, i + 1, out.push(v)),
        }
    }
}

fn evaluate_terms(facts: &RealFacts, schema: &Schema, index: &WritableIndex, row: &Vec<DbValue>) -> (r:
    Eval<Vec<DbValue>>)
    ensures
        row_result(r) == terms_from(
            facts@,
            *schema,
            *index,
            row.deep_view(),
            0,
            Seq::empty(),
        ),
{
    let mut out: Vec<DbValue> = Vec::new();
    let mut i: usize = 0;
    assert(out.deep_view() =~= Seq::<SqlValue>::empty());
    while i < index.meta.columns.len() && i < index.terms.len()
        invariant
            i <= index.meta.columns@.len(),
            i <= index.terms@.len(),
            terms_from(facts@, *schema, *index, row.deep_view(), i as int, out.deep_view())
                == terms_from(facts@, *schema, *index, row.deep_view(), 0, Seq::empty()),
        decreases index.meta.columns@.len() - i,
    {
        let v = evaluate_index_term(
            facts,
            schema,
            row,
            index.meta.columns[i].as_str(),
            &index.terms[i],
        )?;
        let ghost before = out.deep_view();
        out.push(v);
        assert(out.deep_view() =~= before.push(v@));
        i = i + 1;
    }
    Ok(out)
}

/// What an index holds for a row: the terms, and behind them the number of the row, or the
/// columns of the primary key that are not among the terms.
pub open spec fn index_values(
    f: Facts,
    schema: Schema,
    index: WritableIndex,
    row_id: u64,
    row: Seq<SqlValue>,
) -> Result<Seq<SqlValue>, StopView> {
    if schema.without_rowid {
        match schema.primary_key_constraint {
            None => Err(no_primary_key(schema)),
            Some(key) => match terms_from(f, schema, index, row, 0, Seq::empty()) {
                Err(s) => Err(s),
                Ok(values) => named_values_from(
                    schema,
                    row,
                    key.columns@,
                    index.meta.columns@,
                    0,
                    values,
                ),
            },
        }
    } else {
        match terms_from(f, schema, index, row, 0, Seq::empty()) {
            Err(s) => Err(s),
            Ok(values) => if row_id > i64::MAX {
                Err(storage_stop("sqlite rowid does not fit in i64"@))
            } else {
                Ok(values.push(SqlValue::Integer(row_id as i64)))
            },
        }
    }
}

fn make_index_values(
    facts: &RealFacts,
    schema: &Schema,
    index: &WritableIndex,
    row_id: u64,
    row: &Vec<DbValue>,
) -> (r: Eval<Vec<DbValue>>)
    ensures
        row_result(r) == index_values(facts@, *schema, *index, row_id, row.deep_view()),
{
    if schema.without_rowid {
        match &schema.primary_key_constraint {
            None => Err(fail_no_primary_key(schema)),
            Some(key) => {
                let values = evaluate_terms(facts, schema, index, row)?;
                named_values(schema, row, &key.columns, &index.meta.columns, values)
            },
        }
    } else {
        let mut values = evaluate_terms(facts, schema, index, row)?;
        if row_id > i64::MAX as u64 {
            return Err(fail("sqlite rowid does not fit in i64"));
        }
        let ghost before = values.deep_view();
        values.push(DbValue::Integer(row_id as i64));
        assert(values.deep_view() =~= before.push(SqlValue::Integer(row_id as i64)));
        Ok(values)
    }
}

/// Whether an index holds a row.
pub open spec fn is_member(index: WritableIndex, i: int) -> bool {
    match index.members {
        None => true,
        Some(members) => i < members@.len() && members@[i],
    }
}

/// The keys of an index from a row on.
pub open spec fn index_entries_from(
    f: Facts,
    table: WritableTable,
    index: WritableIndex,
    i: int,
    out: Seq<EntryView>,
) -> Result<Seq<EntryView>, StopView>
    decreases table.rows@.len() - i,
{
    if i < 0 || i >= table.rows@.len() {
        Ok(out)
    } else if !is_member(index, i) {
        index_entries_from(f, table, index, i + 1, out)
    } else {
        match index_values(
            f,
            table.schema,
            index,
            table.rows@[i].0.0,
            table.rows@[i].1.deep_view(),
        ) {
            Err(s) => Err(s),
            Ok(values) => match record_of(values) {
                Err(s) => Err(s),
                Ok(payload) => index_entries_from(
                    f,
                    table,
                    index,
                    i + 1,
                    out.push(
                        EntryView {
                            leaf: LeafView { row_id: 0, payload, separator: payload },
                            key: values,
                        },
                    ),
                ),
            },
        }
    }
}

fn holds_row(index: &WritableIndex, i: usize) -> (r: bool)
    ensures
        r == is_member(*index, i as int),
{
    match &index.members {
        None => true,
        Some(members) => i < members.len() && members[i],
    }
}

fn index_entries(facts: &RealFacts, table: &WritableTable, index: &WritableIndex) -> (r: Eval<
    Vec<Entry>,
>)
    ensures
        entries_view(r) == index_entries_from(facts@, *table, *index, 0, Seq::empty()),
{
    let mut out: Vec<Entry> = Vec::new();
    let mut i: usize = 0;
    assert(out.deep_view() =~= Seq::<EntryView>::empty());
    while i < table.rows.len()
        invariant
            i <= table.rows@.len(),
            index_entries_from(facts@, *table, *index, i as int, out.deep_view())
                == index_entries_from(facts@, *table, *index, 0, Seq::empty()),
        decreases table.rows@.len() - i,
    {
        if holds_row(index, i) {
            let values = make_index_values(
                facts,
                &table.schema,
                index,
                table.rows[i].0.0,
                &table.rows[i].1,
            )?;
            let payload = make_record(&values)?;
            let separator = copy_bytes(&payload);
            let entry = Entry { leaf: Leaf { row_id: 0, payload, separator }, key: values };
            let ghost before = out.deep_view();
            out.push(entry);
            assert(out.deep_view() =~= before.push(entry@));
        }
        i = i + 1;
    }
    Ok(out)
}

// ---------------------------------------------------------------------------
// Order

/// The order of two keys, from a position on.
pub open spec fn key_order_from(f: Facts, a: Seq<SqlValue>, b: Seq<SqlValue>, i: int) -> Result<
    Order,
    StopView,
>
    decreases a.len() - i,
{
    if i < 0 || i >= a.len() || i >= b.len() {
        Ok(int_order(a.len() as int, b.len() as int))
    } else {
        match value_order(f, a[i], b[i]) {
            Err(s) => Err(s),
            Ok(Order::Equal) => key_order_from(f, a, b, i + 1),
            Ok(o) => Ok(o),
        }
    }
}

fn compare_keys(facts: &RealFacts, a: &Vec<DbValue>, b: &Vec<DbValue>) -> (r: Eval<Order>)
    ensures
        plain_view(r) == key_order_from(facts@, a.deep_view(), b.deep_view(), 0),
{
    let ghost x = a.deep_view();
    let ghost y = b.deep_view();
    let mut i: usize = 0;
    while i < a.len() && i < b.len()
        invariant
            x == a.deep_view(),
            y == b.deep_view(),
            i <= a@.len(),
            i <= b@.len(),
            key_order_from(facts@, x, y, i as int) == key_order_from(facts@, x, y, 0),
        decreases a@.len() - i,
    {
        assert(x[i as int] == a@[i as int]@ && y[i as int] == b@[i as int]@);
        match order_values(facts, &a[i], &b[i])? {
            Order::Equal => {},
            o => {
                return Ok(o);
            },
        }
        i = i + 1;
    }
    if a.len() < b.len() {
        Ok(Order::Less)
    } else if a.len() == b.len() {
        Ok(Order::Equal)
    } else {
        Ok(Order::Greater)
    }
}

/// The order of two entries: by the number of the row, or by the key.
pub open spec fn entry_order(f: Facts, kind: TreeKind, a: EntryView, b: EntryView) -> Result<
    Order,
    StopView,
> {
    match kind {
        TreeKind::Table => Ok(int_order(a.leaf.row_id as int, b.leaf.row_id as int)),
        TreeKind::Index => key_order_from(f, a.key, b.key, 0),
    }
}

fn compare_entries(facts: &RealFacts, kind: TreeKind, a: &Entry, b: &Entry) -> (r: Eval<Order>)
    ensures
        plain_view(r) == entry_order(facts@, kind, a@, b@),
{
    match kind {
        TreeKind::Table => {
            if a.leaf.row_id < b.leaf.row_id {
                Ok(Order::Less)
            } else if a.leaf.row_id == b.leaf.row_id {
                Ok(Order::Equal)
            } else {
                Ok(Order::Greater)
            }
        },
        TreeKind::Index => compare_keys(facts, &a.key, &b.key),
    }
}

/// Where an entry goes among others in order: before the first that is greater.
pub open spec fn place_from(
    f: Facts,
    kind: TreeKind,
    sorted: Seq<EntryView>,
    x: EntryView,
    i: int,
) -> Result<int, StopView>
    decreases sorted.len() - i,
{
    if i < 0 || i >= sorted.len() {
        Ok(sorted.len() as int)
    } else {
        match entry_order(f, kind, x, sorted[i]) {
            Err(s) => Err(s),
            Ok(Order::Less) => Ok(i),
            Ok(_) => place_from(f, kind, sorted, x, i + 1),
        }
    }
}

/// Entries put in order, those from a position on among those already in order. Equal ones
/// stay in their places.
pub open spec fn ordered_from(
    f: Facts,
    kind: TreeKind,
    items: Seq<EntryView>,
    k: int,
    out: Seq<EntryView>,
) -> Result<Seq<EntryView>, StopView>
    decreases items.len() - k,
{
    if k < 0 || k >= items.len() {
        Ok(out)
    } else {
        match place_from(f, kind, out, items[k], 0) {
            Err(s) => Err(s),
            Ok(p) => ordered_from(f, kind, items, k + 1, out.insert(p, items[k])),
        }
    }
}

/// Entries put in order.
pub open spec fn in_order(f: Facts, kind: TreeKind, items: Seq<EntryView>) -> Result<
    Seq<EntryView>,
    StopView,
> {
    ordered_from(f, kind, items, 0, Seq::empty())
}

/// The model of a place.
pub open spec fn place_view(r: Eval<usize>) -> Result<int, StopView> {
    match r {
        Ok(p) => Ok(p as int),
        Err(s) => Err(s@),
    }
}

fn find_place(facts: &RealFacts, kind: TreeKind, sorted: &Vec<Entry>, x: &Entry) -> (r: Eval<usize>)
    ensures
        place_view(r) == place_from(facts@, kind, sorted.deep_view(), x@, 0),
        r matches Ok(p) ==> p <= sorted@.len(),
{
    let ghost a = sorted.deep_view();
    let mut i: usize = 0;
    while i < sorted.len()
        invariant
            a == sorted.deep_view(),
            i <= sorted@.len(),
            place_from(facts@, kind, a, x@, i as int) == place_from(facts@, kind, a, x@, 0),
        decreases sorted@.len() - i,
    {
        assert(a[i as int] == sorted@[i as int]@);
        match compare_entries(facts, kind, x, &sorted[i])? {
            Order::Less => {
                return Ok(i);
            },
            _ => {},
        }
        i = i + 1;
    }
    Ok(i)
}

fn copy_entry(e: &Entry) -> (r: Entry)
    ensures
        r@ == e@,
{
    let key = copy_values(e.key.as_slice());
    assert(key.deep_view() =~= e.key.deep_view());
    Entry {
        leaf: Leaf {
            row_id: e.leaf.row_id,
            payload: copy_bytes(&e.leaf.payload),
            separator: copy_bytes(&e.leaf.separator),
        },
        key,
    }
}

fn sort_entries(facts: &RealFacts, kind: TreeKind, items: &Vec<Entry>) -> (r: Eval<Vec<Entry>>)
    ensures
        entries_view(r) == in_order(facts@, kind, items.deep_view()),
{
    let ghost a = items.deep_view();
    let mut out: Vec<Entry> = Vec::new();
    let mut k: usize = 0;
    assert(out.deep_view() =~= Seq::<EntryView>::empty());
    while k < items.len()
        invariant
            a == items.deep_view(),
            k <= items@.len(),
            ordered_from(facts@, kind, a, k as int, out.deep_view()) == in_order(facts@, kind, a),
        decreases items@.len() - k,
    {
        assert(a[k as int] == items@[k as int]@);
        let p: usize = find_place(facts, kind, &out, &items[k])?;
        let entry = copy_entry(&items[k]);
        let ghost before = out.deep_view();
        out.insert(p, entry);
        assert(out.deep_view() =~= before.insert(p as int, entry@));
        k = k + 1;
    }
    Ok(out)
}

/// Whether row numbers never fall.
pub open spec fn rows_ascend(items: Seq<EntryView>) -> bool {
    forall|i: int, j: int|
        0 <= i <= j < items.len() ==> (#[trigger] items[i]).leaf.row_id <= (
        #[trigger] items[j]).leaf.row_id
}

proof fn lemma_place(f: Facts, out: Seq<EntryView>, x: EntryView, i: int)
    requires
        rows_ascend(out),
        0 <= i <= out.len(),
        forall|j: int| 0 <= j < i ==> (#[trigger] out[j]).leaf.row_id <= x.leaf.row_id,
    ensures
        place_from(f, TreeKind::Table, out, x, i) is Ok,
        ({
            let p = place_from(f, TreeKind::Table, out, x, i)->Ok_0;
            &&& 0 <= p <= out.len()
            &&& rows_ascend(out.insert(p, x))
        }),
    decreases out.len() - i,
{
    if i < out.len() && out[i].leaf.row_id <= x.leaf.row_id {
        lemma_place(f, out, x, i + 1);
    } else {
        let next = out.insert(i, x);
        assert forall|a: int, b: int| 0 <= a <= b < next.len() implies (
        #[trigger] next[a]).leaf.row_id <= (#[trigger] next[b]).leaf.row_id by {
            if a < i {
                assert(next[a] == out[a]);
            } else if a > i {
                assert(next[a] == out[a - 1]);
            }
            if b < i {
                assert(next[b] == out[b]);
            } else if b > i {
                assert(next[b] == out[b - 1]);
                assert(out[i].leaf.row_id <= out[b - 1].leaf.row_id);
            }
        }
    }
}

proof fn lemma_rows_ordered(f: Facts, items: Seq<EntryView>, k: int, out: Seq<EntryView>)
    requires
        0 <= k <= items.len(),
        rows_ascend(out),
        out.to_multiset() == items.take(k).to_multiset(),
    ensures
        ordered_from(f, TreeKind::Table, items, k, out) is Ok,
        rows_ascend(ordered_from(f, TreeKind::Table, items, k, out)->Ok_0),
        ordered_from(f, TreeKind::Table, items, k, out)->Ok_0.to_multiset() == items.to_multiset(),
    decreases items.len() - k,
{
    broadcast use vstd::seq_lib::group_to_multiset_ensures;

    if k < items.len() {
        lemma_place(f, out, items[k], 0);
        let p = place_from(f, TreeKind::Table, out, items[k], 0)->Ok_0;
        assert(items.take(k + 1) =~= items.take(k).push(items[k]));
        lemma_rows_ordered(f, items, k + 1, out.insert(p, items[k]));
    } else {
        assert(items.take(k) =~= items);
    }
}

/// The rows of a table are put in the order of their numbers: none is lost, none is added,
/// and the numbers never fall.
pub proof fn law_rows_in_order(f: Facts, items: Seq<EntryView>)
    ensures
        in_order(f, TreeKind::Table, items) is Ok,
        rows_ascend(in_order(f, TreeKind::Table, items)->Ok_0),
        in_order(f, TreeKind::Table, items)->Ok_0.to_multiset() == items.to_multiset(),
{
    assert(items.take(0) =~= Seq::<EntryView>::empty());
    lemma_rows_ordered(f, items, 0, Seq::empty());
}

// ---------------------------------------------------------------------------
// Trees

/// The leaves of entries.
pub open spec fn leaves_of(items: Seq<EntryView>) -> Seq<LeafView> {
    Seq::new(items.len(), |i: int| items[i].leaf)
}

fn take_leaves(items: &Vec<Entry>) -> (r: Vec<Leaf>)
    ensures
        r.deep_view() == leaves_of(items.deep_view()),
{
    let mut r: Vec<Leaf> = Vec::new();
    let mut i: usize = 0;
    while i < items.len()
        invariant
            i <= items@.len(),
            r@.len() == i,
            forall|k: int| 0 <= k < i ==> (#[trigger] r@[k])@ == items@[k].leaf@,
        decreases items@.len() - i,
    {
        r.push(
            Leaf {
                row_id: items[i].leaf.row_id,
                payload: copy_bytes(&items[i].leaf.payload),
                separator: copy_bytes(&items[i].leaf.separator),
            },
        );
        i = i + 1;
    }
    assert(r.deep_view() =~= leaves_of(items.deep_view()));
    r
}

/// The model of leaves that may be missing.
pub open spec fn leaves_view(r: Eval<Vec<Leaf>>) -> Result<Seq<LeafView>, StopView> {
    match r {
        Ok(v) => Ok(v.deep_view()),
        Err(s) => Err(s@),
    }
}

/// Entries in order, as leaves.
pub open spec fn ordered_leaves(f: Facts, kind: TreeKind, items: Result<Seq<EntryView>, StopView>) -> Result<
    Seq<LeafView>,
    StopView,
> {
    match items {
        Err(s) => Err(s),
        Ok(e) => match in_order(f, kind, e) {
            Err(s) => Err(s),
            Ok(sorted) => Ok(leaves_of(sorted)),
        },
    }
}

/// The kind of tree that the rows of a table stand in.
pub open spec fn table_kind(schema: Schema) -> TreeKind {
    if schema.without_rowid {
        TreeKind::Index
    } else {
        TreeKind::Table
    }
}

/// The leaves of the tree of a table.
pub open spec fn table_leaves(f: Facts, table: WritableTable) -> Result<Seq<LeafView>, StopView> {
    if table.schema.without_rowid {
        match table.schema.primary_key_constraint {
            None => Err(no_primary_key(table.schema)),
            Some(key) => ordered_leaves(
                f,
                TreeKind::Index,
                keyed_entries_from(table, key, 0, Seq::empty()),
            ),
        }
    } else {
        ordered_leaves(f, TreeKind::Table, table_entries_from(table, 0, Seq::empty()))
    }
}

/// The leaves of the tree of a table.
pub fn make_table_leaves(facts: &RealFacts, table: &WritableTable) -> (r: Eval<Vec<Leaf>>)
    ensures
        leaves_view(r) == table_leaves(facts@, *table),
{
    if table.schema.without_rowid {
        match &table.schema.primary_key_constraint {
            None => Err(fail_no_primary_key(&table.schema)),
            Some(key) => {
                let items = keyed_entries(table, key)?;
                let sorted = sort_entries(facts, TreeKind::Index, &items)?;
                Ok(take_leaves(&sorted))
            },
        }
    } else {
        let items = table_entries(table)?;
        let sorted = sort_entries(facts, TreeKind::Table, &items)?;
        Ok(take_leaves(&sorted))
    }
}

/// The leaves of the tree of an index.
pub open spec fn index_leaves(f: Facts, table: WritableTable, index: WritableIndex) -> Result<
    Seq<LeafView>,
    StopView,
> {
    ordered_leaves(f, TreeKind::Index, index_entries_from(f, table, index, 0, Seq::empty()))
}

/// The leaves of the tree of an index.
pub fn make_index_leaves(facts: &RealFacts, table: &WritableTable, index: &WritableIndex) -> (r:
    Eval<Vec<Leaf>>)
    ensures
        leaves_view(r) == index_leaves(facts@, *table, *index),
{
    let items = index_entries(facts, table, index)?;
    let sorted = sort_entries(facts, TreeKind::Index, &items)?;
    Ok(take_leaves(&sorted))
}

} // verus!
