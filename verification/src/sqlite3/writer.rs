//! Whole databases written as files.

use vstd::prelude::*;

use crate::common::bytes::{
    be_bytes, lemma_be_bytes_len, lemma_be_round_trip, lemma_byte_ranges, push_be, put_bytes,
    splice,
};
use crate::common::error::ErrorView;
use crate::common::ordmap::ascending;
use crate::common::schema::{ColumnDef, ColumnType, IndexMeta, Schema};
use crate::common::text::{char_vec, nat_text, same_text, u64_text};
use crate::common::value::{DbValue, RowId, SqlValue};
use crate::sqlite3::entries::{
    blanked_from, index_leaves, make_index_leaves, make_record, make_table_leaves, ordered_leaves,
    record_of, table_entries_from, table_kind, table_leaves, EntryView, WritableIndex,
    WritableTable,
};
use crate::sqlite3::growth::{grown, lemma_page_grows, lemma_tree_grows, sized};
use crate::sqlite3::layout::{
    build_page, inserted, page_built, step, Cell, CellView, Sheet, Sheets, SheetsView,
};
use crate::sqlite3::pager::{opened, page_of, DatabaseHeader};
use crate::sqlite3::reals::{fail, stop_view, storage_stop, Eval, Facts, RealFacts, StopView};
use crate::sqlite3::render_schema::{
    create_index_text, create_table_text, render_create_index, render_create_table,
};
use crate::sqlite3::strings::{occurs_at, stands_at};
use crate::sqlite3::trees::{build_tree, tree_built, LeafView, TreeKind};
use crate::sqlite3::varint::{encode_varint, varint};

verus! {

/// An object of the schema that has no tree of its own to be written.
#[derive(Debug)]
pub struct WritableSchemaObject {
    pub entry_type: String,
    pub name: String,
    pub table_name: String,
    pub root_page: u32,
    pub sql: Option<String>,
}

/// A database to be written. Tables, indexes and sequences stand in the order of their names,
/// and no name stands twice: see [`WritableDatabase::in_name_order`].
#[derive(Debug)]
pub struct WritableDatabase {
    pub tables: Vec<(String, WritableTable)>,
    /// The indexes of each table.
    pub indexes: Vec<(String, Vec<(String, WritableIndex)>)>,
    pub extra_schema_objects: Vec<WritableSchemaObject>,
    pub sqlite_sequence: Vec<(String, u64)>,
    pub sqlite_sequence_exists: bool,
    pub user_version: u32,
    pub application_id: u32,
    pub schema_version: u32,
}

/// The names of a list.
pub open spec fn names_of<T>(list: Seq<(String, T)>) -> Seq<Seq<char>> {
    list.map_values(|p: (String, T)| p.0@)
}

impl WritableDatabase {
    /// Whether tables, indexes and sequences stand in the order of their names, each name once.
    pub open spec fn in_name_order(self) -> bool {
        &&& ascending::<String>(names_of(self.tables@))
        &&& ascending::<String>(names_of(self.indexes@))
        &&& forall|i: int|
            0 <= i < self.indexes@.len() ==> ascending::<String>(
                names_of((#[trigger] self.indexes@[i]).1@),
            )
        &&& ascending::<String>(names_of(self.sqlite_sequence@))
    }
}

// ---------------------------------------------------------------------------
// Tables and indexes that have trees

/// The position of the table with a name, from a position on.
pub open spec fn table_from(tables: Seq<(String, WritableTable)>, name: Seq<char>, i: int) -> Option<
    int,
>
    decreases tables.len() - i,
{
    if i < 0 || i >= tables.len() {
        None
    } else if tables[i].0@ == name {
        Some(i)
    } else {
        table_from(tables, name, i + 1)
    }
}

fn find_table(tables: &Vec<(String, WritableTable)>, name: &str) -> (r: Option<usize>)
    ensures
        match r {
            Some(i) => table_from(tables@, name@, 0) == Some(i as int) && i < tables@.len(),
            None => table_from(tables@, name@, 0) is None,
        },
{
    let mut i: usize = 0;
    while i < tables.len()
        invariant
            i <= tables@.len(),
            table_from(tables@, name@, i as int) == table_from(tables@, name@, 0),
        decreases tables@.len() - i,
    {
        if same_text(tables[i].0.as_str(), name) {
            return Some(i);
        }
        i = i + 1;
    }
    None
}

/// How many of the first tables have trees: views have none.
pub open spec fn physical_count(tables: Seq<(String, WritableTable)>, n: int) -> nat
    decreases n,
{
    if n <= 0 {
        0
    } else {
        physical_count(tables, n - 1) + if tables[n - 1].1.schema.view {
            0nat
        } else {
            1
        }
    }
}

fn count_physical(tables: &Vec<(String, WritableTable)>) -> (r: usize)
    ensures
        r == physical_count(tables@, tables@.len() as int),
        r <= tables@.len(),
{
    let mut n: usize = 0;
    let mut i: usize = 0;
    while i < tables.len()
        invariant
            i <= tables@.len(),
            n <= i,
            n == physical_count(tables@, i as int),
        decreases tables@.len() - i,
    {
        if !tables[i].1.schema.view {
            n = n + 1;
        }
        i = i + 1;
    }
    n
}

/// Whether two lists of texts are the same, from a position on.
pub open spec fn same_names(a: Seq<String>, b: Seq<String>) -> bool {
    a.len() == b.len() && forall|i: int| 0 <= i < a.len() ==> (#[trigger] a[i])@ == b[i]@
}

fn are_same_names(a: &Vec<String>, b: &Vec<String>) -> (r: bool)
    ensures
        r == same_names(a@, b@),
{
    if a.len() != b.len() {
        return false;
    }
    let mut i: usize = 0;
    while i < a.len()
        invariant
            i <= a@.len() == b@.len(),
            forall|k: int| 0 <= k < i ==> (#[trigger] a@[k])@ == b@[k]@,
        decreases a@.len() - i,
    {
        if !same_text(a[i].as_str(), b[i].as_str()) {
            assert(a@[i as int]@ != b@[i as int]@);
            return false;
        }
        i = i + 1;
    }
    true
}

/// Whether an index only repeats the key by which a table without row numbers is kept.
pub open spec fn is_synthesized(schema: Schema, index: IndexMeta, table: Seq<char>) -> bool {
    schema.without_rowid && index.name@ == "sqlite_autoindex_"@ + table + "_1"@
        && match schema.primary_key_constraint {
        Some(key) => same_names(key.columns@, index.columns@),
        None => false,
    }
}

fn is_synthesized_without_rowid_primary_key_index(schema: &Schema, index: &IndexMeta, table: &str) -> (r:
    bool)
    ensures
        r == is_synthesized(*schema, *index, table@),
{
    let mut name = "sqlite_autoindex_".to_owned();
    name.append(table);
    name.append("_1");
    schema.without_rowid && same_text(index.name.as_str(), name.as_str())
        && match &schema.primary_key_constraint {
        Some(key) => are_same_names(&key.columns, &index.columns),
        None => false,
    }
}

/// An index that has a tree: its table, and where it stands among the indexes.
pub type IndexPlace = (usize, usize, usize);

/// The indexes of one table from a position on that have trees.
pub open spec fn places_of_table(
    db: WritableDatabase,
    table: int,
    outer: int,
    j: int,
    out: Seq<IndexPlace>,
) -> Seq<IndexPlace>
    decreases db.indexes@[outer].1@.len() - j,
{
    let (name, list) = db.indexes@[outer];
    if j < 0 || j >= list@.len() {
        out
    } else if is_synthesized(db.tables@[table].1.schema, list@[j].1.meta, name@) {
        places_of_table(db, table, outer, j + 1, out)
    } else {
        places_of_table(
            db,
            table,
            outer,
            j + 1,
            out.push((table as usize, outer as usize, j as usize)),
        )
    }
}

/// The indexes that have trees, from the indexes of one table on.
pub open spec fn places_from(db: WritableDatabase, outer: int, out: Seq<IndexPlace>) -> Result<
    Seq<IndexPlace>,
    StopView,
>
    decreases db.indexes@.len() - outer,
{
    if outer < 0 || outer >= db.indexes@.len() {
        Ok(out)
    } else {
        let name = db.indexes@[outer].0@;
        match table_from(db.tables@, name, 0) {
            None => Err(
                storage_stop("missing table "@ + name + " for indexed metadata"@),
            ),
            Some(table) => if db.tables@[table].1.schema.view {
                places_from(db, outer + 1, out)
            } else {
                places_from(db, outer + 1, places_of_table(db, table, outer, 0, out))
            },
        }
    }
}

/// The indexes that have trees.
pub open spec fn physical_indexes(db: WritableDatabase) -> Result<Seq<IndexPlace>, StopView> {
    places_from(db, 0, Seq::empty())
}

/// Whether places name indexes that are there.
pub open spec fn places_exist(db: WritableDatabase, places: Seq<IndexPlace>) -> bool {
    forall|k: int|
        0 <= k < places.len() ==> {
            &&& (#[trigger] places[k]).0 < db.tables@.len()
            &&& places[k].1 < db.indexes@.len()
            &&& places[k].2 < db.indexes@[places[k].1 as int].1@.len()
        }
}

/// The model of places that may be missing.
pub open spec fn places_view(r: Eval<Vec<IndexPlace>>) -> Result<Seq<IndexPlace>, StopView> {
    match r {
        Ok(v) => Ok(v@),
        Err(s) => Err(s@),
    }
}

fn add_places(db: &WritableDatabase, table: usize, outer: usize, start: Vec<IndexPlace>) -> (r: Vec<
    IndexPlace,
>)
    requires
        table < db.tables@.len(),
        outer < db.indexes@.len(),
        places_exist(*db, start@),
    ensures
        r@ == places_of_table(*db, table as int, outer as int, 0, start@),
        places_exist(*db, r@),
{
    let mut out = start;
    let name = db.indexes[outer].0.as_str();
    let list = &db.indexes[outer].1;
    let mut j: usize = 0;
    while j < list.len()
        invariant
            table < db.tables@.len(),
            outer < db.indexes@.len(),
            name@ == db.indexes@[outer as int].0@,
            *list == db.indexes@[outer as int].1,
            j <= list@.len(),
            places_exist(*db, out@),
            places_of_table(*db, table as int, outer as int, j as int, out@) == places_of_table(
                *db,
                table as int,
                outer as int,
                0,
                start@,
            ),
        decreases list@.len() - j,
    {
        if !is_synthesized_without_rowid_primary_key_index(
            &db.tables[table].1.schema,
            &list[j].1.meta,
            name,
        ) {
            out.push((table, outer, j));
        }
        j = j + 1;
    }
    out
}

fn collect_physical_indexes(db: &WritableDatabase) -> (r: Eval<Vec<IndexPlace>>)
    ensures
        places_view(r) == physical_indexes(*db),
        r matches Ok(v) ==> places_exist(*db, v@),
{
    let mut out: Vec<IndexPlace> = Vec::new();
    let mut outer: usize = 0;
    while outer < db.indexes.len()
        invariant
            outer <= db.indexes@.len(),
            places_exist(*db, out@),
            places_from(*db, outer as int, out@) == physical_indexes(*db),
        decreases db.indexes@.len() - outer,
    {
        let name = db.indexes[outer].0.as_str();
        match find_table(&db.tables, name) {
            None => {
                let mut message = "missing table ".to_owned();
                message.append(name);
                message.append(" for indexed metadata");
                return Err(fail(message.as_str()));
            },
            Some(table) => {
                if !db.tables[table].1.schema.view {
                    out = add_places(db, table, outer, out);
                }
            },
        }
        outer = outer + 1;
    }
    Ok(out)
}

// ---------------------------------------------------------------------------
// Root pages

/// The number of the root page of the table of sequences: behind those of the tables.
pub open spec fn sequence_root(db: WritableDatabase) -> u32 {
    (physical_count(db.tables@, db.tables@.len() as int) + 2) as u32
}

/// The number of the root page of a table.
pub open spec fn table_root(db: WritableDatabase, i: int) -> u32 {
    if db.sqlite_sequence_exists && db.tables@[i].0@ == "sqlite_sequence"@ {
        sequence_root(db)
    } else {
        (physical_count(db.tables@, i) + 2) as u32
    }
}

/// How many tables have trees, with that of the sequences.
pub open spec fn table_count(db: WritableDatabase) -> nat {
    physical_count(db.tables@, db.tables@.len() as int) + if db.sqlite_sequence_exists {
        1nat
    } else {
        0
    }
}

/// The number of the root page of an index.
pub open spec fn index_root(db: WritableDatabase, k: int) -> u32 {
    (table_count(db) + k + 2) as u32
}

/// The first page that is no root.
pub open spec fn first_free_page(db: WritableDatabase) -> Result<u32, StopView> {
    if table_count(db) >= u32::MAX {
        Err(storage_stop("sqlite page number overflow"@))
    } else {
        match physical_indexes(db) {
            Err(s) => Err(s),
            Ok(places) => if table_count(db) + places.len() + 2 > u32::MAX {
                Err(storage_stop("sqlite page number overflow"@))
            } else {
                Ok((table_count(db) + places.len() + 2) as u32)
            },
        }
    }
}

// ---------------------------------------------------------------------------
// Trees

/// The tree of a table written; a view has none.
pub open spec fn table_added(f: Facts, db: WritableDatabase, s: SheetsView, i: int) -> Result<
    SheetsView,
    StopView,
> {
    let table = db.tables@[i].1;
    if table.schema.view {
        Ok(s)
    } else {
        match table_leaves(f, table) {
            Err(e) => Err(e),
            Ok(leaves) => tree_built(s, table_kind(table.schema), leaves, table_root(db, i)),
        }
    }
}

/// The trees of tables from a position on written.
pub open spec fn tables_from(f: Facts, db: WritableDatabase, s: SheetsView, i: int) -> Result<
    SheetsView,
    StopView,
>
    decreases db.tables@.len() - i,
{
    if i < 0 || i >= db.tables@.len() {
        Ok(s)
    } else {
        match table_added(f, db, s, i) {
            Err(e) => Err(e),
            Ok(next) => tables_from(f, db, next, i + 1),
        }
    }
}

/// Whether numbers are those of the root pages of tables.
pub open spec fn are_table_roots(db: WritableDatabase, roots: Seq<u32>) -> bool {
    &&& roots.len() == db.tables@.len()
    &&& forall|i: int| 0 <= i < roots.len() ==> #[trigger] roots[i] == table_root(db, i)
}

fn number_tables(db: &WritableDatabase, total: usize) -> (r: Vec<u32>)
    requires
        total == physical_count(db.tables@, db.tables@.len() as int),
        total + 2 <= u32::MAX,
    ensures
        are_table_roots(*db, r@),
{
    let mut roots: Vec<u32> = Vec::new();
    let mut count: usize = 0;
    let mut i: usize = 0;
    while i < db.tables.len()
        invariant
            i <= db.tables@.len(),
            count <= i,
            count == physical_count(db.tables@, i as int),
            total == physical_count(db.tables@, db.tables@.len() as int),
            total + 2 <= u32::MAX,
            roots@.len() == i,
            forall|k: int| 0 <= k < i ==> #[trigger] roots@[k] == table_root(*db, k),
        decreases db.tables@.len() - i,
    {
        proof {
            lemma_count_grows(db.tables@, i as int, db.tables@.len() as int);
        }
        let root: u32 = if db.sqlite_sequence_exists && same_text(
            db.tables[i].0.as_str(),
            "sqlite_sequence",
        ) {
            (total + 2) as u32
        } else {
            (count + 2) as u32
        };
        roots.push(root);
        if !db.tables[i].1.schema.view {
            count = count + 1;
        }
        i = i + 1;
    }
    roots
}

fn add_table(
    facts: &RealFacts,
    db: &WritableDatabase,
    sheets: &mut Sheets,
    i: usize,
    root: u32,
) -> (r: Eval<()>)
    requires
        i < db.tables@.len(),
        root == table_root(*db, i as int),
    ensures
        step(
            r,
            if r is Ok {
                final(sheets)@
            } else {
                old(sheets)@
            },
        ) == table_added(facts@, *db, old(sheets)@, i as int),
{
    let table = &db.tables[i].1;
    if table.schema.view {
        return Ok(());
    }
    let leaves = make_table_leaves(facts, table)?;
    let kind = if table.schema.without_rowid {
        TreeKind::Index
    } else {
        TreeKind::Table
    };
    build_tree(sheets, kind, &leaves, root)
}

fn write_tables(facts: &RealFacts, db: &WritableDatabase, sheets: &mut Sheets, roots: &Vec<u32>) -> (r:
    Eval<()>)
    requires
        are_table_roots(*db, roots@),
    ensures
        step(
            r,
            if r is Ok {
                final(sheets)@
            } else {
                old(sheets)@
            },
        ) == tables_from(facts@, *db, old(sheets)@, 0),
{
    let mut i: usize = 0;
    while i < db.tables.len()
        invariant
            i <= db.tables@.len(),
            are_table_roots(*db, roots@),
            tables_from(facts@, *db, sheets@, i as int) == tables_from(
                facts@,
                *db,
                old(sheets)@,
                0,
            ),
        decreases db.tables@.len() - i,
    {
        add_table(facts, db, sheets, i, roots[i])?;
        i = i + 1;
    }
    Ok(())
}

proof fn lemma_count_grows(tables: Seq<(String, WritableTable)>, a: int, b: int)
    requires
        0 <= a <= b,
    ensures
        physical_count(tables, a) <= physical_count(tables, b),
        physical_count(tables, a) <= a,
    decreases b,
{
    if a < b {
        lemma_count_grows(tables, a, b - 1);
    } else if a > 0 {
        lemma_count_grows(tables, a - 1, a - 1);
    }
}

/// The rows of the table of sequences from a position on.
pub open spec fn sequence_rows_from(
    items: Seq<(String, u64)>,
    i: int,
    out: Seq<(RowId, Seq<SqlValue>)>,
) -> Result<Seq<(RowId, Seq<SqlValue>)>, StopView>
    decreases items.len() - i,
{
    if i < 0 || i >= items.len() {
        Ok(out)
    } else if items[i].1 > i64::MAX {
        Err(storage_stop("sqlite_sequence seq does not fit in i64"@))
    } else {
        sequence_rows_from(
            items,
            i + 1,
            out.push(
                (
                    RowId((i + 1) as u64),
                    seq![SqlValue::Text(items[i].0@), SqlValue::Integer(items[i].1 as i64)],
                ),
            ),
        )
    }
}

/// The model of the rows of a table.
pub open spec fn rows_view(rows: Seq<(RowId, Vec<DbValue>)>) -> Seq<(RowId, Seq<SqlValue>)> {
    Seq::new(rows.len(), |i: int| (rows[i].0, rows[i].1.deep_view()))
}

/// Whether a table is the one that holds sequences.
pub open spec fn is_sequence_table(table: WritableTable, rows: Seq<(RowId, Seq<SqlValue>)>) -> bool {
    &&& table.schema.name@ == "sqlite_sequence"@
    &&& table.schema.columns@.len() == 2
    &&& table.schema.columns@[0].is_plain("name"@, ColumnType::Text, false)
    &&& table.schema.columns@[1].is_plain("seq"@, ColumnType::Integer, false)
    &&& table.schema.primary_key_constraint is None
    &&& !table.schema.without_rowid
    &&& rows_view(table.rows@) == rows
}

/// The model of a table of sequences.
pub open spec fn sequence_table_made(r: Eval<WritableTable>, items: Seq<(String, u64)>) -> bool {
    match sequence_rows_from(items, 0, Seq::empty()) {
        Err(s) => r matches Err(e) && e@ == s,
        Ok(rows) => r matches Ok(t) && is_sequence_table(t, rows),
    }
}

/// Makes the table that holds sequences.
pub fn build_sqlite_sequence_table(items: &Vec<(String, u64)>) -> (r: Eval<WritableTable>)
    ensures
        sequence_table_made(r, items@),
{
    let mut rows: Vec<(RowId, Vec<DbValue>)> = Vec::new();
    let mut i: usize = 0;
    assert(rows_view(rows@) =~= Seq::<(RowId, Seq<SqlValue>)>::empty());
    while i < items.len()
        invariant
            i <= items@.len(),
            sequence_rows_from(items@, i as int, rows_view(rows@)) == sequence_rows_from(
                items@,
                0,
                Seq::empty(),
            ),
        decreases items@.len() - i,
    {
        if items[i].1 > i64::MAX as u64 {
            return Err(fail("sqlite_sequence seq does not fit in i64"));
        }
        let mut row: Vec<DbValue> = Vec::new();
        row.push(DbValue::Text(items[i].0.clone()));
        row.push(DbValue::Integer(items[i].1 as i64));
        assert(row.deep_view() =~= seq![
            SqlValue::Text(items@[i as int].0@),
            SqlValue::Integer(items@[i as int].1 as i64),
        ]);
        let ghost before = rows_view(rows@);
        let id = RowId((i as u128 + 1) as u64);
        rows.push((id, row));
        assert(rows_view(rows@) =~= before.push((id, row.deep_view())));
        i = i + 1;
    }
    let mut columns: Vec<ColumnDef> = Vec::new();
    columns.push(ColumnDef::new("name", ColumnType::Text));
    columns.push(ColumnDef::new("seq", ColumnType::Integer));
    Ok(WritableTable { schema: Schema::new("sqlite_sequence", columns), rows })
}

/// The rows of the table of sequences as entries, from a position on.
pub open spec fn sequence_entries_from(
    rows: Seq<(RowId, Seq<SqlValue>)>,
    i: int,
    out: Seq<EntryView>,
) -> Result<Seq<EntryView>, StopView>
    decreases rows.len() - i,
{
    if i < 0 || i >= rows.len() {
        Ok(out)
    } else {
        match record_of(rows[i].1) {
            Err(s) => Err(s),
            Ok(payload) => sequence_entries_from(
                rows,
                i + 1,
                out.push(
                    EntryView {
                        leaf: LeafView {
                            row_id: rows[i].0.0,
                            payload,
                            separator: Seq::empty(),
                        },
                        key: Seq::empty(),
                    },
                ),
            ),
        }
    }
}

proof fn lemma_sequence_entries(
    table: WritableTable,
    rows: Seq<(RowId, Seq<SqlValue>)>,
    i: int,
    out: Seq<EntryView>,
)
    requires
        is_sequence_table(table, rows),
        0 <= i,
    ensures
        table_entries_from(table, i, out) == sequence_entries_from(rows, i, out),
    decreases rows.len() - i,
{
    if i < rows.len() {
        let row = table.rows@[i].1.deep_view();
        assert(rows[i] == (table.rows@[i].0, row));
        assert(blanked_from(table.schema, row, 2) == Ok::<Seq<SqlValue>, StopView>(row));
        assert(blanked_from(table.schema, row, 1) == Ok::<Seq<SqlValue>, StopView>(row));
        assert(blanked_from(table.schema, row, 0) == Ok::<Seq<SqlValue>, StopView>(row));
        match record_of(row) {
            Ok(payload) => {
                lemma_sequence_entries(
                    table,
                    rows,
                    i + 1,
                    out.push(
                        EntryView {
                            leaf: LeafView {
                                row_id: rows[i].0.0,
                                payload,
                                separator: Seq::empty(),
                            },
                            key: Seq::empty(),
                        },
                    ),
                );
            },
            Err(_) => {},
        }
    }
}

/// The tree of the table of sequences written, where there is one.
pub open spec fn sequence_added(f: Facts, db: WritableDatabase, s: SheetsView) -> Result<
    SheetsView,
    StopView,
> {
    if db.sqlite_sequence_exists {
        match sequence_rows_from(db.sqlite_sequence@, 0, Seq::empty()) {
            Err(e) => Err(e),
            Ok(rows) => match ordered_leaves(
                f,
                TreeKind::Table,
                sequence_entries_from(rows, 0, Seq::empty()),
            ) {
                Err(e) => Err(e),
                Ok(leaves) => tree_built(s, TreeKind::Table, leaves, sequence_root(db)),
            },
        }
    } else {
        Ok(s)
    }
}

fn write_sequence(facts: &RealFacts, db: &WritableDatabase, sheets: &mut Sheets, root: u32) -> (r:
    Eval<()>)
    requires
        root == sequence_root(*db),
    ensures
        step(
            r,
            if r is Ok {
                final(sheets)@
            } else {
                old(sheets)@
            },
        ) == sequence_added(facts@, *db, old(sheets)@),
{
    if !db.sqlite_sequence_exists {
        return Ok(());
    }
    let table = build_sqlite_sequence_table(&db.sqlite_sequence)?;
    proof {
        lemma_sequence_entries(table, rows_view(table.rows@), 0, Seq::empty());
    }
    let leaves = make_table_leaves(facts, &table)?;
    build_tree(sheets, TreeKind::Table, &leaves, root)
}

/// The tree of an index written.
pub open spec fn index_added(
    f: Facts,
    db: WritableDatabase,
    s: SheetsView,
    place: IndexPlace,
    root: u32,
) -> Result<SheetsView, StopView> {
    match index_leaves(
        f,
        db.tables@[place.0 as int].1,
        db.indexes@[place.1 as int].1@[place.2 as int].1,
    ) {
        Err(e) => Err(e),
        Ok(leaves) => tree_built(s, TreeKind::Index, leaves, root),
    }
}

/// The trees of indexes from a position on written.
pub open spec fn indexes_from(
    f: Facts,
    db: WritableDatabase,
    places: Seq<IndexPlace>,
    s: SheetsView,
    k: int,
) -> Result<SheetsView, StopView>
    decreases places.len() - k,
{
    if k < 0 || k >= places.len() {
        Ok(s)
    } else {
        match index_added(f, db, s, places[k], index_root(db, k)) {
            Err(e) => Err(e),
            Ok(next) => indexes_from(f, db, places, next, k + 1),
        }
    }
}

fn add_index(
    facts: &RealFacts,
    db: &WritableDatabase,
    sheets: &mut Sheets,
    place: IndexPlace,
    root: u32,
) -> (r: Eval<()>)
    requires
        place.0 < db.tables@.len(),
        place.1 < db.indexes@.len(),
        place.2 < db.indexes@[place.1 as int].1@.len(),
    ensures
        step(
            r,
            if r is Ok {
                final(sheets)@
            } else {
                old(sheets)@
            },
        ) == index_added(facts@, *db, old(sheets)@, place, root),
{
    let (table, outer, inner): IndexPlace = place;
    let leaves = make_index_leaves(facts, &db.tables[table].1, &db.indexes[outer].1[inner].1)?;
    build_tree(sheets, TreeKind::Index, &leaves, root)
}

fn write_indexes(
    facts: &RealFacts,
    db: &WritableDatabase,
    places: &Vec<IndexPlace>,
    sheets: &mut Sheets,
    tables: usize,
) -> (r: Eval<()>)
    requires
        places_exist(*db, places@),
        tables == table_count(*db),
        tables + places@.len() + 2 <= u32::MAX,
    ensures
        step(
            r,
            if r is Ok {
                final(sheets)@
            } else {
                old(sheets)@
            },
        ) == indexes_from(facts@, *db, places@, old(sheets)@, 0),
{
    let mut k: usize = 0;
    while k < places.len()
        invariant
            k <= places@.len(),
            places_exist(*db, places@),
            tables == table_count(*db),
            tables + places@.len() + 2 <= u32::MAX,
            indexes_from(facts@, *db, places@, sheets@, k as int) == indexes_from(
                facts@,
                *db,
                places@,
                old(sheets)@,
                0,
            ),
        decreases places@.len() - k,
    {
        let root: u32 = (tables + k + 2) as u32;
        add_index(facts, db, sheets, places[k], root)?;
        k = k + 1;
    }
    Ok(())
}

// ---------------------------------------------------------------------------
// The page that lists the schema

/// A row of the schema as a cell.
pub open spec fn schema_cell(row_id: nat, payload: Seq<u8>) -> CellView {
    CellView::Fixed {
        bytes: varint(payload.len() as u64) + varint(row_id as u64) + payload,
    }
}

/// The values of a row of the schema.
pub open spec fn schema_row(
    entry_type: Seq<char>,
    name: Seq<char>,
    table: Seq<char>,
    root: u32,
    sql: Option<Seq<char>>,
) -> Seq<SqlValue> {
    seq![
        SqlValue::Text(entry_type),
        SqlValue::Text(name),
        SqlValue::Text(table),
        SqlValue::Integer(root as i64),
        match sql {
            Some(t) => SqlValue::Text(t),
            None => SqlValue::Null,
        },
    ]
}

/// A row of the schema as a cell, or why there is none.
pub open spec fn schema_entry(
    row_id: nat,
    entry_type: Seq<char>,
    name: Seq<char>,
    table: Seq<char>,
    root: u32,
    sql: Option<Seq<char>>,
) -> Result<CellView, StopView> {
    match record_of(schema_row(entry_type, name, table, root, sql)) {
        Err(s) => Err(s),
        Ok(payload) => Ok(schema_cell(row_id, payload)),
    }
}

/// The model of a statement that may be missing.
pub open spec fn sql_text(sql: Option<String>) -> Option<Seq<char>> {
    match sql {
        Some(t) => Some(t@),
        None => None,
    }
}

fn add_schema_entry(
    cells: &mut Vec<Cell>,
    entry_type: &str,
    name: &str,
    table: &str,
    root: u32,
    sql: Option<String>,
) -> (r: Eval<()>)
    ensures
        match r {
            Ok(_) => {
                let c = schema_entry(
                    old(cells)@.len() + 1,
                    entry_type@,
                    name@,
                    table@,
                    root,
                    sql_text(sql),
                );
                c is Ok && final(cells).deep_view() == old(cells).deep_view().push(c->Ok_0)
            },
            Err(e) => schema_entry(
                old(cells)@.len() + 1,
                entry_type@,
                name@,
                table@,
                root,
                sql_text(sql),
            ) == Err::<CellView, _>(e@),
        },
{
    let ghost text = sql_text(sql);
    let mut values: Vec<DbValue> = Vec::new();
    values.push(DbValue::Text(entry_type.to_owned()));
    values.push(DbValue::Text(name.to_owned()));
    values.push(DbValue::Text(table.to_owned()));
    values.push(DbValue::Integer(root as i64));
    match sql {
        Some(t) => {
            values.push(DbValue::Text(t));
        },
        None => {
            values.push(DbValue::Null);
        },
    }
    assert(values.deep_view() =~= schema_row(entry_type@, name@, table@, root, text));
    let mut payload = make_record(&values)?;
    let row_id: u64 = (cells.len() as u128 + 1) as u64;
    let mut bytes = encode_varint(payload.len() as u64);
    let mut number = encode_varint(row_id);
    bytes.append(&mut number);
    bytes.append(&mut payload);
    cells.push(Cell::Fixed { bytes });
    assert(cells.deep_view() =~= old(cells).deep_view().push(
        schema_entry(old(cells)@.len() + 1, entry_type@, name@, table@, root, text)->Ok_0,
    ));
    Ok(())
}

/// The statement that a table was made by: as it was given, or as it is written out.
pub open spec fn table_sql(f: Facts, schema: Schema) -> Result<Seq<char>, StopView> {
    match schema.create_sql {
        Some(t) => Ok(t@),
        None => create_table_text(f, schema),
    }
}

fn sql_of_table(facts: &RealFacts, schema: &Schema) -> (r: Eval<String>)
    ensures
        stop_view(r) == table_sql(facts@, *schema),
{
    match &schema.create_sql {
        Some(t) => Ok(t.clone()),
        None => render_create_table(facts, schema),
    }
}

/// The rows of the schema for tables from a position on.
pub open spec fn table_rows_from(f: Facts, db: WritableDatabase, i: int, out: Seq<CellView>) -> Result<
    Seq<CellView>,
    StopView,
>
    decreases db.tables@.len() - i,
{
    if i < 0 || i >= db.tables@.len() {
        Ok(out)
    } else {
        let (name, table) = db.tables@[i];
        match table_sql(f, table.schema) {
            Err(s) => Err(s),
            Ok(sql) => match schema_entry(
                out.len() + 1,
                if table.schema.view {
                    "view"@
                } else {
                    "table"@
                },
                name@,
                name@,
                if table.schema.view {
                    0
                } else {
                    table_root(db, i)
                },
                Some(sql),
            ) {
                Err(s) => Err(s),
                Ok(c) => table_rows_from(f, db, i + 1, out.push(c)),
            },
        }
    }
}

/// The model of cells that may be missing.
pub open spec fn cells_view(r: Eval<Vec<Cell>>) -> Result<Seq<CellView>, StopView> {
    match r {
        Ok(v) => Ok(v.deep_view()),
        Err(s) => Err(s@),
    }
}

fn list_tables(facts: &RealFacts, db: &WritableDatabase, roots: &Vec<u32>) -> (r: Eval<Vec<Cell>>)
    requires
        are_table_roots(*db, roots@),
    ensures
        cells_view(r) == table_rows_from(facts@, *db, 0, Seq::empty()),
{
    let mut cells: Vec<Cell> = Vec::new();
    let mut i: usize = 0;
    assert(cells.deep_view() =~= Seq::<CellView>::empty());
    while i < db.tables.len()
        invariant
            i <= db.tables@.len(),
            are_table_roots(*db, roots@),
            table_rows_from(facts@, *db, i as int, cells.deep_view()) == table_rows_from(
                facts@,
                *db,
                0,
                Seq::empty(),
            ),
        decreases db.tables@.len() - i,
    {
        let name = db.tables[i].0.as_str();
        let schema = &db.tables[i].1.schema;
        let sql = sql_of_table(facts, schema)?;
        assert(cells.deep_view().len() == cells@.len());
        let root: u32 = roots[i];
        if schema.view {
            add_schema_entry(&mut cells, "view", name, name, 0, Some(sql))?;
        } else {
            add_schema_entry(&mut cells, "table", name, name, root, Some(sql))?;
        }
        i = i + 1;
    }
    Ok(cells)
}

/// Whether the name of an index says that a constraint made it.
pub open spec fn is_auto_name(name: Seq<char>) -> bool {
    occurs_at(name, "sqlite_autoindex_"@, 0)
}

/// The rows of the schema for indexes from a position on.
pub open spec fn index_rows_from(
    db: WritableDatabase,
    places: Seq<IndexPlace>,
    k: int,
    out: Seq<CellView>,
) -> Result<Seq<CellView>, StopView>
    decreases places.len() - k,
{
    if k < 0 || k >= places.len() {
        Ok(out)
    } else {
        let (_, outer, inner) = places[k];
        let table = db.indexes@[outer as int].0@;
        let (name, index) = db.indexes@[outer as int].1@[inner as int];
        match schema_entry(
            out.len() + 1,
            "index"@,
            name@,
            table,
            index_root(db, k),
            if is_auto_name(name@) {
                None
            } else {
                Some(create_index_text(table, index.meta))
            },
        ) {
            Err(s) => Err(s),
            Ok(c) => index_rows_from(db, places, k + 1, out.push(c)),
        }
    }
}

fn list_indexes(
    db: &WritableDatabase,
    places: &Vec<IndexPlace>,
    tables: usize,
    start: Vec<Cell>,
) -> (r: Eval<Vec<Cell>>)
    requires
        places_exist(*db, places@),
        tables == table_count(*db),
        tables + places@.len() + 2 <= u32::MAX,
    ensures
        cells_view(r) == index_rows_from(*db, places@, 0, start.deep_view()),
{
    let mut cells = start;
    let mut k: usize = 0;
    while k < places.len()
        invariant
            k <= places@.len(),
            places_exist(*db, places@),
            tables == table_count(*db),
            tables + places@.len() + 2 <= u32::MAX,
            index_rows_from(*db, places@, k as int, cells.deep_view()) == index_rows_from(
                *db,
                places@,
                0,
                start.deep_view(),
            ),
        decreases places@.len() - k,
    {
        let (_, outer, inner): IndexPlace = places[k];
        let table = db.indexes[outer].0.as_str();
        let name = db.indexes[outer].1[inner].0.as_str();
        let index = &db.indexes[outer].1[inner].1;
        let root: u32 = (tables + k + 2) as u32;
        let auto_made = stands_at(&char_vec(name), &char_vec("sqlite_autoindex_"), 0);
        let sql = if auto_made {
            None
        } else {
            Some(render_create_index(table, &index.meta))
        };
        assert(cells.deep_view().len() == cells@.len());
        add_schema_entry(&mut cells, "index", name, table, root, sql)?;
        k = k + 1;
    }
    Ok(cells)
}

/// The rows of the schema for other objects from a position on.
pub open spec fn extra_rows_from(objects: Seq<WritableSchemaObject>, i: int, out: Seq<CellView>) -> Result<
    Seq<CellView>,
    StopView,
>
    decreases objects.len() - i,
{
    if i < 0 || i >= objects.len() {
        Ok(out)
    } else {
        match schema_entry(
            out.len() + 1,
            objects[i].entry_type@,
            objects[i].name@,
            objects[i].table_name@,
            objects[i].root_page,
            sql_text(objects[i].sql),
        ) {
            Err(s) => Err(s),
            Ok(c) => extra_rows_from(objects, i + 1, out.push(c)),
        }
    }
}

fn list_extras(objects: &Vec<WritableSchemaObject>, start: Vec<Cell>) -> (r: Eval<Vec<Cell>>)
    ensures
        cells_view(r) == extra_rows_from(objects@, 0, start.deep_view()),
{
    let mut cells = start;
    let mut i: usize = 0;
    while i < objects.len()
        invariant
            i <= objects@.len(),
            extra_rows_from(objects@, i as int, cells.deep_view()) == extra_rows_from(
                objects@,
                0,
                start.deep_view(),
            ),
        decreases objects@.len() - i,
    {
        let object = &objects[i];
        let sql = match &object.sql {
            Some(t) => Some(t.clone()),
            None => None,
        };
        assert(cells.deep_view().len() == cells@.len());
        add_schema_entry(
            &mut cells,
            object.entry_type.as_str(),
            object.name.as_str(),
            object.table_name.as_str(),
            object.root_page,
            sql,
        )?;
        i = i + 1;
    }
    Ok(cells)
}

/// The row of the schema for the table of sequences.
pub open spec fn sequence_row(db: WritableDatabase, out: Seq<CellView>) -> Result<
    Seq<CellView>,
    StopView,
> {
    if db.sqlite_sequence_exists {
        match schema_entry(
            out.len() + 1,
            "table"@,
            "sqlite_sequence"@,
            "sqlite_sequence"@,
            sequence_root(db),
            Some("CREATE TABLE sqlite_sequence(name,seq)"@),
        ) {
            Err(s) => Err(s),
            Ok(c) => Ok(out.push(c)),
        }
    } else {
        Ok(out)
    }
}

/// The rows of the schema: tables, indexes, other objects and the table of sequences.
pub open spec fn schema_cells(f: Facts, db: WritableDatabase, places: Seq<IndexPlace>) -> Result<
    Seq<CellView>,
    StopView,
> {
    match table_rows_from(f, db, 0, Seq::empty()) {
        Err(s) => Err(s),
        Ok(tables) => match index_rows_from(db, places, 0, tables) {
            Err(s) => Err(s),
            Ok(indexes) => match extra_rows_from(db.extra_schema_objects@, 0, indexes) {
                Err(s) => Err(s),
                Ok(extras) => sequence_row(db, extras),
            },
        },
    }
}

fn list_schema(
    facts: &RealFacts,
    db: &WritableDatabase,
    places: &Vec<IndexPlace>,
    roots: &Vec<u32>,
    physical: usize,
    tables: usize,
) -> (r: Eval<Vec<Cell>>)
    requires
        places_exist(*db, places@),
        are_table_roots(*db, roots@),
        physical == physical_count(db.tables@, db.tables@.len() as int),
        tables == table_count(*db),
        tables + places@.len() + 2 <= u32::MAX,
    ensures
        cells_view(r) == schema_cells(facts@, *db, places@),
{
    let listed = list_tables(facts, db, roots)?;
    let indexed = list_indexes(db, places, tables, listed)?;
    let mut cells = list_extras(&db.extra_schema_objects, indexed)?;
    if db.sqlite_sequence_exists {
        assert(cells.deep_view().len() == cells@.len());
        add_schema_entry(
            &mut cells,
            "table",
            "sqlite_sequence",
            "sqlite_sequence",
            (physical + 2) as u32,
            Some("CREATE TABLE sqlite_sequence(name,seq)".to_owned()),
        )?;
    }
    Ok(cells)
}

// ---------------------------------------------------------------------------
// The file

/// The header of a file.
pub open spec fn database_header(page_count: u32, db: WritableDatabase) -> Seq<u8> {
    crate::sqlite3::pager::magic() + be_bytes(4096, 2) + seq![1u8, 1, 0, 64, 32, 32] + be_bytes(
        1,
        4,
    ) + be_bytes(page_count as nat, 4) + be_bytes(0, 4) + be_bytes(0, 4) + be_bytes(
        db.schema_version as nat,
        4,
    ) + be_bytes(4, 4) + be_bytes(0, 4) + be_bytes(0, 4) + be_bytes(1, 4) + be_bytes(
        db.user_version as nat,
        4,
    ) + be_bytes(0, 4) + be_bytes(db.application_id as nat, 4) + Seq::new(20, |i: int| 0u8)
        + be_bytes(1, 4) + be_bytes(3_046_000, 4)
}

fn push_magic(out: &mut Vec<u8>)
    ensures
        final(out)@ == old(out)@ + crate::sqlite3::pager::magic(),
{
    out.push(83);
    out.push(81);
    out.push(76);
    out.push(105);
    out.push(116);
    out.push(101);
    out.push(32);
    out.push(102);
    out.push(111);
    out.push(114);
    out.push(109);
    out.push(97);
    out.push(116);
    out.push(32);
    out.push(51);
    out.push(0);
    assert(out@ =~= old(out)@ + crate::sqlite3::pager::magic());
}

fn make_header(page_count: u32, db: &WritableDatabase) -> (r: Vec<u8>)
    ensures
        r@ == database_header(page_count, *db),
        r@.len() == 100,
{
    let mut out: Vec<u8> = Vec::new();
    push_magic(&mut out);
    assert(out@ =~= crate::sqlite3::pager::magic());
    push_be(&mut out, 4096, 2);
    let ghost start = out@;
    out.push(1);
    out.push(1);
    out.push(0);
    out.push(64);
    out.push(32);
    out.push(32);
    assert(out@ =~= start + seq![1u8, 1, 0, 64, 32, 32]);
    push_be(&mut out, 1, 4);
    push_be(&mut out, page_count as u64, 4);
    push_be(&mut out, 0, 4);
    push_be(&mut out, 0, 4);
    push_be(&mut out, db.schema_version as u64, 4);
    push_be(&mut out, 4, 4);
    push_be(&mut out, 0, 4);
    push_be(&mut out, 0, 4);
    push_be(&mut out, 1, 4);
    push_be(&mut out, db.user_version as u64, 4);
    push_be(&mut out, 0, 4);
    push_be(&mut out, db.application_id as u64, 4);
    let mut gap = crate::common::bytes::zero_vec(20);
    assert(gap@ =~= Seq::new(20, |i: int| 0u8));
    out.append(&mut gap);
    push_be(&mut out, 1, 4);
    push_be(&mut out, 3_046_000, 4);
    proof {
        lemma_be_bytes_len(4096, 2);
        lemma_be_bytes_len(1, 4);
        lemma_be_bytes_len(page_count as nat, 4);
        lemma_be_bytes_len(0, 4);
        lemma_be_bytes_len(db.schema_version as nat, 4);
        lemma_be_bytes_len(4, 4);
        lemma_be_bytes_len(db.user_version as nat, 4);
        lemma_be_bytes_len(db.application_id as nat, 4);
        lemma_be_bytes_len(3_046_000, 4);
    }
    out
}

/// The pages of a file from one on, behind those already there.
pub open spec fn file_from(
    pages: Map<u64, Seq<u8>>,
    header: Seq<u8>,
    page_count: u32,
    page_no: int,
    out: Seq<u8>,
) -> Result<Seq<u8>, StopView>
    decreases page_count + 1 - page_no,
{
    if page_no < 1 || page_no > page_count {
        Ok(out)
    } else if !pages.dom().contains(page_no as u64) {
        Err(
            storage_stop(
                "missing sqlite page "@ + nat_text(page_no as nat) + " during file assembly"@,
            ),
        )
    } else {
        let page = pages[page_no as u64];
        file_from(
            pages,
            header,
            page_count,
            page_no + 1,
            out + if page_no == 1 {
                splice(page, 0, header)
            } else {
                page
            },
        )
    }
}

fn assemble(sheets: &Sheets, header: &Vec<u8>, page_count: u32) -> (r: Eval<Vec<u8>>)
    requires
        header@.len() == 100,
        sheets@.pages.dom().contains(1) ==> sheets@.pages[1].len() == 4096,
    ensures
        stop_view(r) == file_from(sheets@.pages, header@, page_count, 1, Seq::empty()),
{
    let mut out: Vec<u8> = Vec::new();
    let mut page_no: u64 = 1;
    while page_no <= page_count as u64
        invariant
            1 <= page_no <= page_count + 1,
            header@.len() == 100,
            sheets@.pages.dom().contains(1) ==> sheets@.pages[1].len() == 4096,
            file_from(sheets@.pages, header@, page_count, page_no as int, out@) == file_from(
                sheets@.pages,
                header@,
                page_count,
                1,
                Seq::empty(),
            ),
        decreases page_count + 1 - page_no,
    {
        match sheets.pages.get(&page_no) {
            None => {
                let mut message = "missing sqlite page ".to_owned();
                message.append(u64_text(page_no).as_str());
                message.append(" during file assembly");
                return Err(fail(message.as_str()));
            },
            Some(page) => {
                let mut copy = crate::common::bytes::copy_bytes(page);
                assert(copy@ =~= page.deep_view());
                if page_no == 1 {
                    put_bytes(&mut copy, 0, header.as_slice());
                }
                out.append(&mut copy);
            },
        }
        page_no = page_no + 1;
    }
    Ok(out)
}

/// The pages of a database: trees first, then the page that lists them.
pub open spec fn pages_written(f: Facts, db: WritableDatabase, next: u32, places: Seq<IndexPlace>) -> Result<
    SheetsView,
    StopView,
> {
    match tables_from(f, db, SheetsView { next, pages: Map::empty() }, 0) {
        Err(e) => Err(e),
        Ok(s1) => match sequence_added(f, db, s1) {
            Err(e) => Err(e),
            Ok(s2) => match indexes_from(f, db, places, s2, 0) {
                Err(e) => Err(e),
                Ok(s3) => schema_added(f, db, s3, places),
            },
        },
    }
}

/// The page that lists the schema written.
pub open spec fn schema_added(
    f: Facts,
    db: WritableDatabase,
    s: SheetsView,
    places: Seq<IndexPlace>,
) -> Result<SheetsView, StopView> {
    match schema_cells(f, db, places) {
        Err(e) => Err(e),
        Ok(cells) => match page_built(s, Sheet::FirstLeafTable, cells) {
            Err(e) => Err(e),
            Ok((next, page)) => inserted(next, 1, page),
        },
    }
}

/// The file that a database is written as.
pub open spec fn database_file(f: Facts, db: WritableDatabase) -> Result<Seq<u8>, StopView> {
    match first_free_page(db) {
        Err(e) => Err(e),
        Ok(next) => match pages_written(f, db, next, physical_indexes(db)->Ok_0) {
            Err(e) => Err(e),
            Ok(s) => {
                let page_count = (s.next - 1) as u32;
                file_from(
                    s.pages,
                    database_header(page_count, db),
                    page_count,
                    1,
                    Seq::empty(),
                )
            },
        },
    }
}

proof fn lemma_tables_grow(f: Facts, db: WritableDatabase, s: SheetsView, i: int)
    requires
        tables_from(f, db, s, i) is Ok,
    ensures
        grown(s, tables_from(f, db, s, i)->Ok_0),
    decreases db.tables@.len() - i,
{
    if 0 <= i < db.tables@.len() {
        let table = db.tables@[i].1;
        if !table.schema.view {
            lemma_tree_grows(
                s,
                table_kind(table.schema),
                table_leaves(f, table)->Ok_0,
                table_root(db, i),
            );
        }
        lemma_tables_grow(f, db, table_added(f, db, s, i)->Ok_0, i + 1);
    }
}

proof fn lemma_indexes_grow(
    f: Facts,
    db: WritableDatabase,
    places: Seq<IndexPlace>,
    s: SheetsView,
    k: int,
)
    requires
        indexes_from(f, db, places, s, k) is Ok,
    ensures
        grown(s, indexes_from(f, db, places, s, k)->Ok_0),
    decreases places.len() - k,
{
    if 0 <= k < places.len() {
        let place = places[k];
        lemma_tree_grows(
            s,
            TreeKind::Index,
            index_leaves(
                f,
                db.tables@[place.0 as int].1,
                db.indexes@[place.1 as int].1@[place.2 as int].1,
            )->Ok_0,
            index_root(db, k),
        );
        lemma_indexes_grow(
            f,
            db,
            places,
            index_added(f, db, s, place, index_root(db, k))->Ok_0,
            k + 1,
        );
    }
}

proof fn lemma_pages_grow(f: Facts, db: WritableDatabase, next: u32, places: Seq<IndexPlace>)
    requires
        pages_written(f, db, next, places) is Ok,
    ensures
        next <= pages_written(f, db, next, places)->Ok_0.next,
        sized(pages_written(f, db, next, places)->Ok_0),
        pages_written(f, db, next, places)->Ok_0.pages.dom().contains(1),
{
    let s0 = SheetsView { next, pages: Map::empty() };
    assert(sized(s0));
    lemma_tables_grow(f, db, s0, 0);
    let s1 = tables_from(f, db, s0, 0)->Ok_0;
    if db.sqlite_sequence_exists {
        let rows = sequence_rows_from(db.sqlite_sequence@, 0, Seq::empty())->Ok_0;
        lemma_tree_grows(
            s1,
            TreeKind::Table,
            ordered_leaves(
                f,
                TreeKind::Table,
                sequence_entries_from(rows, 0, Seq::empty()),
            )->Ok_0,
            sequence_root(db),
        );
    }
    let s2 = sequence_added(f, db, s1)->Ok_0;
    lemma_indexes_grow(f, db, places, s2, 0);
    let s3 = indexes_from(f, db, places, s2, 0)->Ok_0;
    let cells = schema_cells(f, db, places)->Ok_0;
    lemma_page_grows(s3, Sheet::FirstLeafTable, cells);
}

fn build_sqlite_schema_page(
    facts: &RealFacts,
    db: &WritableDatabase,
    sheets: &mut Sheets,
    places: &Vec<IndexPlace>,
    roots: &Vec<u32>,
    physical: usize,
    tables: usize,
) -> (r: Eval<()>)
    requires
        places_exist(*db, places@),
        are_table_roots(*db, roots@),
        physical == physical_count(db.tables@, db.tables@.len() as int),
        tables == table_count(*db),
        tables + places@.len() + 2 <= u32::MAX,
    ensures
        step(
            r,
            if r is Ok {
                final(sheets)@
            } else {
                old(sheets)@
            },
        ) == schema_added(facts@, *db, old(sheets)@, places@),
        r is Ok ==> final(sheets)@.pages.dom().contains(1) && final(sheets)@.pages[1].len()
            == 4096,
{
    let cells = list_schema(facts, db, places, roots, physical, tables)?;
    let page = build_page(sheets, Sheet::FirstLeafTable, &cells)?;
    sheets.insert_page(1, page)
}

pub proof fn lemma_header_parts(page_count: u32, db: WritableDatabase)
    ensures
        database_header(page_count, db).len() == 100,
        database_header(page_count, db).take(16) == crate::sqlite3::pager::magic(),
        database_header(page_count, db).subrange(16, 18) == be_bytes(4096, 2),
        database_header(page_count, db)[20] == 0,
{
    lemma_be_bytes_len(4096, 2);
    lemma_be_bytes_len(1, 4);
    lemma_be_bytes_len(page_count as nat, 4);
    lemma_be_bytes_len(0, 4);
    lemma_be_bytes_len(db.schema_version as nat, 4);
    lemma_be_bytes_len(4, 4);
    lemma_be_bytes_len(db.user_version as nat, 4);
    lemma_be_bytes_len(db.application_id as nat, 4);
    lemma_be_bytes_len(3_046_000, 4);
    let h = database_header(page_count, db);
    let m = crate::sqlite3::pager::magic();
    let start = m + be_bytes(4096, 2) + seq![1u8, 1, 0, 64, 32, 32];
    assert(h.take(24) =~= start);
    assert(h.take(16) =~= m);
    assert(h.subrange(16, 18) =~= be_bytes(4096, 2));
    assert(h[20] == start[20]);
}

proof fn lemma_file_pages(
    pages: Map<u64, Seq<u8>>,
    header: Seq<u8>,
    page_count: u32,
    page_no: int,
    out: Seq<u8>,
)
    requires
        1 <= page_no <= page_count + 1,
        file_from(pages, header, page_count, page_no, out) is Ok,
        forall|p: u64| #[trigger] pages.dom().contains(p) ==> pages[p].len() == 4096,
        out.len() == 4096 * (page_no - 1),
    ensures
        ({
            let file = file_from(pages, header, page_count, page_no, out)->Ok_0;
            &&& file.len() == 4096 * page_count
            &&& file.take(out.len() as int) == out
            &&& forall|p: u32|
                page_no <= p <= page_count ==> (#[trigger] file.subrange(
                    (p - 1) * 4096,
                    p * 4096,
                )) == if p == 1 {
                    splice(pages[1], 0, header)
                } else {
                    pages[p as u64]
                }
        }),
    decreases page_count + 1 - page_no,
{
    let file = file_from(pages, header, page_count, page_no, out)->Ok_0;
    if page_no <= page_count {
        let page = if page_no == 1 {
            splice(pages[1], 0, header)
        } else {
            pages[page_no as u64]
        };
        assert(page.len() == 4096);
        lemma_file_pages(pages, header, page_count, page_no + 1, out + page);
        assert(file.take((out + page).len() as int) == out + page);
        assert(file.take(out.len() as int) =~= (out + page).take(out.len() as int));
        assert((out + page).take(out.len() as int) =~= out);
        assert forall|p: u32| page_no <= p <= page_count implies (#[trigger] file.subrange(
            (p - 1) * 4096,
            p * 4096,
        )) == if p == 1 {
            splice(pages[1], 0, header)
        } else {
            pages[p as u64]
        } by {
            if p == page_no {
                assert(file.subrange((p - 1) * 4096, p * 4096) =~= file.take(
                    (out + page).len() as int,
                ).subrange((p - 1) * 4096, p * 4096));
                assert((out + page).subrange((p - 1) * 4096, p * 4096) =~= page);
            }
        }
    } else {
        assert(file.take(out.len() as int) =~= out);
    }
}

/// A file that was written can be opened: its pages have the size that it says, and each page
/// that was written is the page that is read under its number. On the first page the header
/// of the file stands in front.
pub proof fn law_written_file_opens(f: Facts, db: WritableDatabase)
    requires
        database_file(f, db) is Ok,
    ensures
        ({
            let file = database_file(f, db)->Ok_0;
            let s = pages_written(
                f,
                db,
                first_free_page(db)->Ok_0,
                physical_indexes(db)->Ok_0,
            )->Ok_0;
            let page_count = (s.next - 1) as u32;
            &&& opened(file) == Ok::<DatabaseHeader, ErrorView>(
                DatabaseHeader { page_size: 4096, reserved: 0 },
            )
            &&& file.len() == 4096 * page_count
            &&& forall|p: u32|
                2 <= p <= page_count ==> #[trigger] page_of(file, 4096, p) == Ok::<
                    Seq<u8>,
                    ErrorView,
                >(s.pages[p as u64])
            &&& page_of(file, 4096, 1) == Ok::<Seq<u8>, ErrorView>(
                splice(s.pages[1], 0, database_header(page_count, db)),
            )
        }),
{
    let next = first_free_page(db)->Ok_0;
    let places = physical_indexes(db)->Ok_0;
    lemma_pages_grow(f, db, next, places);
    let s = pages_written(f, db, next, places)->Ok_0;
    let page_count = (s.next - 1) as u32;
    let header = database_header(page_count, db);
    let file = database_file(f, db)->Ok_0;
    lemma_file_pages(s.pages, header, page_count, 1, Seq::empty());
    lemma_header_parts(page_count, db);
    lemma_byte_ranges();
    lemma_be_round_trip(4096, 2);
    let first = splice(s.pages[1], 0, header);
    assert(file.subrange((1u32 - 1) * 4096, 1u32 * 4096) == first);
    assert(file.subrange(0, 4096) == first);
    assert(file.take(16) =~= file.subrange(0, 4096).take(16));
    assert(first.take(16) =~= header.take(16));
    assert(file.subrange(16, 18) =~= file.subrange(0, 4096).subrange(16, 18));
    assert(first.subrange(16, 18) =~= header.subrange(16, 18));
    assert(file[20] == file.subrange(0, 4096)[20]);
    assert((4096 * page_count) % 4096 == 0);
    assert forall|p: u32| 2 <= p <= page_count implies #[trigger] page_of(file, 4096, p) == Ok::<
        Seq<u8>,
        ErrorView,
    >(s.pages[p as u64]) by {
        assert(file.subrange((p - 1) * 4096, p * 4096) == s.pages[p as u64]);
    }
}

/// Writes a database as a file.
pub fn write_database(facts: &RealFacts, db: &WritableDatabase) -> (r: Eval<Vec<u8>>)
    ensures
        stop_view(r) == database_file(facts@, *db),
{
    let physical: usize = count_physical(&db.tables);
    let tables: u128 = physical as u128 + if db.sqlite_sequence_exists {
        1u128
    } else {
        0u128
    };
    if tables >= u32::MAX as u128 {
        return Err(fail("sqlite page number overflow"));
    }
    let places = collect_physical_indexes(db)?;
    let next: u128 = tables + places.len() as u128 + 2;
    if next > u32::MAX as u128 {
        return Err(fail("sqlite page number overflow"));
    }
    let roots = number_tables(db, physical);
    let mut sheets = Sheets::new(next as u32);
    write_tables(facts, db, &mut sheets, &roots)?;
    write_sequence(facts, db, &mut sheets, (physical + 2) as u32)?;
    write_indexes(facts, db, &places, &mut sheets, tables as usize)?;
    build_sqlite_schema_page(facts, db, &mut sheets, &places, &roots, physical, tables as usize)?;
    proof {
        lemma_pages_grow(facts@, *db, next as u32, places@);
    }
    let page_count: u32 = sheets.next - 1;
    let header = make_header(page_count, db);
    assemble(&sheets, &header, page_count)
}

} // verus!
