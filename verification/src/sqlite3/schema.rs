//! The catalog of a file: its tables and indexes, and where each starts.

use vstd::prelude::*;

use crate::common::error::{plain_result, result_view, storage, DbError, DbResult, ErrorView};
use crate::common::nested::{put, put_under, under};
use crate::common::ordmap::OrdMap;
use crate::common::schema::{copy_names, IndexMeta, IndexView, Schema};
use crate::common::text::same_text;
use crate::sqlite3::autoindex::{
    auto_index, auto_prefix, has_start, max_autoindex_ordinals, ordinals_from, parse_autoindex,
    starts_with,
};
use crate::sqlite3::pager::{DatabaseHeader, Pager};
use crate::sqlite3::schema_rows::{read_schema_rows, schema_rows, SchemaRow, SchemaRowView};

verus! {

/// The tables and indexes of a file.
pub struct Catalog {
    schemas: OrdMap<String, Schema>,
    table_root_pages: OrdMap<String, u32>,
    indexes: OrdMap<String, OrdMap<String, IndexMeta>>,
    index_root_pages: OrdMap<String, OrdMap<String, u32>>,
    sqlite_sequence_root_page: Option<u32>,
}

/// The model of a catalog.
#[verifier::ext_equal]
pub struct CatalogView {
    pub schemas: Map<Seq<char>, Schema>,
    pub table_root_pages: Map<Seq<char>, u32>,
    pub indexes: Map<Seq<char>, Map<Seq<char>, IndexView>>,
    pub index_root_pages: Map<Seq<char>, Map<Seq<char>, u32>>,
    pub sqlite_sequence_root_page: Option<u32>,
}

impl View for Catalog {
    type V = CatalogView;

    closed spec fn view(&self) -> CatalogView {
        CatalogView {
            schemas: self.schemas@,
            table_root_pages: self.table_root_pages@,
            indexes: self.indexes@,
            index_root_pages: self.index_root_pages@,
            sqlite_sequence_root_page: self.sqlite_sequence_root_page,
        }
    }
}

/// A catalog of nothing.
pub open spec fn empty_catalog() -> CatalogView {
    CatalogView {
        schemas: Map::empty(),
        table_root_pages: Map::empty(),
        indexes: Map::empty(),
        index_root_pages: Map::empty(),
        sqlite_sequence_root_page: None,
    }
}

/// What the SQL text in a row of the schema was read as.
pub enum Reading {
    /// The text could not be read.
    Fault(DbError),
    /// The text is not exactly one statement.
    NotOne,
    /// A `CREATE TABLE` statement.
    Table(Schema),
    /// A `CREATE INDEX` statement, with the table that it names.
    Index(IndexMeta, String),
    /// Another statement, or no text at all.
    Other,
}

// ---------------------------------------------------------------------------
// Maps of maps

/// A map of maps with a value put under two names, unless there is one.
pub open spec fn put_new<V>(
    m: Map<Seq<char>, Map<Seq<char>, V>>,
    table: Seq<char>,
    name: Seq<char>,
    value: V,
) -> Map<Seq<char>, Map<Seq<char>, V>> {
    if under(m, table).dom().contains(name) {
        m
    } else {
        put(m, table, name, value)
    }
}

fn holds<V: DeepView>(m: &OrdMap<String, OrdMap<String, V>>, table: &String, name: &String) -> (r:
    bool)
    ensures
        r == under(m@, table@).dom().contains(name@),
{
    match m.get(table) {
        Some(inner) => inner.contains_key(name),
        None => false,
    }
}

// ---------------------------------------------------------------------------
// Rows

/// The table that a row describes.
pub open spec fn table_read(reading: Reading, expected: Seq<char>) -> Result<Schema, ErrorView> {
    match reading {
        Reading::Fault(e) => Err(e@),
        Reading::NotOne => Err(
            storage("sqlite schema CREATE TABLE SQL must contain exactly one statement"@),
        ),
        Reading::Table(schema) => if schema.name@ == expected {
            Ok(schema)
        } else {
            Err(
                storage(
                    "sqlite schema table name mismatch: expected "@ + expected + ", parsed "@
                        + schema.name@,
                ),
            )
        },
        _ => Err(storage("sqlite schema row did not parse as CREATE TABLE"@)),
    }
}

fn fail_mismatch(start: &str, expected: &str, found: &str) -> (r: DbError)
    ensures
        r@ == storage(start@ + expected@ + ", parsed "@ + found@),
{
    let mut message = start.to_owned();
    message.append(expected);
    message.append(", parsed ");
    message.append(found);
    DbError::storage(message.as_str())
}

fn parse_schema(reading: Reading, expected_name: &str) -> (r: DbResult<Schema>)
    ensures
        plain_result(r) == table_read(reading, expected_name@),
{
    match reading {
        Reading::Fault(e) => Err(e),
        Reading::NotOne => Err(
            DbError::storage("sqlite schema CREATE TABLE SQL must contain exactly one statement"),
        ),
        Reading::Table(schema) => {
            if same_text(schema.name.as_str(), expected_name) {
                Ok(schema)
            } else {
                Err(
                    fail_mismatch(
                        "sqlite schema table name mismatch: expected ",
                        expected_name,
                        schema.name.as_str(),
                    ),
                )
            }
        },
        _ => Err(DbError::storage("sqlite schema row did not parse as CREATE TABLE")),
    }
}

/// The index that a row describes.
pub open spec fn index_read(reading: Reading, expected: Seq<char>, table: Seq<char>) -> Result<
    IndexView,
    ErrorView,
> {
    match reading {
        Reading::Fault(e) => Err(e@),
        Reading::NotOne => Err(
            storage("sqlite schema CREATE INDEX SQL must contain exactly one statement"@),
        ),
        Reading::Index(index, owner) => if index.name@ != expected {
            Err(
                storage(
                    "sqlite schema index name mismatch: expected "@ + expected + ", parsed "@
                        + index.name@,
                ),
            )
        } else if owner@ != table {
            Err(
                storage(
                    "sqlite schema index table mismatch: expected "@ + table + ", parsed "@
                        + owner@,
                ),
            )
        } else {
            Ok(index@)
        },
        _ => Err(storage("sqlite schema row did not parse as CREATE INDEX"@)),
    }
}

fn parse_index(reading: Reading, expected_name: &str, expected_table: &str) -> (r: DbResult<
    IndexMeta,
>)
    ensures
        result_view(r) == index_read(reading, expected_name@, expected_table@),
{
    match reading {
        Reading::Fault(e) => Err(e),
        Reading::NotOne => Err(
            DbError::storage("sqlite schema CREATE INDEX SQL must contain exactly one statement"),
        ),
        Reading::Index(index, owner) => {
            if !same_text(index.name.as_str(), expected_name) {
                Err(
                    fail_mismatch(
                        "sqlite schema index name mismatch: expected ",
                        expected_name,
                        index.name.as_str(),
                    ),
                )
            } else if !same_text(owner.as_str(), expected_table) {
                Err(
                    fail_mismatch(
                        "sqlite schema index table mismatch: expected ",
                        expected_table,
                        owner.as_str(),
                    ),
                )
            } else {
                Ok(index)
            }
        },
        _ => Err(DbError::storage("sqlite schema row did not parse as CREATE INDEX")),
    }
}

/// A catalog with a table added.
pub open spec fn with_table(c: CatalogView, schema: Schema, root: u32) -> CatalogView {
    CatalogView {
        schemas: c.schemas.insert(schema.name@, schema),
        table_root_pages: c.table_root_pages.insert(schema.name@, root),
        ..c
    }
}

/// A catalog with an index added.
pub open spec fn with_index(
    c: CatalogView,
    table: Seq<char>,
    index: IndexView,
    root: u32,
) -> CatalogView {
    CatalogView {
        indexes: put(c.indexes, table, index.name, index),
        index_root_pages: put(c.index_root_pages, table, index.name, root),
        ..c
    }
}

/// The index in a row, where it counts.
pub open spec fn row_index(
    c: CatalogView,
    row: SchemaRowView,
    reading: Reading,
    ordinals: Map<Seq<char>, usize>,
) -> Result<Option<IndexView>, ErrorView> {
    if row.sql is Some {
        match index_read(reading, row.name, row.table_name) {
            Err(e) => Err(e),
            Ok(index) => Ok(Some(index)),
        }
    } else if starts_with(row.name, auto_prefix()) {
        let highest = if ordinals.dom().contains(row.table_name) {
            Some(ordinals[row.table_name])
        } else {
            None
        };
        match auto_index(c.schemas, row.name, row.table_name, highest) {
            Err(e) => Err(e),
            Ok(index) => Ok(Some(index)),
        }
    } else {
        Ok(None)
    }
}

/// A catalog with what a row of the schema describes.
pub open spec fn row_added(
    c: CatalogView,
    row: SchemaRowView,
    reading: Reading,
    ordinals: Map<Seq<char>, usize>,
) -> Result<CatalogView, ErrorView> {
    if row.name == "sqlite_sequence"@ && row.entry_type == "table"@ {
        Ok(CatalogView { sqlite_sequence_root_page: Some(row.root_page), ..c })
    } else if starts_with(row.name, "sqlite_"@) && !(row.entry_type == "index"@ && starts_with(
        row.name,
        auto_prefix(),
    )) {
        Ok(c)
    } else if row.entry_type == "table"@ {
        if row.sql is None {
            Ok(c)
        } else {
            match table_read(reading, row.name) {
                Err(e) => Err(e),
                Ok(schema) => Ok(with_table(c, schema, row.root_page)),
            }
        }
    } else if row.entry_type == "index"@ {
        match row_index(c, row, reading, ordinals) {
            Err(e) => Err(e),
            Ok(None) => Ok(c),
            Ok(Some(index)) => Ok(with_index(c, row.table_name, index, row.root_page)),
        }
    } else {
        Ok(c)
    }
}

/// A catalog with what the rows of the schema describe, from one on.
pub open spec fn rows_added(
    c: CatalogView,
    rows: Seq<SchemaRowView>,
    readings: Seq<Reading>,
    ordinals: Map<Seq<char>, usize>,
    i: int,
) -> Result<CatalogView, ErrorView>
    decreases rows.len() - i,
{
    if i < 0 || i >= rows.len() {
        Ok(c)
    } else {
        match row_added(c, rows[i], readings[i], ordinals) {
            Err(e) => Err(e),
            Ok(next) => rows_added(next, rows, readings, ordinals, i + 1),
        }
    }
}

// ---------------------------------------------------------------------------
// Tables without row ids

/// Whether the key of a table is its tree: it has a primary key and no row ids, and starts
/// somewhere.
pub open spec fn keyed(c: CatalogView, table: Seq<char>) -> bool {
    &&& c.schemas.dom().contains(table)
    &&& c.schemas[table].without_rowid
    &&& c.schemas[table].primary_key_constraint is Some
    &&& c.table_root_pages.dom().contains(table)
}

/// The name of the index for the key of a table.
pub open spec fn key_name(table: Seq<char>) -> Seq<char> {
    auto_prefix() + table + "_1"@
}

/// The index for the key of a table.
pub open spec fn key_index(c: CatalogView, table: Seq<char>) -> IndexView {
    let columns = c.schemas[table].primary_key_constraint->Some_0.columns.deep_view();
    IndexView {
        name: key_name(table),
        columns,
        decorated_columns: Some(columns),
        unique: true,
        predicate: None,
    }
}

/// A catalog with an index for the key of a table, where its key is its tree.
pub open spec fn key_added(c: CatalogView, table: Seq<char>) -> CatalogView {
    if keyed(c, table) {
        CatalogView {
            indexes: put_new(c.indexes, table, key_name(table), key_index(c, table)),
            index_root_pages: put_new(
                c.index_root_pages,
                table,
                key_name(table),
                c.table_root_pages[table],
            ),
            ..c
        }
    } else {
        c
    }
}

/// A catalog with an index for the key of each table whose key is its tree. The tables are
/// independent of each other.
pub open spec fn keys_added(c: CatalogView) -> CatalogView {
    CatalogView {
        indexes: Map::new(
            |t: Seq<char>| c.indexes.dom().contains(t) || keyed(c, t),
            |t: Seq<char>| key_added(c, t).indexes[t],
        ),
        index_root_pages: Map::new(
            |t: Seq<char>| c.index_root_pages.dom().contains(t) || keyed(c, t),
            |t: Seq<char>| key_added(c, t).index_root_pages[t],
        ),
        ..c
    }
}

/// What holds of a catalog when some of the tables have got the index for their key.
spec fn keys_partly(before: CatalogView, now: CatalogView, done: Seq<Seq<char>>) -> bool {
    &&& now.schemas == before.schemas
    &&& now.table_root_pages == before.table_root_pages
    &&& now.sqlite_sequence_root_page == before.sqlite_sequence_root_page
    &&& forall|t: Seq<char>| #[trigger]
        now.indexes.dom().contains(t) <==> before.indexes.dom().contains(t) || (keyed(before, t)
            && done.contains(t))
    &&& forall|t: Seq<char>| #[trigger]
        now.indexes.dom().contains(t) ==> now.indexes[t] == if done.contains(t) {
            key_added(before, t).indexes[t]
        } else {
            before.indexes[t]
        }
    &&& forall|t: Seq<char>| #[trigger]
        now.index_root_pages.dom().contains(t) <==> before.index_root_pages.dom().contains(t) || (
        keyed(before, t) && done.contains(t))
    &&& forall|t: Seq<char>| #[trigger]
        now.index_root_pages.dom().contains(t) ==> now.index_root_pages[t] == if done.contains(t) {
            key_added(before, t).index_root_pages[t]
        } else {
            before.index_root_pages[t]
        }
}

proof fn lemma_keys_step(before: CatalogView, now: CatalogView, done: Seq<Seq<char>>, t: Seq<char>)
    requires
        keys_partly(before, now, done),
        !done.contains(t),
    ensures
        keys_partly(before, key_added(now, t), done.push(t)),
{
    let next = key_added(now, t);
    let more = done.push(t);
    assert(more[done.len() as int] == t);
    assert(forall|x: Seq<char>| #[trigger] more.contains(x) <==> done.contains(x) || x == t) by {
        assert forall|x: Seq<char>| #[trigger] more.contains(x) implies done.contains(x) || x
            == t by {
            let i = choose|i: int| 0 <= i < more.len() && more[i] == x;
            if i < done.len() {
                assert(done[i] == x);
            }
        }
        assert forall|x: Seq<char>| done.contains(x) implies #[trigger] more.contains(x) by {
            let i = choose|i: int| 0 <= i < done.len() && done[i] == x;
            assert(more[i] == x);
        }
    }
    assert(keyed(now, t) == keyed(before, t));
    assert(now.indexes.dom().contains(t) == before.indexes.dom().contains(t));
    assert(now.index_root_pages.dom().contains(t) == before.index_root_pages.dom().contains(t));
    assert(under(now.indexes, t) == under(before.indexes, t));
    assert(under(now.index_root_pages, t) == under(before.index_root_pages, t));
}

// ---------------------------------------------------------------------------
// Reading a catalog

/// The catalog that rows of the schema describe.
pub open spec fn described(rows: Seq<SchemaRowView>, readings: Seq<Reading>) -> Result<
    CatalogView,
    ErrorView,
> {
    match rows_added(
        empty_catalog(),
        rows,
        readings,
        ordinals_from(rows, 0, Map::empty()),
        0,
    ) {
        Err(e) => Err(e),
        Ok(c) => Ok(keys_added(c)),
    }
}

/// The catalog of a file, once the SQL texts in its schema have been read.
pub open spec fn catalog_of(file: Seq<u8>, header: DatabaseHeader, readings: Seq<Reading>) -> Result<
    CatalogView,
    ErrorView,
> {
    match schema_rows(file, header) {
        Err(e) => Err(e),
        Ok(rows) => described(rows, readings),
    }
}

/// Reads the catalog of a file. `readings` holds, for each row of the schema, what its SQL
/// text was read as.
pub fn load_catalog(pager: &Pager, readings: Vec<Reading>) -> (r: DbResult<Catalog>)
    requires
        pager.wf(),
        schema_rows(pager.contents(), pager.known()) matches Ok(rows) ==> rows.len()
            == readings@.len(),
    ensures
        result_view(r) == catalog_of(pager.contents(), pager.known(), readings@),
        r matches Ok(c) ==> hangs_together(c@),
{
    let rows = read_schema_rows(pager)?;
    proof {
        law_catalogs_hang_together(rows.deep_view(), readings@);
    }
    Catalog::from_rows(&rows, readings)
}

impl Catalog {
    /// Makes a catalog of nothing.
    pub fn new() -> (r: Catalog)
        ensures
            r@ == empty_catalog(),
    {
        Catalog {
            schemas: OrdMap::new(),
            table_root_pages: OrdMap::new(),
            indexes: OrdMap::new(),
            index_root_pages: OrdMap::new(),
            sqlite_sequence_root_page: None,
        }
    }

    /// Makes the catalog that rows of the schema describe.
    pub fn from_rows(rows: &Vec<SchemaRow>, readings: Vec<Reading>) -> (r: DbResult<Catalog>)
        requires
            rows@.len() == readings@.len(),
        ensures
            result_view(r) == described(rows.deep_view(), readings@),
    {
        let ghost all = rows.deep_view();
        let ghost given = readings@;
        let mut left = readings;
        let ordinals = max_autoindex_ordinals(rows);
        let mut catalog = Catalog::new();
        let mut i: usize = 0;
        while i < rows.len()
            invariant
                i <= rows@.len(),
                rows@.len() == left@.len() == given.len(),
                all == rows.deep_view(),
                given == readings@,
                ordinals@ == ordinals_from(all, 0, Map::empty()),
                forall|j: int| i <= j < given.len() ==> #[trigger] left@[j] == given[j],
                rows_added(catalog@, all, given, ordinals@, i as int) == rows_added(
                    empty_catalog(),
                    all,
                    given,
                    ordinals@,
                    0,
                ),
            decreases rows@.len() - i,
        {
            let mut reading = Reading::Other;
            std::mem::swap(&mut reading, &mut left[i]);
            assert(reading == given[i as int]);
            assert(all[i as int] == rows@[i as int]@);
            catalog.add_row(&rows[i], reading, &ordinals)?;
            i = i + 1;
        }
        catalog.synthesize_without_rowid_primary_key_indexes();
        Ok(catalog)
    }

    fn add_table(&mut self, schema: Schema, root: u32)
        ensures
            final(self)@ == with_table(old(self)@, schema, root),
    {
        self.table_root_pages.insert(schema.name.clone(), root);
        self.schemas.insert(schema.name.clone(), schema);
    }

    fn add_index(&mut self, table: &String, index: IndexMeta, root: u32)
        ensures
            final(self)@ == with_index(old(self)@, table@, index@, root),
    {
        put_under(&mut self.index_root_pages, table, index.name.clone(), root);
        put_under(&mut self.indexes, table, index.name.clone(), index);
    }

    fn index_of_row(
        &self,
        row: &SchemaRow,
        reading: Reading,
        ordinals: &OrdMap<String, usize>,
    ) -> (r: DbResult<Option<IndexMeta>>)
        ensures
            match r {
                Ok(Some(index)) => row_index(self@, row@, reading, ordinals@) == Ok::<
                    Option<IndexView>,
                    ErrorView,
                >(Some(index@)),
                Ok(None) => row_index(self@, row@, reading, ordinals@) == Ok::<
                    Option<IndexView>,
                    ErrorView,
                >(None),
                Err(e) => row_index(self@, row@, reading, ordinals@) == Err::<
                    Option<IndexView>,
                    ErrorView,
                >(e@),
            },
    {
        if row.sql.is_some() {
            let index = parse_index(reading, row.name.as_str(), row.table_name.as_str())?;
            Ok(Some(index))
        } else if has_start(row.name.as_str(), "sqlite_autoindex_") {
            let highest: Option<usize> = match ordinals.get(&row.table_name) {
                Some(n) => Some(*n),
                None => None,
            };
            let index = parse_autoindex(
                &self.schemas,
                row.name.as_str(),
                &row.table_name,
                highest,
            )?;
            Ok(Some(index))
        } else {
            Ok(None)
        }
    }

    fn add_row(&mut self, row: &SchemaRow, reading: Reading, ordinals: &OrdMap<String, usize>) -> (r:
        DbResult<()>)
        ensures
            match r {
                Ok(_) => row_added(old(self)@, row@, reading, ordinals@) == Ok::<
                    CatalogView,
                    ErrorView,
                >(final(self)@),
                Err(e) => row_added(old(self)@, row@, reading, ordinals@) == Err::<
                    CatalogView,
                    ErrorView,
                >(e@),
            },
    {
        let is_table = same_text(row.entry_type.as_str(), "table");
        let is_index = same_text(row.entry_type.as_str(), "index");
        if same_text(row.name.as_str(), "sqlite_sequence") && is_table {
            self.sqlite_sequence_root_page = Some(row.root_page);
            return Ok(());
        }
        let auto = has_start(row.name.as_str(), "sqlite_autoindex_");
        if has_start(row.name.as_str(), "sqlite_") && !(is_index && auto) {
            return Ok(());
        }
        if is_table {
            if row.sql.is_none() {
                return Ok(());
            }
            let schema = parse_schema(reading, row.name.as_str())?;
            self.add_table(schema, row.root_page);
            Ok(())
        } else if is_index {
            match self.index_of_row(row, reading, ordinals)? {
                None => {},
                Some(index) => {
                    self.add_index(&row.table_name, index, row.root_page);
                },
            }
            Ok(())
        } else {
            Ok(())
        }
    }

    fn add_key_index(&mut self, table: &String)
        ensures
            final(self)@ == key_added(old(self)@, table@),
    {
        let columns = match self.schemas.get(table) {
            None => {
                return;
            },
            Some(schema) => {
                if !schema.without_rowid {
                    return;
                }
                match &schema.primary_key_constraint {
                    None => {
                        return;
                    },
                    Some(key) => copy_names(&key.columns),
                }
            },
        };
        let root: u32 = match self.table_root_pages.get(table) {
            None => {
                return;
            },
            Some(n) => *n,
        };
        let mut name = "sqlite_autoindex_".to_owned();
        name.append(table.as_str());
        name.append("_1");
        if !holds(&self.indexes, table, &name) {
            let index = IndexMeta {
                name: name.clone(),
                decorated_columns: Some(copy_names(&columns)),
                columns,
                unique: true,
                predicate: None,
            };
            put_under(&mut self.indexes, table, name.clone(), index);
        }
        if !holds(&self.index_root_pages, table, &name) {
            put_under(&mut self.index_root_pages, table, name, root);
        }
    }

    fn synthesize_without_rowid_primary_key_indexes(&mut self)
        ensures
            final(self)@ == keys_added(old(self)@),
    {
        let names = key_list(&self.schemas);
        let ghost before = self@;
        let ghost keys = names.deep_view();
        let mut i: usize = 0;
        while i < names.len()
            invariant
                i <= names@.len(),
                keys == names.deep_view(),
                keys.no_duplicates(),
                keys_partly(before, self@, keys.take(i as int)),
            decreases names@.len() - i,
        {
            let ghost done = keys.take(i as int);
            let ghost now = self@;
            self.add_key_index(&names[i]);
            proof {
                assert(keys[i as int] == names@[i as int]@);
                assert(!done.contains(keys[i as int]));
                lemma_keys_step(before, now, done, keys[i as int]);
                assert(done.push(keys[i as int]) =~= keys.take(i + 1));
            }
            i = i + 1;
        }
        proof {
            assert(keys.take(i as int) =~= keys);
            assert forall|t: Seq<char>| keyed(before, t) implies keys.contains(t) by {}
            assert(self@.indexes =~= keys_added(before).indexes);
            assert(self@.index_root_pages =~= keys_added(before).index_root_pages);
        }
    }

    /// The tables, by name.
    pub fn schemas(&self) -> (r: &OrdMap<String, Schema>)
        ensures
            r@ == self@.schemas,
    {
        &self.schemas
    }

    /// The indexes of each table, by name.
    pub fn indexes(&self) -> (r: &OrdMap<String, OrdMap<String, IndexMeta>>)
        ensures
            r@ == self@.indexes,
    {
        &self.indexes
    }

    /// The page at which a table starts.
    pub fn table_root_page(&self, table: &str) -> (r: Option<u32>)
        ensures
            r == if self@.table_root_pages.dom().contains(table@) {
                Some(self@.table_root_pages[table@])
            } else {
                None
            },
    {
        match self.table_root_pages.get(&table.to_owned()) {
            Some(n) => Some(*n),
            None => None,
        }
    }

    /// The page at which an index of a table starts.
    pub fn index_root_page(&self, table: &str, index: &str) -> (r: Option<u32>)
        ensures
            r == if under(self@.index_root_pages, table@).dom().contains(index@) {
                Some(under(self@.index_root_pages, table@)[index@])
            } else {
                None
            },
    {
        match self.index_root_pages.get(&table.to_owned()) {
            Some(pages) => match pages.get(&index.to_owned()) {
                Some(n) => Some(*n),
                None => None,
            },
            None => None,
        }
    }

    /// The page at which the table of the greatest row ids starts.
    pub fn sqlite_sequence_root_page(&self) -> (r: Option<u32>)
        ensures
            r == self@.sqlite_sequence_root_page,
    {
        self.sqlite_sequence_root_page
    }
}

/// The names under which a map holds something.
fn key_list(m: &OrdMap<String, Schema>) -> (r: Vec<String>)
    ensures
        r.deep_view().no_duplicates(),
        forall|k: Seq<char>| #[trigger] m@.dom().contains(k) <==> r.deep_view().contains(k),
{
    let total: usize = m.len();
    let mut out: Vec<String> = Vec::new();
    let mut i: usize = 0;
    while i < total
        invariant
            i <= total,
            total == m.keys().len(),
            out.deep_view() =~= m.keys().take(i as int),
        decreases total - i,
    {
        let ghost before = out.deep_view();
        let name: &String = m.key_at(i);
        out.push(name.clone());
        assert(out.deep_view() =~= before.push(m.keys()[i as int]));
        i = i + 1;
    }
    proof {
        assert(out.deep_view() =~= m.keys());
        assert forall|a: int, b: int| 0 <= a < b < m.keys().len() implies m.keys()[a]
            != m.keys()[b] by {
            <String as crate::common::ordmap::OrdKey>::before_irreflexive(m.keys()[a]);
        }
    }
    out
}

// ---------------------------------------------------------------------------
// Laws

/// Whether tables and the pages where they start go together, and indexes likewise, and no
/// table has a name that is kept for the file itself.
pub open spec fn hangs_together(c: CatalogView) -> bool {
    &&& c.schemas.dom() == c.table_root_pages.dom()
    &&& forall|t: Seq<char>, i: Seq<char>|
        #![trigger under(c.indexes, t).dom().contains(i)]
        #![trigger under(c.index_root_pages, t).dom().contains(i)]
        under(c.indexes, t).dom().contains(i) <==> under(c.index_root_pages, t).dom().contains(i)
    &&& forall|t: Seq<char>| #[trigger]
        c.schemas.dom().contains(t) ==> !starts_with(t, "sqlite_"@) && c.schemas[t].name@ == t
}

proof fn lemma_put_together<A, B>(
    a: Map<Seq<char>, Map<Seq<char>, A>>,
    b: Map<Seq<char>, Map<Seq<char>, B>>,
    table: Seq<char>,
    name: Seq<char>,
    x: A,
    y: B,
)
    requires
        forall|t: Seq<char>, i: Seq<char>|
            #![trigger under(a, t).dom().contains(i)]
            #![trigger under(b, t).dom().contains(i)]
            under(a, t).dom().contains(i) <==> under(b, t).dom().contains(i),
    ensures
        forall|t: Seq<char>, i: Seq<char>|
            #![trigger under(put(a, table, name, x), t).dom().contains(i)]
            #![trigger under(put(b, table, name, y), t).dom().contains(i)]
            under(put(a, table, name, x), t).dom().contains(i) <==> under(
                put(b, table, name, y),
                t,
            ).dom().contains(i),
{
    assert forall|t: Seq<char>, i: Seq<char>|
        #![trigger under(put(a, table, name, x), t).dom().contains(i)]
        #![trigger under(put(b, table, name, y), t).dom().contains(i)]
        under(put(a, table, name, x), t).dom().contains(i) <==> under(
            put(b, table, name, y),
            t,
        ).dom().contains(i) by {
        assert(under(a, t).dom().contains(i) <==> under(b, t).dom().contains(i));
    }
}

proof fn lemma_rows_together(
    c: CatalogView,
    rows: Seq<SchemaRowView>,
    readings: Seq<Reading>,
    ordinals: Map<Seq<char>, usize>,
    i: int,
)
    requires
        hangs_together(c),
    ensures
        rows_added(c, rows, readings, ordinals, i) matches Ok(d) ==> hangs_together(d),
    decreases rows.len() - i,
{
    if 0 <= i < rows.len() {
        match row_added(c, rows[i], readings[i], ordinals) {
            Err(_) => {},
            Ok(next) => {
                let row = rows[i];
                reveal_strlit("table");
                reveal_strlit("index");
                assert("table"@[0] != "index"@[0]);
                assert(hangs_together(next)) by {
                    match row_index(c, row, readings[i], ordinals) {
                        Ok(Some(index)) => {
                            lemma_put_together(
                                c.indexes,
                                c.index_root_pages,
                                row.table_name,
                                index.name,
                                index,
                                row.root_page,
                            );
                        },
                        _ => {},
                    }
                    assert(next.schemas.dom() =~= next.table_root_pages.dom());
                }
                lemma_rows_together(next, rows, readings, ordinals, i + 1);
            },
        }
    }
}

/// A catalog that was read has a page where each table starts and no other, and likewise for
/// indexes; no table has a name that is kept for the file itself; and a table without row ids
/// that has a primary key has the index for it.
pub proof fn law_catalogs_hang_together(rows: Seq<SchemaRowView>, readings: Seq<Reading>)
    ensures
        described(rows, readings) matches Ok(c) ==> hangs_together(c) && forall|t: Seq<char>|
            #[trigger] c.schemas.dom().contains(t) && c.schemas[t].without_rowid
                && c.schemas[t].primary_key_constraint is Some ==> under(
                c.indexes,
                t,
            ).dom().contains(key_name(t)),
{
    let ordinals = ordinals_from(rows, 0, Map::empty());
    assert(hangs_together(empty_catalog()));
    lemma_rows_together(empty_catalog(), rows, readings, ordinals, 0);
    match rows_added(empty_catalog(), rows, readings, ordinals, 0) {
        Err(_) => {},
        Ok(b) => {
            let c = keys_added(b);
            assert forall|t: Seq<char>, i: Seq<char>|
                #![trigger under(c.indexes, t).dom().contains(i)]
                #![trigger under(c.index_root_pages, t).dom().contains(i)]
                under(c.indexes, t).dom().contains(i) <==> under(
                    c.index_root_pages,
                    t,
                ).dom().contains(i) by {
                assert(under(b.indexes, t).dom().contains(i) <==> under(
                    b.index_root_pages,
                    t,
                ).dom().contains(i));
                assert(under(b.indexes, t).dom().contains(key_name(t)) <==> under(
                    b.index_root_pages,
                    t,
                ).dom().contains(key_name(t)));
            }
            assert forall|t: Seq<char>| #[trigger]
                c.schemas.dom().contains(t) && c.schemas[t].without_rowid
                    && c.schemas[t].primary_key_constraint is Some implies under(
                c.indexes,
                t,
            ).dom().contains(key_name(t)) by {
                assert(b.table_root_pages.dom().contains(t));
                assert(keyed(b, t));
            }
        },
    }
}

} // verus!
