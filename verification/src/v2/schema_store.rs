//! Definitions of tables: making, dropping and changing them, and what a planner sees of
//! them.

use vstd::prelude::*;

use crate::common::error::{bare, storage, DbError, DbResult, ErrorCode, ErrorView};
use crate::common::ordmap::{Duplicate, OrdMap};
use crate::common::ordset::{lemma_is_sorted, sorted};
use crate::common::schema::{IndexMeta, IndexView, Schema};
use crate::common::text::same_text;
use crate::common::value::{DbValue, IsolationLevel, Row, SqlValue, TransactionId};
use crate::v2::btree::BTree;
use crate::v2::catalog::{CatalogModel, CatalogState, SharedSchema};
use crate::v2::codec::{decode_row, encode_row, latest, no_column, row_of, Held};
use crate::v2::page::PageId;
use crate::v2::pager::{step, Pager};
use crate::v2::pager_model::PagerModel;
use crate::v2::storage::{engine_step, fail_no_table, fault_view, FileStorage};
use crate::v2::storage_model::{no_table, roots_of, table_of, with_table_root, StorageModel};
use crate::v2::tables::{
    all_lengthened, lemma_fewer_trees, lemma_lengthens_all, lemma_lengthens_none,
    lemma_lengthens_one, lemma_no_tables, lemma_rows_put, lemma_same_names, lemma_same_trees,
    lemma_room, lemma_table_made, lemma_tree_renamed, lengthens, rows_in, stored, Tables,
};
use crate::v2::tree::{all_entries, tree_made, tree_put};
use crate::v2::tree_node::{EntryView, LeafEntry};
use crate::v2::tree_shape::{lists_contents, tree_became, tree_holds};
use crate::v2::txn_manager::row_ids_joined;
use crate::v2::txn_model::TxnModel;
use crate::v2::values_json::row_json;

verus! {

// ---------------------------------------------------------------------------
// Models

/// A map with the value of one key moved to another, where it has one.
pub open spec fn moved<V>(m: Map<Seq<char>, V>, from: Seq<char>, to: Seq<char>) -> Map<Seq<char>, V> {
    if m.dom().contains(from) {
        m.remove(from).insert(to, m[from])
    } else {
        m
    }
}

/// Definitions of which some are written anew.
pub open spec fn rewritten<V>(m: Map<Seq<char>, V>, new: Map<Seq<char>, V>) -> Map<Seq<char>, V> {
    Map::new(
        |k: Seq<char>| m.dom().contains(k),
        |k: Seq<char>|
            if new.dom().contains(k) {
                new[k]
            } else {
                m[k]
            },
    )
}

/// Columns of which one has another name.
pub open spec fn renamed(columns: Seq<Seq<char>>, old_name: Seq<char>, new_name: Seq<char>) -> Seq<
    Seq<char>,
> {
    columns.map_values(
        |c: Seq<char>|
            if c == old_name {
                new_name
            } else {
                c
            },
    )
}

/// The failure of a column that there is already.
pub open spec fn column_exists(table: Seq<char>, column: Seq<char>) -> ErrorView {
    storage("column already exists on table "@ + table + ": "@ + column)
}

/// The outcomes of checking rows.
pub open spec fn fault_views(faults: Seq<Option<DbError>>) -> Seq<Option<ErrorView>> {
    faults.map_values(|e: Option<DbError>| fault_view(e))
}

/// The first row, from one on, that cannot be read or is at fault, if there is one.
pub open spec fn first_fault(
    entries: Seq<EntryView<u64>>,
    faults: Seq<Option<ErrorView>>,
    i: int,
) -> Option<ErrorView>
    decreases entries.len() - i,
{
    if i < 0 || i >= entries.len() {
        None
    } else {
        match row_of(entries[i].value) {
            Err(e) => Some(e),
            Ok(_) => if i < faults.len() && faults[i] is Some {
                faults[i]
            } else {
                first_fault(entries, faults, i + 1)
            },
        }
    }
}

/// The pager once rows have one more value, from one on, and the root of the table then.
pub open spec fn rows_lengthened(
    m: PagerModel,
    txn: u64,
    root: PageId,
    entries: Seq<EntryView<u64>>,
    value: SqlValue,
    i: int,
) -> (PagerModel, Result<PageId, ErrorView>)
    decreases entries.len() - i,
{
    if i < 0 || i >= entries.len() {
        (m, Ok(root))
    } else {
        match row_of(entries[i].value) {
            Err(e) => (m, Err(e)),
            Ok(row) => match tree_put::<u64>(
                m,
                txn,
                root,
                entries[i].key,
                crate::common::json::json_bytes(row_json(row.push(value))),
            ) {
                (a, Err(e)) => (a, Err(e)),
                (a, Ok(next)) => rows_lengthened(a, txn, next, entries, value, i + 1),
            },
        }
    }
}

/// Rows with one more value, from one on, up to the first that cannot be read.
pub open spec fn longer_rows(entries: Seq<EntryView<u64>>, value: SqlValue, i: int) -> Seq<
    Seq<SqlValue>,
>
    decreases entries.len() - i,
{
    if i < 0 || i >= entries.len() {
        Seq::empty()
    } else {
        match row_of(entries[i].value) {
            Err(_) => Seq::empty(),
            Ok(row) => seq![row.push(value)] + longer_rows(entries, value, i + 1),
        }
    }
}

impl StorageModel {
    /// The engine once a table is made.
    pub open spec fn schema_made(self, txn: TransactionId, schema: Schema) -> (
        StorageModel,
        Result<(), ErrorView>,
    ) {
        let name = schema.name@;
        let c = self.catalog;
        match self.idle(txn) {
            Some(e) => (self, Err(e)),
            None => if c.schemas.dom().contains(name) {
                (self, Err(storage("table "@ + name + " already exists"@)))
            } else {
                match tree_made::<u64>(self.pager, txn.0) {
                    (p, Err(e)) => (self.with_pager(p), Err(e)),
                    (p, Ok(root)) => (
                        self.with_pager(p).with_catalog(
                            CatalogModel {
                                schemas: c.schemas.insert(name, schema),
                                table_roots: c.table_roots.insert(name, root),
                                next_row_ids: if c.next_row_ids.dom().contains(name) {
                                    c.next_row_ids
                                } else {
                                    c.next_row_ids.insert(name, 1)
                                },
                                ..c
                            },
                        ),
                        Ok(()),
                    ),
                }
            },
        }
    }

    /// The engine once a table is dropped.
    pub open spec fn schema_dropped(self, txn: TransactionId, name: Seq<char>) -> (
        StorageModel,
        Result<(), ErrorView>,
    ) {
        let c = self.catalog;
        match self.idle(txn) {
            Some(e) => (self, Err(e)),
            None => if !c.schemas.dom().contains(name) {
                (self, Err(no_table(name)))
            } else {
                (
                    self.with_catalog(
                        CatalogModel {
                            schemas: c.schemas.remove(name),
                            table_roots: c.table_roots.remove(name),
                            next_row_ids: c.next_row_ids.remove(name),
                            indexes: c.indexes.remove(name),
                            index_roots: c.index_roots.remove(name),
                        },
                    ),
                    Ok(()),
                )
            },
        }
    }

    /// The engine once the definition of a table is another.
    pub open spec fn schema_replaced(self, txn: TransactionId, schema: Schema) -> (
        StorageModel,
        Result<(), ErrorView>,
    ) {
        let c = self.catalog;
        match self.idle(txn) {
            Some(e) => (self, Err(e)),
            None => if !c.schemas.dom().contains(schema.name@) {
                (self, Err(no_table(schema.name@)))
            } else {
                (
                    self.with_catalog(
                        CatalogModel { schemas: c.schemas.insert(schema.name@, schema), ..c },
                    ),
                    Ok(()),
                )
            },
        }
    }

    /// The engine once a table has another name.
    pub open spec fn schema_renamed(
        self,
        txn: TransactionId,
        old_name: Seq<char>,
        schema: Schema,
        others: Map<Seq<char>, Schema>,
    ) -> (StorageModel, Result<(), ErrorView>) {
        let c = self.catalog;
        let new_name = schema.name@;
        match self.idle(txn) {
            Some(e) => (self, Err(e)),
            None => if c.schemas.dom().contains(new_name) {
                (self, Err(storage("table already exists: "@ + new_name)))
            } else if !c.schemas.dom().contains(old_name) {
                (self, Err(no_table(old_name)))
            } else {
                (
                    self.with_catalog(
                        CatalogModel {
                            schemas: rewritten(
                                c.schemas.remove(old_name).insert(new_name, schema),
                                others,
                            ),
                            table_roots: moved(c.table_roots, old_name, new_name),
                            next_row_ids: moved(c.next_row_ids, old_name, new_name),
                            indexes: moved(c.indexes, old_name, new_name),
                            index_roots: moved(c.index_roots, old_name, new_name),
                        },
                    ),
                    Ok(()),
                )
            },
        }
    }

    /// The table that a column is to be added to, where it starts, and its rows.
    pub open spec fn addition_target(
        self,
        txn: TransactionId,
        table: Seq<char>,
        column: Seq<char>,
    ) -> Result<(PageId, Seq<EntryView<u64>>), ErrorView> {
        match self.idle(txn) {
            Some(e) => Err(e),
            None => match table_of(self.catalog, table) {
                Err(e) => Err(e),
                Ok((schema, root)) => if schema.position(column) is Some {
                    Err(column_exists(table, column))
                } else {
                    match all_entries::<u64>(self.pager, root) {
                        Err(e) => Err(e),
                        Ok(entries) => Ok((root, entries)),
                    }
                },
            },
        }
    }

    /// The engine once a table has one more column.
    pub open spec fn column_added(
        self,
        txn: TransactionId,
        table: Seq<char>,
        column: Seq<char>,
        schema: Schema,
        value: SqlValue,
        schema_fault: Option<ErrorView>,
        row_faults: Seq<Option<ErrorView>>,
    ) -> (StorageModel, Result<(), ErrorView>) {
        match self.addition_target(txn, table, column) {
            Err(e) => (self, Err(e)),
            Ok((root, entries)) => match schema_fault {
                Some(e) => (self, Err(e)),
                None => match first_fault(entries, row_faults, 0) {
                    Some(e) => (self, Err(e)),
                    None => {
                        let c = CatalogModel {
                            schemas: self.catalog.schemas.insert(table, schema),
                            ..self.catalog
                        };
                        match rows_lengthened(self.pager, txn.0, root, entries, value, 0) {
                            (p, Err(e)) => (self.with_pager(p).with_catalog(c), Err(e)),
                            (p, Ok(next)) => (
                                self.with_pager(p).with_catalog(
                                    with_table_root(c, table, root, next),
                                ),
                                Ok(()),
                            ),
                        }
                    },
                },
            },
        }
    }

    /// The engine once a column has another name.
    pub open spec fn column_renamed(
        self,
        txn: TransactionId,
        table: Seq<char>,
        old_name: Seq<char>,
        new_name: Seq<char>,
        schema: Schema,
        schema_fault: Option<ErrorView>,
        others: Map<Seq<char>, Schema>,
    ) -> (StorageModel, Result<(), ErrorView>) {
        let c = self.catalog;
        match self.idle(txn) {
            Some(e) => (self, Err(e)),
            None => match table_of(c, table) {
                Err(e) => (self, Err(e)),
                Ok((before, _)) => if before.position(old_name) is None {
                    (self, Err(no_column(old_name, table)))
                } else if before.position(new_name) is Some {
                    (self, Err(column_exists(table, new_name)))
                } else {
                    match schema_fault {
                        Some(e) => (self, Err(e)),
                        None => (
                            self.with_catalog(
                                CatalogModel {
                                    schemas: rewritten(c.schemas, others).insert(table, schema),
                                    indexes: indexes_renamed(c.indexes, table, old_name, new_name),
                                    ..c
                                },
                            ),
                            Ok(()),
                        ),
                    }
                },
            },
        }
    }

    /// The engine once a planner has asked for the catalog, and what it gets. `reloaded` is
    /// the catalog as it is stored, given where the transaction has not changed its own.
    pub open spec fn planned(self, txn: Option<TransactionId>, reloaded: Option<CatalogModel>) -> (
        StorageModel,
        Result<CatalogModel, ErrorView>,
    ) {
        match txn {
            None => if self.sessions.dom() =~= Set::<TransactionId>::empty() {
                (self, Ok(self.catalog))
            } else {
                (self, Err(bare(ErrorCode::SnapshotNeedsTxn)))
            },
            Some(id) => match self.idle(id) {
                Some(e) => (self, Err(e)),
                None => {
                    let a = self.snapshot_of(id).0;
                    if self.pager.txns.txns[id].isolation_level == IsolationLevel::ReadCommitted
                        && reloaded is Some {
                        (a.with_catalog(reloaded->0), Ok(reloaded->0))
                    } else {
                        (a, Ok(a.catalog))
                    }
                },
            },
        }
    }
}

/// An index with another name for a column.
pub open spec fn index_renamed(index: IndexView, old_name: Seq<char>, new_name: Seq<char>) -> IndexView {
    IndexView { columns: renamed(index.columns, old_name, new_name), ..index }
}

/// Indexes of tables with another name for a column of one table.
pub open spec fn indexes_renamed(
    m: Map<Seq<char>, Map<Seq<char>, IndexView>>,
    table: Seq<char>,
    old_name: Seq<char>,
    new_name: Seq<char>,
) -> Map<Seq<char>, Map<Seq<char>, IndexView>> {
    if m.dom().contains(table) {
        m.insert(table, m[table].map_values(|i: IndexView| index_renamed(i, old_name, new_name)))
    } else {
        m
    }
}

// ---------------------------------------------------------------------------
// Maps

/// Moves the value of one key to another, where it has one.
pub fn rename_key<V: DeepView>(m: &mut OrdMap<String, V>, from: &str, to: &str)
    ensures
        final(m)@ == moved(old(m)@, from@, to@),
{
    match m.remove(&from.to_owned()) {
        Some(v) => {
            m.insert(to.to_owned(), v);
        },
        None => {
            assert(m@ =~= old(m)@);
        },
    }
}

/// Writes some definitions anew.
pub fn rewrite_schemas(m: &mut OrdMap<String, SharedSchema>, new: &OrdMap<String, SharedSchema>)
    ensures
        final(m)@ == rewritten(old(m)@, new@),
{
    let ghost start = m@;
    let total: usize = new.len();
    let ghost names = new.keys();
    let mut i: usize = 0;
    while i < total
        invariant
            i <= total,
            total == names.len(),
            names == new.keys(),
            start == old(m)@,
            m@.dom() =~= start.dom(),
            forall|k: Seq<char>| #[trigger]
                start.dom().contains(k) ==> m@[k] == if names.take(i as int).contains(k) {
                    new@[k]
                } else {
                    start[k]
                },
        decreases total - i,
    {
        let name: String = new.key_at(i).clone();
        if m.contains_key(&name) {
            m.insert(name, new.value_at(i).duplicate());
        }
        assert(names.take(i + 1) =~= names.take(i as int).push(names[i as int]));
        assert(names.take(i + 1).contains(names[i as int])) by {
            assert(names.take(i + 1)[i as int] == names[i as int]);
        }
        assert forall|k: Seq<char>| #[trigger]
            start.dom().contains(k) implies names.take(i + 1).contains(k) == (names.take(
            i as int,
        ).contains(k) || k == names[i as int]) by {
            if names.take(i + 1).contains(k) {
                let at = choose|j: int| 0 <= j < i + 1 && #[trigger] names.take(i + 1)[j] == k;
                if at < i {
                    assert(names.take(i as int)[at] == k);
                }
            }
            if names.take(i as int).contains(k) {
                let at = choose|j: int| 0 <= j < i && names.take(i as int)[j] == k;
                assert(names.take(i + 1)[at] == k);
            }
        }
        i = i + 1;
    }
    proof {
        assert(names.take(total as int) =~= names);
        assert(names.to_set() =~= new@.dom());
        assert forall|k: Seq<char>| names.contains(k) == new@.dom().contains(k) by {
            assert(names.to_set().contains(k) == names.contains(k));
        }
        assert(m@ =~= rewritten(start, new@));
    }
}

/// Gives a column another name.
pub fn rename_columns(columns: &mut Vec<String>, old_name: &str, new_name: &str)
    ensures
        final(columns).deep_view() == renamed(old(columns).deep_view(), old_name@, new_name@),
{
    let ghost start = columns.deep_view();
    let mut i: usize = 0;
    while i < columns.len()
        invariant
            i <= columns@.len(),
            start == old(columns).deep_view(),
            columns@.len() == start.len(),
            forall|k: int|
                0 <= k < start.len() ==> (#[trigger] columns@[k])@ == if k < i && start[k]
                    == old_name@ {
                    new_name@
                } else {
                    start[k]
                },
        decreases columns@.len() - i,
    {
        if same_text(columns[i].as_str(), old_name) {
            columns.set(i, new_name.to_owned());
        }
        i = i + 1;
    }
    assert(columns.deep_view() =~= renamed(start, old_name@, new_name@));
}

fn rename_indexes(by_name: &OrdMap<String, IndexMeta>, old_name: &str, new_name: &str) -> (r: OrdMap<
    String,
    IndexMeta,
>)
    ensures
        r@ == by_name@.map_values(|i: IndexView| index_renamed(i, old_name@, new_name@)),
{
    let ghost target = by_name@.map_values(|i: IndexView| index_renamed(i, old_name@, new_name@));
    let mut out: OrdMap<String, IndexMeta> = OrdMap::new();
    let total: usize = by_name.len();
    let ghost names = by_name.keys();
    let mut i: usize = 0;
    while i < total
        invariant
            i <= total,
            total == names.len(),
            names == by_name.keys(),
            target == by_name@.map_values(|i: IndexView| index_renamed(i, old_name@, new_name@)),
            forall|k: Seq<char>| #[trigger]
                out@.dom().contains(k) ==> target.dom().contains(k) && out@[k] == target[k],
            forall|j: int| 0 <= j < i ==> out@.dom().contains(#[trigger] names[j]),
        decreases total - i,
    {
        let mut index: IndexMeta = by_name.value_at(i).duplicate();
        rename_columns(&mut index.columns, old_name, new_name);
        let name: String = by_name.key_at(i).clone();
        assert(by_name@.dom().contains(names[i as int]));
        assert(index@ == index_renamed(by_name@[names[i as int]], old_name@, new_name@));
        out.insert(name, index);
        i = i + 1;
    }
    proof {
        assert(names.to_set() =~= by_name@.dom());
        assert forall|k: Seq<char>| target.dom().contains(k) implies out@.dom().contains(k) by {
            assert(names.to_set().contains(k));
            let j = choose|j: int| 0 <= j < names.len() && names[j] == k;
            assert(out@.dom().contains(names[j]));
        }
        assert(out@ =~= target);
    }
    out
}

/// The failure of a column that there is already.
pub fn fail_column_exists(table: &str, column: &str) -> (r: DbError)
    ensures
        r@ == column_exists(table@, column@),
{
    let mut message = "column already exists on table ".to_owned();
    message.append(table);
    message.append(": ");
    message.append(column);
    DbError::storage(message.as_str())
}

// ---------------------------------------------------------------------------
// Rows

fn lengthen(bytes: &[u8], value: &DbValue) -> (r: DbResult<Row>)
    ensures
        match r {
            Ok(row) => row_of(bytes@) is Ok && row.deep_view() == row_of(bytes@)->Ok_0.push(value@),
            Err(e) => row_of(bytes@) == Err::<Seq<SqlValue>, ErrorView>(e@),
        },
        forall|h: Held|
            bytes@ == #[trigger] h.bytes() ==> r is Ok && r->Ok_0.deep_view() == latest(
                h.versions(),
            ).push(value@),
{
    let mut row = decode_row(bytes)?;
    let ghost before = row.deep_view();
    row.push(value.copy());
    assert(row.deep_view() =~= before.push(value@));
    Ok(row)
}

fn check_rows(entries: &Vec<LeafEntry<u64>>, value: &DbValue, faults: &Vec<Option<DbError>>) -> (r:
    DbResult<()>)
    ensures
        match r {
            Ok(_) => first_fault(entries.deep_view(), fault_views(faults@), 0) is None,
            Err(e) => first_fault(entries.deep_view(), fault_views(faults@), 0) == Some(e@),
        },
{
    let ghost all = entries.deep_view();
    let ghost verdicts = fault_views(faults@);
    let mut i: usize = 0;
    while i < entries.len()
        invariant
            i <= entries@.len(),
            all == entries.deep_view(),
            verdicts == fault_views(faults@),
            first_fault(all, verdicts, i as int) == first_fault(all, verdicts, 0),
        decreases entries@.len() - i,
    {
        assert(all[i as int] == entries@[i as int].deep_view());
        lengthen(entries[i].value.as_slice(), value)?;
        if i < faults.len() {
            assert(verdicts[i as int] == fault_view(faults@[i as int]));
            match &faults[i] {
                Some(e) => {
                    return Err(e.copy());
                },
                None => {},
            }
        }
        i = i + 1;
    }
    Ok(())
}

fn lengthen_rows(
    pager: &mut Pager,
    txn_id: u64,
    root: PageId,
    entries: &Vec<LeafEntry<u64>>,
    value: &DbValue,
) -> (r: DbResult<PageId>)
    requires
        old(pager)@.sound(),
    ensures
        step(
            r,
            final(pager)@,
            rows_lengthened(old(pager)@, txn_id, root, entries.deep_view(), value@, 0),
        ),
        final(pager)@.sound(),
        forall|pages: Set<PageId>, rows: Map<u64, Held>| #[trigger]
            tree_holds::<u64>(old(pager)@, root, pages, stored(rows)) && lists_contents::<u64>(
                entries.deep_view(),
                stored(rows),
            ) && r is Ok ==> tree_became::<u64>(
                old(pager)@,
                pages,
                final(pager)@,
                r->Ok_0,
                stored(all_lengthened(rows, value@)),
            ),
{
    let ghost all = entries.deep_view();
    let ghost start = pager@;
    let ghost whole = rows_lengthened(start, txn_id, root, all, value@, 0);
    let mut tree = BTree::from_root(root);
    let mut i: usize = 0;
    proof {
        lemma_lengthens_none(start, root, all, value@);
    }
    while i < entries.len()
        invariant
            i <= entries@.len(),
            all == entries.deep_view(),
            start == old(pager)@,
            pager@.sound(),
            lengthens(start, root, all, value@, i as int, pager@, tree@),
            whole == rows_lengthened(start, txn_id, root, all, value@, 0),
            rows_lengthened(pager@, txn_id, tree@, all, value@, i as int) == whole,
        decreases entries@.len() - i,
    {
        assert(all[i as int] == entries@[i as int].deep_view());
        let row = lengthen(entries[i].value.as_slice(), value)?;
        let bytes = encode_row(&row)?;
        let ghost middle = pager@;
        let ghost between = tree@;
        tree.insert(pager, txn_id, entries[i].key, bytes.as_slice())?;
        proof {
            lemma_lengthens_one(
                start,
                root,
                all,
                value@,
                i as int,
                middle,
                between,
                row.deep_view(),
                pager@,
                tree@,
            );
        }
        i = i + 1;
    }
    proof {
        lemma_lengthens_all(start, root, all, value@, pager@, tree@);
    }
    Ok(tree.root_page_id())
}

// ---------------------------------------------------------------------------
// The engine

impl FileStorage {
    /// Opens an engine over a pager and its catalog: the row numbers of the catalog are not
    /// handed out again.
    pub fn open(pager: Pager, catalog: CatalogState) -> (r: FileStorage)
        requires
            pager@.sound(),
        ensures
            r@ == (StorageModel {
                pager: pager@.with_txns(
                    TxnModel {
                        next_row_ids: row_ids_joined(
                            pager@.txns.next_row_ids,
                            catalog@.next_row_ids,
                        ),
                        ..pager@.txns
                    },
                ),
                catalog: catalog@,
                sessions: Map::empty(),
            }),
            r@.pager.sound(),
            2 <= pager@.meta.page_count && catalog@.table_roots.dom().is_empty() && (forall|
                n: Seq<char>,
            |
                (#[trigger] roots_of(catalog@, n)).dom().is_empty()) ==> rows_in(
                r@,
                Map::empty(),
            ),
    {
        let mut pager = pager;
        let ghost start = pager@;
        pager.txns_mut().sync_next_row_ids(&catalog.next_row_ids);
        proof {
            crate::v2::pager::lemma_waits_kept(start.txns, pager@.txns);
        }
        let r = FileStorage { pager, catalog, sessions: OrdMap::new() };
        proof {
            if 2 <= r@.pager.meta.page_count && r@.catalog.table_roots.dom().is_empty() && (forall|
                n: Seq<char>,
            |
                (#[trigger] roots_of(r@.catalog, n)).dom().is_empty()) {
                lemma_no_tables(r@);
            }
        }
        r
    }

    /// Makes a table, which holds no rows.
    pub fn create_schema(&mut self, transaction_id: TransactionId, schema: Schema) -> (r: DbResult<()>)
        requires
            old(self)@.pager.sound(),
        ensures
            engine_step(r, final(self)@, old(self)@.schema_made(transaction_id, schema)),
            final(self)@.pager.sound(),
            forall|tables: Tables| #[trigger]
                rows_in(old(self)@, tables) && r is Ok ==> rows_in(
                    final(self)@,
                    tables.insert(schema.name@, Map::empty()),
                ),
    {
        let ghost start = self@;
        self.validate_transaction(transaction_id)?;
        if self.catalog.schemas.contains_key(&schema.name) {
            let mut message = "table ".to_owned();
            message.append(schema.name.as_str());
            message.append(" already exists");
            return Err(DbError::storage(message.as_str()));
        }
        let name: String = schema.name.clone();
        let tree = BTree::create(&mut self.pager, transaction_id.0);
        assert(self@ =~= start.with_pager(self@.pager));
        let tree = tree?;
        self.catalog.schemas.insert(name.clone(), SharedSchema::new(schema));
        self.catalog.table_roots.insert(name.clone(), tree.root_page_id());
        if !self.catalog.next_row_ids.contains_key(&name) {
            self.catalog.next_row_ids.insert(name, 1);
        }
        assert(self@ =~= start.schema_made(transaction_id, schema).0);
        proof {
            assert forall|tables: Tables| #[trigger] rows_in(start, tables) implies rows_in(
                self@,
                tables.insert(schema.name@, Map::empty()),
            ) by {
                lemma_room(start, tables);
                lemma_table_made(start, tables, schema.name@, self@, tree@);
            }
        }
        Ok(())
    }

    /// Drops a table with its indexes.
    pub fn drop_schema(&mut self, transaction_id: TransactionId, name: &str) -> (r: DbResult<()>)
        requires
            old(self)@.pager.sound(),
        ensures
            engine_step(r, final(self)@, old(self)@.schema_dropped(transaction_id, name@)),
            final(self)@.pager.sound(),
            forall|tables: Tables| #[trigger]
                rows_in(old(self)@, tables) && r is Ok ==> rows_in(
                    final(self)@,
                    tables.remove(name@),
                ),
    {
        let ghost start = self@;
        self.validate_transaction(transaction_id)?;
        let key: String = name.to_owned();
        if self.catalog.schemas.remove(&key).is_none() {
            assert(self@.catalog.schemas =~= start.catalog.schemas);
            assert(self@ =~= start);
            return Err(fail_no_table(name));
        }
        self.catalog.table_roots.remove(&key);
        self.catalog.indexes.remove(&key);
        self.catalog.index_roots.remove(&key);
        self.catalog.next_row_ids.remove(&key);
        assert(self@ =~= start.schema_dropped(transaction_id, name@).0);
        proof {
            assert forall|tables: Tables| #[trigger] rows_in(start, tables) implies rows_in(
                self@,
                tables.remove(name@),
            ) by {
                lemma_fewer_trees(start, tables, self@);
                lemma_same_names(start, tables);
                assert(tables.restrict(self@.catalog.table_roots.dom()) =~= tables.remove(name@));
            }
        }
        Ok(())
    }

    /// Gives a table another definition.
    pub fn replace_schema(&mut self, transaction_id: TransactionId, schema: Schema) -> (r: DbResult<
        (),
    >)
        requires
            old(self)@.pager.sound(),
        ensures
            engine_step(r, final(self)@, old(self)@.schema_replaced(transaction_id, schema)),
            final(self)@.pager.sound(),
            forall|tables: Tables| #[trigger]
                rows_in(old(self)@, tables) ==> rows_in(final(self)@, tables),
    {
        let ghost start = self@;
        proof {
            lemma_same_trees(start, start.schema_replaced(transaction_id, schema).0);
        }
        self.validate_transaction(transaction_id)?;
        if !self.catalog.schemas.contains_key(&schema.name) {
            return Err(fail_no_table(schema.name.as_str()));
        }
        let name: String = schema.name.clone();
        self.catalog.schemas.insert(name, SharedSchema::new(schema));
        assert(self@ =~= start.schema_replaced(transaction_id, schema).0);
        Ok(())
    }

    /// Gives a table another name. `schema` is its definition under that name; `others` holds
    /// the definitions that refer to the table, with the name changed.
    pub fn rename_schema(
        &mut self,
        transaction_id: TransactionId,
        old_name: &str,
        schema: Schema,
        others: &OrdMap<String, SharedSchema>,
    ) -> (r: DbResult<()>)
        requires
            old(self)@.pager.sound(),
        ensures
            engine_step(
                r,
                final(self)@,
                old(self)@.schema_renamed(transaction_id, old_name@, schema, others@),
            ),
            final(self)@.pager.sound(),
            forall|tables: Tables| #[trigger]
                rows_in(old(self)@, tables) && r is Ok ==> rows_in(
                    final(self)@,
                    moved(tables, old_name@, schema.name@),
                ),
    {
        let ghost start = self@;
        self.validate_transaction(transaction_id)?;
        if self.catalog.schemas.contains_key(&schema.name) {
            let mut message = "table already exists: ".to_owned();
            message.append(schema.name.as_str());
            return Err(DbError::storage(message.as_str()));
        }
        let key: String = old_name.to_owned();
        if !self.catalog.schemas.contains_key(&key) {
            return Err(fail_no_table(old_name));
        }
        let new_name: String = schema.name.clone();
        self.catalog.schemas.remove(&key);
        self.catalog.schemas.insert(new_name.clone(), SharedSchema::new(schema));
        rename_key(&mut self.catalog.table_roots, old_name, new_name.as_str());
        rename_key(&mut self.catalog.next_row_ids, old_name, new_name.as_str());
        rename_key(&mut self.catalog.indexes, old_name, new_name.as_str());
        rename_key(&mut self.catalog.index_roots, old_name, new_name.as_str());
        rewrite_schemas(&mut self.catalog.schemas, others);
        assert(self@ =~= start.schema_renamed(transaction_id, old_name@, schema, others@).0);
        proof {
            assert forall|tables: Tables| #[trigger] rows_in(start, tables) implies rows_in(
                self@,
                moved(tables, old_name@, schema.name@),
            ) by {
                lemma_tree_renamed(start, tables, old_name@, schema.name@, self@);
            }
        }
        Ok(())
    }

    fn find_addition_target(&self, transaction_id: TransactionId, schema_name: &str, column: &str) -> (r:
        DbResult<(PageId, Vec<LeafEntry<u64>>)>)
        ensures
            match r {
                Ok((root, entries)) => self@.addition_target(transaction_id, schema_name@, column@)
                    == Ok::<_, ErrorView>((root, entries.deep_view())),
                Err(e) => self@.addition_target(transaction_id, schema_name@, column@) == Err::<
                    (PageId, Seq<EntryView<u64>>),
                    ErrorView,
                >(e@),
            },
            r matches Ok((root, entries)) ==> forall|pages: Set<PageId>, c: Map<u64, Seq<u8>>|
                #[trigger]
                tree_holds::<u64>(self@.pager, root, pages, c) ==> lists_contents::<u64>(
                    entries.deep_view(),
                    c,
                ),
    {
        self.validate_transaction(transaction_id)?;
        let (schema, root): (SharedSchema, PageId) = self.catalog.table_schema_and_root(
            schema_name,
        )?;
        if schema.schema.column_index(column).is_some() {
            return Err(fail_column_exists(schema_name, column));
        }
        let table = BTree::from_root(root);
        let entries: Vec<LeafEntry<u64>> = table.scan_all(&self.pager)?;
        Ok((root, entries))
    }

    /// The rows of a table as they will be with one more column: up to the first row that
    /// cannot be read.
    pub fn rows_with_column(
        &self,
        transaction_id: TransactionId,
        schema_name: &str,
        column: &str,
        value: &DbValue,
    ) -> (r: DbResult<Vec<Row>>)
        ensures
            match (r, self@.addition_target(transaction_id, schema_name@, column@)) {
                (Ok(rows), Ok(target)) => rows.deep_view() == longer_rows(target.1, value@, 0),
                (Err(e), Err(want)) => e@ == want,
                _ => false,
            },
    {
        let (_root, entries) = self.find_addition_target(transaction_id, schema_name, column)?;
        let ghost all = entries.deep_view();
        let mut out: Vec<Row> = Vec::new();
        let mut i: usize = 0;
        while i < entries.len()
            invariant
                i <= entries@.len(),
                all == entries.deep_view(),
                longer_rows(all, value@, 0) == out.deep_view() + longer_rows(all, value@, i as int),
                self@.addition_target(transaction_id, schema_name@, column@) is Ok,
                self@.addition_target(transaction_id, schema_name@, column@)->Ok_0.1 == all,
            decreases entries@.len() - i,
        {
            assert(all[i as int] == entries@[i as int].deep_view());
            match lengthen(entries[i].value.as_slice(), value) {
                Ok(row) => {
                    let ghost before = out.deep_view();
                    let ghost rest = longer_rows(all, value@, i as int);
                    let ghost tail = longer_rows(all, value@, i + 1);
                    out.push(row);
                    assert(out.deep_view() =~= before.push(row.deep_view()));
                    assert(rest == seq![row.deep_view()] + tail);
                    assert(before + rest =~= out.deep_view() + tail);
                },
                Err(_) => {
                    assert(out.deep_view() + Seq::<Seq<SqlValue>>::empty() =~= out.deep_view());
                    return Ok(out);
                },
            }
            i = i + 1;
        }
        assert(out.deep_view() + Seq::<Seq<SqlValue>>::empty() =~= out.deep_view());
        Ok(out)
    }

    /// Gives a table one more column. `schema` is its definition with the column, and `value`
    /// what the rows that are there hold in it; `schema_fault` and `row_faults` are the
    /// outcomes of checking the definition and each row with the value.
    pub fn add_column(
        &mut self,
        transaction_id: TransactionId,
        schema_name: &str,
        column: &str,
        schema: Schema,
        value: &DbValue,
        schema_fault: &Option<DbError>,
        row_faults: &Vec<Option<DbError>>,
    ) -> (r: DbResult<()>)
        requires
            old(self)@.pager.sound(),
        ensures
            engine_step(
                r,
                final(self)@,
                old(self)@.column_added(
                    transaction_id,
                    schema_name@,
                    column@,
                    schema,
                    value@,
                    fault_view(*schema_fault),
                    fault_views(row_faults@),
                ),
            ),
            final(self)@.pager.sound(),
            forall|tables: Tables| #[trigger]
                rows_in(old(self)@, tables) && r is Ok ==> rows_in(
                    final(self)@,
                    tables.insert(
                        schema_name@,
                        all_lengthened(tables[schema_name@], value@),
                    ),
                ),
    {
        let ghost start = self@;
        let (root, entries) = self.find_addition_target(transaction_id, schema_name, column)?;
        match schema_fault {
            Some(e) => {
                return Err(e.copy());
            },
            None => {},
        }
        check_rows(&entries, value, row_faults)?;
        self.catalog.schemas.insert(schema_name.to_owned(), SharedSchema::new(schema));
        let ghost middle = self@;
        let next = lengthen_rows(&mut self.pager, transaction_id.0, root, &entries, value);
        assert(self@ =~= start.with_pager(self@.pager).with_catalog(middle.catalog));
        let next = next?;
        self.catalog.move_table(schema_name, root, next);
        proof {
            assert(self@.catalog.table_roots =~= start.catalog.table_roots.insert(
                schema_name@,
                next,
            ));
            assert forall|tables: Tables| #[trigger] rows_in(start, tables) implies rows_in(
                self@,
                tables.insert(
                    schema_name@,
                    all_lengthened(tables[schema_name@], value@),
                ),
            ) by {
                lemma_rows_put(
                    start,
                    tables,
                    schema_name@,
                    root,
                    self@,
                    next,
                    all_lengthened(tables[schema_name@], value@),
                );
            }
        }
        Ok(())
    }

    /// Gives a column another name. `schema` is the definition of the table under that name,
    /// and `schema_fault` the outcome of checking it; `others` holds the other definitions
    /// that refer to the column, with the name changed.
    pub fn rename_column(
        &mut self,
        transaction_id: TransactionId,
        schema_name: &str,
        old_name: &str,
        new_name: &str,
        schema: Schema,
        schema_fault: &Option<DbError>,
        others: &OrdMap<String, SharedSchema>,
    ) -> (r: DbResult<()>)
        requires
            old(self)@.pager.sound(),
        ensures
            engine_step(
                r,
                final(self)@,
                old(self)@.column_renamed(
                    transaction_id,
                    schema_name@,
                    old_name@,
                    new_name@,
                    schema,
                    fault_view(*schema_fault),
                    others@,
                ),
            ),
            final(self)@.pager.sound(),
            forall|tables: Tables| #[trigger]
                rows_in(old(self)@, tables) ==> rows_in(final(self)@, tables),
    {
        let ghost start = self@;
        proof {
            lemma_same_trees(
                start,
                start.column_renamed(
                    transaction_id,
                    schema_name@,
                    old_name@,
                    new_name@,
                    schema,
                    fault_view(*schema_fault),
                    others@,
                ).0,
            );
        }
        self.validate_transaction(transaction_id)?;
        let (before, _root): (SharedSchema, PageId) = self.catalog.table_schema_and_root(
            schema_name,
        )?;
        if before.schema.column_index(old_name).is_none() {
            let mut message = "unknown column ".to_owned();
            message.append(old_name);
            message.append(" on table ");
            message.append(schema_name);
            return Err(DbError::storage(message.as_str()));
        }
        if before.schema.column_index(new_name).is_some() {
            return Err(fail_column_exists(schema_name, new_name));
        }
        match schema_fault {
            Some(e) => {
                return Err(e.copy());
            },
            None => {},
        }
        let key: String = schema_name.to_owned();
        rewrite_schemas(&mut self.catalog.schemas, others);
        self.catalog.schemas.insert(key.clone(), SharedSchema::new(schema));
        let by_name = match self.catalog.indexes.get(&key) {
            Some(m) => Some(rename_indexes(m, old_name, new_name)),
            None => None,
        };
        match by_name {
            Some(m) => {
                self.catalog.indexes.insert(key, m);
            },
            None => {},
        }
        assert(self@ =~= start.column_renamed(
            transaction_id,
            schema_name@,
            old_name@,
            new_name@,
            schema,
            None,
            others@,
        ).0);
        Ok(())
    }

    /// The definition of a table, where there is one of that name.
    pub fn get_schema(&self, transaction_id: TransactionId, name: &str) -> (r: DbResult<
        Option<SharedSchema>,
    >)
        ensures
            match r {
                Ok(Some(s)) => {
                    &&& self@.idle(transaction_id) is None
                    &&& self@.catalog.schemas.dom().contains(name@)
                    &&& self@.catalog.schemas[name@] == s.deep_view()
                },
                Ok(None) => self@.idle(transaction_id) is None
                    && !self@.catalog.schemas.dom().contains(name@),
                Err(e) => self@.idle(transaction_id) == Some(e@),
            },
    {
        self.validate_transaction(transaction_id)?;
        match self.catalog.schemas.get(&name.to_owned()) {
            Some(s) => Ok(Some(s.duplicate())),
            None => Ok(None),
        }
    }

    /// The definitions of the tables, in the order of their names.
    pub fn list_schemas(&self, transaction_id: TransactionId) -> (r: DbResult<Vec<SharedSchema>>)
        ensures
            match r {
                Ok(list) => {
                    &&& self@.idle(transaction_id) is None
                    &&& list.deep_view() == sorted::<String>(
                        self@.catalog.schemas.dom(),
                    ).map_values(|n: Seq<char>| self@.catalog.schemas[n])
                },
                Err(e) => self@.idle(transaction_id) == Some(e@),
            },
    {
        self.validate_transaction(transaction_id)?;
        let mut out: Vec<SharedSchema> = Vec::new();
        let total: usize = self.catalog.schemas.len();
        let ghost names = self.catalog.schemas.keys();
        let mut i: usize = 0;
        while i < total
            invariant
                i <= total,
                total == names.len(),
                names == self.catalog.schemas.keys(),
                out@.len() == i,
                forall|k: int|
                    0 <= k < i ==> (#[trigger] out@[k]).deep_view()
                        == self@.catalog.schemas[names[k]],
            decreases total - i,
        {
            let s: &SharedSchema = self.catalog.schemas.value_at(i);
            out.push(s.duplicate());
            i = i + 1;
        }
        proof {
            assert(names.to_set() =~= self@.catalog.schemas.dom());
            lemma_is_sorted::<String>(names, self@.catalog.schemas.dom());
            assert(out.deep_view() =~= sorted::<String>(
                self@.catalog.schemas.dom(),
            ).map_values(|n: Seq<char>| self@.catalog.schemas[n]));
        }
        Ok(out)
    }

    /// The catalog that a planner goes by. A transaction that reads what is committed sees
    /// the stored catalog, which is given in `reloaded`, as long as it has not changed its
    /// own.
    pub fn planning_catalog_snapshot(
        &mut self,
        transaction_id: Option<TransactionId>,
        reloaded: Option<CatalogState>,
    ) -> (r: DbResult<CatalogState>)
        requires
            old(self)@.pager.sound(),
        ensures
            ({
                let stored = match reloaded {
                    Some(c) => Some(c@),
                    None => None,
                };
                let model = old(self)@.planned(transaction_id, stored);
                &&& final(self)@ == model.0
                &&& match r {
                    Ok(c) => model.1 == Ok::<CatalogModel, ErrorView>(c@),
                    Err(e) => model.1 == Err::<CatalogModel, ErrorView>(e@),
                }
            }),
            final(self)@.pager.sound(),
    {
        let id: TransactionId = match transaction_id {
            None => {
                let none = self.sessions.len() == 0;
                let ghost keys = self.sessions.keys();
                proof {
                    assert(keys.to_set() =~= self@.sessions.dom());
                    if keys.len() > 0 {
                        assert(keys.to_set().contains(keys[0]));
                    } else {
                        assert(self@.sessions.dom() =~= Set::<TransactionId>::empty());
                    }
                }
                if none {
                    return Ok(self.catalog.duplicate());
                }
                return Err(DbError::bare(ErrorCode::SnapshotNeedsTxn));
            },
            Some(id) => id,
        };
        self.validate_transaction(id)?;
        let level = self.pager.transactions().isolation_level(id)?;
        self.snapshot_for_transaction(id)?;
        if level == IsolationLevel::ReadCommitted {
            match reloaded {
                Some(c) => {
                    self.catalog = c.duplicate();
                    return Ok(c);
                },
                None => {},
            }
        }
        Ok(self.catalog.duplicate())
    }
}

} // verus!
