//! The model of the storage engine: what each operation does to rows, indexes and the
//! catalog.

use vstd::prelude::*;

use crate::common::error::{bare, storage, ErrorCode, ErrorView};
use crate::common::json::json_bytes;
use crate::common::ordset::sorted;
use crate::common::schema::{IndexMeta, IndexView, Schema};
use crate::common::text::nat_text;
use crate::common::value::{IsolationLevel, RowId, SqlValue, TransactionId};
use crate::v2::catalog::{next_number, CatalogModel};
use crate::v2::codec::{fresh, ids_json, ids_of, projected, seen_row, versions_json};
use crate::v2::locks::IndexKeyView;
use crate::v2::page::PageId;
use crate::v2::pager_model::PagerModel;
use crate::v2::tree::{all_entries, found, removed_below, tree_put, MAX_PAGES};
use crate::v2::tree_node::{ByteKey, EntryView};
use crate::v2::tx_types::{SnapshotView, TxnView, UndoView};
use crate::v2::txn_manager::{next_row_id, room_for_waiters};
use crate::v2::txn_model::{not_active, TxnModel};
use crate::v2::values_json::row_json;

verus! {

/// The state of the storage engine.
#[verifier::ext_equal]
pub struct StorageModel {
    pub pager: PagerModel,
    pub catalog: CatalogModel,
    /// The catalog as it was when each transaction began.
    pub sessions: Map<TransactionId, CatalogModel>,
}

/// An index of a table, and where it starts.
#[verifier::ext_equal]
pub struct SlotView {
    pub name: Seq<char>,
    pub meta: IndexView,
    pub root: PageId,
}

/// What a row is to be written with: its table, the indexes of the table, and the key of the
/// row in each.
#[verifier::ext_equal]
pub struct PlanView {
    pub schema: Schema,
    pub root: PageId,
    pub slots: Seq<SlotView>,
    pub keys: Seq<Seq<SqlValue>>,
}

/// Outcomes of checking a row, which the caller brings along: of its values alone, and of its
/// key against the rows that are there.
pub struct FaultsView {
    pub values: Option<ErrorView>,
    pub key: Option<ErrorView>,
}

// ---------------------------------------------------------------------------
// Transactions

/// The transactions once one has noted how to take back a change.
pub open spec fn undo_noted(m: TxnModel, txn: TransactionId, record: UndoView) -> (
    TxnModel,
    Result<(), ErrorView>,
) {
    if m.txns.dom().contains(txn) {
        (
            m.with_txn(
                txn,
                TxnView {
                    undo_records: m.txns[txn].undo_records.push(record),
                    ..m.txns[txn]
                },
            ),
            Ok(()),
        )
    } else {
        (m, Err(not_active(txn)))
    }
}

/// The snapshot that a transaction reads by: a new one each time where it reads what is
/// committed, else the one that it began with.
pub open spec fn snapshot_taken(m: TxnModel, txn: TransactionId) -> (
    TxnModel,
    Result<SnapshotView, ErrorView>,
) {
    if !m.txns.dom().contains(txn) {
        (m, Err(not_active(txn)))
    } else if m.txns[txn].isolation_level == IsolationLevel::ReadCommitted {
        let snapshot = SnapshotView {
            visible_up_to: m.next_commit_ts,
            active_txns: m.active_set().remove(txn),
        };
        (m.with_txn(txn, TxnView { snapshot, ..m.txns[txn] }), Ok(snapshot))
    } else {
        (m, Ok(m.txns[txn].snapshot))
    }
}

/// The transactions once one has got a row number of a table.
pub open spec fn row_id_given(m: TxnModel, txn: TransactionId, table: Seq<char>, fallback: u64) -> (
    TxnModel,
    Result<RowId, ErrorView>,
) {
    let next = next_row_id(m.next_row_ids, table, fallback);
    if next == u64::MAX {
        (m, Err(bare(ErrorCode::RowNumbersUsedUp)))
    } else {
        match m.activity_error(txn) {
            Some(e) => (m, Err(e)),
            None => (
                TxnModel {
                    next_row_ids: m.next_row_ids.insert(table, (next + 1) as u64),
                    ..m
                },
                Ok(RowId(next)),
            ),
        }
    }
}

// ---------------------------------------------------------------------------
// Lists of rows in indexes

/// Numbers in ascending order with one more.
pub open spec fn placed(ids: Seq<RowId>, id: RowId) -> Seq<RowId>
    decreases ids.len(),
{
    if ids.len() == 0 {
        seq![id]
    } else if ids.last().0 <= id.0 {
        ids.push(id)
    } else {
        placed(ids.drop_last(), id).push(ids.last())
    }
}

/// Numbers in ascending order.
pub open spec fn ordered(ids: Seq<RowId>) -> Seq<RowId>
    decreases ids.len(),
{
    if ids.len() == 0 {
        ids
    } else {
        placed(ordered(ids.drop_last()), ids.last())
    }
}

/// A list of rows with one more.
pub open spec fn ids_with(ids: Seq<RowId>, id: RowId) -> Seq<RowId> {
    if ids.contains(id) {
        ids
    } else {
        ordered(ids.push(id))
    }
}

/// A list of rows without one.
pub open spec fn ids_without(ids: Seq<RowId>, id: RowId) -> Seq<RowId> {
    ids.filter(|x: RowId| x != id)
}

/// The bytes of a key of an index.
pub open spec fn key_bytes(key: Seq<SqlValue>) -> Seq<u8> {
    json_bytes(row_json(key))
}

/// The rows that an index lists under a key.
pub open spec fn listed(m: PagerModel, root: PageId, key: Seq<u8>) -> Result<
    Option<Seq<RowId>>,
    ErrorView,
> {
    match found::<ByteKey>(m, root, key) {
        Err(e) => Err(e),
        Ok(None) => Ok(None),
        Ok(Some(bytes)) => match ids_of(bytes) {
            Err(e) => Err(e),
            Ok(ids) => Ok(Some(ids)),
        },
    }
}

/// The pager once an index lists a row under a key, and the root of the index then.
pub open spec fn entry_added(m: PagerModel, txn: u64, root: PageId, key: Seq<u8>, id: RowId) -> (
    PagerModel,
    Result<PageId, ErrorView>,
) {
    match listed(m, root, key) {
        Err(e) => (m, Err(e)),
        Ok(ids) => {
            let before = match ids {
                Some(list) => list,
                None => Seq::empty(),
            };
            tree_put::<ByteKey>(m, txn, root, key, json_bytes(ids_json(ids_with(before, id))))
        },
    }
}

/// The pager once an index lists a row under a key no more, and the root of the index then.
pub open spec fn entry_removed(m: PagerModel, txn: u64, root: PageId, key: Seq<u8>, id: RowId) -> (
    PagerModel,
    Result<PageId, ErrorView>,
) {
    match listed(m, root, key) {
        Err(e) => (m, Err(e)),
        Ok(None) => (m, Ok(root)),
        Ok(Some(ids)) => {
            let left = ids_without(ids, id);
            if left.len() == 0 {
                match removed_below::<ByteKey>(m, txn, root, key, MAX_PAGES as nat) {
                    (after, Ok(_)) => (after, Ok(root)),
                    (after, Err(e)) => (after, Err(e)),
                }
            } else {
                tree_put::<ByteKey>(m, txn, root, key, json_bytes(ids_json(left)))
            }
        },
    }
}

// ---------------------------------------------------------------------------
// What is seen

/// What a transaction sees of a row of a table.
pub open spec fn seen_at(
    m: PagerModel,
    txn: TransactionId,
    snapshot: SnapshotView,
    root: PageId,
    id: RowId,
) -> Result<Option<Seq<SqlValue>>, ErrorView> {
    match found::<u64>(m, root, id.0) {
        Err(e) => Err(e),
        Ok(None) => Ok(None),
        Ok(Some(bytes)) => seen_row(bytes, txn.0, snapshot),
    }
}

/// The rows of a list that a transaction sees with a key, from one on.
pub open spec fn with_key_from(
    m: PagerModel,
    txn: TransactionId,
    snapshot: SnapshotView,
    schema: Schema,
    root: PageId,
    columns: Seq<Seq<char>>,
    key: Seq<SqlValue>,
    ids: Seq<RowId>,
    i: int,
    out: Seq<RowId>,
) -> Result<Seq<RowId>, ErrorView>
    decreases ids.len() - i,
{
    if i < 0 || i >= ids.len() {
        Ok(out)
    } else {
        match seen_at(m, txn, snapshot, root, ids[i]) {
            Err(e) => Err(e),
            Ok(None) => with_key_from(
                m,
                txn,
                snapshot,
                schema,
                root,
                columns,
                key,
                ids,
                i + 1,
                out,
            ),
            Ok(Some(row)) => match projected(schema, columns, row) {
                Err(e) => Err(e),
                Ok(other) => with_key_from(
                    m,
                    txn,
                    snapshot,
                    schema,
                    root,
                    columns,
                    key,
                    ids,
                    i + 1,
                    if other == key {
                        out.push(ids[i])
                    } else {
                        out
                    },
                ),
            },
        }
    }
}

/// The rows of a list that a transaction sees with a key.
pub open spec fn with_key(
    m: PagerModel,
    txn: TransactionId,
    snapshot: SnapshotView,
    schema: Schema,
    root: PageId,
    columns: Seq<Seq<char>>,
    key: Seq<SqlValue>,
    ids: Seq<RowId>,
) -> Result<Seq<RowId>, ErrorView> {
    with_key_from(m, txn, snapshot, schema, root, columns, key, ids, 0, Seq::empty())
}

/// A row with its number.
#[verifier::ext_equal]
pub struct RowView {
    pub id: RowId,
    pub row: Seq<SqlValue>,
}

/// The rows among entries that a transaction sees, from one on, but for one.
pub open spec fn seen_rows_from(
    entries: Seq<EntryView<u64>>,
    txn: TransactionId,
    snapshot: SnapshotView,
    skip: Option<RowId>,
    i: int,
    out: Seq<RowView>,
) -> Result<Seq<RowView>, ErrorView>
    decreases entries.len() - i,
{
    if i < 0 || i >= entries.len() {
        Ok(out)
    } else if skip == Some(RowId(entries[i].key)) {
        seen_rows_from(entries, txn, snapshot, skip, i + 1, out)
    } else {
        match seen_row(entries[i].value, txn.0, snapshot) {
            Err(e) => Err(e),
            Ok(None) => seen_rows_from(entries, txn, snapshot, skip, i + 1, out),
            Ok(Some(row)) => seen_rows_from(
                entries,
                txn,
                snapshot,
                skip,
                i + 1,
                out.push(RowView { id: RowId(entries[i].key), row }),
            ),
        }
    }
}

/// The rows of a table that a transaction sees, but for one.
pub open spec fn seen_rows(
    m: PagerModel,
    root: PageId,
    txn: TransactionId,
    snapshot: SnapshotView,
    skip: Option<RowId>,
) -> Result<Seq<RowView>, ErrorView> {
    match all_entries::<u64>(m, root) {
        Err(e) => Err(e),
        Ok(entries) => seen_rows_from(entries, txn, snapshot, skip, 0, Seq::empty()),
    }
}

// ---------------------------------------------------------------------------
// The catalog

/// The failure of a table that there is not.
pub open spec fn no_table(table: Seq<char>) -> ErrorView {
    storage("unknown table: "@ + table)
}

/// The definition of a table, and where it starts.
pub open spec fn table_of(c: CatalogModel, table: Seq<char>) -> Result<(Schema, PageId), ErrorView> {
    if !c.schemas.dom().contains(table) {
        Err(no_table(table))
    } else if !c.table_roots.dom().contains(table) {
        Err(storage("missing table root for "@ + table))
    } else {
        Ok((c.schemas[table], c.table_roots[table]))
    }
}

/// The indexes of a table by name.
pub open spec fn indexes_of(c: CatalogModel, table: Seq<char>) -> Map<Seq<char>, IndexView> {
    if c.indexes.dom().contains(table) {
        c.indexes[table]
    } else {
        Map::empty()
    }
}

/// Where the indexes of a table start.
pub open spec fn roots_of(c: CatalogModel, table: Seq<char>) -> Map<Seq<char>, PageId> {
    if c.index_roots.dom().contains(table) {
        c.index_roots[table]
    } else {
        Map::empty()
    }
}

/// The failure of an index without a start.
pub open spec fn no_root(index: Seq<char>, table: Seq<char>) -> ErrorView {
    storage("missing index root for "@ + index + " on table "@ + table)
}

/// The failure of an index that there is not.
pub open spec fn no_index(index: Seq<char>, table: Seq<char>) -> ErrorView {
    storage("unknown index "@ + index + " on table "@ + table)
}

/// An index of a table, and where it starts.
pub open spec fn index_of(c: CatalogModel, table: Seq<char>, index: Seq<char>) -> Result<
    SlotView,
    ErrorView,
> {
    if !indexes_of(c, table).dom().contains(index) {
        Err(no_index(index, table))
    } else if !roots_of(c, table).dom().contains(index) {
        Err(no_root(index, table))
    } else {
        Ok(
            SlotView {
                name: index,
                meta: indexes_of(c, table)[index],
                root: roots_of(c, table)[index],
            },
        )
    }
}

/// The indexes with names, from one on.
pub open spec fn slots_from(
    c: CatalogModel,
    table: Seq<char>,
    names: Seq<Seq<char>>,
    i: int,
    out: Seq<SlotView>,
) -> Result<Seq<SlotView>, ErrorView>
    decreases names.len() - i,
{
    if i < 0 || i >= names.len() {
        Ok(out)
    } else if !roots_of(c, table).dom().contains(names[i]) {
        Err(no_root(names[i], table))
    } else {
        slots_from(
            c,
            table,
            names,
            i + 1,
            out.push(
                SlotView {
                    name: names[i],
                    meta: indexes_of(c, table)[names[i]],
                    root: roots_of(c, table)[names[i]],
                },
            ),
        )
    }
}

/// The indexes of a table in the order of their names.
pub open spec fn slots(c: CatalogModel, table: Seq<char>) -> Result<Seq<SlotView>, ErrorView> {
    slots_from(c, table, sorted::<String>(indexes_of(c, table).dom()), 0, Seq::empty())
}

/// The keys of a row in indexes, from one on.
pub open spec fn keys_from(
    schema: Schema,
    slots: Seq<SlotView>,
    row: Seq<SqlValue>,
    i: int,
    out: Seq<Seq<SqlValue>>,
) -> Result<Seq<Seq<SqlValue>>, ErrorView>
    decreases slots.len() - i,
{
    if i < 0 || i >= slots.len() {
        Ok(out)
    } else {
        match projected(schema, slots[i].meta.columns, row) {
            Err(e) => Err(e),
            Ok(key) => keys_from(schema, slots, row, i + 1, out.push(key)),
        }
    }
}

/// The keys of a row in indexes.
pub open spec fn row_keys(schema: Schema, slots: Seq<SlotView>, row: Seq<SqlValue>) -> Result<
    Seq<Seq<SqlValue>>,
    ErrorView,
> {
    keys_from(schema, slots, row, 0, Seq::empty())
}

/// A catalog in which a table starts somewhere.
pub open spec fn with_table_root(c: CatalogModel, table: Seq<char>, before: PageId, root: PageId) -> CatalogModel {
    if root == before {
        c
    } else {
        CatalogModel { table_roots: c.table_roots.insert(table, root), ..c }
    }
}

/// A catalog in which an index starts somewhere.
pub open spec fn with_index_root(
    c: CatalogModel,
    table: Seq<char>,
    index: Seq<char>,
    before: PageId,
    root: PageId,
) -> CatalogModel {
    if root == before {
        c
    } else {
        CatalogModel {
            index_roots: c.index_roots.insert(table, roots_of(c, table).insert(index, root)),
            ..c
        }
    }
}

/// The failure of a row with the wrong number of values.
pub open spec fn wrong_count(start: Seq<char>, table: Seq<char>, want: nat, got: nat) -> ErrorView {
    storage(start + table + " expected "@ + nat_text(want) + " values but got "@ + nat_text(got))
}

/// The failure of a row that is not the only one with its key.
pub open spec fn not_unique(index: Seq<char>) -> ErrorView {
    storage("unique index "@ + index + " constraint failed"@)
}

/// The failure of a row that is gone.
pub open spec fn no_row(id: RowId, table: Seq<char>) -> ErrorView {
    storage("missing row "@ + nat_text(id.0 as nat) + " on table "@ + table)
}

/// What keeps a row from being the only one with its keys, from an index on. The row with
/// number `own` does not count.
pub open spec fn uniqueness(
    m: PagerModel,
    txn: TransactionId,
    snapshot: SnapshotView,
    plan: PlanView,
    own: Option<RowId>,
    i: int,
) -> Result<(), ErrorView>
    decreases plan.slots.len() - i,
{
    if i < 0 || i >= plan.slots.len() {
        Ok(())
    } else {
        let slot = plan.slots[i];
        let key = plan.keys[i];
        if !IndexMeta::key_is_unique(slot.meta, key) {
            uniqueness(m, txn, snapshot, plan, own, i + 1)
        } else {
            match rivals(m, txn, snapshot, plan, slot, key, own) {
                Err(e) => Err(e),
                Ok(n) => if n > 0 {
                    Err(not_unique(slot.meta.name))
                } else {
                    uniqueness(m, txn, snapshot, plan, own, i + 1)
                },
            }
        }
    }
}

/// How many other rows with a key a transaction sees.
pub open spec fn rivals(
    m: PagerModel,
    txn: TransactionId,
    snapshot: SnapshotView,
    plan: PlanView,
    slot: SlotView,
    key: Seq<SqlValue>,
    own: Option<RowId>,
) -> Result<nat, ErrorView> {
    match listed(m, slot.root, key_bytes(key)) {
        Err(e) => Err(e),
        Ok(None) => Ok(0),
        Ok(Some(ids)) => match with_key(
            m,
            txn,
            snapshot,
            plan.schema,
            plan.root,
            slot.meta.columns,
            key,
            ids,
        ) {
            Err(e) => Err(e),
            Ok(same) => Ok(others(same, own).len()),
        },
    }
}

/// A list of rows but for one.
pub open spec fn others(ids: Seq<RowId>, own: Option<RowId>) -> Seq<RowId> {
    match own {
        None => ids,
        Some(id) => ids_without(ids, id),
    }
}

/// The keys of a row with the names of their indexes.
pub open spec fn named_keys(slots: Seq<SlotView>, keys: Seq<Seq<SqlValue>>) -> Seq<IndexKeyView> {
    Seq::new(slots.len(), |i: int| IndexKeyView { index: slots[i].meta.name, key: keys[i] })
}

impl StorageModel {
    /// The engine with another state of the pager.
    pub open spec fn with_pager(self, pager: PagerModel) -> StorageModel {
        StorageModel { pager, ..self }
    }

    /// The engine with another state of the transactions.
    pub open spec fn with_txns(self, txns: TxnModel) -> StorageModel {
        self.with_pager(self.pager.with_txns(txns))
    }

    /// The engine with another catalog.
    pub open spec fn with_catalog(self, catalog: CatalogModel) -> StorageModel {
        StorageModel { catalog, ..self }
    }

    /// The engine once a transaction has asked for the right to write a page.
    pub open spec fn page_asked(self, txn: TransactionId, page: PageId) -> (
        StorageModel,
        Result<(), ErrorView>,
    ) {
        let asked = self.pager.lock_asked(txn.0, page);
        (self.with_pager(asked.0), asked.1)
    }

    /// What keeps a transaction from going on, if anything.
    pub open spec fn idle(self, txn: TransactionId) -> Option<ErrorView> {
        if self.pager.txns.is_active(txn) {
            None
        } else {
            Some(not_active(txn))
        }
    }

    /// The engine once a row to be written is checked against the locks of others. Where the
    /// transaction must wait, it is told so.
    pub open spec fn conflicts_checked(
        self,
        txn: TransactionId,
        table: Seq<char>,
        keys: Seq<IndexKeyView>,
    ) -> (StorageModel, Result<(), ErrorView>) {
        if !room_for_waiters(self.pager.txns) {
            (self, Err(bare(ErrorCode::LockEpochsUsedUp)))
        } else {
            match self.pager.txns.write_checked(txn, table, keys) {
                (txns, Ok(_)) => (self.with_txns(txns), Ok(())),
                (txns, Err(e)) => (self.with_txns(txns), Err(e)),
            }
        }
    }

    /// The engine once a transaction has got the snapshot that it reads by.
    pub open spec fn snapshot_of(self, txn: TransactionId) -> (
        StorageModel,
        Result<SnapshotView, ErrorView>,
    ) {
        let (txns, r) = snapshot_taken(self.pager.txns, txn);
        (self.with_txns(txns), r)
    }

    /// The engine once a transaction has noted how to take back a change.
    pub open spec fn noted(self, txn: TransactionId, record: UndoView) -> (
        StorageModel,
        Result<(), ErrorView>,
    ) {
        let (txns, r) = undo_noted(self.pager.txns, txn, record);
        (self.with_txns(txns), r)
    }

    // -----------------------------------------------------------------------
    // Inserting rows

    /// What a row is to be inserted with.
    pub open spec fn insert_plan(
        self,
        txn: TransactionId,
        table: Seq<char>,
        row: Seq<SqlValue>,
        values_fault: Option<ErrorView>,
    ) -> Result<PlanView, ErrorView> {
        match self.idle(txn) {
            Some(e) => Err(e),
            None => match table_of(self.catalog, table) {
                Err(e) => Err(e),
                Ok((schema, root)) => if row.len() != schema.columns@.len() {
                    Err(wrong_count("insert into "@, table, schema.columns@.len(), row.len()))
                } else if values_fault is Some {
                    Err(values_fault->Some_0)
                } else {
                    match slots(self.catalog, table) {
                        Err(e) => Err(e),
                        Ok(list) => match row_keys(schema, list, row) {
                            Err(e) => Err(e),
                            Ok(keys) => Ok(PlanView { schema, root, slots: list, keys }),
                        },
                    }
                },
            },
        }
    }

    /// What keeps a row from being written, once its plan is made.
    pub open spec fn write_allowed(
        self,
        txn: TransactionId,
        plan: PlanView,
        snapshot: SnapshotView,
        key_fault: Option<ErrorView>,
        own: Option<RowId>,
    ) -> Result<(), ErrorView> {
        match seen_rows(self.pager, plan.root, txn, snapshot, own) {
            Err(e) => Err(e),
            Ok(_) => if key_fault is Some {
                Err(key_fault->Some_0)
            } else {
                uniqueness(self.pager, txn, snapshot, plan, own, 0)
            },
        }
    }

    /// The engine once indexes list a row, from one on.
    pub open spec fn indexed_from(
        self,
        txn: TransactionId,
        table: Seq<char>,
        plan: PlanView,
        id: RowId,
        i: int,
    ) -> (StorageModel, Result<(), ErrorView>)
        decreases plan.slots.len() - i,
    {
        if i < 0 || i >= plan.slots.len() {
            (self, Ok(()))
        } else {
            match self.index_entered(txn, table, plan.slots[i], plan.keys[i], id) {
                (after, Err(e)) => (after, Err(e)),
                (after, Ok(_)) => after.indexed_from(txn, table, plan, id, i + 1),
            }
        }
    }

    /// The engine once an index lists a row.
    pub open spec fn index_entered(
        self,
        txn: TransactionId,
        table: Seq<char>,
        slot: SlotView,
        key: Seq<SqlValue>,
        id: RowId,
    ) -> (StorageModel, Result<(), ErrorView>) {
        match self.noted(txn, UndoView::IndexInsert { table, index: slot.name, row_id: id, key }) {
            (a, Err(e)) => (a, Err(e)),
            (a, Ok(_)) => match entry_added(a.pager, txn.0, slot.root, key_bytes(key), id) {
                (p, Err(e)) => (a.with_pager(p), Err(e)),
                (p, Ok(root)) => (
                    a.with_pager(p).with_catalog(
                        with_index_root(a.catalog, table, slot.name, slot.root, root),
                    ),
                    Ok(()),
                ),
            },
        }
    }

    /// The engine once a row has its number.
    pub open spec fn numbered(self, txn: TransactionId, table: Seq<char>) -> (
        StorageModel,
        Result<RowId, ErrorView>,
    ) {
        match row_id_given(
            self.pager.txns,
            txn,
            table,
            next_number(self.catalog.next_row_ids, table),
        ) {
            (txns, Err(e)) => (self.with_txns(txns), Err(e)),
            (txns, Ok(id)) => (
                self.with_txns(txns).with_catalog(
                    CatalogModel {
                        next_row_ids: self.catalog.next_row_ids.insert(
                            table,
                            if id.0 < u64::MAX {
                                (id.0 + 1) as u64
                            } else {
                                id.0
                            },
                        ),
                        ..self.catalog
                    },
                ),
                Ok(id),
            ),
        }
    }

    /// The engine once bytes stand under the number of a row of a table.
    pub open spec fn row_put(
        self,
        txn: TransactionId,
        table: Seq<char>,
        root: PageId,
        id: RowId,
        bytes: Seq<u8>,
    ) -> (StorageModel, Result<(), ErrorView>) {
        match tree_put::<u64>(self.pager, txn.0, root, id.0, bytes) {
            (p, Err(e)) => (self.with_pager(p), Err(e)),
            (p, Ok(new)) => (
                self.with_pager(p).with_catalog(with_table_root(self.catalog, table, root, new)),
                Ok(()),
            ),
        }
    }

    /// The engine once a row with a plan is placed, and its number.
    pub open spec fn row_placed(
        self,
        txn: TransactionId,
        table: Seq<char>,
        plan: PlanView,
        row: Seq<SqlValue>,
    ) -> (StorageModel, Result<RowId, ErrorView>) {
        match self.numbered(txn, table) {
            (a, Err(e)) => (a, Err(e)),
            (a, Ok(id)) => match a.noted(txn, UndoView::InsertRow { table, row_id: id }) {
                (b, Err(e)) => (b, Err(e)),
                (b, Ok(_)) => match b.row_put(
                    txn,
                    table,
                    plan.root,
                    id,
                    json_bytes(versions_json(seq![fresh(row, txn.0)])),
                ) {
                    (c, Err(e)) => (c, Err(e)),
                    (c, Ok(_)) => match c.indexed_from(txn, table, plan, id, 0) {
                        (d, Err(e)) => (d, Err(e)),
                        (d, Ok(_)) => (d, Ok(id)),
                    },
                },
            },
        }
    }

    /// The engine once a row is inserted, and its number.
    pub open spec fn inserted(
        self,
        txn: TransactionId,
        table: Seq<char>,
        row: Seq<SqlValue>,
        faults: FaultsView,
    ) -> (StorageModel, Result<RowId, ErrorView>) {
        match self.insert_plan(txn, table, row, faults.values) {
            Err(e) => (self, Err(e)),
            Ok(plan) => match self.conflicts_checked(
                txn,
                table,
                named_keys(plan.slots, plan.keys),
            ) {
                (a, Err(e)) => (a, Err(e)),
                (a, Ok(_)) => match a.snapshot_of(txn) {
                    (b, Err(e)) => (b, Err(e)),
                    (b, Ok(snapshot)) => match b.write_allowed(
                        txn,
                        plan,
                        snapshot,
                        faults.key,
                        None,
                    ) {
                        Err(e) => (b, Err(e)),
                        Ok(_) => b.row_placed(txn, table, plan, row),
                    },
                },
            },
        }
    }
}

} // verus!
