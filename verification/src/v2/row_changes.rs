//! Reading, changing and deleting rows.

use vstd::prelude::*;

use crate::common::bytes::copy_bytes;
use crate::common::error::{bare, storage, DbError, DbResult, ErrorCode, ErrorView};
use crate::common::json::json_bytes;
use crate::common::ordmap::Duplicate;
use crate::common::schema::Schema;
use crate::common::text::u64_text;
use crate::common::value::{copy_values, same_values, DbValue, Row, RowId, SqlValue, TransactionId};
use crate::v2::btree::BTree;
use crate::v2::catalog::SharedSchema;
use crate::v2::codec::{
    append_row_version, changed_bytes, deleted_bytes, encode_index_key, mark_row_deleted,
    opt_row_result, versions_json, with_changed, Held, VersionView,
};
use crate::v2::locks::{IndexKey, IndexKeyView, LockKindView, PredicateLockView, TableLockMode};
use crate::v2::page::PageId;
use crate::v2::storage::{
    engine_step, fail_wrong_count, fault_view, name_keys, project_keys,
    remove_row_id_from_index_entry, rows_result, upsert_index_entry, visible_row_at_root,
    visible_rows, FileStorage, IndexSlot, RowFaults, StoredRow, WritePlan,
};
use crate::v2::storage_model::{
    entry_added, entry_removed, key_bytes, named_keys, no_row, row_keys, seen_at, seen_rows, slots,
    table_of, with_index_root, wrong_count, FaultsView, PlanView, RowView, SlotView, StorageModel,
};
use crate::v2::tables::{
    changed_in, deleted_in, lemma_changed_twice, lemma_index_put, lemma_same_trees,
    lemma_slots_alike, lemma_slots_kept, lemma_table_held, lists_seen, rows_in, same_trees, seen_in,
    slot_stands, slots_stand, starts_at, stored, tree_changed, with_versions, Tables,
};
use crate::v2::tree::found;
use crate::v2::tree_node::ByteKey;
use crate::v2::tree_shape::{lemma_tree_kept, tree_holds};
use crate::v2::tx_types::{TxnSnapshot, UndoRecord, UndoView};
use crate::v2::txn_manager::room_for_waiters;

verus! {

// ---------------------------------------------------------------------------
// Models

/// The keys that a change of a row touches: the old one of each index, and the new one where
/// it differs.
pub open spec fn touched_from(
    slots: Seq<SlotView>,
    old_keys: Seq<Seq<SqlValue>>,
    new_keys: Seq<Seq<SqlValue>>,
    i: int,
    out: Seq<IndexKeyView>,
) -> Seq<IndexKeyView>
    decreases slots.len() - i,
{
    if i < 0 || i >= slots.len() {
        out
    } else {
        let first = out.push(IndexKeyView { index: slots[i].name, key: old_keys[i] });
        touched_from(
            slots,
            old_keys,
            new_keys,
            i + 1,
            if old_keys[i] == new_keys[i] {
                first
            } else {
                first.push(IndexKeyView { index: slots[i].name, key: new_keys[i] })
            },
        )
    }
}

/// What a row is to be changed with: as for a new row, and the keys that it had.
#[verifier::ext_equal]
pub struct ChangeView {
    pub plan: PlanView,
    pub old_keys: Seq<Seq<SqlValue>>,
}

impl StorageModel {
    /// What a transaction sees of a row of a table, where there is such a table.
    pub open spec fn row_read(self, txn: TransactionId, table: Seq<char>, id: RowId) -> (
        StorageModel,
        Result<Option<Seq<SqlValue>>, ErrorView>,
    ) {
        match self.idle(txn) {
            Some(e) => (self, Err(e)),
            None => match table_of(self.catalog, table) {
                Err(_) => (self, Ok(None)),
                Ok((_, root)) => match self.snapshot_of(txn) {
                    (a, Err(e)) => (a, Err(e)),
                    (a, Ok(snapshot)) => (a, seen_at(a.pager, txn, snapshot, root, id)),
                },
            },
        }
    }

    /// The engine once a transaction has locked a table for reading.
    pub open spec fn table_read_locked(self, txn: TransactionId, table: Seq<char>) -> (
        StorageModel,
        Result<(), ErrorView>,
    ) {
        if !room_for_waiters(self.pager.txns) {
            (self, Err(bare(ErrorCode::LockEpochsUsedUp)))
        } else {
            match self.pager.txns.table_acquired(txn, table, TableLockMode::IntentionRead) {
                (txns, Err(e)) => (self.with_txns(txns), Err(e)),
                (txns, Ok(_)) => (
                    self.with_txns(
                        txns.predicate_locked(
                            PredicateLockView {
                                txn_id: txn,
                                table,
                                index: None,
                                kind: LockKindView::Table,
                            },
                        ),
                    ),
                    Ok(()),
                ),
            }
        }
    }

    /// The rows of a table that a transaction sees, where there is such a table.
    pub open spec fn rows_read(self, txn: TransactionId, table: Seq<char>) -> (
        StorageModel,
        Result<Seq<RowView>, ErrorView>,
    ) {
        match self.idle(txn) {
            Some(e) => (self, Err(e)),
            None => match self.table_read_locked(txn, table) {
                (a, Err(e)) => (a, Err(e)),
                (a, Ok(_)) => match table_of(a.catalog, table) {
                    Err(_) => (a, Ok(Seq::empty())),
                    Ok((_, root)) => match a.snapshot_of(txn) {
                        (b, Err(e)) => (b, Err(e)),
                        (b, Ok(snapshot)) => (
                            b,
                            seen_rows(b.pager, root, txn, snapshot, None),
                        ),
                    },
                },
            },
        }
    }

    /// The bytes of a row of a table.
    pub open spec fn row_bytes(self, table: Seq<char>, root: PageId, id: RowId) -> Result<
        Seq<u8>,
        ErrorView,
    > {
        match found::<u64>(self.pager, root, id.0) {
            Err(e) => Err(e),
            Ok(None) => Err(no_row(id, table)),
            Ok(Some(bytes)) => Ok(bytes),
        }
    }

    /// The engine once a transaction has noted that indexes list a row no more, from one on.
    pub open spec fn leaving_noted(
        self,
        txn: TransactionId,
        table: Seq<char>,
        keys: Seq<IndexKeyView>,
        id: RowId,
        i: int,
    ) -> (StorageModel, Result<(), ErrorView>)
        decreases keys.len() - i,
    {
        if i < 0 || i >= keys.len() {
            (self, Ok(()))
        } else {
            match self.noted(
                txn,
                UndoView::IndexDelete {
                    table,
                    index: keys[i].index,
                    row_id: id,
                    key: keys[i].key,
                },
            ) {
                (a, Err(e)) => (a, Err(e)),
                (a, Ok(_)) => a.leaving_noted(txn, table, keys, id, i + 1),
            }
        }
    }

    /// The engine once a row that a transaction sees is deleted.
    pub open spec fn seen_row_deleted(
        self,
        txn: TransactionId,
        table: Seq<char>,
        schema: Schema,
        root: PageId,
        id: RowId,
        row: Seq<SqlValue>,
        snapshot: crate::v2::tx_types::SnapshotView,
    ) -> (StorageModel, Result<(), ErrorView>) {
        match slots(self.catalog, table) {
            Err(e) => (self, Err(e)),
            Ok(list) => match row_keys(schema, list, row) {
                Err(e) => (self, Err(e)),
                Ok(keys) => match self.conflicts_checked(txn, table, named_keys(list, keys)) {
                    (a, Err(e)) => (a, Err(e)),
                    (a, Ok(_)) => match a.row_bytes(table, root, id) {
                        Err(e) => (a, Err(e)),
                        Ok(bytes) => match a.noted(
                            txn,
                            UndoView::DeleteRow { table, row_id: id, previous_bytes: bytes },
                        ) {
                            (b, Err(e)) => (b, Err(e)),
                            (b, Ok(_)) => match b.leaving_noted(
                                txn,
                                table,
                                named_keys(list, keys),
                                id,
                                0,
                            ) {
                                (c, Err(e)) => (c, Err(e)),
                                (c, Ok(_)) => c.rewritten(
                                    txn,
                                    table,
                                    root,
                                    id,
                                    deleted_bytes(bytes, txn.0, snapshot),
                                ),
                            },
                        },
                    },
                },
            },
        }
    }

    /// The engine once bytes stand under the number of a row of a table, if there are any.
    pub open spec fn rewritten(
        self,
        txn: TransactionId,
        table: Seq<char>,
        root: PageId,
        id: RowId,
        bytes: Result<Option<Seq<u8>>, ErrorView>,
    ) -> (StorageModel, Result<(), ErrorView>) {
        match bytes {
            Err(e) => (self, Err(e)),
            Ok(None) => (self, Ok(())),
            Ok(Some(b)) => self.row_put(txn, table, root, id, b),
        }
    }

    /// The engine once a row is deleted. A row that the transaction does not see, or a table
    /// that there is not, is left alone.
    pub open spec fn row_deleted(self, txn: TransactionId, table: Seq<char>, id: RowId) -> (
        StorageModel,
        Result<(), ErrorView>,
    ) {
        match self.idle(txn) {
            Some(e) => (self, Err(e)),
            None => match table_of(self.catalog, table) {
                Err(_) => (self, Ok(())),
                Ok((schema, root)) => match self.snapshot_of(txn) {
                    (a, Err(e)) => (a, Err(e)),
                    (a, Ok(snapshot)) => match seen_at(a.pager, txn, snapshot, root, id) {
                        Err(e) => (a, Err(e)),
                        Ok(None) => (a, Ok(())),
                        Ok(Some(row)) => a.seen_row_deleted(
                            txn,
                            table,
                            schema,
                            root,
                            id,
                            row,
                            snapshot,
                        ),
                    },
                },
            },
        }
    }

    /// The table that a row is to be changed in.
    pub open spec fn update_target(
        self,
        txn: TransactionId,
        table: Seq<char>,
        row: Seq<SqlValue>,
        values_fault: Option<ErrorView>,
    ) -> Result<(Schema, PageId), ErrorView> {
        match self.idle(txn) {
            Some(e) => Err(e),
            None => match table_of(self.catalog, table) {
                Err(e) => Err(e),
                Ok((schema, root)) => if row.len() != schema.columns@.len() {
                    Err(wrong_count("update "@, table, schema.columns@.len(), row.len()))
                } else if values_fault is Some {
                    Err(values_fault->Some_0)
                } else {
                    Ok((schema, root))
                },
            },
        }
    }

    /// What a row is to be changed with.
    pub open spec fn change_plan(
        self,
        table: Seq<char>,
        schema: Schema,
        root: PageId,
        before: Seq<SqlValue>,
        after: Seq<SqlValue>,
    ) -> Result<ChangeView, ErrorView> {
        match slots(self.catalog, table) {
            Err(e) => Err(e),
            Ok(list) => match both_keys_from(schema, list, before, after, 0, Seq::empty(), Seq::empty()) {
                Err(e) => Err(e),
                Ok((old_keys, keys)) => Ok(
                    ChangeView { plan: PlanView { schema, root, slots: list, keys }, old_keys },
                ),
            },
        }
    }

    /// The engine once a transaction has noted the keys of a row that change, from one on.
    pub open spec fn changes_noted(
        self,
        txn: TransactionId,
        table: Seq<char>,
        change: ChangeView,
        id: RowId,
        i: int,
    ) -> (StorageModel, Result<(), ErrorView>)
        decreases change.plan.slots.len() - i,
    {
        if i < 0 || i >= change.plan.slots.len() {
            (self, Ok(()))
        } else {
            match self.change_noted(
                txn,
                table,
                change.plan.slots[i].name,
                change.old_keys[i],
                change.plan.keys[i],
                id,
            ) {
                (a, Err(e)) => (a, Err(e)),
                (a, Ok(_)) => a.changes_noted(txn, table, change, id, i + 1),
            }
        }
    }

    /// The engine once a transaction has noted the key of a row in an index, if it changes.
    pub open spec fn change_noted(
        self,
        txn: TransactionId,
        table: Seq<char>,
        index: Seq<char>,
        old_key: Seq<SqlValue>,
        new_key: Seq<SqlValue>,
        id: RowId,
    ) -> (StorageModel, Result<(), ErrorView>) {
        if old_key == new_key {
            (self, Ok(()))
        } else {
            match self.noted(
                txn,
                UndoView::IndexDelete { table, index, row_id: id, key: old_key },
            ) {
                (a, Err(e)) => (a, Err(e)),
                (a, Ok(_)) => a.noted(
                    txn,
                    UndoView::IndexInsert { table, index, row_id: id, key: new_key },
                ),
            }
        }
    }

    /// The engine once indexes list a row under its new keys, from one on.
    pub open spec fn moved_from(
        self,
        txn: TransactionId,
        table: Seq<char>,
        change: ChangeView,
        id: RowId,
        i: int,
    ) -> (StorageModel, Result<(), ErrorView>)
        decreases change.plan.slots.len() - i,
    {
        if i < 0 || i >= change.plan.slots.len() {
            (self, Ok(()))
        } else {
            match self.index_moved(
                txn,
                table,
                change.plan.slots[i],
                change.old_keys[i],
                change.plan.keys[i],
                id,
            ) {
                (a, Err(e)) => (a, Err(e)),
                (a, Ok(_)) => a.moved_from(txn, table, change, id, i + 1),
            }
        }
    }

    /// The engine once an index lists a row under its new key.
    pub open spec fn index_moved(
        self,
        txn: TransactionId,
        table: Seq<char>,
        slot: SlotView,
        old_key: Seq<SqlValue>,
        new_key: Seq<SqlValue>,
        id: RowId,
    ) -> (StorageModel, Result<(), ErrorView>) {
        if old_key == new_key {
            (self, Ok(()))
        } else {
            match entry_removed(self.pager, txn.0, slot.root, key_bytes(old_key), id) {
                (p, Err(e)) => (self.with_pager(p), Err(e)),
                (p, Ok(middle)) => match entry_added(p, txn.0, middle, key_bytes(new_key), id) {
                    (q, Err(e)) => (self.with_pager(q), Err(e)),
                    (q, Ok(root)) => (
                        self.with_pager(q).with_catalog(
                            with_index_root(self.catalog, table, slot.name, slot.root, root),
                        ),
                        Ok(()),
                    ),
                },
            }
        }
    }

    /// The engine once a row with a plan is changed.
    pub open spec fn change_made(
        self,
        txn: TransactionId,
        table: Seq<char>,
        change: ChangeView,
        id: RowId,
        row: Seq<SqlValue>,
        snapshot: crate::v2::tx_types::SnapshotView,
    ) -> (StorageModel, Result<(), ErrorView>) {
        match self.row_bytes(table, change.plan.root, id) {
            Err(e) => (self, Err(e)),
            Ok(bytes) => match self.noted(
                txn,
                UndoView::DeleteRow { table, row_id: id, previous_bytes: bytes },
            ) {
                (a, Err(e)) => (a, Err(e)),
                (a, Ok(_)) => match a.changes_noted(txn, table, change, id, 0) {
                    (b, Err(e)) => (b, Err(e)),
                    (b, Ok(_)) => match b.rewritten(
                        txn,
                        table,
                        change.plan.root,
                        id,
                        changed_bytes(bytes, row, txn.0, snapshot),
                    ) {
                        (c, Err(e)) => (c, Err(e)),
                        (c, Ok(_)) => c.moved_from(txn, table, change, id, 0),
                    },
                },
            },
        }
    }

    /// The engine once a row that a transaction sees is changed.
    pub open spec fn seen_row_changed(
        self,
        txn: TransactionId,
        table: Seq<char>,
        schema: Schema,
        root: PageId,
        id: RowId,
        before: Seq<SqlValue>,
        row: Seq<SqlValue>,
        snapshot: crate::v2::tx_types::SnapshotView,
        key_fault: Option<ErrorView>,
    ) -> (StorageModel, Result<(), ErrorView>) {
        match self.change_plan(table, schema, root, before, row) {
            Err(e) => (self, Err(e)),
            Ok(change) => match self.conflicts_checked(
                txn,
                table,
                touched_from(
                    change.plan.slots,
                    change.old_keys,
                    change.plan.keys,
                    0,
                    Seq::empty(),
                ),
            ) {
                (a, Err(e)) => (a, Err(e)),
                (a, Ok(_)) => match a.write_allowed(
                    txn,
                    change.plan,
                    snapshot,
                    key_fault,
                    Some(id),
                ) {
                    Err(e) => (a, Err(e)),
                    Ok(_) => a.change_made(txn, table, change, id, row, snapshot),
                },
            },
        }
    }

    /// The engine once a row is changed. A row that the transaction does not see, or that
    /// stays the same, is left alone.
    pub open spec fn row_updated(
        self,
        txn: TransactionId,
        table: Seq<char>,
        id: RowId,
        row: Seq<SqlValue>,
        faults: FaultsView,
    ) -> (StorageModel, Result<(), ErrorView>) {
        match self.update_target(txn, table, row, faults.values) {
            Err(e) => (self, Err(e)),
            Ok((schema, root)) => match self.snapshot_of(txn) {
                (a, Err(e)) => (a, Err(e)),
                (a, Ok(snapshot)) => match seen_at(a.pager, txn, snapshot, root, id) {
                    Err(e) => (a, Err(e)),
                    Ok(None) => (a, Ok(())),
                    Ok(Some(before)) => if before == row {
                        (a, Ok(()))
                    } else {
                        a.seen_row_changed(
                            txn,
                            table,
                            schema,
                            root,
                            id,
                            before,
                            row,
                            snapshot,
                            faults.key,
                        )
                    },
                },
            },
        }
    }
}

/// The keys of a row before and after a change, from an index on.
pub open spec fn both_keys_from(
    schema: Schema,
    slots: Seq<SlotView>,
    before: Seq<SqlValue>,
    after: Seq<SqlValue>,
    i: int,
    old_keys: Seq<Seq<SqlValue>>,
    new_keys: Seq<Seq<SqlValue>>,
) -> Result<(Seq<Seq<SqlValue>>, Seq<Seq<SqlValue>>), ErrorView>
    decreases slots.len() - i,
{
    if i < 0 || i >= slots.len() {
        Ok((old_keys, new_keys))
    } else {
        match crate::v2::codec::projected(schema, slots[i].meta.columns, before) {
            Err(e) => Err(e),
            Ok(a) => match crate::v2::codec::projected(schema, slots[i].meta.columns, after) {
                Err(e) => Err(e),
                Ok(b) => both_keys_from(
                    schema,
                    slots,
                    before,
                    after,
                    i + 1,
                    old_keys.push(a),
                    new_keys.push(b),
                ),
            },
        }
    }
}

// ---------------------------------------------------------------------------
// Keys

struct ChangePlan {
    plan: WritePlan,
    old_keys: Vec<Vec<DbValue>>,
}

impl DeepView for ChangePlan {
    type V = ChangeView;

    closed spec fn deep_view(&self) -> ChangeView {
        ChangeView { plan: self.plan.deep_view(), old_keys: self.old_keys.deep_view() }
    }
}

impl ChangePlan {
    spec fn wf(&self) -> bool {
        self.plan.slots@.len() == self.plan.keys@.len() == self.old_keys@.len()
    }
}

fn project_both(schema: &Schema, slots: &Vec<IndexSlot>, before: &Row, after: &Row) -> (r: DbResult<
    (Vec<Vec<DbValue>>, Vec<Vec<DbValue>>),
>)
    ensures
        match r {
            Ok((a, b)) => both_keys_from(
                *schema,
                slots.deep_view(),
                before.deep_view(),
                after.deep_view(),
                0,
                Seq::empty(),
                Seq::empty(),
            ) == Ok::<_, ErrorView>((a.deep_view(), b.deep_view())) && a@.len() == b@.len()
                == slots@.len(),
            Err(e) => both_keys_from(
                *schema,
                slots.deep_view(),
                before.deep_view(),
                after.deep_view(),
                0,
                Seq::empty(),
                Seq::empty(),
            ) == Err::<(Seq<Seq<SqlValue>>, Seq<Seq<SqlValue>>), _>(e@),
        },
{
    let ghost all = slots.deep_view();
    let mut old_keys: Vec<Vec<DbValue>> = Vec::new();
    let mut new_keys: Vec<Vec<DbValue>> = Vec::new();
    assert(old_keys.deep_view() =~= Seq::<Seq<SqlValue>>::empty());
    assert(new_keys.deep_view() =~= Seq::<Seq<SqlValue>>::empty());
    let mut i: usize = 0;
    while i < slots.len()
        invariant
            i <= slots@.len(),
            old_keys@.len() == new_keys@.len() == i,
            all == slots.deep_view(),
            both_keys_from(
                *schema,
                all,
                before.deep_view(),
                after.deep_view(),
                i as int,
                old_keys.deep_view(),
                new_keys.deep_view(),
            ) == both_keys_from(
                *schema,
                all,
                before.deep_view(),
                after.deep_view(),
                0,
                Seq::empty(),
                Seq::empty(),
            ),
        decreases slots@.len() - i,
    {
        assert(all[i as int] == slots@[i as int].deep_view());
        let a = crate::v2::codec::project_index_key(schema, &slots[i].meta, before)?;
        let b = crate::v2::codec::project_index_key(schema, &slots[i].meta, after)?;
        let ghost x = old_keys.deep_view();
        let ghost y = new_keys.deep_view();
        old_keys.push(a);
        new_keys.push(b);
        assert(old_keys.deep_view() =~= x.push(a.deep_view()));
        assert(new_keys.deep_view() =~= y.push(b.deep_view()));
        i = i + 1;
    }
    Ok((old_keys, new_keys))
}

fn touched_keys(change: &ChangePlan) -> (r: Vec<IndexKey>)
    requires
        change.wf(),
    ensures
        r.deep_view() == touched_from(
            change.deep_view().plan.slots,
            change.deep_view().old_keys,
            change.deep_view().plan.keys,
            0,
            Seq::empty(),
        ),
{
    let ghost c = change.deep_view();
    let mut out: Vec<IndexKey> = Vec::new();
    assert(out.deep_view() =~= Seq::<IndexKeyView>::empty());
    let mut i: usize = 0;
    while i < change.plan.slots.len()
        invariant
            i <= change.plan.slots@.len(),
            change.wf(),
            c == change.deep_view(),
            touched_from(c.plan.slots, c.old_keys, c.plan.keys, i as int, out.deep_view())
                == touched_from(c.plan.slots, c.old_keys, c.plan.keys, 0, Seq::empty()),
        decreases change.plan.slots@.len() - i,
    {
        assert(c.plan.slots[i as int] == change.plan.slots@[i as int].deep_view());
        assert(c.plan.keys[i as int] == change.plan.keys@[i as int].deep_view());
        assert(c.old_keys[i as int] == change.old_keys@[i as int].deep_view());
        let name: &String = &change.plan.slots[i].name;
        let (a, b): (&Vec<DbValue>, &Vec<DbValue>) = (&change.old_keys[i], &change.plan.keys[i]);
        let ghost before = out.deep_view();
        let first = IndexKey { index: name.clone(), key: copy_values(a.as_slice()) };
        out.push(first);
        assert(out.deep_view() =~= before.push(first.deep_view()));
        if !same_values(a.as_slice(), b.as_slice()) {
            let ghost middle = out.deep_view();
            let second = IndexKey { index: name.clone(), key: copy_values(b.as_slice()) };
            out.push(second);
            assert(out.deep_view() =~= middle.push(second.deep_view()));
        }
        i = i + 1;
    }
    out
}

fn fail_no_row(id: RowId, table: &str) -> (r: DbError)
    ensures
        r@ == no_row(id, table@),
{
    let mut message = "missing row ".to_owned();
    message.append(u64_text(id.0).as_str());
    message.append(" on table ");
    message.append(table);
    DbError::storage(message.as_str())
}

impl FileStorage {
    /// What a transaction sees of a row. Of the versions that the table holds, it is the one that
    /// the snapshot of the transaction shows.
    pub fn get_row(&mut self, transaction_id: TransactionId, schema_name: &str, row_id: RowId) -> (r:
        DbResult<Option<Row>>)
        requires
            old(self)@.pager.sound(),
        ensures
            final(self)@ == old(self)@.row_read(transaction_id, schema_name@, row_id).0,
            opt_row_result(r) == old(self)@.row_read(transaction_id, schema_name@, row_id).1,
            final(self)@.pager.sound(),
            forall|tables: Tables| #[trigger]
                rows_in(old(self)@, tables) ==> rows_in(final(self)@, tables),
            forall|tables: Tables| #[trigger]
                rows_in(old(self)@, tables) && old(self)@.idle(transaction_id) is None && table_of(
                    old(self)@.catalog,
                    schema_name@,
                ) is Ok ==> opt_row_result(r) == Ok::<_, ErrorView>(
                    seen_in(
                        tables[schema_name@],
                        row_id.0,
                        transaction_id.0,
                        old(self)@.snapshot_of(transaction_id).1->Ok_0,
                    ),
                ),
    {
        let ghost start = self@;
        proof {
            lemma_same_trees(start, start);
        }
        self.validate_transaction(transaction_id)?;
        let root: PageId = match self.catalog.table_schema_and_root(schema_name) {
            Ok((_, root)) => root,
            Err(_) => {
                return Ok(None);
            },
        };
        let snapshot = self.snapshot_for_transaction(transaction_id)?;
        proof {
            lemma_same_trees(start, self@);
            assert forall|tables: Tables| #[trigger] rows_in(start, tables) implies exists|
                pages: Set<PageId>,
            | #[trigger]
                tree_holds::<u64>(self@.pager, root, pages, stored(tables[schema_name@])) by {
                let pages = lemma_table_held(self@, tables, schema_name@);
                assert(tree_holds::<u64>(self@.pager, root, pages, stored(tables[schema_name@])));
            }
        }
        visible_row_at_root(&self.pager, transaction_id, &snapshot, root, row_id)
    }

    fn lock_table_read(&mut self, transaction_id: TransactionId, table: &str) -> (r: DbResult<()>)
        requires
            old(self)@.pager.sound(),
        ensures
            engine_step(r, final(self)@, old(self)@.table_read_locked(transaction_id, table@)),
            final(self)@.pager.sound(),
    {
        let ghost start = self@;
        if !self.pager.transactions().has_epoch_room() {
            return Err(DbError::bare(ErrorCode::LockEpochsUsedUp));
        }
        assert(start.pager.txns.epoch_has_room(transaction_id));
        let r = self.pager.txns_mut().acquire_table_read_lock(transaction_id, table);
        assert(self@ =~= start.table_read_locked(transaction_id, table@).0);
        match r {
            Ok(_) => Ok(()),
            Err(e) => Err(e),
        }
    }

    /// The rows of a table that a transaction sees, in the order of their numbers: of the
    /// versions that the table holds of each row, the one that the snapshot of the transaction
    /// shows.
    pub fn scan_rows(&mut self, transaction_id: TransactionId, schema_name: &str) -> (r: DbResult<
        Vec<StoredRow>,
    >)
        requires
            old(self)@.pager.sound(),
        ensures
            final(self)@ == old(self)@.rows_read(transaction_id, schema_name@).0,
            rows_result(r) == old(self)@.rows_read(transaction_id, schema_name@).1,
            final(self)@.pager.sound(),
            forall|tables: Tables| #[trigger]
                rows_in(old(self)@, tables) ==> rows_in(final(self)@, tables),
            forall|tables: Tables| #[trigger]
                rows_in(old(self)@, tables) && r is Ok && table_of(
                    old(self)@.catalog,
                    schema_name@,
                ) is Ok ==> lists_seen(
                    r->Ok_0.deep_view(),
                    tables[schema_name@],
                    transaction_id.0,
                    old(self)@.table_read_locked(transaction_id, schema_name@).0.snapshot_of(
                        transaction_id,
                    ).1->Ok_0,
                ),
    {
        let ghost start = self@;
        proof {
            lemma_same_trees(start, start);
        }
        self.validate_transaction(transaction_id)?;
        let locked = self.lock_table_read(transaction_id, schema_name);
        proof {
            lemma_same_trees(start, self@);
        }
        locked?;
        let root: PageId = match self.catalog.table_schema_and_root(schema_name) {
            Ok((_, root)) => root,
            Err(_) => {
                let none: Vec<StoredRow> = Vec::new();
                assert(none.deep_view() =~= Seq::<RowView>::empty());
                return Ok(none);
            },
        };
        let snapshot = self.snapshot_for_transaction(transaction_id);
        proof {
            lemma_same_trees(start, self@);
            assert forall|tables: Tables| #[trigger] rows_in(start, tables) implies exists|
                pages: Set<PageId>,
            | #[trigger]
                tree_holds::<u64>(self@.pager, root, pages, stored(tables[schema_name@])) by {
                let pages = lemma_table_held(self@, tables, schema_name@);
                assert(tree_holds::<u64>(self@.pager, root, pages, stored(tables[schema_name@])));
            }
        }
        let snapshot = snapshot?;
        visible_rows(&self.pager, root, transaction_id, &snapshot, None)
    }

    fn read_row_bytes(&self, table: &str, root: PageId, row_id: RowId) -> (r: DbResult<Vec<u8>>)
        ensures
            match r {
                Ok(b) => self@.row_bytes(table@, root, row_id) == Ok::<Seq<u8>, ErrorView>(b@),
                Err(e) => self@.row_bytes(table@, root, row_id) == Err::<Seq<u8>, ErrorView>(e@),
            },
            forall|pages: Set<PageId>, rows: Map<u64, Held>| #[trigger]
                tree_holds::<u64>(self@.pager, root, pages, stored(rows)) && r is Ok
                    ==> rows.dom().contains(row_id.0) && r->Ok_0@ == rows[row_id.0].bytes(),
    {
        let tree = BTree::from_root(root);
        match tree.get(&self.pager, row_id.0)? {
            Some(bytes) => Ok(bytes),
            None => Err(fail_no_row(row_id, table)),
        }
    }

    fn note_leaving(
        &mut self,
        transaction_id: TransactionId,
        table: &str,
        keys: &Vec<IndexKey>,
        row_id: RowId,
    ) -> (r: DbResult<()>)
        requires
            old(self)@.pager.sound(),
        ensures
            engine_step(
                r,
                final(self)@,
                old(self)@.leaving_noted(transaction_id, table@, keys.deep_view(), row_id, 0),
            ),
            final(self)@.pager.sound(),
            same_trees(old(self)@, final(self)@),
    {
        let ghost whole = self@.leaving_noted(transaction_id, table@, keys.deep_view(), row_id, 0);
        let mut i: usize = 0;
        while i < keys.len()
            invariant
                i <= keys@.len(),
                self@.pager.sound(),
                whole == old(self)@.leaving_noted(
                    transaction_id,
                    table@,
                    keys.deep_view(),
                    row_id,
                    0,
                ),
                self@.leaving_noted(transaction_id, table@, keys.deep_view(), row_id, i as int)
                    == whole,
                same_trees(old(self)@, self@),
            decreases keys@.len() - i,
        {
            assert(keys.deep_view()[i as int] == keys@[i as int].deep_view());
            let record = UndoRecord::IndexDelete {
                table: table.to_owned(),
                index: keys[i].index.clone(),
                row_id,
                key: copy_values(keys[i].key.as_slice()),
            };
            self.record_undo(transaction_id, record)?;
            i = i + 1;
        }
        Ok(())
    }

    fn note_previous(
        &mut self,
        transaction_id: TransactionId,
        table: &str,
        row_id: RowId,
        bytes: &Vec<u8>,
    ) -> (r: DbResult<()>)
        requires
            old(self)@.pager.sound(),
        ensures
            engine_step(
                r,
                final(self)@,
                old(self)@.noted(
                    transaction_id,
                    UndoView::DeleteRow { table: table@, row_id, previous_bytes: bytes@ },
                ),
            ),
            final(self)@.pager.sound(),
    {
        let record = UndoRecord::DeleteRow {
            table: table.to_owned(),
            row_id,
            previous_bytes: copy_bytes(bytes),
        };
        self.record_undo(transaction_id, record)
    }

    fn rewrite_row(
        &mut self,
        transaction_id: TransactionId,
        table: &str,
        root: PageId,
        row_id: RowId,
        bytes: DbResult<Option<Vec<u8>>>,
    ) -> (r: DbResult<()>)
        requires
            old(self)@.pager.sound(),
        ensures
            engine_step(
                r,
                final(self)@,
                old(self)@.rewritten(
                    transaction_id,
                    table@,
                    root,
                    row_id,
                    crate::v2::codec::opt_bytes_result(bytes),
                ),
            ),
            final(self)@.pager.sound(),
            forall|tables: Tables, v: Seq<VersionView>|
                #![trigger rows_in(old(self)@, tables), versions_json(v)]
                rows_in(old(self)@, tables) && starts_at(old(self)@.catalog, table@, root)
                    && crate::v2::codec::opt_bytes_result(bytes) == Ok::<_, ErrorView>(
                    Some(json_bytes(versions_json(v))),
                ) && r is Ok ==> rows_in(
                    final(self)@,
                    with_versions(tables, table@, row_id.0, v),
                ),
            final(self)@.catalog.index_roots == old(self)@.catalog.index_roots,
    {
        match bytes? {
            None => Ok(()),
            Some(b) => self.put_row(transaction_id, table, root, row_id, b.as_slice()),
        }
    }

    fn delete_seen_row(
        &mut self,
        transaction_id: TransactionId,
        table: &str,
        schema: &SharedSchema,
        root: PageId,
        row_id: RowId,
        row: &Row,
        snapshot: &TxnSnapshot,
    ) -> (r: DbResult<()>)
        requires
            old(self)@.pager.sound(),
        ensures
            engine_step(
                r,
                final(self)@,
                old(self)@.seen_row_deleted(
                    transaction_id,
                    table@,
                    schema.deep_view(),
                    root,
                    row_id,
                    row.deep_view(),
                    snapshot.deep_view(),
                ),
            ),
            final(self)@.pager.sound(),
            forall|tables: Tables| #[trigger]
                rows_in(old(self)@, tables) && starts_at(old(self)@.catalog, table@, root)
                    && seen_in(
                    tables[table@],
                    row_id.0,
                    transaction_id.0,
                    snapshot.deep_view(),
                ) is Some && r is Ok ==> rows_in(
                    final(self)@,
                    deleted_in(
                        tables,
                        table@,
                        row_id.0,
                        transaction_id.0,
                        snapshot.deep_view(),
                    ),
                ),
    {
        let ghost start = self@;
        let slots = self.catalog.indexes_for_table(table)?;
        let keys = project_keys(&schema.schema, &slots, row)?;
        let named = name_keys(&slots, &keys);
        self.check_write_conflicts(transaction_id, table, &named)?;
        let ghost asked = self@;
        let bytes = self.read_row_bytes(table, root, row_id)?;
        self.note_previous(transaction_id, table, row_id, &bytes)?;
        self.note_leaving(transaction_id, table, &named, row_id)?;
        let after = mark_row_deleted(bytes.as_slice(), transaction_id.0, snapshot);
        proof {
            lemma_same_trees(start, self@);
            assert forall|tables: Tables| #[trigger]
                rows_in(start, tables) && starts_at(start.catalog, table@, root) implies bytes@
                == tables[table@][row_id.0].bytes() by {
                let pages = lemma_table_held(self@, tables, table@);
                assert(tree_holds::<u64>(asked.pager, root, pages, stored(tables[table@]))) by {
                    lemma_tree_kept::<u64>(
                        self@.pager,
                        Set::empty(),
                        asked.pager,
                        Set::empty(),
                        root,
                        pages,
                        stored(tables[table@]),
                    );
                }
            }
        }
        self.rewrite_row(transaction_id, table, root, row_id, after)
    }

    /// Deletes a row. Where the transaction sees it, the table then holds it as deleted by the
    /// transaction.
    pub fn delete_row(&mut self, transaction_id: TransactionId, schema_name: &str, row_id: RowId) -> (r:
        DbResult<()>)
        requires
            old(self)@.pager.sound(),
        ensures
            engine_step(
                r,
                final(self)@,
                old(self)@.row_deleted(transaction_id, schema_name@, row_id),
            ),
            final(self)@.pager.sound(),
            forall|tables: Tables| #[trigger]
                rows_in(old(self)@, tables) && r is Ok ==> rows_in(
                    final(self)@,
                    if table_of(old(self)@.catalog, schema_name@) is Ok {
                        deleted_in(
                            tables,
                            schema_name@,
                            row_id.0,
                            transaction_id.0,
                            old(self)@.snapshot_of(transaction_id).1->Ok_0,
                        )
                    } else {
                        tables
                    },
                ),
    {
        let ghost start = self@;
        proof {
            lemma_same_trees(start, start);
        }
        self.validate_transaction(transaction_id)?;
        let (schema, root): (SharedSchema, PageId) = match self.catalog.table_schema_and_root(
            schema_name,
        ) {
            Ok(found) => found,
            Err(_) => {
                return Ok(());
            },
        };
        let snapshot = self.snapshot_for_transaction(transaction_id)?;
        proof {
            lemma_same_trees(start, self@);
            assert forall|tables: Tables| #[trigger] rows_in(start, tables) implies exists|
                pages: Set<PageId>,
            | #[trigger]
                tree_holds::<u64>(self@.pager, root, pages, stored(tables[schema_name@])) by {
                let pages = lemma_table_held(self@, tables, schema_name@);
                assert(tree_holds::<u64>(self@.pager, root, pages, stored(tables[schema_name@])));
            }
        }
        match visible_row_at_root(&self.pager, transaction_id, &snapshot, root, row_id)? {
            None => Ok(()),
            Some(row) => self.delete_seen_row(
                transaction_id,
                schema_name,
                &schema,
                root,
                row_id,
                &row,
                &snapshot,
            ),
        }
    }

    fn find_update_target(
        &self,
        transaction_id: TransactionId,
        table: &str,
        row: &Row,
        values_fault: &Option<DbError>,
    ) -> (r: DbResult<(SharedSchema, PageId)>)
        ensures
            crate::v2::storage::table_result(r) == self@.update_target(
                transaction_id,
                table@,
                row.deep_view(),
                fault_view(*values_fault),
            ),
    {
        self.validate_transaction(transaction_id)?;
        let (schema, root): (SharedSchema, PageId) = self.catalog.table_schema_and_root(table)?;
        if row.len() != schema.schema.columns.len() {
            return Err(
                fail_wrong_count("update ", table, schema.schema.columns.len(), row.len()),
            );
        }
        match values_fault {
            Some(e) => Err(e.copy()),
            None => Ok((schema, root)),
        }
    }

    fn plan_change(
        &self,
        table: &str,
        schema: &SharedSchema,
        root: PageId,
        before: &Row,
        after: &Row,
    ) -> (r: DbResult<ChangePlan>)
        ensures
            match r {
                Ok(c) => c.wf() && self@.change_plan(
                    table@,
                    schema.deep_view(),
                    root,
                    before.deep_view(),
                    after.deep_view(),
                ) == Ok::<ChangeView, ErrorView>(c.deep_view()) && c.plan.root == root && slots_stand(
                    self@.catalog,
                    table@,
                    c.deep_view().plan.slots,
                    0,
                ),
                Err(e) => self@.change_plan(
                    table@,
                    schema.deep_view(),
                    root,
                    before.deep_view(),
                    after.deep_view(),
                ) == Err::<ChangeView, ErrorView>(e@),
            },
    {
        let slots = self.catalog.indexes_for_table(table)?;
        let (old_keys, keys): (Vec<Vec<DbValue>>, Vec<Vec<DbValue>>) = project_both(
            &schema.schema,
            &slots,
            before,
            after,
        )?;
        Ok(ChangePlan { plan: WritePlan { schema: schema.duplicate(), root, slots, keys }, old_keys })
    }

    fn note_change(
        &mut self,
        transaction_id: TransactionId,
        table: &str,
        index: &String,
        old_key: &Vec<DbValue>,
        new_key: &Vec<DbValue>,
        row_id: RowId,
    ) -> (r: DbResult<()>)
        requires
            old(self)@.pager.sound(),
        ensures
            engine_step(
                r,
                final(self)@,
                old(self)@.change_noted(
                    transaction_id,
                    table@,
                    index@,
                    old_key.deep_view(),
                    new_key.deep_view(),
                    row_id,
                ),
            ),
            final(self)@.pager.sound(),
            same_trees(old(self)@, final(self)@),
    {
        if same_values(old_key.as_slice(), new_key.as_slice()) {
            return Ok(());
        }
        let leaving = UndoRecord::IndexDelete {
            table: table.to_owned(),
            index: index.clone(),
            row_id,
            key: copy_values(old_key.as_slice()),
        };
        self.record_undo(transaction_id, leaving)?;
        let coming = UndoRecord::IndexInsert {
            table: table.to_owned(),
            index: index.clone(),
            row_id,
            key: copy_values(new_key.as_slice()),
        };
        self.record_undo(transaction_id, coming)
    }

    fn note_changes(
        &mut self,
        transaction_id: TransactionId,
        table: &str,
        change: &ChangePlan,
        row_id: RowId,
    ) -> (r: DbResult<()>)
        requires
            old(self)@.pager.sound(),
            change.wf(),
        ensures
            engine_step(
                r,
                final(self)@,
                old(self)@.changes_noted(transaction_id, table@, change.deep_view(), row_id, 0),
            ),
            final(self)@.pager.sound(),
            same_trees(old(self)@, final(self)@),
    {
        let ghost c = change.deep_view();
        let ghost whole = self@.changes_noted(transaction_id, table@, c, row_id, 0);
        let mut i: usize = 0;
        while i < change.plan.slots.len()
            invariant
                i <= change.plan.slots@.len(),
                change.wf(),
                c == change.deep_view(),
                self@.pager.sound(),
                whole == old(self)@.changes_noted(transaction_id, table@, c, row_id, 0),
                self@.changes_noted(transaction_id, table@, c, row_id, i as int) == whole,
                same_trees(old(self)@, self@),
            decreases change.plan.slots@.len() - i,
        {
            assert(c.plan.slots[i as int] == change.plan.slots@[i as int].deep_view());
            assert(c.plan.keys[i as int] == change.plan.keys@[i as int].deep_view());
            assert(c.old_keys[i as int] == change.old_keys@[i as int].deep_view());
            self.note_change(
                transaction_id,
                table,
                &change.plan.slots[i].name,
                &change.old_keys[i],
                &change.plan.keys[i],
                row_id,
            )?;
            i = i + 1;
        }
        Ok(())
    }

    fn move_in_index(
        &mut self,
        transaction_id: TransactionId,
        table: &str,
        slot: &IndexSlot,
        old_key: &Vec<DbValue>,
        new_key: &Vec<DbValue>,
        row_id: RowId,
    ) -> (r: DbResult<()>)
        requires
            old(self)@.pager.sound(),
        ensures
            engine_step(
                r,
                final(self)@,
                old(self)@.index_moved(
                    transaction_id,
                    table@,
                    slot.deep_view(),
                    old_key.deep_view(),
                    new_key.deep_view(),
                    row_id,
                ),
            ),
            final(self)@.pager.sound(),
            forall|tables: Tables| #[trigger]
                rows_in(old(self)@, tables) && slot_stands(
                    old(self)@.catalog,
                    table@,
                    slot.deep_view(),
                ) && r is Ok ==> rows_in(final(self)@, tables),
            r is Ok ==> exists|root: PageId| final(self)@.catalog == #[trigger] with_index_root(
                old(self)@.catalog,
                table@,
                slot.deep_view().name,
                slot.root,
                root,
            ),
    {
        let ghost start = self@;
        if same_values(old_key.as_slice(), new_key.as_slice()) {
            assert(self@.catalog == with_index_root(
                start.catalog,
                table@,
                slot.deep_view().name,
                slot.root,
                slot.root,
            ));
            return Ok(());
        }
        match (encode_index_key(old_key.as_slice()), encode_index_key(new_key.as_slice())) {
            (Ok(old_bytes), Ok(new_bytes)) => {
                let middle = remove_row_id_from_index_entry(
                    &mut self.pager,
                    transaction_id.0,
                    slot.root,
                    old_bytes.as_slice(),
                    row_id,
                )?;
                let ghost between = self@;
                let root = upsert_index_entry(
                    &mut self.pager,
                    transaction_id.0,
                    middle,
                    new_bytes.as_slice(),
                    row_id,
                )?;
                self.catalog.move_index(table, slot.name.as_str(), slot.root, root);
                proof {
                    assert forall|pages: Set<PageId>, c: Map<Seq<u8>, Seq<u8>>| #[trigger]
                        tree_holds::<ByteKey>(
                            start.pager,
                            slot.root,
                            pages,
                            c,
                        ) implies tree_changed::<ByteKey>(
                        start.pager,
                        pages,
                        self@.pager,
                        root,
                    ) by {
                        lemma_changed_twice::<ByteKey>(
                            start.pager,
                            pages,
                            between.pager,
                            middle,
                            self@.pager,
                            root,
                        );
                    }
                    assert forall|tables: Tables| #[trigger]
                        rows_in(start, tables) && slot_stands(
                            start.catalog,
                            table@,
                            slot.deep_view(),
                        ) implies rows_in(self@, tables) by {
                        lemma_index_put(
                            start,
                            tables,
                            table@,
                            slot.deep_view(),
                            self@.pager,
                            root,
                        );
                    }
                }
                Ok(())
            },
            (Err(e), _) => Err(e),
            (_, Err(e)) => Err(e),
        }
    }

    fn move_in_indexes(
        &mut self,
        transaction_id: TransactionId,
        table: &str,
        change: &ChangePlan,
        row_id: RowId,
    ) -> (r: DbResult<()>)
        requires
            old(self)@.pager.sound(),
            change.wf(),
        ensures
            engine_step(
                r,
                final(self)@,
                old(self)@.moved_from(transaction_id, table@, change.deep_view(), row_id, 0),
            ),
            final(self)@.pager.sound(),
            forall|tables: Tables| #[trigger]
                rows_in(old(self)@, tables) && slots_stand(
                    old(self)@.catalog,
                    table@,
                    change.deep_view().plan.slots,
                    0,
                ) && r is Ok ==> rows_in(final(self)@, tables),
    {
        let ghost c = change.deep_view();
        let ghost list = c.plan.slots;
        let ghost whole = self@.moved_from(transaction_id, table@, c, row_id, 0);
        let mut i: usize = 0;
        while i < change.plan.slots.len()
            invariant
                i <= change.plan.slots@.len(),
                change.wf(),
                c == change.deep_view(),
                self@.pager.sound(),
                whole == old(self)@.moved_from(transaction_id, table@, c, row_id, 0),
                self@.moved_from(transaction_id, table@, c, row_id, i as int) == whole,
                list == c.plan.slots,
                slots_stand(old(self)@.catalog, table@, list, 0) ==> slots_stand(
                    self@.catalog,
                    table@,
                    list,
                    i as int,
                ),
                forall|tables: Tables| #[trigger]
                    rows_in(old(self)@, tables) && slots_stand(
                        old(self)@.catalog,
                        table@,
                        list,
                        0,
                    ) ==> rows_in(self@, tables),
            decreases change.plan.slots@.len() - i,
        {
            let ghost before = self@;
            assert(c.plan.slots[i as int] == change.plan.slots@[i as int].deep_view());
            assert(c.plan.keys[i as int] == change.plan.keys@[i as int].deep_view());
            assert(c.old_keys[i as int] == change.old_keys@[i as int].deep_view());
            self.move_in_index(
                transaction_id,
                table,
                &change.plan.slots[i],
                &change.old_keys[i],
                &change.plan.keys[i],
                row_id,
            )?;
            proof {
                let root = choose|root: PageId| self@.catalog == #[trigger] with_index_root(
                    before.catalog,
                    table@,
                    list[i as int].name,
                    list[i as int].root,
                    root,
                );
                if slots_stand(old(self)@.catalog, table@, list, 0) {
                    lemma_slots_kept(before.catalog, table@, list, i as int, root);
                    assert(slot_stands(before.catalog, table@, list[i as int]));
                }
            }
            i = i + 1;
        }
        Ok(())
    }

    fn make_change(
        &mut self,
        transaction_id: TransactionId,
        table: &str,
        change: &ChangePlan,
        row_id: RowId,
        row: &Row,
        snapshot: &TxnSnapshot,
    ) -> (r: DbResult<()>)
        requires
            old(self)@.pager.sound(),
            change.wf(),
        ensures
            engine_step(
                r,
                final(self)@,
                old(self)@.change_made(
                    transaction_id,
                    table@,
                    change.deep_view(),
                    row_id,
                    row.deep_view(),
                    snapshot.deep_view(),
                ),
            ),
            final(self)@.pager.sound(),
            forall|tables: Tables| #[trigger]
                rows_in(old(self)@, tables) && starts_at(
                    old(self)@.catalog,
                    table@,
                    change.plan.root,
                ) && slots_stand(old(self)@.catalog, table@, change.deep_view().plan.slots, 0)
                    && seen_in(
                    tables[table@],
                    row_id.0,
                    transaction_id.0,
                    snapshot.deep_view(),
                ) is Some && r is Ok ==> rows_in(
                    final(self)@,
                    with_versions(
                        tables,
                        table@,
                        row_id.0,
                        with_changed(
                            tables[table@][row_id.0].versions(),
                            row.deep_view(),
                            transaction_id.0,
                            snapshot.deep_view(),
                        )->Some_0,
                    ),
                ),
    {
        let ghost start = self@;
        let bytes = self.read_row_bytes(table, change.plan.root, row_id)?;
        self.note_previous(transaction_id, table, row_id, &bytes)?;
        self.note_changes(transaction_id, table, change, row_id)?;
        let after = append_row_version(bytes.as_slice(), row, transaction_id.0, snapshot);
        proof {
            lemma_same_trees(start, self@);
            assert forall|tables: Tables| #[trigger]
                rows_in(start, tables) && starts_at(
                    start.catalog,
                    table@,
                    change.plan.root,
                ) implies bytes@ == tables[table@][row_id.0].bytes() by {
                let pages = lemma_table_held(start, tables, table@);
            }
        }
        self.rewrite_row(transaction_id, table, change.plan.root, row_id, after)?;
        proof {
            lemma_slots_alike(start.catalog, self@.catalog, table@, change.deep_view().plan.slots);
        }
        self.move_in_indexes(transaction_id, table, change, row_id)
    }

    fn change_seen_row(
        &mut self,
        transaction_id: TransactionId,
        table: &str,
        target: &(SharedSchema, PageId),
        row_id: RowId,
        before: &Row,
        row: &Row,
        snapshot: &TxnSnapshot,
        key_fault: &Option<DbError>,
    ) -> (r: DbResult<()>)
        requires
            old(self)@.pager.sound(),
        ensures
            engine_step(
                r,
                final(self)@,
                old(self)@.seen_row_changed(
                    transaction_id,
                    table@,
                    target.0.deep_view(),
                    target.1,
                    row_id,
                    before.deep_view(),
                    row.deep_view(),
                    snapshot.deep_view(),
                    fault_view(*key_fault),
                ),
            ),
            final(self)@.pager.sound(),
            forall|tables: Tables| #[trigger]
                rows_in(old(self)@, tables) && starts_at(old(self)@.catalog, table@, target.1)
                    && seen_in(
                    tables[table@],
                    row_id.0,
                    transaction_id.0,
                    snapshot.deep_view(),
                ) is Some && r is Ok ==> rows_in(
                    final(self)@,
                    with_versions(
                        tables,
                        table@,
                        row_id.0,
                        with_changed(
                            tables[table@][row_id.0].versions(),
                            row.deep_view(),
                            transaction_id.0,
                            snapshot.deep_view(),
                        )->Some_0,
                    ),
                ),
    {
        let ghost start = self@;
        let change = self.plan_change(table, &target.0, target.1, before, row)?;
        let keys = touched_keys(&change);
        self.check_write_conflicts(transaction_id, table, &keys)?;
        self.check_write(transaction_id, &change.plan, snapshot, key_fault, Some(row_id))?;
        proof {
            lemma_same_trees(start, self@);
        }
        self.make_change(transaction_id, table, &change, row_id, row, snapshot)
    }

    /// Changes a row. Where the transaction sees it otherwise, the table then holds it as changed
    /// by the transaction.
    pub fn update_row(
        &mut self,
        transaction_id: TransactionId,
        schema_name: &str,
        row_id: RowId,
        row: &Row,
        faults: &RowFaults,
    ) -> (r: DbResult<()>)
        requires
            old(self)@.pager.sound(),
        ensures
            engine_step(
                r,
                final(self)@,
                old(self)@.row_updated(
                    transaction_id,
                    schema_name@,
                    row_id,
                    row.deep_view(),
                    faults@,
                ),
            ),
            final(self)@.pager.sound(),
            forall|tables: Tables| #[trigger]
                rows_in(old(self)@, tables) && r is Ok ==> tables.dom().contains(schema_name@)
                    && rows_in(
                    final(self)@,
                    changed_in(
                        tables,
                        schema_name@,
                        row_id.0,
                        row.deep_view(),
                        transaction_id.0,
                        old(self)@.snapshot_of(transaction_id).1->Ok_0,
                    ),
                ),
    {
        let ghost start = self@;
        let target = self.find_update_target(transaction_id, schema_name, row, &faults.values)?;
        let snapshot = self.snapshot_for_transaction(transaction_id)?;
        proof {
            lemma_same_trees(start, self@);
            assert forall|tables: Tables| #[trigger] rows_in(start, tables) implies exists|
                pages: Set<PageId>,
            | #[trigger]
                tree_holds::<u64>(self@.pager, target.1, pages, stored(tables[schema_name@]))
                    && tables.dom().contains(schema_name@) by {
                let pages = lemma_table_held(self@, tables, schema_name@);
                assert(tree_holds::<u64>(
                    self@.pager,
                    target.1,
                    pages,
                    stored(tables[schema_name@]),
                ));
            }
        }
        match visible_row_at_root(&self.pager, transaction_id, &snapshot, target.1, row_id)? {
            None => Ok(()),
            Some(before) => {
                if same_values(before.as_slice(), row.as_slice()) {
                    return Ok(());
                }
                self.change_seen_row(
                    transaction_id,
                    schema_name,
                    &target,
                    row_id,
                    &before,
                    row,
                    &snapshot,
                    &faults.key,
                )
            },
        }
    }
}

} // verus!
