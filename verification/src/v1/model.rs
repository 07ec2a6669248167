//! The model of the engine: what it holds, and what each change does to it.

use vstd::prelude::*;

use crate::common::error::{bare, storage, ErrorCode, ErrorView};
use crate::common::ordset::sorted;
use crate::common::schema::{IndexMeta, IndexView, Schema};
use crate::common::value::{RowId, SqlValue, TransactionId};
use crate::v2::catalog::next_number;
use crate::v2::codec::projected;
use crate::v2::storage_model::{no_table, not_unique, wrong_count, FaultsView};

verus! {

/// An index: its definition, and the rows under each key.
#[verifier::ext_equal]
pub struct IndexStateView {
    pub meta: IndexView,
    pub entries: Map<Seq<SqlValue>, Set<RowId>>,
}

/// What is kept from one transaction to the next.
#[verifier::ext_equal]
pub struct StateView {
    pub schemas: Map<Seq<char>, Schema>,
    pub rows: Map<Seq<char>, Map<RowId, Seq<SqlValue>>>,
    pub indexes: Map<Seq<char>, Map<Seq<char>, IndexStateView>>,
    pub next_row_ids: Map<Seq<char>, u64>,
}

/// A transaction that is under way: its number, and the state before it.
#[verifier::ext_equal]
pub struct ActiveView {
    pub id: TransactionId,
    pub snapshot: StateView,
}

/// The engine.
#[verifier::ext_equal]
pub struct EngineView {
    pub state: StateView,
    pub next_txn_id: u64,
    pub active_txn: Option<ActiveView>,
}

/// The map under a name, or an empty one.
pub open spec fn below<K, V>(m: Map<Seq<char>, Map<K, V>>, table: Seq<char>) -> Map<K, V> {
    if m.dom().contains(table) {
        m[table]
    } else {
        Map::empty()
    }
}

/// The entries of an index with one more row under a key.
pub open spec fn entry_with(
    entries: Map<Seq<SqlValue>, Set<RowId>>,
    key: Seq<SqlValue>,
    id: RowId,
) -> Map<Seq<SqlValue>, Set<RowId>> {
    let before = if entries.dom().contains(key) {
        entries[key]
    } else {
        Set::empty()
    };
    entries.insert(key, before.insert(id))
}

/// The entries of an index without a row under a key; a key without rows is taken out.
pub open spec fn entry_without(
    entries: Map<Seq<SqlValue>, Set<RowId>>,
    key: Seq<SqlValue>,
    id: RowId,
) -> Map<Seq<SqlValue>, Set<RowId>> {
    if entries.dom().contains(key) {
        let left = entries[key].remove(id);
        if left =~= Set::<RowId>::empty() {
            entries.remove(key)
        } else {
            entries.insert(key, left)
        }
    } else {
        entries
    }
}

/// Whether a key that must be the only one of its kind is that of a row already, other than
/// one.
pub open spec fn is_taken(index: IndexStateView, key: Seq<SqlValue>, but: Option<RowId>) -> bool {
    &&& IndexMeta::key_is_unique(index.meta, key)
    &&& index.entries.dom().contains(key)
    &&& exists|id: RowId| #[trigger] index.entries[key].contains(id) && but != Some(id)
}

/// Whether a row can be in all indexes, from one on.
pub open spec fn keys_free_from(
    schema: Schema,
    by_name: Map<Seq<char>, IndexStateView>,
    names: Seq<Seq<char>>,
    row: Seq<SqlValue>,
    but: Option<RowId>,
    i: int,
) -> Result<(), ErrorView>
    decreases names.len() - i,
{
    if i < 0 || i >= names.len() {
        Ok(())
    } else {
        let index = by_name[names[i]];
        match projected(schema, index.meta.columns, row) {
            Err(e) => Err(e),
            Ok(key) => if is_taken(index, key, but) {
                Err(not_unique(index.meta.name))
            } else {
                keys_free_from(schema, by_name, names, row, but, i + 1)
            },
        }
    }
}

/// Whether a row can be in all indexes.
pub open spec fn keys_free(
    schema: Schema,
    by_name: Map<Seq<char>, IndexStateView>,
    row: Seq<SqlValue>,
    but: Option<RowId>,
) -> Result<(), ErrorView> {
    keys_free_from(schema, by_name, sorted::<String>(by_name.dom()), row, but, 0)
}

/// An index with other entries.
pub open spec fn with_entries(
    by_name: Map<Seq<char>, IndexStateView>,
    name: Seq<char>,
    entries: Map<Seq<SqlValue>, Set<RowId>>,
) -> Map<Seq<char>, IndexStateView> {
    by_name.insert(name, IndexStateView { meta: by_name[name].meta, entries })
}

/// The indexes once a row is in them, from one on.
pub open spec fn row_indexed_from(
    schema: Schema,
    by_name: Map<Seq<char>, IndexStateView>,
    names: Seq<Seq<char>>,
    id: RowId,
    row: Seq<SqlValue>,
    i: int,
) -> (Map<Seq<char>, IndexStateView>, Result<(), ErrorView>)
    decreases names.len() - i,
{
    if i < 0 || i >= names.len() {
        (by_name, Ok(()))
    } else {
        let index = by_name[names[i]];
        match projected(schema, index.meta.columns, row) {
            Err(e) => (by_name, Err(e)),
            Ok(key) => if is_taken(index, key, None) {
                (by_name, Err(not_unique(index.meta.name)))
            } else {
                row_indexed_from(
                    schema,
                    with_entries(by_name, names[i], entry_with(index.entries, key, id)),
                    names,
                    id,
                    row,
                    i + 1,
                )
            },
        }
    }
}

/// The indexes once a row is out of them, from one on.
pub open spec fn row_unindexed_from(
    schema: Schema,
    by_name: Map<Seq<char>, IndexStateView>,
    names: Seq<Seq<char>>,
    id: RowId,
    row: Seq<SqlValue>,
    i: int,
) -> (Map<Seq<char>, IndexStateView>, Result<(), ErrorView>)
    decreases names.len() - i,
{
    if i < 0 || i >= names.len() {
        (by_name, Ok(()))
    } else {
        let index = by_name[names[i]];
        match projected(schema, index.meta.columns, row) {
            Err(e) => (by_name, Err(e)),
            Ok(key) => row_unindexed_from(
                schema,
                with_entries(by_name, names[i], entry_without(index.entries, key, id)),
                names,
                id,
                row,
                i + 1,
            ),
        }
    }
}

/// The entries of an index over rows, from one on. With `checked`, a key that must be the
/// only one of its kind may not come twice.
pub open spec fn gathered_from(
    schema: Schema,
    meta: IndexView,
    checked: bool,
    rows: Map<RowId, Seq<SqlValue>>,
    ids: Seq<RowId>,
    entries: Map<Seq<SqlValue>, Set<RowId>>,
    i: int,
) -> (Map<Seq<SqlValue>, Set<RowId>>, Result<(), ErrorView>)
    decreases ids.len() - i,
{
    if i < 0 || i >= ids.len() {
        (entries, Ok(()))
    } else {
        match projected(schema, meta.columns, rows[ids[i]]) {
            Err(e) => (entries, Err(e)),
            Ok(key) => if checked && is_taken(IndexStateView { meta, entries }, key, None) {
                (entries, Err(not_unique(meta.name)))
            } else {
                gathered_from(
                    schema,
                    meta,
                    checked,
                    rows,
                    ids,
                    entry_with(entries, key, ids[i]),
                    i + 1,
                )
            },
        }
    }
}

/// The entries of an index over rows.
pub open spec fn gathered(
    schema: Schema,
    meta: IndexView,
    checked: bool,
    rows: Map<RowId, Seq<SqlValue>>,
) -> (Map<Seq<SqlValue>, Set<RowId>>, Result<(), ErrorView>) {
    gathered_from(schema, meta, checked, rows, sorted::<RowId>(rows.dom()), Map::empty(), 0)
}

/// The indexes once they are made anew over rows, from one on.
pub open spec fn rebuilt_from(
    schema: Schema,
    by_name: Map<Seq<char>, IndexStateView>,
    names: Seq<Seq<char>>,
    rows: Map<RowId, Seq<SqlValue>>,
    i: int,
) -> (Map<Seq<char>, IndexStateView>, Result<(), ErrorView>)
    decreases names.len() - i,
{
    if i < 0 || i >= names.len() {
        (by_name, Ok(()))
    } else {
        let (entries, r) = gathered(schema, by_name[names[i]].meta, false, rows);
        let next = with_entries(by_name, names[i], entries);
        match r {
            Err(e) => (next, Err(e)),
            Ok(_) => rebuilt_from(schema, next, names, rows, i + 1),
        }
    }
}

impl StateView {
    /// The definition of a table.
    pub open spec fn schema_of(self, table: Seq<char>) -> Result<Schema, ErrorView> {
        if self.schemas.dom().contains(table) {
            Ok(self.schemas[table])
        } else {
            Err(no_table(table))
        }
    }

    /// The state with other indexes of a table.
    pub open spec fn with_indexes(self, table: Seq<char>, by_name: Map<Seq<char>, IndexStateView>) -> StateView {
        StateView { indexes: self.indexes.insert(table, by_name), ..self }
    }

    /// The state with a row of a table.
    pub open spec fn with_row(self, table: Seq<char>, id: RowId, row: Seq<SqlValue>) -> StateView {
        StateView {
            rows: self.rows.insert(table, below(self.rows, table).insert(id, row)),
            ..self
        }
    }

    /// The state once a row is in the indexes of its table.
    pub open spec fn row_indexed(self, table: Seq<char>, id: RowId, row: Seq<SqlValue>) -> (
        StateView,
        Result<(), ErrorView>,
    ) {
        match self.schema_of(table) {
            Err(e) => (self, Err(e)),
            Ok(schema) => if !self.indexes.dom().contains(table) {
                (self, Ok(()))
            } else {
                let by_name = self.indexes[table];
                let (after, r) = row_indexed_from(
                    schema,
                    by_name,
                    sorted::<String>(by_name.dom()),
                    id,
                    row,
                    0,
                );
                (self.with_indexes(table, after), r)
            },
        }
    }

    /// The state once a row is out of the indexes of its table.
    pub open spec fn row_unindexed(self, table: Seq<char>, id: RowId, row: Seq<SqlValue>) -> (
        StateView,
        Result<(), ErrorView>,
    ) {
        match self.schema_of(table) {
            Err(e) => (self, Err(e)),
            Ok(schema) => if !self.indexes.dom().contains(table) {
                (self, Ok(()))
            } else {
                let by_name = self.indexes[table];
                let (after, r) = row_unindexed_from(
                    schema,
                    by_name,
                    sorted::<String>(by_name.dom()),
                    id,
                    row,
                    0,
                );
                (self.with_indexes(table, after), r)
            },
        }
    }

    /// The state once a row is inserted, and its number.
    pub open spec fn inserted(self, table: Seq<char>, row: Seq<SqlValue>, faults: FaultsView) -> (
        StateView,
        Result<RowId, ErrorView>,
    ) {
        match self.schema_of(table) {
            Err(e) => (self, Err(e)),
            Ok(schema) => if row.len() != schema.columns@.len() {
                (
                    self,
                    Err(wrong_count("insert into "@, table, schema.columns@.len(), row.len())),
                )
            } else if faults.values is Some {
                (self, Err(faults.values->0))
            } else if faults.key is Some {
                (self, Err(faults.key->0))
            } else {
                match keys_free(schema, below(self.indexes, table), row, None) {
                    Err(e) => (self, Err(e)),
                    Ok(_) => self.row_placed(table, row),
                }
            },
        }
    }

    /// The state once a row that is in order is placed, and its number.
    pub open spec fn row_placed(self, table: Seq<char>, row: Seq<SqlValue>) -> (
        StateView,
        Result<RowId, ErrorView>,
    ) {
        let id = next_number(self.next_row_ids, table);
        if id == u64::MAX {
            (self, Err(bare(ErrorCode::RowNumbersUsedUp)))
        } else {
            let numbered = StateView {
                next_row_ids: self.next_row_ids.insert(table, (id + 1) as u64),
                ..self
            };
            match numbered.with_row(table, RowId(id), row).row_indexed(table, RowId(id), row) {
                (after, Err(e)) => (after, Err(e)),
                (after, Ok(_)) => (after, Ok(RowId(id))),
            }
        }
    }

    /// The state once a row is deleted.
    pub open spec fn deleted(self, table: Seq<char>, id: RowId) -> (StateView, Result<(), ErrorView>) {
        let rows = below(self.rows, table);
        if !rows.dom().contains(id) {
            (self, Ok(()))
        } else {
            StateView { rows: self.rows.insert(table, rows.remove(id)), ..self }.row_unindexed(
                table,
                id,
                rows[id],
            )
        }
    }

    /// The state once a row has other values.
    pub open spec fn updated(
        self,
        table: Seq<char>,
        id: RowId,
        row: Seq<SqlValue>,
        faults: FaultsView,
    ) -> (StateView, Result<(), ErrorView>) {
        let rows = below(self.rows, table);
        match self.schema_of(table) {
            Err(e) => (self, Err(e)),
            Ok(schema) => if row.len() != schema.columns@.len() {
                (self, Err(wrong_count("update "@, table, schema.columns@.len(), row.len())))
            } else if !rows.dom().contains(id) || rows[id] == row {
                (self, Ok(()))
            } else if faults.values is Some {
                (self, Err(faults.values->0))
            } else if faults.key is Some {
                (self, Err(faults.key->0))
            } else {
                match keys_free(schema, below(self.indexes, table), row, Some(id)) {
                    Err(e) => (self, Err(e)),
                    Ok(_) => self.row_changed(table, id, rows[id], row),
                }
            },
        }
    }

    /// The state once a row whose new values are in order has them.
    pub open spec fn row_changed(
        self,
        table: Seq<char>,
        id: RowId,
        before: Seq<SqlValue>,
        row: Seq<SqlValue>,
    ) -> (StateView, Result<(), ErrorView>) {
        match self.row_unindexed(table, id, before) {
            (a, Err(e)) => (a, Err(e)),
            (a, Ok(_)) => a.with_row(table, id, row).row_indexed(table, id, row),
        }
    }

    /// The state once an index is made.
    pub open spec fn index_made(self, table: Seq<char>, index: IndexView) -> (
        StateView,
        Result<(), ErrorView>,
    ) {
        let by_name = below(self.indexes, table);
        match self.schema_of(table) {
            Err(e) => (self, Err(e)),
            Ok(schema) => if by_name.dom().contains(index.name) {
                (self, Err(storage("index already exists: "@ + index.name)))
            } else if index.columns.len() == 0 {
                (self, Err(storage("index "@ + index.name + " has no columns"@)))
            } else {
                match gathered(schema, index, true, below(self.rows, table)) {
                    (_, Err(e)) => (self, Err(e)),
                    (entries, Ok(_)) => (
                        self.with_indexes(
                            table,
                            by_name.insert(index.name, IndexStateView { meta: index, entries }),
                        ),
                        Ok(()),
                    ),
                }
            },
        }
    }

    /// The state once an index is dropped.
    pub open spec fn index_dropped(self, table: Seq<char>, index: Seq<char>) -> (
        StateView,
        Result<(), ErrorView>,
    ) {
        let by_name = below(self.indexes, table);
        if by_name.dom().contains(index) {
            (self.with_indexes(table, by_name.remove(index)), Ok(()))
        } else {
            (self, Err(crate::v2::storage_model::no_index(index, table)))
        }
    }
}

impl EngineView {
    /// What keeps a transaction from going on, if anything.
    pub open spec fn idle(self, txn: TransactionId) -> Option<ErrorView> {
        match self.active_txn {
            None => Some(bare(ErrorCode::NoTxnActive)),
            Some(a) => if a.id == txn {
                None
            } else {
                Some(bare(ErrorCode::OtherTxnActive { txn: txn.0, active: a.id.0 }))
            },
        }
    }

    /// What keeps a planner from seeing the tables, if anything.
    pub open spec fn unplannable(self, txn: Option<TransactionId>) -> Option<ErrorView> {
        match (txn, self.active_txn) {
            (Some(id), Some(_)) => self.idle(id),
            (Some(id), None) => Some(bare(ErrorCode::TxnNotActive(id.0))),
            (None, Some(_)) => Some(bare(ErrorCode::SnapshotNeedsTxn)),
            (None, None) => None,
        }
    }

    /// The engine with another state.
    pub open spec fn with_state(self, state: StateView) -> EngineView {
        EngineView { state, ..self }
    }

    /// The engine once a transaction has changed the state.
    pub open spec fn changed<T>(
        self,
        txn: TransactionId,
        step: (StateView, Result<T, ErrorView>),
    ) -> (EngineView, Result<T, ErrorView>) {
        match self.idle(txn) {
            Some(e) => (self, Err(e)),
            None => (self.with_state(step.0), step.1),
        }
    }

    /// The number that the next transaction will have.
    pub open spec fn next_txn(self) -> Result<TransactionId, ErrorView> {
        match self.active_txn {
            Some(a) => Err(bare(ErrorCode::TxnAlreadyActive(a.id.0))),
            None => if self.next_txn_id == u64::MAX {
                Err(bare(ErrorCode::TxnNumbersUsedUp))
            } else {
                Ok(TransactionId(self.next_txn_id))
            },
        }
    }

    /// The engine once a transaction has begun.
    pub open spec fn begun(self) -> (EngineView, Result<TransactionId, ErrorView>) {
        match self.next_txn() {
            Err(e) => (self, Err(e)),
            Ok(id) => (
                EngineView {
                    next_txn_id: (self.next_txn_id + 1) as u64,
                    active_txn: Some(ActiveView { id, snapshot: self.state }),
                    ..self
                },
                Ok(id),
            ),
        }
    }

    /// The engine once a transaction is committed.
    pub open spec fn committed(self, txn: TransactionId) -> (EngineView, Result<(), ErrorView>) {
        match self.idle(txn) {
            Some(e) => (self, Err(e)),
            None => (EngineView { active_txn: None, ..self }, Ok(())),
        }
    }

    /// The engine once a transaction is rolled back.
    pub open spec fn rolled_back(self, txn: TransactionId) -> (EngineView, Result<(), ErrorView>) {
        match self.active_txn {
            None => (self, Err(bare(ErrorCode::NoTxnActive))),
            Some(a) => if a.id == txn {
                (EngineView { state: a.snapshot, active_txn: None, ..self }, Ok(()))
            } else {
                (self, Err(bare(ErrorCode::TxnNotActive(txn.0))))
            },
        }
    }
}

/// Whatever a transaction changes in between, rolling it back leaves the state as it was when
/// it began, and no transaction under way.
pub proof fn law_rollback_restores_state(m: EngineView, changed: StateView)
    requires
        m.begun().1 is Ok,
    ensures
        ({
            let (a, id) = m.begun();
            let (b, r) = a.with_state(changed).rolled_back(id->Ok_0);
            &&& r is Ok
            &&& b.state == m.state
            &&& b.active_txn is None
        }),
{
}

/// A committed transaction leaves its state behind, and the next one begins with a higher
/// number.
pub proof fn law_commit_keeps_state(m: EngineView, changed: StateView)
    requires
        m.begun().1 is Ok,
    ensures
        ({
            let (a, id) = m.begun();
            let (b, r) = a.with_state(changed).committed(id->Ok_0);
            &&& r is Ok
            &&& b.state == changed
            &&& b.active_txn is None
            &&& b.begun().1 is Ok ==> b.begun().1->Ok_0.0 > id->Ok_0.0
        }),
{
}

/// Only one transaction is under way at a time.
pub proof fn law_transactions_do_not_overlap(m: EngineView)
    requires
        m.begun().1 is Ok,
    ensures
        m.begun().0.begun() == (
            m.begun().0,
            Err::<TransactionId, ErrorView>(
                bare(ErrorCode::TxnAlreadyActive(m.begun().1->Ok_0.0)),
            ),
        ),
{
}

/// A change that a transaction other than the one under way asks for is refused, and nothing
/// changes.
pub proof fn law_strangers_change_nothing(
    m: EngineView,
    txn: TransactionId,
    step: (StateView, Result<(), ErrorView>),
)
    requires
        m.active_txn is None || m.active_txn->0.id != txn,
    ensures
        m.changed(txn, step).0 == m,
        m.changed(txn, step).1 is Err,
        m.committed(txn).0 == m,
        m.committed(txn).1 is Err,
        m.rolled_back(txn).0 == m,
        m.rolled_back(txn).1 is Err,
{
}

} // verus!
