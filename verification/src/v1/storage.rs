//! Transactions, rows and indexes.

use vstd::prelude::*;

use crate::common::error::{DbError, DbResult, ErrorCode, ErrorView};
use crate::common::ordmap::{Duplicate, OrdMap};
use crate::common::ordset::{lemma_is_sorted, sorted};
use crate::common::schema::{IndexMeta, IndexView};
use crate::common::value::{same_values, Row, RowId, SqlValue, TransactionId};
use crate::v1::indexes::{
    add_row_to_indexes, gather_entries, outcome, remove_row_from_indexes,
    validate_unique_index_constraints,
};
use crate::v1::model::{below, EngineView, IndexStateView, StateView};
use crate::v1::state::{ActiveTransaction, FileStorage, IndexState, PersistedState};
use crate::v2::catalog::SharedSchema;
use crate::v2::planning::{PlanningContext, PlanningView};
use crate::v2::storage::{fail_no_index, fail_no_table, fail_wrong_count, RowFaults, StoredRow};
use crate::v2::storage_model::RowView;

verus! {

/// Whether an outcome and the engine after it are those of a model.
pub open spec fn engine_step<T>(
    r: DbResult<T>,
    after: EngineView,
    model: (EngineView, Result<T, ErrorView>),
) -> bool {
    &&& after == model.0
    &&& match r {
        Ok(v) => model.1 == Ok::<T, ErrorView>(v),
        Err(e) => model.1 == Err::<T, ErrorView>(e@),
    }
}

/// Whether an outcome and the state after it are those of a model.
pub open spec fn state_step<T>(
    r: DbResult<T>,
    after: StateView,
    model: (StateView, Result<T, ErrorView>),
) -> bool {
    &&& after == model.0
    &&& match r {
        Ok(v) => model.1 == Ok::<T, ErrorView>(v),
        Err(e) => model.1 == Err::<T, ErrorView>(e@),
    }
}

// ---------------------------------------------------------------------------
// The state

impl PersistedState {
    /// The definition of a table.
    pub fn require_schema(&self, schema_name: &str) -> (r: DbResult<SharedSchema>)
        ensures
            match r {
                Ok(s) => self@.schema_of(schema_name@) == Ok::<_, ErrorView>(s.deep_view()),
                Err(e) => self@.schema_of(schema_name@) == Err::<
                    crate::common::schema::Schema,
                    ErrorView,
                >(e@),
            },
    {
        match self.schemas.get(&schema_name.to_owned()) {
            Some(s) => Ok(s.duplicate()),
            None => Err(fail_no_table(schema_name)),
        }
    }

    fn add_to_indexes(&mut self, schema_name: &str, row_id: RowId, row: &Row) -> (r: DbResult<()>)
        ensures
            state_step(
                r,
                final(self)@,
                old(self)@.row_indexed(schema_name@, row_id, row.deep_view()),
            ),
    {
        let ghost start = self@;
        let schema = self.require_schema(schema_name)?;
        match self.indexes.get_mut(&schema_name.to_owned()) {
            Some(by_name) => {
                let r = add_row_to_indexes(&schema.schema, by_name, row_id, row);
                assert(self@ =~= start.row_indexed(schema_name@, row_id, row.deep_view()).0);
                match r {
                    Ok(_) => Ok(()),
                    Err(e) => Err(e),
                }
            },
            None => Ok(()),
        }
    }

    fn remove_from_indexes(&mut self, schema_name: &str, row_id: RowId, row: &Row) -> (r: DbResult<
        (),
    >)
        ensures
            state_step(
                r,
                final(self)@,
                old(self)@.row_unindexed(schema_name@, row_id, row.deep_view()),
            ),
    {
        let ghost start = self@;
        let schema = self.require_schema(schema_name)?;
        match self.indexes.get_mut(&schema_name.to_owned()) {
            Some(by_name) => {
                let r = remove_row_from_indexes(&schema.schema, by_name, row_id, row);
                assert(self@ =~= start.row_unindexed(schema_name@, row_id, row.deep_view()).0);
                match r {
                    Ok(_) => Ok(()),
                    Err(e) => Err(e),
                }
            },
            None => Ok(()),
        }
    }

    fn check_keys(&self, schema: &SharedSchema, schema_name: &str, row: &Row, but: Option<RowId>) -> (r:
        DbResult<()>)
        ensures
            outcome(
                r,
                crate::v1::model::keys_free(
                    schema.deep_view(),
                    below(self@.indexes, schema_name@),
                    row.deep_view(),
                    but,
                ),
            ),
    {
        match self.indexes.get(&schema_name.to_owned()) {
            Some(by_name) => validate_unique_index_constraints(&schema.schema, by_name, row, but),
            None => {
                let none: OrdMap<String, IndexState> = OrdMap::new();
                validate_unique_index_constraints(&schema.schema, &none, row, but)
            },
        }
    }

    fn put_row(&mut self, schema_name: &str, row_id: RowId, row: Row)
        ensures
            final(self)@ == old(self)@.with_row(schema_name@, row_id, row.deep_view()),
    {
        let ghost start = self@;
        let ghost values = row.deep_view();
        let table: String = schema_name.to_owned();
        let mut rows: OrdMap<RowId, Row> = match self.rows.remove(&table) {
            Some(m) => m,
            None => OrdMap::new(),
        };
        rows.insert(row_id, row);
        self.rows.insert(table, rows);
        assert(self@.rows =~= start.with_row(schema_name@, row_id, values).rows);
    }

    fn place_row(&mut self, schema_name: &str, row: &Row) -> (r: DbResult<RowId>)
        ensures
            state_step(r, final(self)@, old(self)@.row_placed(schema_name@, row.deep_view())),
    {
        let table: String = schema_name.to_owned();
        let next: u64 = match self.next_row_ids.get(&table) {
            Some(n) => *n,
            None => 1,
        };
        if next == u64::MAX {
            return Err(DbError::bare(ErrorCode::RowNumbersUsedUp));
        }
        self.next_row_ids.insert(table, next + 1);
        self.put_row(schema_name, RowId(next), row.duplicate());
        self.add_to_indexes(schema_name, RowId(next), row)?;
        Ok(RowId(next))
    }

    fn insert_row(&mut self, schema_name: &str, row: &Row, faults: &RowFaults) -> (r: DbResult<RowId>)
        ensures
            state_step(
                r,
                final(self)@,
                old(self)@.inserted(schema_name@, row.deep_view(), faults@),
            ),
    {
        let schema = self.require_schema(schema_name)?;
        if row.len() != schema.schema.columns.len() {
            return Err(
                fail_wrong_count(
                    "insert into ",
                    schema_name,
                    schema.schema.columns.len(),
                    row.len(),
                ),
            );
        }
        match &faults.values {
            Some(e) => {
                return Err(e.copy());
            },
            None => {},
        }
        match &faults.key {
            Some(e) => {
                return Err(e.copy());
            },
            None => {},
        }
        self.check_keys(&schema, schema_name, row, None)?;
        self.place_row(schema_name, row)
    }

    fn find_row(&self, schema_name: &str, row_id: RowId) -> (r: Option<Row>)
        ensures
            match r {
                Some(row) => below(self@.rows, schema_name@).dom().contains(row_id)
                    && row.deep_view() == below(self@.rows, schema_name@)[row_id],
                None => !below(self@.rows, schema_name@).dom().contains(row_id),
            },
    {
        match self.rows.get(&schema_name.to_owned()) {
            Some(rows) => match rows.get(&row_id) {
                Some(row) => Some(row.duplicate()),
                None => None,
            },
            None => None,
        }
    }

    fn delete_row(&mut self, schema_name: &str, row_id: RowId) -> (r: DbResult<()>)
        ensures
            state_step(r, final(self)@, old(self)@.deleted(schema_name@, row_id)),
    {
        let ghost start = self@;
        let row = match self.find_row(schema_name, row_id) {
            Some(row) => row,
            None => {
                return Ok(());
            },
        };
        match self.rows.get_mut(&schema_name.to_owned()) {
            Some(rows) => {
                rows.remove(&row_id);
            },
            None => {},
        }
        assert(self@ =~= (StateView {
            rows: start.rows.insert(schema_name@, below(start.rows, schema_name@).remove(row_id)),
            ..start
        }));
        self.remove_from_indexes(schema_name, row_id, &row)
    }

    fn update_row(&mut self, schema_name: &str, row_id: RowId, row: &Row, faults: &RowFaults) -> (r:
        DbResult<()>)
        ensures
            state_step(
                r,
                final(self)@,
                old(self)@.updated(schema_name@, row_id, row.deep_view(), faults@),
            ),
    {
        let schema = self.require_schema(schema_name)?;
        if row.len() != schema.schema.columns.len() {
            return Err(
                fail_wrong_count("update ", schema_name, schema.schema.columns.len(), row.len()),
            );
        }
        let before = match self.find_row(schema_name, row_id) {
            Some(row) => row,
            None => {
                return Ok(());
            },
        };
        if same_values(before.as_slice(), row.as_slice()) {
            return Ok(());
        }
        match &faults.values {
            Some(e) => {
                return Err(e.copy());
            },
            None => {},
        }
        match &faults.key {
            Some(e) => {
                return Err(e.copy());
            },
            None => {},
        }
        self.check_keys(&schema, schema_name, row, Some(row_id))?;
        self.remove_from_indexes(schema_name, row_id, &before)?;
        self.put_row(schema_name, row_id, row.duplicate());
        self.add_to_indexes(schema_name, row_id, row)
    }

    fn create_index(&mut self, schema_name: &str, index: IndexMeta) -> (r: DbResult<()>)
        ensures
            state_step(r, final(self)@, old(self)@.index_made(schema_name@, index@)),
    {
        let ghost start = self@;
        let schema = self.require_schema(schema_name)?;
        let table: String = schema_name.to_owned();
        let known = match self.indexes.get(&table) {
            Some(by_name) => by_name.contains_key(&index.name),
            None => false,
        };
        if known {
            let mut message = "index already exists: ".to_owned();
            message.append(index.name.as_str());
            return Err(DbError::storage(message.as_str()));
        }
        if index.columns.len() == 0 {
            let mut message = "index ".to_owned();
            message.append(index.name.as_str());
            message.append(" has no columns");
            return Err(DbError::storage(message.as_str()));
        }
        let none: OrdMap<RowId, Row> = OrdMap::new();
        let rows: &OrdMap<RowId, Row> = match self.rows.get(&table) {
            Some(rows) => rows,
            None => &none,
        };
        let (entries, r) = gather_entries(&schema.schema, &index, true, rows);
        match r {
            Ok(_) => {},
            Err(e) => {
                return Err(e);
            },
        }
        let name: String = index.name.clone();
        crate::common::nested::put_under(
            &mut self.indexes,
            &table,
            name,
            IndexState { meta: index, entries },
        );
        assert(self@ =~= start.index_made(schema_name@, index@).0);
        Ok(())
    }

    fn drop_index(&mut self, schema_name: &str, index_name: &str) -> (r: DbResult<()>)
        ensures
            state_step(r, final(self)@, old(self)@.index_dropped(schema_name@, index_name@)),
    {
        let ghost start = self@;
        let table: String = schema_name.to_owned();
        let index: String = index_name.to_owned();
        let known = match self.indexes.get(&table) {
            Some(by_name) => by_name.contains_key(&index),
            None => false,
        };
        if !known {
            return Err(fail_no_index(index_name, schema_name));
        }
        match self.indexes.get_mut(&table) {
            Some(by_name) => {
                by_name.remove(&index);
            },
            None => {},
        }
        assert(self@ =~= start.index_dropped(schema_name@, index_name@).0);
        Ok(())
    }
}

// ---------------------------------------------------------------------------
// The engine

/// The rows of a table, in the order of their numbers.
pub open spec fn row_list(rows: Map<RowId, Seq<SqlValue>>) -> Seq<RowView> {
    sorted::<RowId>(rows.dom()).map_values(|id: RowId| RowView { id, row: rows[id] })
}

/// The indexes of a table, in the order of their names.
pub open spec fn index_list(by_name: Map<Seq<char>, IndexStateView>) -> Seq<IndexView> {
    sorted::<String>(by_name.dom()).map_values(|n: Seq<char>| by_name[n].meta)
}

impl FileStorage {
    /// Opens an engine over the state that is stored.
    pub fn open(state: PersistedState) -> (r: FileStorage)
        ensures
            r@ == (EngineView { state: state@, next_txn_id: 1, active_txn: None }),
    {
        FileStorage { state, next_txn_id: 1, active_txn: None }
    }

    /// Checks that a transaction is the one under way.
    pub fn validate_transaction(&self, transaction_id: TransactionId) -> (r: DbResult<()>)
        ensures
            match r {
                Ok(_) => self@.idle(transaction_id) is None,
                Err(e) => self@.idle(transaction_id) == Some(e@),
            },
    {
        match &self.active_txn {
            Some(active) => {
                if active.id == transaction_id {
                    Ok(())
                } else {
                    Err(
                        DbError::bare(
                            ErrorCode::OtherTxnActive {
                                txn: transaction_id.0,
                                active: active.id.0,
                            },
                        ),
                    )
                }
            },
            None => Err(DbError::bare(ErrorCode::NoTxnActive)),
        }
    }

    /// Checks that a planner may see the tables: for the transaction under way, or for none
    /// while there is none.
    pub fn validate_snapshot_transaction(&self, transaction_id: Option<TransactionId>) -> (r: DbResult<
        (),
    >)
        ensures
            match r {
                Ok(_) => self@.unplannable(transaction_id) is None,
                Err(e) => self@.unplannable(transaction_id) == Some(e@),
            },
    {
        match transaction_id {
            Some(id) => {
                if self.active_txn.is_none() {
                    Err(DbError::bare(ErrorCode::TxnNotActive(id.0)))
                } else {
                    self.validate_transaction(id)
                }
            },
            None => {
                if self.active_txn.is_none() {
                    Ok(())
                } else {
                    Err(DbError::bare(ErrorCode::SnapshotNeedsTxn))
                }
            },
        }
    }

    /// The number that the next transaction will have.
    pub fn next_transaction(&self) -> (r: DbResult<TransactionId>)
        ensures
            match r {
                Ok(id) => self@.next_txn() == Ok::<TransactionId, ErrorView>(id),
                Err(e) => self@.next_txn() == Err::<TransactionId, ErrorView>(e@),
            },
    {
        match &self.active_txn {
            Some(active) => Err(DbError::bare(ErrorCode::TxnAlreadyActive(active.id.0))),
            None => {
                if self.next_txn_id == u64::MAX {
                    Err(DbError::bare(ErrorCode::TxnNumbersUsedUp))
                } else {
                    Ok(TransactionId(self.next_txn_id))
                }
            },
        }
    }

    /// Begins a transaction.
    pub fn begin(&mut self) -> (r: DbResult<TransactionId>)
        ensures
            engine_step(r, final(self)@, old(self)@.begun()),
    {
        let id = self.next_transaction()?;
        self.next_txn_id = self.next_txn_id + 1;
        self.active_txn = Some(ActiveTransaction { id, snapshot: self.state.duplicate() });
        Ok(id)
    }

    /// Commits a transaction whose state is stored.
    pub fn commit(&mut self, transaction_id: TransactionId) -> (r: DbResult<()>)
        ensures
            engine_step(r, final(self)@, old(self)@.committed(transaction_id)),
    {
        self.validate_transaction(transaction_id)?;
        self.active_txn = None;
        Ok(())
    }

    /// Rolls a transaction back.
    pub fn rollback(&mut self, transaction_id: TransactionId) -> (r: DbResult<()>)
        ensures
            engine_step(r, final(self)@, old(self)@.rolled_back(transaction_id)),
    {
        match self.active_txn.take() {
            None => Err(DbError::bare(ErrorCode::NoTxnActive)),
            Some(active) => {
                if active.id != transaction_id {
                    self.active_txn = Some(active);
                    return Err(DbError::bare(ErrorCode::TxnNotActive(transaction_id.0)));
                }
                self.state = active.snapshot;
                Ok(())
            },
        }
    }

    /// Inserts a row. `faults` holds the outcomes of checking its values, and its primary key
    /// against the rows that are there.
    pub fn insert_row(
        &mut self,
        transaction_id: TransactionId,
        schema_name: &str,
        row: &Row,
        faults: &RowFaults,
    ) -> (r: DbResult<RowId>)
        ensures
            engine_step(
                r,
                final(self)@,
                old(self)@.changed(
                    transaction_id,
                    old(self)@.state.inserted(schema_name@, row.deep_view(), faults@),
                ),
            ),
    {
        self.validate_transaction(transaction_id)?;
        self.state.insert_row(schema_name, row, faults)
    }

    /// A row of a table, where there is one of that number.
    pub fn get_row(&self, transaction_id: TransactionId, schema_name: &str, row_id: RowId) -> (r:
        DbResult<Option<Row>>)
        ensures
            match r {
                Ok(Some(row)) => {
                    &&& self@.idle(transaction_id) is None
                    &&& below(self@.state.rows, schema_name@).dom().contains(row_id)
                    &&& below(self@.state.rows, schema_name@)[row_id] == row.deep_view()
                },
                Ok(None) => self@.idle(transaction_id) is None && !below(
                    self@.state.rows,
                    schema_name@,
                ).dom().contains(row_id),
                Err(e) => self@.idle(transaction_id) == Some(e@),
            },
    {
        self.validate_transaction(transaction_id)?;
        Ok(self.state.find_row(schema_name, row_id))
    }

    /// The rows of a table, in the order of their numbers.
    pub fn scan_rows(&self, transaction_id: TransactionId, schema_name: &str) -> (r: DbResult<
        Vec<StoredRow>,
    >)
        ensures
            match r {
                Ok(list) => self@.idle(transaction_id) is None && list.deep_view() == row_list(
                    below(self@.state.rows, schema_name@),
                ),
                Err(e) => self@.idle(transaction_id) == Some(e@),
            },
    {
        self.validate_transaction(transaction_id)?;
        let none: OrdMap<RowId, Row> = OrdMap::new();
        let rows: &OrdMap<RowId, Row> = match self.state.rows.get(&schema_name.to_owned()) {
            Some(rows) => rows,
            None => &none,
        };
        Ok(copy_rows(rows))
    }

    /// Deletes a row, where there is one of that number.
    pub fn delete_row(&mut self, transaction_id: TransactionId, schema_name: &str, row_id: RowId) -> (r:
        DbResult<()>)
        ensures
            engine_step(
                r,
                final(self)@,
                old(self)@.changed(
                    transaction_id,
                    old(self)@.state.deleted(schema_name@, row_id),
                ),
            ),
    {
        self.validate_transaction(transaction_id)?;
        self.state.delete_row(schema_name, row_id)
    }

    /// Gives a row other values. `faults` holds the outcomes of checking them, and the primary
    /// key against the other rows.
    pub fn update_row(
        &mut self,
        transaction_id: TransactionId,
        schema_name: &str,
        row_id: RowId,
        row: &Row,
        faults: &RowFaults,
    ) -> (r: DbResult<()>)
        ensures
            engine_step(
                r,
                final(self)@,
                old(self)@.changed(
                    transaction_id,
                    old(self)@.state.updated(schema_name@, row_id, row.deep_view(), faults@),
                ),
            ),
    {
        self.validate_transaction(transaction_id)?;
        self.state.update_row(schema_name, row_id, row, faults)
    }

    /// Makes an index of a table.
    pub fn create_index(&mut self, transaction_id: TransactionId, schema_name: &str, index: IndexMeta) -> (r:
        DbResult<()>)
        ensures
            engine_step(
                r,
                final(self)@,
                old(self)@.changed(
                    transaction_id,
                    old(self)@.state.index_made(schema_name@, index@),
                ),
            ),
    {
        self.validate_transaction(transaction_id)?;
        self.state.create_index(schema_name, index)
    }

    /// Drops an index of a table.
    pub fn drop_index(&mut self, transaction_id: TransactionId, schema_name: &str, index_name: &str) -> (r:
        DbResult<()>)
        ensures
            engine_step(
                r,
                final(self)@,
                old(self)@.changed(
                    transaction_id,
                    old(self)@.state.index_dropped(schema_name@, index_name@),
                ),
            ),
    {
        self.validate_transaction(transaction_id)?;
        self.state.drop_index(schema_name, index_name)
    }

    /// An index of a table, where there is one of that name.
    pub fn get_index(&self, transaction_id: TransactionId, schema_name: &str, index_name: &str) -> (r:
        DbResult<Option<IndexMeta>>)
        ensures
            match r {
                Ok(Some(index)) => {
                    &&& self@.idle(transaction_id) is None
                    &&& below(self@.state.indexes, schema_name@).dom().contains(index_name@)
                    &&& below(self@.state.indexes, schema_name@)[index_name@].meta == index@
                },
                Ok(None) => self@.idle(transaction_id) is None && !below(
                    self@.state.indexes,
                    schema_name@,
                ).dom().contains(index_name@),
                Err(e) => self@.idle(transaction_id) == Some(e@),
            },
    {
        self.validate_transaction(transaction_id)?;
        match self.state.indexes.get(&schema_name.to_owned()) {
            None => Ok(None),
            Some(by_name) => match by_name.get(&index_name.to_owned()) {
                None => Ok(None),
                Some(index) => Ok(Some(index.meta.duplicate())),
            },
        }
    }

    /// The indexes of a table, in the order of their names.
    pub fn list_indexes(&self, transaction_id: TransactionId, schema_name: &str) -> (r: DbResult<
        Vec<IndexMeta>,
    >)
        ensures
            match r {
                Ok(list) => self@.idle(transaction_id) is None && list.deep_view() == index_list(
                    below(self@.state.indexes, schema_name@),
                ),
                Err(e) => self@.idle(transaction_id) == Some(e@),
            },
    {
        self.validate_transaction(transaction_id)?;
        let none: OrdMap<String, IndexState> = OrdMap::new();
        let by_name: &OrdMap<String, IndexState> = match self.state.indexes.get(
            &schema_name.to_owned(),
        ) {
            Some(m) => m,
            None => &none,
        };
        Ok(copy_metas(by_name))
    }

    /// What a planner is told of the tables and their indexes. While a transaction is open, it
    /// alone may ask.
    pub fn planning_context(&self, transaction_id: Option<TransactionId>) -> (r: DbResult<
        PlanningContext,
    >)
        ensures
            match r {
                Ok(p) => self@.unplannable(transaction_id) is None && p@ == (PlanningView {
                    schemas: self@.state.schemas,
                    indexes: self@.state.indexes.map_values(
                        |by_name: Map<Seq<char>, IndexStateView>| index_list(by_name),
                    ),
                }),
                Err(e) => self@.unplannable(transaction_id) == Some(e@),
            },
    {
        self.validate_snapshot_transaction(transaction_id)?;
        let total: usize = self.state.indexes.len();
        let ghost names = self.state.indexes.keys();
        let mut indexes: OrdMap<String, Vec<IndexMeta>> = OrdMap::new();
        let mut i: usize = 0;
        while i < total
            invariant
                i <= total,
                total == names.len(),
                names == self.state.indexes.keys(),
                forall|n: Seq<char>| #[trigger]
                    indexes@.dom().contains(n) <==> names.take(i as int).contains(n),
                forall|n: Seq<char>| #[trigger]
                    indexes@.dom().contains(n) ==> indexes@[n] == index_list(
                        self.state.indexes@[n],
                    ),
            decreases total - i,
        {
            let metas = copy_metas(self.state.indexes.value_at(i));
            indexes.insert(self.state.indexes.key_at(i).clone(), metas);
            proof {
                let shorter = names.take(i as int);
                let longer = names.take(i + 1);
                assert forall|n: Seq<char>| #[trigger] longer.contains(n) <==> shorter.contains(n)
                    || n == names[i as int] by {
                    if shorter.contains(n) {
                        assert(longer[shorter.index_of(n)] == n);
                    }
                    if n == names[i as int] {
                        assert(longer[i as int] == n);
                    }
                    if longer.contains(n) && n != names[i as int] {
                        assert(shorter[longer.index_of(n)] == n);
                    }
                }
            }
            i = i + 1;
        }
        proof {
            assert(names.take(total as int) =~= names);
            assert(names.to_set() =~= self.state.indexes@.dom());
            assert(indexes@ =~= self@.state.indexes.map_values(
                |by_name: Map<Seq<char>, IndexStateView>| index_list(by_name),
            ));
        }
        Ok(PlanningContext { schemas: self.state.schemas.duplicate(), indexes })
    }
}

/// Copies what defines indexes into a list, in the order of their names.
pub fn copy_metas(by_name: &OrdMap<String, IndexState>) -> (r: Vec<IndexMeta>)
    ensures
        r.deep_view() == index_list(by_name@),
{
    let total: usize = by_name.len();
    let ghost names = by_name.keys();
    let mut out: Vec<IndexMeta> = Vec::new();
    let mut i: usize = 0;
    while i < total
        invariant
            i <= total,
            total == names.len(),
            names == by_name.keys(),
            out@.len() == i,
            forall|k: int| 0 <= k < i ==> (#[trigger] out@[k])@ == by_name@[names[k]].meta,
        decreases total - i,
    {
        let index: &IndexState = by_name.value_at(i);
        out.push(index.meta.duplicate());
        i = i + 1;
    }
    proof {
        assert(names.to_set() =~= by_name@.dom());
        lemma_is_sorted::<String>(names, by_name@.dom());
        assert(out.deep_view() =~= index_list(by_name@));
    }
    out
}

/// Copies rows into a list, in the order of their numbers.
pub fn copy_rows(rows: &OrdMap<RowId, Row>) -> (r: Vec<StoredRow>)
    ensures
        r.deep_view() == row_list(rows@),
{
    let total: usize = rows.len();
    let ghost ids = rows.keys();
    let mut out: Vec<StoredRow> = Vec::new();
    let mut i: usize = 0;
    while i < total
        invariant
            i <= total,
            total == ids.len(),
            ids == rows.keys(),
            out@.len() == i,
            forall|k: int|
                0 <= k < i ==> (#[trigger] out@[k]).deep_view() == (RowView {
                    id: ids[k],
                    row: rows@[ids[k]],
                }),
        decreases total - i,
    {
        let row: &Row = rows.value_at(i);
        out.push(StoredRow { id: *rows.key_at(i), row: row.duplicate() });
        i = i + 1;
    }
    proof {
        assert(ids.to_set() =~= rows@.dom());
        lemma_is_sorted::<RowId>(ids, rows@.dom());
        assert(out.deep_view() =~= row_list(rows@));
    }
    out
}

} // verus!
