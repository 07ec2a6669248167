//! Definitions of tables: making, dropping and changing them.

use vstd::prelude::*;

use crate::common::error::{storage, DbError, DbResult, ErrorView};
use crate::common::ordmap::{Duplicate, OrdMap};
use crate::common::ordset::{lemma_is_sorted, sorted};
use crate::common::schema::Schema;
use crate::common::value::{DbValue, Row, RowId, SqlValue, TransactionId};
use crate::v1::indexes::rebuild_indexes_for_schema;
use crate::v1::model::{below, rebuilt_from, IndexStateView, StateView};
use crate::v1::state::{key_list, FileStorage, IndexState, PersistedState};
use crate::v1::storage::{engine_step, state_step};
use crate::v2::catalog::SharedSchema;
use crate::v2::codec::no_column;
use crate::v2::schema_store::{
    column_exists, fail_column_exists, fault_views, index_renamed, moved, rename_columns,
    rename_key, rewrite_schemas, rewritten,
};
use crate::v2::storage::{fail_no_table, fault_view};
use crate::v2::storage_model::no_table;

verus! {

/// The first fault of a list, if there is one.
pub open spec fn first_of(faults: Seq<Option<ErrorView>>, total: nat, i: int) -> Option<ErrorView>
    decreases total - i,
{
    if i < 0 || i >= total {
        None
    } else if i < faults.len() && faults[i] is Some {
        faults[i]
    } else {
        first_of(faults, total, i + 1)
    }
}

/// Whether every row has a value at a position.
pub open spec fn rows_reach(rows: Map<RowId, Seq<SqlValue>>, position: int) -> bool {
    forall|id: RowId| #[trigger] rows.dom().contains(id) ==> position < rows[id].len()
}

/// An index with another name for a column.
pub open spec fn state_renamed(index: IndexStateView, old_name: Seq<char>, new_name: Seq<char>) -> IndexStateView {
    IndexStateView { meta: index_renamed(index.meta, old_name, new_name), ..index }
}

/// The indexes of a table with another name for a column.
pub open spec fn states_renamed(
    m: Map<Seq<char>, Map<Seq<char>, IndexStateView>>,
    table: Seq<char>,
    old_name: Seq<char>,
    new_name: Seq<char>,
) -> Map<Seq<char>, Map<Seq<char>, IndexStateView>> {
    if m.dom().contains(table) {
        m.insert(
            table,
            m[table].map_values(|i: IndexStateView| state_renamed(i, old_name, new_name)),
        )
    } else {
        m
    }
}

impl StateView {
    /// The state once a table is made.
    pub open spec fn schema_made(self, schema: Schema) -> (StateView, Result<(), ErrorView>) {
        let name = schema.name@;
        if self.schemas.dom().contains(name) {
            (self, Err(storage("table already exists: "@ + name)))
        } else {
            (
                StateView {
                    schemas: self.schemas.insert(name, schema),
                    rows: self.rows.insert(name, below(self.rows, name)),
                    indexes: self.indexes.insert(name, below(self.indexes, name)),
                    next_row_ids: if self.next_row_ids.dom().contains(name) {
                        self.next_row_ids
                    } else {
                        self.next_row_ids.insert(name, 1)
                    },
                },
                Ok(()),
            )
        }
    }

    /// The state once a table is dropped.
    pub open spec fn schema_dropped(self, name: Seq<char>) -> (StateView, Result<(), ErrorView>) {
        if !self.schemas.dom().contains(name) {
            (self, Err(no_table(name)))
        } else {
            (
                StateView {
                    schemas: self.schemas.remove(name),
                    rows: self.rows.remove(name),
                    indexes: self.indexes.remove(name),
                    next_row_ids: self.next_row_ids.remove(name),
                },
                Ok(()),
            )
        }
    }

    /// The state once the definition of a table is another.
    pub open spec fn schema_replaced(self, schema: Schema) -> (StateView, Result<(), ErrorView>) {
        if !self.schemas.dom().contains(schema.name@) {
            (self, Err(no_table(schema.name@)))
        } else {
            (StateView { schemas: self.schemas.insert(schema.name@, schema), ..self }, Ok(()))
        }
    }

    /// The state once a table has another name.
    pub open spec fn schema_renamed(
        self,
        old_name: Seq<char>,
        schema: Schema,
        others: Map<Seq<char>, Schema>,
    ) -> (StateView, Result<(), ErrorView>) {
        let new_name = schema.name@;
        if self.schemas.dom().contains(new_name) {
            (self, Err(storage("table already exists: "@ + new_name)))
        } else if !self.schemas.dom().contains(old_name) {
            (self, Err(no_table(old_name)))
        } else {
            (
                StateView {
                    schemas: rewritten(
                        self.schemas.remove(old_name).insert(new_name, schema),
                        others,
                    ),
                    rows: moved(self.rows, old_name, new_name),
                    indexes: moved(self.indexes, old_name, new_name),
                    next_row_ids: moved(self.next_row_ids, old_name, new_name),
                },
                Ok(()),
            )
        }
    }

    /// The state once a table has one more column.
    pub open spec fn column_added(
        self,
        table: Seq<char>,
        column: Seq<char>,
        schema: Schema,
        value: SqlValue,
        schema_fault: Option<ErrorView>,
        row_faults: Seq<Option<ErrorView>>,
    ) -> (StateView, Result<(), ErrorView>) {
        match self.schema_of(table) {
            Err(e) => (self, Err(e)),
            Ok(before) => if before.position(column) is Some {
                (self, Err(column_exists(table, column)))
            } else if schema_fault is Some {
                (self, Err(schema_fault->0))
            } else {
                match first_of(row_faults, below(self.rows, table).dom().len(), 0) {
                    Some(e) => (self, Err(e)),
                    None => (
                        StateView {
                            schemas: self.schemas.insert(table, schema),
                            rows: if self.rows.dom().contains(table) {
                                self.rows.insert(
                                    table,
                                    self.rows[table].map_values(
                                        |row: Seq<SqlValue>| row.push(value),
                                    ),
                                )
                            } else {
                                self.rows
                            },
                            ..self
                        },
                        Ok(()),
                    ),
                }
            },
        }
    }

    /// The state once a column has another name.
    pub open spec fn column_renamed(
        self,
        table: Seq<char>,
        old_name: Seq<char>,
        new_name: Seq<char>,
        schema: Schema,
        schema_fault: Option<ErrorView>,
        others: Map<Seq<char>, Schema>,
    ) -> (StateView, Result<(), ErrorView>) {
        match self.schema_of(table) {
            Err(e) => (self, Err(e)),
            Ok(before) => if before.position(old_name) is None {
                (self, Err(no_column(old_name, table)))
            } else if before.position(new_name) is Some {
                (self, Err(column_exists(table, new_name)))
            } else if schema_fault is Some {
                (self, Err(schema_fault->0))
            } else {
                (
                    StateView {
                        schemas: rewritten(self.schemas, others).insert(table, schema),
                        indexes: states_renamed(self.indexes, table, old_name, new_name),
                        ..self
                    },
                    Ok(()),
                )
            },
        }
    }

    /// The state once a table has one column less.
    pub open spec fn column_dropped(
        self,
        table: Seq<char>,
        schema: Schema,
        position: int,
        fault: Option<ErrorView>,
    ) -> (StateView, Result<(), ErrorView>) {
        match self.schema_of(table) {
            Err(e) => (self, Err(e)),
            Ok(_) => if fault is Some {
                (self, Err(fault->0))
            } else {
                let rows = below(self.rows, table).map_values(
                    |row: Seq<SqlValue>| row.remove(position),
                );
                let a = StateView {
                    schemas: self.schemas.insert(table, schema),
                    rows: self.rows.insert(table, rows),
                    ..self
                };
                if !self.indexes.dom().contains(table) {
                    (a, Ok(()))
                } else {
                    let by_name = self.indexes[table];
                    let (after, r) = rebuilt_from(
                        schema,
                        by_name,
                        sorted::<String>(by_name.dom()),
                        rows,
                        0,
                    );
                    (a.with_indexes(table, after), r)
                }
            },
        }
    }
}

// ---------------------------------------------------------------------------
// The state

fn check_faults(faults: &Vec<Option<DbError>>, total: usize) -> (r: DbResult<()>)
    ensures
        match r {
            Ok(_) => first_of(fault_views(faults@), total as nat, 0) is None,
            Err(e) => first_of(fault_views(faults@), total as nat, 0) == Some(e@),
        },
{
    let ghost verdicts = fault_views(faults@);
    let mut i: usize = 0;
    while i < total
        invariant
            i <= total,
            verdicts == fault_views(faults@),
            first_of(verdicts, total as nat, i as int) == first_of(verdicts, total as nat, 0),
        decreases total - i,
    {
        if i < faults.len() {
            assert(verdicts[i as int] == fault_view(faults@[i as int]));
            match &faults[i] {
                Some(e) => {
                    return Err(e.copy());
                },
                None => {},
            }
        }
        i = i + 1;
    }
    Ok(())
}

fn lengthen_rows(rows: &OrdMap<RowId, Row>, value: &DbValue) -> (r: OrdMap<RowId, Row>)
    ensures
        r@ == rows@.map_values(|row: Seq<SqlValue>| row.push(value@)),
{
    let ghost target = rows@.map_values(|row: Seq<SqlValue>| row.push(value@));
    let ids = key_list(rows);
    let ghost all = ids.deep_view();
    let mut out: OrdMap<RowId, Row> = OrdMap::new();
    let mut i: usize = 0;
    while i < ids.len()
        invariant
            i <= ids@.len(),
            all == ids.deep_view(),
            all.to_set() == rows@.dom(),
            target == rows@.map_values(|row: Seq<SqlValue>| row.push(value@)),
            forall|k: RowId| #[trigger]
                out@.dom().contains(k) ==> target.dom().contains(k) && out@[k] == target[k],
            forall|j: int| 0 <= j < i ==> out@.dom().contains(#[trigger] all[j]),
        decreases ids@.len() - i,
    {
        assert(all[i as int] == ids@[i as int]);
        assert(all.to_set().contains(all[i as int]));
        match rows.get(&ids[i]) {
            Some(row) => {
                let mut longer = row.duplicate();
                let ghost before = longer.deep_view();
                longer.push(value.copy());
                assert(longer.deep_view() =~= before.push(value@));
                out.insert(ids[i], longer);
            },
            None => {},
        }
        i = i + 1;
    }
    proof {
        assert forall|k: RowId| target.dom().contains(k) implies out@.dom().contains(k) by {
            assert(all.to_set().contains(k));
            let j = choose|j: int| 0 <= j < all.len() && all[j] == k;
            assert(out@.dom().contains(all[j]));
        }
        assert(out@ =~= target);
    }
    out
}

fn shorten_rows(rows: &OrdMap<RowId, Row>, position: usize) -> (r: OrdMap<RowId, Row>)
    requires
        rows_reach(rows@, position as int),
    ensures
        r@ == rows@.map_values(|row: Seq<SqlValue>| row.remove(position as int)),
{
    let ghost target = rows@.map_values(|row: Seq<SqlValue>| row.remove(position as int));
    let ids = key_list(rows);
    let ghost all = ids.deep_view();
    let mut out: OrdMap<RowId, Row> = OrdMap::new();
    let mut i: usize = 0;
    while i < ids.len()
        invariant
            i <= ids@.len(),
            all == ids.deep_view(),
            all.to_set() == rows@.dom(),
            forall|id: RowId| #[trigger]
                rows@.dom().contains(id) ==> position < rows@[id].len(),
            target == rows@.map_values(|row: Seq<SqlValue>| row.remove(position as int)),
            forall|k: RowId| #[trigger]
                out@.dom().contains(k) ==> target.dom().contains(k) && out@[k] == target[k],
            forall|j: int| 0 <= j < i ==> out@.dom().contains(#[trigger] all[j]),
        decreases ids@.len() - i,
    {
        assert(all[i as int] == ids@[i as int]);
        assert(all.to_set().contains(all[i as int]));
        match rows.get(&ids[i]) {
            Some(row) => {
                let mut shorter = row.duplicate();
                let ghost before = shorter.deep_view();
                assert(before == rows@[ids@[i as int]]);
                let _ = shorter.remove(position);
                assert(shorter.deep_view() =~= before.remove(position as int));
                out.insert(ids[i], shorter);
            },
            None => {},
        }
        i = i + 1;
    }
    proof {
        assert forall|k: RowId| target.dom().contains(k) implies out@.dom().contains(k) by {
            assert(all.to_set().contains(k));
            let j = choose|j: int| 0 <= j < all.len() && all[j] == k;
            assert(out@.dom().contains(all[j]));
        }
        assert(out@ =~= target);
    }
    out
}

fn rename_states(by_name: &OrdMap<String, IndexState>, old_name: &str, new_name: &str) -> (r: OrdMap<
    String,
    IndexState,
>)
    ensures
        r@ == by_name@.map_values(|i: IndexStateView| state_renamed(i, old_name@, new_name@)),
{
    let ghost target = by_name@.map_values(
        |i: IndexStateView| state_renamed(i, old_name@, new_name@),
    );
    let names = key_list(by_name);
    let ghost all = names.deep_view();
    let mut out: OrdMap<String, IndexState> = OrdMap::new();
    let mut i: usize = 0;
    while i < names.len()
        invariant
            i <= names@.len(),
            all == names.deep_view(),
            all.to_set() == by_name@.dom(),
            target == by_name@.map_values(
                |i: IndexStateView| state_renamed(i, old_name@, new_name@),
            ),
            forall|k: Seq<char>| #[trigger]
                out@.dom().contains(k) ==> target.dom().contains(k) && out@[k] == target[k],
            forall|j: int| 0 <= j < i ==> out@.dom().contains(#[trigger] all[j]),
        decreases names@.len() - i,
    {
        assert(all[i as int] == names@[i as int]@);
        assert(all.to_set().contains(all[i as int]));
        match by_name.get(&names[i]) {
            Some(index) => {
                let mut copy = index.duplicate();
                rename_columns(&mut copy.meta.columns, old_name, new_name);
                assert(copy@ == state_renamed(by_name@[all[i as int]], old_name@, new_name@));
                out.insert(names[i].clone(), copy);
            },
            None => {},
        }
        i = i + 1;
    }
    proof {
        assert forall|k: Seq<char>| target.dom().contains(k) implies out@.dom().contains(k) by {
            assert(all.to_set().contains(k));
            let j = choose|j: int| 0 <= j < all.len() && all[j] == k;
            assert(out@.dom().contains(all[j]));
        }
        assert(out@ =~= target);
    }
    out
}

impl PersistedState {
    fn create_schema(&mut self, schema: Schema) -> (r: DbResult<()>)
        ensures
            state_step(r, final(self)@, old(self)@.schema_made(schema)),
    {
        let ghost start = self@;
        if self.schemas.contains_key(&schema.name) {
            let mut message = "table already exists: ".to_owned();
            message.append(schema.name.as_str());
            return Err(DbError::storage(message.as_str()));
        }
        let name: String = schema.name.clone();
        self.schemas.insert(name.clone(), SharedSchema::new(schema));
        if !self.rows.contains_key(&name) {
            self.rows.insert(name.clone(), OrdMap::new());
        }
        if !self.indexes.contains_key(&name) {
            self.indexes.insert(name.clone(), OrdMap::new());
        }
        if !self.next_row_ids.contains_key(&name) {
            self.next_row_ids.insert(name, 1);
        }
        proof {
            let want = start.schema_made(schema).0;
            assert(self@.rows =~= want.rows);
            assert(self@.indexes =~= want.indexes);
            assert(self@ =~= want);
        }
        Ok(())
    }

    fn drop_schema(&mut self, name: &str) -> (r: DbResult<()>)
        ensures
            state_step(r, final(self)@, old(self)@.schema_dropped(name@)),
    {
        let key: String = name.to_owned();
        if !self.schemas.contains_key(&key) {
            return Err(fail_no_table(name));
        }
        self.schemas.remove(&key);
        self.rows.remove(&key);
        self.indexes.remove(&key);
        self.next_row_ids.remove(&key);
        Ok(())
    }

    fn replace_schema(&mut self, schema: Schema) -> (r: DbResult<()>)
        ensures
            state_step(r, final(self)@, old(self)@.schema_replaced(schema)),
    {
        if !self.schemas.contains_key(&schema.name) {
            return Err(fail_no_table(schema.name.as_str()));
        }
        let name: String = schema.name.clone();
        self.schemas.insert(name, SharedSchema::new(schema));
        Ok(())
    }

    fn rename_schema(
        &mut self,
        old_name: &str,
        schema: Schema,
        others: &OrdMap<String, SharedSchema>,
    ) -> (r: DbResult<()>)
        ensures
            state_step(r, final(self)@, old(self)@.schema_renamed(old_name@, schema, others@)),
    {
        if self.schemas.contains_key(&schema.name) {
            let mut message = "table already exists: ".to_owned();
            message.append(schema.name.as_str());
            return Err(DbError::storage(message.as_str()));
        }
        let key: String = old_name.to_owned();
        if !self.schemas.contains_key(&key) {
            return Err(fail_no_table(old_name));
        }
        let new_name: String = schema.name.clone();
        self.schemas.remove(&key);
        self.schemas.insert(new_name.clone(), SharedSchema::new(schema));
        rename_key(&mut self.rows, old_name, new_name.as_str());
        rename_key(&mut self.indexes, old_name, new_name.as_str());
        rename_key(&mut self.next_row_ids, old_name, new_name.as_str());
        rewrite_schemas(&mut self.schemas, others);
        Ok(())
    }

    fn add_column(
        &mut self,
        schema_name: &str,
        column: &str,
        schema: Schema,
        value: &DbValue,
        schema_fault: &Option<DbError>,
        row_faults: &Vec<Option<DbError>>,
    ) -> (r: DbResult<()>)
        ensures
            state_step(
                r,
                final(self)@,
                old(self)@.column_added(
                    schema_name@,
                    column@,
                    schema,
                    value@,
                    fault_view(*schema_fault),
                    fault_views(row_faults@),
                ),
            ),
    {
        let before = self.require_schema(schema_name)?;
        if before.schema.column_index(column).is_some() {
            return Err(fail_column_exists(schema_name, column));
        }
        match schema_fault {
            Some(e) => {
                return Err(e.copy());
            },
            None => {},
        }
        let table: String = schema_name.to_owned();
        let total: usize = match self.rows.get(&table) {
            Some(rows) => rows.len(),
            None => 0,
        };
        check_faults(row_faults, total)?;
        self.schemas.insert(table.clone(), SharedSchema::new(schema));
        let longer = match self.rows.get(&table) {
            Some(rows) => Some(lengthen_rows(rows, value)),
            None => None,
        };
        match longer {
            Some(rows) => {
                self.rows.insert(table, rows);
            },
            None => {},
        }
        Ok(())
    }

    fn rename_column(
        &mut self,
        schema_name: &str,
        old_name: &str,
        new_name: &str,
        schema: Schema,
        schema_fault: &Option<DbError>,
        others: &OrdMap<String, SharedSchema>,
    ) -> (r: DbResult<()>)
        ensures
            state_step(
                r,
                final(self)@,
                old(self)@.column_renamed(
                    schema_name@,
                    old_name@,
                    new_name@,
                    schema,
                    fault_view(*schema_fault),
                    others@,
                ),
            ),
    {
        let before = self.require_schema(schema_name)?;
        if before.schema.column_index(old_name).is_none() {
            let mut message = "unknown column ".to_owned();
            message.append(old_name);
            message.append(" on table ");
            message.append(schema_name);
            return Err(DbError::storage(message.as_str()));
        }
        if before.schema.column_index(new_name).is_some() {
            return Err(fail_column_exists(schema_name, new_name));
        }
        match schema_fault {
            Some(e) => {
                return Err(e.copy());
            },
            None => {},
        }
        let table: String = schema_name.to_owned();
        rewrite_schemas(&mut self.schemas, others);
        self.schemas.insert(table.clone(), SharedSchema::new(schema));
        let renamed_states = match self.indexes.get(&table) {
            Some(m) => Some(rename_states(m, old_name, new_name)),
            None => None,
        };
        match renamed_states {
            Some(m) => {
                self.indexes.insert(table, m);
            },
            None => {},
        }
        Ok(())
    }

    fn drop_column(
        &mut self,
        schema_name: &str,
        schema: Schema,
        position: usize,
        fault: &Option<DbError>,
    ) -> (r: DbResult<()>)
        requires
            rows_reach(below(old(self)@.rows, schema_name@), position as int),
        ensures
            state_step(
                r,
                final(self)@,
                old(self)@.column_dropped(
                    schema_name@,
                    schema,
                    position as int,
                    fault_view(*fault),
                ),
            ),
    {
        let ghost start = self@;
        let _before = self.require_schema(schema_name)?;
        match fault {
            Some(e) => {
                return Err(e.copy());
            },
            None => {},
        }
        let table: String = schema_name.to_owned();
        let none: OrdMap<RowId, Row> = OrdMap::new();
        let shorter = match self.rows.get(&table) {
            Some(rows) => shorten_rows(rows, position),
            None => shorten_rows(&none, position),
        };
        let kept = SharedSchema::new(schema);
        self.schemas.insert(table.clone(), kept.duplicate());
        self.rows.insert(table.clone(), shorter.duplicate());
        match self.indexes.get_mut(&table) {
            Some(by_name) => {
                let r = rebuild_indexes_for_schema(&kept.schema, by_name, &shorter);
                assert(self@ =~= start.column_dropped(
                    schema_name@,
                    schema,
                    position as int,
                    None,
                ).0);
                match r {
                    Ok(_) => Ok(()),
                    Err(e) => Err(e),
                }
            },
            None => Ok(()),
        }
    }
}

// ---------------------------------------------------------------------------
// The engine

impl FileStorage {
    /// Makes a table.
    pub fn create_schema(&mut self, transaction_id: TransactionId, schema: Schema) -> (r: DbResult<()>)
        ensures
            engine_step(
                r,
                final(self)@,
                old(self)@.changed(transaction_id, old(self)@.state.schema_made(schema)),
            ),
    {
        self.validate_transaction(transaction_id)?;
        self.state.create_schema(schema)
    }

    /// Drops a table with its rows and indexes.
    pub fn drop_schema(&mut self, transaction_id: TransactionId, name: &str) -> (r: DbResult<()>)
        ensures
            engine_step(
                r,
                final(self)@,
                old(self)@.changed(transaction_id, old(self)@.state.schema_dropped(name@)),
            ),
    {
        self.validate_transaction(transaction_id)?;
        self.state.drop_schema(name)
    }

    /// Gives a table another definition.
    pub fn replace_schema(&mut self, transaction_id: TransactionId, schema: Schema) -> (r: DbResult<
        (),
    >)
        ensures
            engine_step(
                r,
                final(self)@,
                old(self)@.changed(transaction_id, old(self)@.state.schema_replaced(schema)),
            ),
    {
        self.validate_transaction(transaction_id)?;
        self.state.replace_schema(schema)
    }

    /// Gives a table another name. `schema` is its definition under that name; `others` holds
    /// the definitions that refer to the table, with the name changed.
    pub fn rename_schema(
        &mut self,
        transaction_id: TransactionId,
        old_name: &str,
        schema: Schema,
        others: &OrdMap<String, SharedSchema>,
    ) -> (r: DbResult<()>)
        ensures
            engine_step(
                r,
                final(self)@,
                old(self)@.changed(
                    transaction_id,
                    old(self)@.state.schema_renamed(old_name@, schema, others@),
                ),
            ),
    {
        self.validate_transaction(transaction_id)?;
        self.state.rename_schema(old_name, schema, others)
    }

    /// Gives a table one more column. `schema` is its definition with the column, and `value`
    /// what the rows that are there hold in it; `schema_fault` and `row_faults` are the
    /// outcomes of checking the definition and each row with the value, in the order of the
    /// row numbers.
    pub fn add_column(
        &mut self,
        transaction_id: TransactionId,
        schema_name: &str,
        column: &str,
        schema: Schema,
        value: &DbValue,
        schema_fault: &Option<DbError>,
        row_faults: &Vec<Option<DbError>>,
    ) -> (r: DbResult<()>)
        ensures
            engine_step(
                r,
                final(self)@,
                old(self)@.changed(
                    transaction_id,
                    old(self)@.state.column_added(
                        schema_name@,
                        column@,
                        schema,
                        value@,
                        fault_view(*schema_fault),
                        fault_views(row_faults@),
                    ),
                ),
            ),
    {
        self.validate_transaction(transaction_id)?;
        self.state.add_column(schema_name, column, schema, value, schema_fault, row_faults)
    }

    /// Gives a column another name. `schema` is the definition of the table under that name,
    /// and `schema_fault` the outcome of checking it; `others` holds the other definitions
    /// that refer to the column, with the name changed.
    pub fn rename_column(
        &mut self,
        transaction_id: TransactionId,
        schema_name: &str,
        old_name: &str,
        new_name: &str,
        schema: Schema,
        schema_fault: &Option<DbError>,
        others: &OrdMap<String, SharedSchema>,
    ) -> (r: DbResult<()>)
        ensures
            engine_step(
                r,
                final(self)@,
                old(self)@.changed(
                    transaction_id,
                    old(self)@.state.column_renamed(
                        schema_name@,
                        old_name@,
                        new_name@,
                        schema,
                        fault_view(*schema_fault),
                        others@,
                    ),
                ),
            ),
    {
        self.validate_transaction(transaction_id)?;
        self.state.rename_column(schema_name, old_name, new_name, schema, schema_fault, others)
    }

    /// Takes a column out of a table. `schema` is the definition without it, and `position`
    /// where it stood; `fault` says why it cannot be taken out, if it cannot.
    pub fn drop_column(
        &mut self,
        transaction_id: TransactionId,
        schema_name: &str,
        schema: Schema,
        position: usize,
        fault: &Option<DbError>,
    ) -> (r: DbResult<()>)
        requires
            rows_reach(below(old(self)@.state.rows, schema_name@), position as int),
        ensures
            engine_step(
                r,
                final(self)@,
                old(self)@.changed(
                    transaction_id,
                    old(self)@.state.column_dropped(
                        schema_name@,
                        schema,
                        position as int,
                        fault_view(*fault),
                    ),
                ),
            ),
    {
        self.validate_transaction(transaction_id)?;
        self.state.drop_column(schema_name, schema, position, fault)
    }

    /// The definition of a table, where there is one of that name.
    pub fn get_schema(&self, transaction_id: TransactionId, name: &str) -> (r: DbResult<
        Option<SharedSchema>,
    >)
        ensures
            match r {
                Ok(Some(s)) => {
                    &&& self@.idle(transaction_id) is None
                    &&& self@.state.schemas.dom().contains(name@)
                    &&& self@.state.schemas[name@] == s.deep_view()
                },
                Ok(None) => self@.idle(transaction_id) is None
                    && !self@.state.schemas.dom().contains(name@),
                Err(e) => self@.idle(transaction_id) == Some(e@),
            },
    {
        self.validate_transaction(transaction_id)?;
        match self.state.schemas.get(&name.to_owned()) {
            Some(s) => Ok(Some(s.duplicate())),
            None => Ok(None),
        }
    }

    /// The definitions of the tables, in the order of their names.
    pub fn list_schemas(&self, transaction_id: TransactionId) -> (r: DbResult<Vec<SharedSchema>>)
        ensures
            match r {
                Ok(list) => {
                    &&& self@.idle(transaction_id) is None
                    &&& list.deep_view() == sorted::<String>(
                        self@.state.schemas.dom(),
                    ).map_values(|n: Seq<char>| self@.state.schemas[n])
                },
                Err(e) => self@.idle(transaction_id) == Some(e@),
            },
    {
        self.validate_transaction(transaction_id)?;
        let mut out: Vec<SharedSchema> = Vec::new();
        let total: usize = self.state.schemas.len();
        let ghost names = self.state.schemas.keys();
        let mut i: usize = 0;
        while i < total
            invariant
                i <= total,
                total == names.len(),
                names == self.state.schemas.keys(),
                out@.len() == i,
                forall|k: int|
                    0 <= k < i ==> (#[trigger] out@[k]).deep_view()
                        == self@.state.schemas[names[k]],
            decreases total - i,
        {
            let s: &SharedSchema = self.state.schemas.value_at(i);
            out.push(s.duplicate());
            i = i + 1;
        }
        proof {
            assert(names.to_set() =~= self@.state.schemas.dom());
            lemma_is_sorted::<String>(names, self@.state.schemas.dom());
            assert(out.deep_view() =~= sorted::<String>(
                self@.state.schemas.dom(),
            ).map_values(|n: Seq<char>| self@.state.schemas[n]));
        }
        Ok(out)
    }
}

} // verus!
