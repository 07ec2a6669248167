use rustsql::common::error::DbResult;
use rustsql::common::ordmap::{Duplicate, OrdMap};
use rustsql::common::schema::{ColumnDef, ColumnType, IndexMeta, Schema};
use rustsql::common::value::{
    same_values, CompareOp, DbValue as Value, IsolationLevel, RowId, TransactionId,
};
use rustsql::v1;
use rustsql::v1::files::{load_state, CatalogFile};
use rustsql::v1::state::PersistedState;
use rustsql::v2::catalog::{CatalogState, SharedSchema};
use rustsql::v2::page::PageId;
use rustsql::v2::pager::Pager;
use rustsql::v2::storage::{FileStorage, RowFaults};

fn text(s: &str) -> Value {
    Value::Text(s.to_string())
}

fn users() -> Schema {
    Schema::new(
        "users",
        vec![
            ColumnDef::primary_key("id", ColumnType::Integer),
            ColumnDef::new("name", ColumnType::Text),
        ],
    )
}

fn name_index(unique: bool) -> IndexMeta {
    IndexMeta {
        name: "idx_name".to_string(),
        columns: vec!["name".to_string()],
        decorated_columns: None,
        unique,
        predicate: None,
    }
}

fn row(id: i64, name: &str) -> Vec<Value> {
    vec![Value::Integer(id), text(name)]
}

fn fine() -> RowFaults {
    RowFaults { values: None, key: None }
}

fn failure<T>(r: DbResult<T>) -> String {
    match r {
        Ok(_) => panic!("no failure"),
        Err(e) => e.message(),
    }
}

fn first_engine() -> v1::state::FileStorage {
    v1::state::FileStorage::open(PersistedState::new())
}

fn engine() -> FileStorage {
    let pager = Pager::open(None, None, OrdMap::new()).unwrap();
    FileStorage::open(pager, CatalogState::default())
}

#[test]
fn first_engine_keeps_rows_and_indexes_in_step() {
    let mut db = first_engine();
    let txn = db.begin().unwrap();
    db.create_schema(txn, users()).unwrap();
    db.create_index(txn, "users", name_index(true)).unwrap();
    let a = db.insert_row(txn, "users", &row(1, "alice"), &fine()).unwrap();
    let b = db.insert_row(txn, "users", &row(2, "bob"), &fine()).unwrap();
    assert_eq!((a, b), (RowId(1), RowId(2)));
    assert_eq!(db.lookup_index(txn, "users", "idx_name", &vec![text("bob")]).unwrap(), vec![b]);
    assert_eq!(
        failure(db.insert_row(txn, "users", &row(3, "bob"), &fine())),
        "unique index idx_name constraint failed"
    );
    db.update_row(txn, "users", b, &row(2, "carol"), &fine()).unwrap();
    assert!(db.lookup_index(txn, "users", "idx_name", &vec![text("bob")]).unwrap().is_empty());
    assert_eq!(db.lookup_index(txn, "users", "idx_name", &vec![text("carol")]).unwrap(), vec![b]);
    db.delete_row(txn, "users", a).unwrap();
    assert!(db.get_row(txn, "users", a).unwrap().is_none());
    let rows = db.scan_rows(txn, "users").unwrap();
    assert_eq!(rows.len(), 1);
    assert!(same_values(&rows[0].row, &row(2, "carol")));
}

#[test]
fn first_engine_searches_ranges_and_prefixes() {
    let mut db = first_engine();
    let txn = db.begin().unwrap();
    db.create_schema(txn, users()).unwrap();
    for (i, name) in ["alice", "bob", "carol", "dave"].iter().enumerate() {
        db.insert_row(txn, "users", &row(i as i64, name), &fine()).unwrap();
    }
    db.create_index(txn, "users", name_index(false)).unwrap();
    let low = text("b");
    let high = text("carol");
    let ids = db
        .scan_index_range(
            txn,
            "users",
            "idx_name",
            &[],
            Some((CompareOp::Gte, &low)),
            Some((CompareOp::Lt, &high)),
        )
        .unwrap();
    assert_eq!(ids, vec![RowId(2)]);
    assert_eq!(db.scan_index_prefix(txn, "users", "idx_name", &[]).unwrap().len(), 4);
    assert_eq!(
        failure(db.scan_index_prefix(txn, "users", "idx_name", &[text("a"), text("b")])),
        "index idx_name expected at most 1 key values but got 2"
    );
    assert_eq!(
        failure(db.scan_index_range(txn, "users", "idx_name", &[text("a")], None, None)),
        "index idx_name has no range column after prefix of length 1"
    );
}

#[test]
fn first_engine_rolls_back_to_where_it_was() {
    let mut db = first_engine();
    let txn = db.begin().unwrap();
    db.create_schema(txn, users()).unwrap();
    db.insert_row(txn, "users", &row(1, "alice"), &fine()).unwrap();
    db.commit(txn).unwrap();

    let txn = db.begin().unwrap();
    assert_eq!(txn, TransactionId(2));
    db.insert_row(txn, "users", &row(2, "bob"), &fine()).unwrap();
    assert_eq!(failure(db.begin()), "transaction 2 is already active");
    assert_eq!(
        failure(db.commit(TransactionId(9))),
        "transaction 9 is not active; current transaction is 2"
    );
    assert_eq!(failure(db.rollback(TransactionId(9))), "transaction 9 is not active");
    db.rollback(txn).unwrap();
    assert_eq!(failure(db.rollback(txn)), "no active transaction");

    let txn = db.begin().unwrap();
    assert_eq!(db.scan_rows(txn, "users").unwrap().len(), 1);
}

#[test]
fn first_engine_state_comes_back_from_its_files() {
    let mut db = first_engine();
    let txn = db.begin().unwrap();
    db.create_schema(txn, users()).unwrap();
    db.create_index(txn, "users", name_index(false)).unwrap();
    db.insert_row(txn, "users", &row(1, "alice"), &fine()).unwrap();
    db.insert_row(txn, "users", &row(2, "alice"), &fine()).unwrap();
    db.commit(txn).unwrap();

    let tables = db.state.stored_tables();
    assert_eq!(tables.len(), 1);
    assert_eq!(tables[0].table.next_row_id, 3);
    assert_eq!(tables[0].indexes[0].entries[0].row_ids, vec![RowId(1), RowId(2)]);
    let mut schemas = OrdMap::new();
    schemas.insert("users".to_string(), SharedSchema::new(users()));
    let mut again = v1::state::FileStorage::open(load_state(CatalogFile { schemas }, &tables));
    let txn = again.begin().unwrap();
    assert_eq!(
        again.lookup_index(txn, "users", "idx_name", &vec![text("alice")]).unwrap(),
        vec![RowId(1), RowId(2)]
    );
    assert_eq!(
        again.insert_row(txn, "users", &row(3, "x"), &fine()).unwrap(),
        RowId(3)
    );
}

#[test]
fn first_engine_changes_columns() {
    let mut db = first_engine();
    let txn = db.begin().unwrap();
    db.create_schema(txn, users()).unwrap();
    db.create_index(txn, "users", name_index(false)).unwrap();
    db.insert_row(txn, "users", &row(1, "alice"), &fine()).unwrap();
    let mut wider = users();
    wider.columns.push(ColumnDef::new("age", ColumnType::Integer));
    assert_eq!(
        failure(db.add_column(txn, "users", "name", users(), &Value::Null, &None, &vec![])),
        "column already exists on table users: name"
    );
    db.add_column(txn, "users", "age", wider, &Value::Integer(7), &None, &vec![]).unwrap();
    let got = db.get_row(txn, "users", RowId(1)).unwrap().unwrap();
    assert!(same_values(&got, &[Value::Integer(1), text("alice"), Value::Integer(7)]));
    db.drop_column(txn, "users", users(), 2, &None).unwrap();
    let got = db.get_row(txn, "users", RowId(1)).unwrap().unwrap();
    assert!(same_values(&got, &row(1, "alice")));
    let mut renamed = users();
    renamed.columns[1] = ColumnDef::new("title", ColumnType::Text);
    db.rename_column(txn, "users", "name", "title", renamed, &None, &OrdMap::new()).unwrap();
    let index = db.get_index(txn, "users", "idx_name").unwrap().unwrap();
    assert_eq!(index.columns, vec!["title".to_string()]);
    let mut people = users();
    people.name = "people".to_string();
    db.rename_schema(txn, "users", people, &OrdMap::new()).unwrap();
    assert_eq!(failure(db.drop_schema(txn, "users")), "unknown table: users");
    assert_eq!(db.scan_rows(txn, "people").unwrap().len(), 1);
    db.drop_schema(txn, "people").unwrap();
    assert!(db.list_schemas(txn).unwrap().is_empty());
}

#[test]
fn first_engine_shows_planners_the_open_transaction_alone() {
    let mut db = first_engine();
    assert!(db.validate_snapshot_transaction(None).is_ok());
    assert_eq!(
        failure(db.validate_snapshot_transaction(Some(TransactionId(4)))),
        "transaction 4 is not active"
    );
    let txn = db.begin().unwrap();
    assert!(db.validate_snapshot_transaction(Some(txn)).is_ok());
    assert_eq!(
        failure(db.validate_snapshot_transaction(None)),
        "metadata snapshot requires the active transaction id while a transaction is open"
    );
}

fn filled(db: &mut FileStorage) -> TransactionId {
    let txn = db.begin().unwrap();
    db.create_schema(txn, users()).unwrap();
    db.create_index(txn, "users", name_index(true)).unwrap();
    db.insert_row(txn, "users", &row(1, "alice"), &fine()).unwrap();
    db.insert_row(txn, "users", &row(2, "bob"), &fine()).unwrap();
    txn
}

#[test]
fn inserted_rows_are_read_back() {
    let mut db = engine();
    let txn = filled(&mut db);
    let got = db.get_row(txn, "users", RowId(1)).unwrap().unwrap();
    assert!(same_values(&got, &row(1, "alice")));
    let rows = db.scan_rows(txn, "users").unwrap();
    assert_eq!(rows.iter().map(|r| r.id).collect::<Vec<_>>(), vec![RowId(1), RowId(2)]);
    assert_eq!(
        db.lookup_index(txn, "users", "idx_name", &[text("bob")]).unwrap(),
        vec![RowId(2)]
    );
    assert_eq!(
        failure(db.insert_row(txn, "users", &row(3, "bob"), &fine())),
        "unique index idx_name constraint failed"
    );
    assert_eq!(
        failure(db.insert_row(txn, "users", &vec![Value::Integer(1)], &fine())),
        "insert into users expected 2 values but got 1"
    );
    assert_eq!(failure(db.insert_row(txn, "nobody", &row(1, "a"), &fine())), "unknown table: nobody");
}

#[test]
fn other_transactions_see_rows_once_they_are_committed() {
    let mut db = engine();
    let txn = filled(&mut db);
    db.commit(txn, b"{}").unwrap();
    let reader = db.begin_with_isolation(IsolationLevel::RepeatableRead).unwrap();
    let writer = db.begin().unwrap();
    db.update_row(writer, "users", RowId(1), &row(1, "anna"), &fine()).unwrap();
    let own = db.get_row(writer, "users", RowId(1)).unwrap().unwrap();
    assert!(same_values(&own, &row(1, "anna")));
    let before = db.get_row(reader, "users", RowId(1)).unwrap().unwrap();
    assert!(same_values(&before, &row(1, "alice")));
    let done = db.commit(writer, b"{}").unwrap();
    assert!(done.fault.is_none());
    let still = db.get_row(reader, "users", RowId(1)).unwrap().unwrap();
    assert!(same_values(&still, &row(1, "alice")));
    let later = db.begin().unwrap();
    let after = db.get_row(later, "users", RowId(1)).unwrap().unwrap();
    assert!(same_values(&after, &row(1, "anna")));
}

#[test]
fn rolled_back_rows_are_gone() {
    let mut db = engine();
    let txn = filled(&mut db);
    db.commit(txn, b"{}").unwrap();
    let txn = db.begin().unwrap();
    db.insert_row(txn, "users", &row(3, "carol"), &fine()).unwrap();
    db.delete_row(txn, "users", RowId(1)).unwrap();
    assert!(db.get_row(txn, "users", RowId(1)).unwrap().is_none());
    db.rollback(txn).unwrap();
    let txn = db.begin().unwrap();
    let rows = db.scan_rows(txn, "users").unwrap();
    assert_eq!(rows.iter().map(|r| r.id).collect::<Vec<_>>(), vec![RowId(1), RowId(2)]);
    assert_eq!(
        db.lookup_index(txn, "users", "idx_name", &[text("alice")]).unwrap(),
        vec![RowId(1)]
    );
    assert!(db.lookup_index(txn, "users", "idx_name", &[text("carol")]).unwrap().is_empty());
}

#[test]
fn rolled_back_tables_columns_and_indexes_are_gone() {
    let mut db = engine();
    let txn = filled(&mut db);
    db.commit(txn, b"{}").unwrap();
    let txn = db.begin().unwrap();
    for id in 3..6 {
        db.insert_row(txn, "users", &row(id, &format!("user{}", id)), &fine()).unwrap();
    }
    assert_eq!(db.scan_rows(txn, "users").unwrap().len(), 5);
    let mut other = users();
    other.name = "others".to_string();
    db.create_schema(txn, other).unwrap();
    let mut wider = users();
    wider.columns.push(ColumnDef::new("age", ColumnType::Integer));
    db.add_column(txn, "users", "age", wider, &Value::Integer(7), &None, &vec![]).unwrap();
    db.drop_index(txn, "users", "idx_name").unwrap();
    let done = db.rollback(txn).unwrap();
    assert!(done.fault.is_none());
    let txn = db.begin().unwrap();
    assert!(db.get_schema(txn, "others").unwrap().is_none());
    let rows = db.scan_rows(txn, "users").unwrap();
    assert_eq!(rows.len(), 2);
    assert!(same_values(&rows[0].row, &row(1, "alice")));
    assert!(same_values(&rows[1].row, &row(2, "bob")));
    assert_eq!(
        db.lookup_index(txn, "users", "idx_name", &[text("bob")]).unwrap(),
        vec![RowId(2)]
    );
}

#[test]
fn rows_that_outgrow_a_page_are_refused() {
    let mut db = engine();
    let txn = db.begin().unwrap();
    db.create_schema(txn, users()).unwrap();
    let long = "x".repeat(2000);
    let refused = failure(db.insert_row(txn, "users", &row(1, &long), &fine()));
    assert!(refused.starts_with("payload of "));
    assert!(refused.contains(" bytes exceeds page capacity "));
    assert!(db.scan_rows(txn, "users").unwrap().is_empty());
}

#[test]
fn deleted_rows_are_purged_once_nobody_sees_them() {
    let mut db = engine();
    let txn = filled(&mut db);
    db.commit(txn, b"{}").unwrap();
    let txn = db.begin().unwrap();
    db.delete_row(txn, "users", RowId(1)).unwrap();
    let done = db.commit(txn, b"{}").unwrap();
    assert!(done.fault.is_none());
    assert!(done.plans.len() >= 2);
    assert_eq!(db.pager.transactions().history_list_length(), 0);
    let txn = db.begin().unwrap();
    assert_eq!(db.scan_rows(txn, "users").unwrap().len(), 1);
}

#[test]
fn committed_rows_survive_reopening() {
    let mut db = engine();
    let txn = filled(&mut db);
    let root = db.catalog.table_roots.get(&"users".to_string()).map(|r| *r).unwrap();
    db.commit(txn, b"{}").unwrap();
    let pager = Pager::open(Some(db.pager.file_pages()), None, OrdMap::new()).unwrap();
    let mut catalog = CatalogState::default();
    catalog.schemas.insert("users".to_string(), SharedSchema::new(users()));
    catalog.table_roots.insert("users".to_string(), root);
    catalog.next_row_ids.insert("users".to_string(), 3);
    let mut again = FileStorage::open(pager, catalog);
    let txn = again.begin().unwrap();
    let rows = again.scan_rows(txn, "users").unwrap();
    assert_eq!(rows.len(), 2);
    assert!(same_values(&rows[1].row, &row(2, "bob")));
    assert_eq!(again.insert_row(txn, "users", &row(3, "c"), &fine()).unwrap(), RowId(3));
}

#[test]
fn purged_rows_stay_gone_after_reopening() {
    let mut db = engine();
    let txn = filled(&mut db);
    db.commit(txn, b"{}").unwrap();
    let txn = db.begin().unwrap();
    db.delete_row(txn, "users", RowId(1)).unwrap();
    assert!(db.commit(txn, b"{}").unwrap().fault.is_none());
    let txn = db.begin().unwrap();
    db.insert_row(txn, "users", &row(3, "carol"), &fine()).unwrap();
    assert!(db.rollback(txn).unwrap().fault.is_none());
    let pager = Pager::open(Some(db.pager.file_pages()), None, OrdMap::new()).unwrap();
    let mut again = FileStorage::open(pager, db.catalog.duplicate());
    let txn = again.begin().unwrap();
    let rows = again.scan_rows(txn, "users").unwrap();
    assert_eq!(rows.len(), 1);
    assert!(same_values(&rows[0].row, &row(2, "bob")));
}

#[test]
fn tables_and_columns_are_changed() {
    let mut db = engine();
    let txn = filled(&mut db);
    assert_eq!(failure(db.create_schema(txn, users())), "table users already exists");
    assert_eq!(
        failure(db.add_column(txn, "users", "name", users(), &Value::Null, &None, &vec![])),
        "column already exists on table users: name"
    );
    let mut wider = users();
    wider.columns.push(ColumnDef::new("age", ColumnType::Integer));
    let shown = db.rows_with_column(txn, "users", "age", &Value::Null).unwrap();
    assert_eq!(shown.len(), 2);
    db.add_column(txn, "users", "age", wider, &Value::Integer(7), &None, &vec![]).unwrap();
    let got = db.get_row(txn, "users", RowId(2)).unwrap().unwrap();
    assert!(same_values(&got, &[Value::Integer(2), text("bob"), Value::Integer(7)]));
    assert_eq!(db.list_schemas(txn).unwrap().len(), 1);
    assert_eq!(db.list_indexes(txn, "users").unwrap().len(), 1);
    db.drop_index(txn, "users", "idx_name").unwrap();
    assert_eq!(
        failure(db.lookup_index(txn, "users", "idx_name", &[text("bob")])),
        "unknown index idx_name on table users"
    );
    db.drop_schema(txn, "users").unwrap();
    assert!(db.get_schema(txn, "users").unwrap().is_none());
    assert_eq!(
        failure(db.planning_catalog_snapshot(None, None)),
        "metadata snapshot requires the active transaction id while a transaction is open"
    );
    assert!(db.planning_catalog_snapshot(Some(txn), None).is_ok());
}

#[test]
fn serializable_readers_hold_off_writers() {
    let mut db = engine();
    let txn = filled(&mut db);
    db.commit(txn, b"{}").unwrap();
    let reader = db.begin_with_isolation(IsolationLevel::Serializable).unwrap();
    db.scan_rows(reader, "users").unwrap();
    let writer = db.begin().unwrap();
    let wait = failure(db.insert_row(writer, "users", &row(3, "carol"), &fine()));
    assert!(wait.contains("serializable conflict"), "{wait}");
    db.commit(reader, b"{}").unwrap();
    assert_eq!(db.insert_row(writer, "users", &row(3, "carol"), &fine()).unwrap(), RowId(3));
}

#[test]
fn statements_that_meet_a_held_page_are_taken_back_and_run_again() {
    let mut db = engine();
    let txn = filled(&mut db);
    db.commit(txn, b"{}").unwrap();
    let first = db.begin().unwrap();
    let second = db.begin().unwrap();
    assert_eq!(db.insert_row(first, "users", &row(3, "carol"), &fine()).unwrap(), RowId(3));
    let before = db.copy();
    let wait = db.insert_row(second, "users", &row(4, "dave"), &fine()).unwrap_err();
    let page = PageId(wait.page_waited_for().unwrap());
    db = before;
    assert_eq!(
        db.acquire_page_write_lock(second, page).unwrap_err().page_waited_for(),
        Some(page.0)
    );
    db.commit(first, b"{}").unwrap();
    db.acquire_page_write_lock(second, page).unwrap();
    assert_eq!(db.insert_row(second, "users", &row(4, "dave"), &fine()).unwrap(), RowId(4));
    db.commit(second, b"{}").unwrap();
    let reader = db.begin().unwrap();
    assert_eq!(db.scan_rows(reader, "users").unwrap().len(), 4);
}

#[test]
fn planners_are_told_of_tables_and_indexes() {
    let mut db = engine();
    let txn = filled(&mut db);
    let told = db.planning_context_snapshot(Some(txn), None).unwrap();
    assert_eq!(told.schemas.len(), 1);
    let metas = told.indexes.get(&"users".to_string()).unwrap();
    assert_eq!(metas.len(), 1);
    assert_eq!(metas[0].name, "idx_name");

    let mut first = first_engine();
    let txn = first.begin().unwrap();
    first.create_schema(txn, users()).unwrap();
    first.create_index(txn, "users", name_index(false)).unwrap();
    assert!(first.planning_context(None).is_err());
    let told = first.planning_context(Some(txn)).unwrap();
    assert_eq!(told.schemas.key_at(0), "users");
    assert_eq!(told.indexes.get(&"users".to_string()).unwrap()[0].columns, vec!["name".to_string()]);
}
