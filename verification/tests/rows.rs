use rustsql::common::ordmap::OrdMap;
use rustsql::common::ordset::OrdSet;
use rustsql::common::schema::{ColumnDef, ColumnType, IndexMeta, Schema};
use rustsql::common::value::{same_values, DbValue as Value, RowId, TransactionId};
use rustsql::v2::btree::{BTree, IndexTree};
use rustsql::v2::catalog::{load_catalog, store_catalog, CatalogState};
use rustsql::v2::codec::{
    append_row_version, decode_index_key, decode_row, decode_row_ids, encode_index_key, encode_row,
    encode_row_ids, encode_uncommitted_row_version, finalize_row_versions, mark_row_deleted,
    project_index_key, retained_versions, visible_row,
};
use rustsql::v2::page::{encode_payload_page, PageKind};
use rustsql::v2::pager::Pager;
use rustsql::v2::tx_types::TxnSnapshot;

fn text(s: &str) -> Value {
    Value::Text(s.to_string())
}

fn fresh() -> Pager {
    Pager::open(None, None, OrdMap::new()).unwrap()
}

fn snapshot(visible_up_to: u64, active: &[u64]) -> TxnSnapshot {
    let mut active_txns = OrdSet::new();
    for id in active {
        active_txns.insert(TransactionId(*id));
    }
    TxnSnapshot { visible_up_to, active_txns }
}

fn index(name: &str, columns: &[&str]) -> IndexMeta {
    IndexMeta {
        name: name.to_string(),
        columns: columns.iter().map(|c| c.to_string()).collect(),
        decorated_columns: None,
        unique: false,
        predicate: None,
    }
}

#[test]
fn inserts_and_reads_values_from_a_single_leaf() {
    let mut pager = fresh();
    let txn = pager.begin().unwrap();
    let mut tree = BTree::create(&mut pager, txn).unwrap();
    tree.insert(&mut pager, txn, 1, b"alice").unwrap();
    assert_eq!(tree.get(&pager, 1).unwrap(), Some(b"alice".to_vec()));
}

#[test]
fn splits_leaf_pages_and_preserves_sorted_scan_order() {
    let mut pager = fresh();
    let txn = pager.begin().unwrap();
    let mut tree = BTree::create(&mut pager, txn).unwrap();

    for key in 1..=64 {
        tree.insert(&mut pager, txn, key, format!("row-{key}").as_bytes()).unwrap();
    }

    let keys: Vec<u64> =
        tree.scan_all(&pager).unwrap().into_iter().map(|entry| entry.key).collect();
    assert_eq!(keys, (1..=64).collect::<Vec<_>>());
}

#[test]
fn delete_removes_visible_key_without_rebalancing() {
    let mut pager = fresh();
    let txn = pager.begin().unwrap();
    let mut tree = BTree::create(&mut pager, txn).unwrap();
    tree.insert(&mut pager, txn, 7, b"carol").unwrap();
    tree.delete(&mut pager, txn, 7).unwrap();
    assert_eq!(tree.get(&pager, 7).unwrap(), None);
}

#[test]
fn catalog_state_allocates_row_ids_monotonically() {
    let mut catalog = CatalogState::default();
    assert_eq!(catalog.allocate_row_id("users").0, 1);
    assert_eq!(catalog.allocate_row_id("users").0, 2);
    assert_eq!(catalog.allocate_row_id("orders").0, 1);
}

#[test]
fn index_key_and_rowid_list_codecs_roundtrip_values() {
    let key = vec![text("alice"), text("a@example.com"), Value::Boolean(true)];
    let row_ids = vec![RowId(1), RowId(7), RowId(11)];

    assert!(same_values(&decode_index_key(&encode_index_key(&key).unwrap()).unwrap(), &key));
    assert_eq!(decode_row_ids(&encode_row_ids(&row_ids).unwrap()).unwrap(), row_ids);
}

#[test]
fn project_index_key_extracts_values_in_index_column_order() {
    let schema = Schema::new(
        "users",
        vec![
            ColumnDef::primary_key("id", ColumnType::Integer),
            ColumnDef::new("email", ColumnType::Text),
            ColumnDef::new("name", ColumnType::Text),
        ],
    );
    let row = vec![Value::Integer(1), text("a@example.com"), text("alice")];
    let index = index("idx_users_name_email", &["name", "email"]);

    assert!(same_values(
        &project_index_key(&schema, &index, &row).unwrap(),
        &vec![text("alice"), text("a@example.com")]
    ));
}

#[test]
fn visible_row_hides_versions_from_transactions_active_in_snapshot() {
    let bytes = br#"{"versions":[{"row":[{"Integer":1},{"Text":"alice"}],"created_by_txn":7,"created_commit_ts":7,"deleted_by_txn":null,"deleted_commit_ts":null}]}"#;
    assert!(visible_row(bytes, 1, &snapshot(7, &[7])).unwrap().is_none());
    assert!(visible_row(bytes, 1, &snapshot(7, &[])).unwrap().is_some());
}

#[test]
fn mark_row_deleted_ignores_delete_from_transactions_active_in_snapshot() {
    let bytes = br#"{"versions":[{"row":[{"Integer":1},{"Text":"alice"}],"created_by_txn":3,"created_commit_ts":3,"deleted_by_txn":9,"deleted_commit_ts":9}]}"#;
    assert!(mark_row_deleted(bytes, 1, &snapshot(9, &[9])).unwrap().is_some());
    assert!(mark_row_deleted(bytes, 1, &snapshot(9, &[])).unwrap().is_none());
}

#[test]
fn row_and_schema_codecs_roundtrip_values() {
    let row = vec![Value::Integer(1), text("alice"), Value::Boolean(true)];
    assert!(same_values(&decode_row(&encode_row(&row).unwrap()).unwrap(), &row));
}

#[test]
fn codecs_reject_invalid_json_payloads() {
    assert!(decode_row(b"not-json").is_err());
}

#[test]
fn documents_of_another_shape_are_refused() {
    assert!(decode_row_ids(b"{}").is_err());
    assert!(decode_index_key(b"17").is_err());
}

#[test]
fn rows_are_written_as_tagged_values() {
    let row = vec![Value::Null, Value::Integer(-4), text("a\"b"), Value::Blob(vec![1, 2])];
    let bytes = encode_row(&row).unwrap();
    assert_eq!(
        String::from_utf8(bytes).unwrap(),
        r#"["Null",{"Integer":-4},{"Text":"a\"b"},{"Blob":[1,2]}]"#
    );
    assert_eq!(encode_row_ids(&[RowId(1), RowId(7)]).unwrap(), b"[1,7]".to_vec());
}

#[test]
fn uncommitted_rows_are_seen_by_their_maker_alone() {
    let row = vec![Value::Integer(1)];
    let bytes = encode_uncommitted_row_version(&row, 4).unwrap();
    assert!(visible_row(&bytes, 4, &snapshot(0, &[])).unwrap().is_some());
    assert!(visible_row(&bytes, 5, &snapshot(9, &[])).unwrap().is_none());
    let committed = finalize_row_versions(&bytes, 4, 6).unwrap();
    assert!(visible_row(&committed, 5, &snapshot(5, &[])).unwrap().is_none());
    assert!(visible_row(&committed, 5, &snapshot(6, &[])).unwrap().is_some());
}

#[test]
fn changes_are_seen_by_their_maker_and_not_by_others() {
    let bytes =
        finalize_row_versions(&encode_uncommitted_row_version(&vec![Value::Integer(1)], 4).unwrap(), 4, 1)
            .unwrap();
    let changed =
        append_row_version(&bytes, &vec![Value::Integer(2)], 5, &snapshot(1, &[])).unwrap().unwrap();
    let own = visible_row(&changed, 5, &snapshot(1, &[])).unwrap().unwrap();
    assert!(same_values(&own, &[Value::Integer(2)]));
    let other = visible_row(&changed, 6, &snapshot(1, &[5])).unwrap().unwrap();
    assert!(same_values(&other, &[Value::Integer(1)]));
}

#[test]
fn versions_that_nobody_sees_are_dropped() {
    let bytes =
        finalize_row_versions(&encode_uncommitted_row_version(&vec![Value::Integer(1)], 4).unwrap(), 4, 1)
            .unwrap();
    let deleted = mark_row_deleted(&bytes, 5, &snapshot(1, &[])).unwrap().unwrap();
    let gone = finalize_row_versions(&deleted, 5, 2).unwrap();
    assert!(retained_versions(&gone, 2).unwrap().is_none());
    assert!(retained_versions(&gone, 1).unwrap().is_some());
}

#[test]
fn missing_columns_are_named() {
    let schema = Schema::new("users", vec![ColumnDef::new("email", ColumnType::Text)]);
    let unknown = project_index_key(&schema, &index("i", &["name"]), &vec![text("x")]).unwrap_err();
    assert_eq!(unknown.message(), "unknown column name on table users");
    let short = project_index_key(&schema, &index("i", &["email"]), &vec![]).unwrap_err();
    assert_eq!(short.message(), "row for table users is missing column email");
}

#[test]
fn the_catalog_bytes_come_back_after_reopening() {
    let mut pager = fresh();
    assert_eq!(load_catalog(&pager).unwrap(), Vec::<u8>::new());
    let txn = pager.begin().unwrap();
    store_catalog(&mut pager, txn, br#"{"schemas":{}}"#).unwrap();
    pager.commit(txn).unwrap();
    let reopened =
        Pager::open(Some(pager.file_pages()), Some(Vec::new()), OrdMap::new()).unwrap();
    assert_eq!(load_catalog(&reopened).unwrap(), br#"{"schemas":{}}"#.to_vec());
}

#[test]
fn trees_hold_many_keys_in_any_order() {
    let mut pager = fresh();
    let txn = pager.begin().unwrap();
    let mut tree = BTree::create(&mut pager, txn).unwrap();
    for step in 0..400_u64 {
        let key = (step * 157) % 401;
        tree.insert(&mut pager, txn, key, format!("v{key}").as_bytes()).unwrap();
    }
    for step in 0..400_u64 {
        let key = (step * 157) % 401;
        assert_eq!(tree.get(&pager, key).unwrap(), Some(format!("v{key}").into_bytes()));
    }
    let keys: Vec<u64> = tree.scan_all(&pager).unwrap().into_iter().map(|e| e.key).collect();
    assert_eq!(keys.len(), 400);
    assert!(keys.windows(2).all(|w| w[0] < w[1]));
    tree.insert(&mut pager, txn, 3, b"new").unwrap();
    assert_eq!(tree.get(&pager, 3).unwrap(), Some(b"new".to_vec()));
    tree.delete(&mut pager, txn, 3).unwrap();
    assert_eq!(tree.get(&pager, 3).unwrap(), None);
    assert_eq!(tree.scan_all(&pager).unwrap().len(), 399);
}

#[test]
fn index_trees_order_keys_by_bytes() {
    let mut pager = fresh();
    let txn = pager.begin().unwrap();
    let mut tree = IndexTree::create(&mut pager, txn).unwrap();
    for key in ["b", "a", "ab", ""] {
        tree.insert(&mut pager, txn, key.as_bytes(), key.as_bytes()).unwrap();
    }
    let keys: Vec<Vec<u8>> =
        tree.scan_all(&pager).unwrap().into_iter().map(|e| e.value).collect();
    assert_eq!(keys, vec![b"".to_vec(), b"a".to_vec(), b"ab".to_vec(), b"b".to_vec()]);
    tree.delete(&mut pager, txn, b"ab").unwrap();
    assert_eq!(tree.get(&pager, b"ab").unwrap(), None);
    assert_eq!(tree.get(&pager, b"a").unwrap(), Some(b"a".to_vec()));
}

#[test]
fn commits_and_purges_leave_snapshots_alone() {
    let first =
        finalize_row_versions(&encode_uncommitted_row_version(&vec![Value::Integer(1)], 4).unwrap(), 4, 1)
            .unwrap();
    let changed =
        append_row_version(&first, &vec![Value::Integer(2)], 5, &snapshot(1, &[])).unwrap().unwrap();
    let committed = finalize_row_versions(&changed, 5, 2).unwrap();
    let earlier = visible_row(&committed, 6, &snapshot(1, &[5])).unwrap().unwrap();
    assert!(same_values(&earlier, &[Value::Integer(1)]));
    let later = visible_row(&committed, 7, &snapshot(2, &[])).unwrap().unwrap();
    assert!(same_values(&later, &[Value::Integer(2)]));
    let purged = retained_versions(&committed, 2).unwrap().unwrap();
    assert_ne!(purged, committed);
    let after = visible_row(&purged, 7, &snapshot(2, &[])).unwrap().unwrap();
    assert!(same_values(&after, &[Value::Integer(2)]));
}

#[test]
fn versions_may_be_written_as_lists() {
    let expected = vec![Value::Integer(1), text("alice")];
    let named = br#"{"versions":[[[{"Integer":1},{"Text":"alice"}],3,3,null,null]]}"#;
    let got = visible_row(named, 1, &snapshot(9, &[])).unwrap().unwrap();
    assert!(same_values(&got, &expected));
    let listed = br#"[[{"row":[{"Integer":1},{"Text":"alice"}],"created_by_txn":3,"created_commit_ts":3}]]"#;
    let got = visible_row(listed, 1, &snapshot(9, &[])).unwrap().unwrap();
    assert!(same_values(&got, &expected));
    assert!(visible_row(listed, 1, &snapshot(2, &[])).unwrap().is_none());
    let short = br#"{"versions":[[[{"Integer":1},{"Text":"alice"}],3,3,null]]}"#;
    assert!(visible_row(short, 1, &snapshot(9, &[])).is_err());
    let long = br#"[[[[{"Integer":1}],3,3,null,null,null]]]"#;
    assert!(visible_row(long, 1, &snapshot(9, &[])).is_err());
    let alone = visible_row(br#"[{"Integer":1}]"#, 1, &snapshot(0, &[])).unwrap().unwrap();
    assert!(same_values(&alone, &[Value::Integer(1)]));
}

#[test]
fn nodes_may_be_written_as_lists() {
    let mut pager = fresh();
    let txn = pager.begin().unwrap();
    let tree = BTree::create(&mut pager, txn).unwrap();
    let root = tree.root_page_id();
    let listed = br#"{"Leaf":[[[3,[118]],{"key":4,"value":[119]}],null]}"#;
    pager.write_page(txn, root, encode_payload_page(PageKind::Leaf, listed).unwrap()).unwrap();
    assert_eq!(tree.get(&pager, 3).unwrap(), Some(b"v".to_vec()));
    assert_eq!(tree.get(&pager, 4).unwrap(), Some(b"w".to_vec()));
    assert_eq!(tree.get(&pager, 5).unwrap(), None);
    let short = br#"{"Leaf":[[[3,[118]]]]}"#;
    pager.write_page(txn, root, encode_payload_page(PageKind::Leaf, short).unwrap()).unwrap();
    assert!(tree.get(&pager, 3).is_err());
}
