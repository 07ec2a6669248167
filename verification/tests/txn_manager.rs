use rustsql::common::ordmap::OrdMap;
use rustsql::common::value::{CompareOp, DbValue as Value, IsolationLevel, RowId, TransactionId};
use rustsql::v2::locks::IndexKey;
use rustsql::v2::page::PageId;
use rustsql::v2::tx_types::{PageWriteSetEntry, TxnStatus, UndoRecord};
use rustsql::v2::txn_manager::{PurgeItem, TxnManager};

fn text(s: &str) -> Value {
    Value::Text(s.to_string())
}

fn active_key(key: Vec<Value>) -> IndexKey {
    IndexKey { index: "idx_users_active_name".to_string(), key }
}

#[test]
fn txn_manager_allows_multiple_active_transactions() {
    let mut manager = TxnManager::new();

    let t1 = manager.begin(IsolationLevel::RepeatableRead);
    let t2 = manager.begin(IsolationLevel::ReadCommitted);

    assert_ne!(t1, t2);
    assert_eq!(manager.get(t1).unwrap().status, TxnStatus::Active);
    assert_eq!(manager.get(t2).unwrap().status, TxnStatus::Active);
}

#[test]
fn txn_manager_refreshes_read_committed_snapshot() {
    let mut manager = TxnManager::new();
    let t1 = manager.begin(IsolationLevel::ReadCommitted);
    let t2 = manager.begin(IsolationLevel::ReadCommitted);

    let commit_ts = manager.commit(t2).unwrap();
    let snapshot = manager.refresh_snapshot(t1).unwrap();

    assert_eq!(snapshot.visible_up_to, commit_ts);
    assert!(!snapshot.active_txns.contains(&t2));
}

#[test]
fn txn_manager_can_register_external_transaction_ids() {
    let mut manager = TxnManager::with_next_txn_id(10);

    manager
        .begin_with_id(TransactionId(12), IsolationLevel::Serializable)
        .unwrap();
    let next = manager.begin(IsolationLevel::ReadCommitted);

    assert_eq!(next, TransactionId(13));
    assert_eq!(
        manager.get(TransactionId(12)).unwrap().isolation_level,
        IsolationLevel::Serializable
    );
}

#[test]
fn txn_manager_tracks_page_write_metadata() {
    let mut manager = TxnManager::new();
    let txn = manager.begin(IsolationLevel::Serializable);

    manager
        .replace_page_write_set(
            txn,
            vec![PageWriteSetEntry {
                page_id: PageId(3),
                before_image: Some(vec![1, 2, 3]),
                after_image: vec![4, 5, 6],
            }],
        )
        .unwrap();

    let write_set = manager.page_write_set(txn).unwrap();
    assert!(
        write_set
            .touched_pages
            .contains(&PageId(3))
    );
    assert_eq!(write_set.page_writes.len(), 1);
    assert_eq!(write_set.page_writes[0].after_image, vec![4, 5, 6]);
}

#[test]
fn gap_lock_blocks_insert_into_protected_range() {
    let mut manager = TxnManager::new();
    let reader = manager.begin(IsolationLevel::Serializable);
    let writer = manager.begin(IsolationLevel::ReadCommitted);

    manager
        .acquire_gap_lock(
            reader,
            "users",
            "idx_users_active_name",
            &[Value::Boolean(true)],
            Some((CompareOp::Gte, &text("alice"))),
            Some((CompareOp::Lte, &text("carol"))),
        )
        .unwrap();

    let error = manager
        .check_write_conflicts(
            writer,
            "users",
            &[active_key(vec![Value::Boolean(true), text("bob")])],
        )
        .unwrap_err();

    assert!(error.message().contains("serializable conflict"));
}

#[test]
fn page_write_lock_blocks_second_writer_on_same_page() {
    let mut manager = TxnManager::new();
    let writer1 = manager.begin(IsolationLevel::ReadCommitted);
    let writer2 = manager.begin(IsolationLevel::ReadCommitted);

    manager
        .acquire_page_write(writer1, PageId(9))
        .unwrap();

    let error = manager
        .acquire_page_write(writer2, PageId(9))
        .unwrap_err();
    assert!(error.message().contains("page write conflict"));
}

#[test]
fn page_write_wait_cycle_reports_deadlock() {
    let mut manager = TxnManager::new();
    let writer1 = manager.begin(IsolationLevel::ReadCommitted);
    let writer2 = manager.begin(IsolationLevel::ReadCommitted);

    manager
        .acquire_page_write(writer1, PageId(1))
        .unwrap();
    manager
        .acquire_page_write(writer2, PageId(2))
        .unwrap();

    let first_wait = manager
        .acquire_page_write(writer1, PageId(2))
        .unwrap_err();
    assert!(first_wait.message().contains("page write conflict"));

    let deadlock = manager
        .acquire_page_write(writer2, PageId(1))
        .unwrap_err();
    assert!(deadlock.message().contains("deadlock"));
}

#[test]
fn release_transaction_resources_frees_page_write_locks() {
    let mut manager = TxnManager::new();
    let writer1 = manager.begin(IsolationLevel::ReadCommitted);
    let writer2 = manager.begin(IsolationLevel::ReadCommitted);

    manager
        .acquire_page_write(writer1, PageId(4))
        .unwrap();
    manager.release_transaction_resources(writer1).unwrap();

    manager
        .acquire_page_write(writer2, PageId(4))
        .unwrap();
}

#[test]
fn page_write_wait_queue_grants_lock_in_fifo_order() {
    let mut manager = TxnManager::new();
    let writer1 = manager.begin(IsolationLevel::ReadCommitted);
    let writer2 = manager.begin(IsolationLevel::ReadCommitted);
    let writer3 = manager.begin(IsolationLevel::ReadCommitted);
    let page_id = PageId(5);

    manager.acquire_page_write(writer1, page_id).unwrap();

    let writer2_wait = manager.acquire_page_write(writer2, page_id).unwrap_err();
    assert!(writer2_wait.message().contains("page write conflict"));

    let writer3_wait = manager.acquire_page_write(writer3, page_id).unwrap_err();
    assert!(writer3_wait.message().contains("page write conflict"));

    manager.release_transaction_resources(writer1).unwrap();

    let writer3_still_waiting = manager.acquire_page_write(writer3, page_id).unwrap_err();
    assert!(
        writer3_still_waiting
            .message().contains("page write wait")
    );

    manager.acquire_page_write(writer2, page_id).unwrap();
}

#[test]
fn deadlock_aborts_requesting_page_writer_and_releases_its_locks() {
    let mut manager = TxnManager::new();
    let writer1 = manager.begin(IsolationLevel::ReadCommitted);
    let writer2 = manager.begin(IsolationLevel::ReadCommitted);
    let left_page = PageId(6);
    let right_page = PageId(7);

    manager.acquire_page_write(writer1, left_page).unwrap();
    manager.acquire_page_write(writer2, right_page).unwrap();

    manager.acquire_page_write(writer1, right_page).unwrap_err();

    let deadlock = manager.acquire_page_write(writer2, left_page).unwrap_err();
    assert!(deadlock.message().contains("deadlock"));
    assert!(deadlock.message().contains("victim"));
    assert_eq!(manager.get(writer2).unwrap().status, TxnStatus::Aborted);

    manager.acquire_page_write(writer1, right_page).unwrap();
}

#[test]
fn deadlock_prefers_lower_cost_victim_even_when_requester_finds_cycle() {
    let mut manager = TxnManager::new();
    let writer1 = manager.begin(IsolationLevel::ReadCommitted);
    let writer2 = manager.begin(IsolationLevel::ReadCommitted);
    let left_page = PageId(16);
    let right_page = PageId(17);

    manager.acquire_page_write(writer1, left_page).unwrap();
    manager.acquire_page_write(writer2, right_page).unwrap();
    manager
        .record_undo(
            writer2,
            UndoRecord::PageWrite {
                page_id: PageId(99),
            },
        )
        .unwrap();
    manager
        .record_undo(
            writer2,
            UndoRecord::PageWrite {
                page_id: PageId(100),
            },
        )
        .unwrap();

    manager.acquire_page_write(writer1, right_page).unwrap_err();

    manager.acquire_page_write(writer2, left_page).unwrap();
    assert_eq!(manager.status(writer1).unwrap(), TxnStatus::Aborted);
    assert_eq!(manager.status(writer2).unwrap(), TxnStatus::Active);
}

#[test]
fn predicate_write_wait_queue_grants_retry_in_fifo_order() {
    let mut manager = TxnManager::new();
    let reader = manager.begin(IsolationLevel::Serializable);
    let writer1 = manager.begin(IsolationLevel::ReadCommitted);
    let writer2 = manager.begin(IsolationLevel::ReadCommitted);

    manager
        .acquire_gap_lock(
            reader,
            "users",
            "idx_users_active_name",
            &[Value::Boolean(true)],
            Some((CompareOp::Gte, &text("alice"))),
            Some((CompareOp::Lte, &text("carol"))),
        )
        .unwrap();

    let writer1_wait = manager
        .check_write_conflicts(
            writer1,
            "users",
            &[active_key(vec![Value::Boolean(true), text("bob")])],
        )
        .unwrap_err();
    assert!(writer1_wait.message().contains("serializable conflict"));

    let writer2_wait = manager
        .check_write_conflicts(
            writer2,
            "users",
            &[active_key(vec![Value::Boolean(true), text("bob")])],
        )
        .unwrap_err();
    assert!(writer2_wait.message().contains("serializable conflict"));

    manager.release_transaction_resources(reader).unwrap();

    let writer2_still_waiting = manager
        .check_write_conflicts(
            writer2,
            "users",
            &[active_key(vec![Value::Boolean(true), text("bob")])],
        )
        .unwrap_err();
    assert!(
        writer2_still_waiting
            .message().contains("predicate write wait")
    );

    manager
        .check_write_conflicts(
            writer1,
            "users",
            &[active_key(vec![Value::Boolean(true), text("bob")])],
        )
        .unwrap();
}

#[test]
fn deadlock_between_page_and_predicate_locks_aborts_victim() {
    let mut manager = TxnManager::new();
    let writer1 = manager.begin(IsolationLevel::ReadCommitted);
    let reader2 = manager.begin(IsolationLevel::Serializable);
    let page_id = PageId(12);

    manager.acquire_page_write(writer1, page_id).unwrap();
    manager
        .acquire_gap_lock(
            reader2,
            "users",
            "idx_users_active_name",
            &[Value::Boolean(true)],
            Some((CompareOp::Gte, &text("alice"))),
            Some((CompareOp::Lte, &text("carol"))),
        )
        .unwrap();

    let predicate_wait = manager
        .check_write_conflicts(
            writer1,
            "users",
            &[active_key(vec![Value::Boolean(true), text("bob")])],
        )
        .unwrap_err();
    assert!(predicate_wait.message().contains("serializable conflict"));

    let deadlock = manager.acquire_page_write(reader2, page_id).unwrap_err();
    assert!(deadlock.message().contains("deadlock"));
    assert!(deadlock.message().contains("victim"));
    assert_eq!(manager.status(reader2).unwrap(), TxnStatus::Aborted);

    manager
        .check_write_conflicts(
            writer1,
            "users",
            &[active_key(vec![Value::Boolean(true), text("bob")])],
        )
        .unwrap();
}

#[test]
fn deadlock_victim_abort_releases_predicate_locks_for_other_writers() {
    let mut manager = TxnManager::new();
    let reader1 = manager.begin(IsolationLevel::Serializable);
    let writer2 = manager.begin(IsolationLevel::ReadCommitted);
    let writer3 = manager.begin(IsolationLevel::ReadCommitted);
    let page_id = PageId(13);

    manager
        .acquire_gap_lock(
            reader1,
            "users",
            "idx_users_active_name",
            &[Value::Boolean(true)],
            Some((CompareOp::Gte, &text("alice"))),
            Some((CompareOp::Lte, &text("carol"))),
        )
        .unwrap();
    manager.acquire_page_write(writer2, page_id).unwrap();

    manager
        .check_write_conflicts(
            writer2,
            "users",
            &[active_key(vec![Value::Boolean(true), text("bob")])],
        )
        .unwrap_err();
    manager
        .record_undo(
            writer2,
            UndoRecord::PageWrite {
                page_id: PageId(130),
            },
        )
        .unwrap();

    let deadlock = manager.acquire_page_write(reader1, page_id).unwrap_err();
    assert!(deadlock.message().contains("deadlock"));
    assert_eq!(manager.status(reader1).unwrap(), TxnStatus::Aborted);

    let writer3_wait = manager
        .check_write_conflicts(
            writer3,
            "users",
            &[active_key(vec![Value::Boolean(true), text("bob")])],
        )
        .unwrap_err();
    assert!(writer3_wait.message().contains("predicate write wait"));

    manager
        .check_write_conflicts(
            writer2,
            "users",
            &[active_key(vec![Value::Boolean(true), text("bob")])],
        )
        .unwrap();
}

#[test]
fn txn_manager_tracks_fine_grained_undo_records_in_order() {
    let mut manager = TxnManager::new();
    let txn = manager.begin(IsolationLevel::RepeatableRead);

    manager
        .record_undo(
            txn,
            UndoRecord::InsertRow {
                table: "users".to_string(),
                row_id: RowId(7),
            },
        )
        .unwrap();
    manager
        .record_undo(
            txn,
            UndoRecord::IndexInsert {
                table: "users".to_string(),
                index: "idx_users_email".to_string(),
                row_id: RowId(7),
                key: vec![text("alice@example.com")],
            },
        )
        .unwrap();

    let undo_records = manager.undo_records(txn).unwrap();
    assert_eq!(undo_records.len(), 2);
    assert!(matches!(
        &undo_records[0],
        UndoRecord::InsertRow { table, row_id }
            if table == "users" && *row_id == RowId(7)
    ));
    assert!(matches!(
        &undo_records[1],
        UndoRecord::IndexInsert { index, .. } if index == "idx_users_email"
    ));
}

#[test]
fn txn_manager_takes_undo_records_in_reverse_order_and_clears_them() {
    let mut manager = TxnManager::new();
    let txn = manager.begin(IsolationLevel::RepeatableRead);

    manager
        .record_undo(
            txn,
            UndoRecord::InsertRow {
                table: "users".to_string(),
                row_id: RowId(1),
            },
        )
        .unwrap();
    manager
        .record_undo(
            txn,
            UndoRecord::IndexInsert {
                table: "users".to_string(),
                index: "idx_users_email".to_string(),
                row_id: RowId(1),
                key: vec![text("a@example.com")],
            },
        )
        .unwrap();

    let undo_records = manager.take_undo_records(txn).unwrap();
    assert_eq!(undo_records.len(), 2);
    assert!(matches!(
        &undo_records[0],
        UndoRecord::IndexInsert { index, .. } if index == "idx_users_email"
    ));
    assert!(matches!(
        &undo_records[1],
        UndoRecord::InsertRow { table, .. } if table == "users"
    ));
    assert!(manager.undo_records(txn).unwrap().is_empty());
}

#[test]
fn purge_finished_transactions_keeps_history_newer_than_horizon() {
    let mut manager = TxnManager::new();
    let committed_old = manager.begin(IsolationLevel::ReadCommitted);
    let committed_new = manager.begin(IsolationLevel::ReadCommitted);

    let committed_old_ts = manager.commit(committed_old).unwrap();
    let committed_new_ts = manager.commit(committed_new).unwrap();

    manager.purge_finished_transactions_up_to(committed_old_ts);

    assert!(manager.get(committed_old).is_err());
    assert_eq!(
        manager.get(committed_new).unwrap().commit_ts,
        Some(committed_new_ts)
    );
}

#[test]
fn history_list_length_counts_retained_finished_undo_logs() {
    let mut manager = TxnManager::new();
    let txn = manager.begin(IsolationLevel::ReadCommitted);

    manager
        .record_undo(
            txn,
            UndoRecord::DeleteRow {
                table: "users".to_string(),
                row_id: RowId(1),
                previous_bytes: vec![1],
            },
        )
        .unwrap();
    manager
        .record_undo(
            txn,
            UndoRecord::DeleteRow {
                table: "users".to_string(),
                row_id: RowId(2),
                previous_bytes: vec![2],
            },
        )
        .unwrap();

    let commit_ts = manager.commit(txn).unwrap();
    assert_eq!(manager.history_list_length(), 2);

    let planned_batch = manager.planned_purge_batch(commit_ts, 8);
    manager.complete_purge_batch(&planned_batch).unwrap();
    manager.purge_finished_transactions_up_to(commit_ts);
    assert_eq!(manager.history_list_length(), 0);
}

#[test]
fn table_intention_locks_allow_is_and_ix_but_block_exclusive() {
    let mut manager = TxnManager::new();
    let reader = manager.begin(IsolationLevel::ReadCommitted);
    let writer = manager.begin(IsolationLevel::ReadCommitted);
    let ddl = manager.begin(IsolationLevel::ReadCommitted);

    manager
        .acquire_table_intention_read(reader, "users")
        .unwrap();
    manager
        .acquire_table_intention_write(writer, "users")
        .unwrap();

    let wait = manager.acquire_table_exclusive(ddl, "users").unwrap_err();
    assert!(wait.message().contains("table lock wait"));

    manager.release_transaction_resources(reader).unwrap();
    manager.release_transaction_resources(writer).unwrap();

    manager.acquire_table_exclusive(ddl, "users").unwrap();
}

#[test]
fn table_lock_wait_cycle_reports_deadlock() {
    let mut manager = TxnManager::new();
    let txn1 = manager.begin(IsolationLevel::ReadCommitted);
    let txn2 = manager.begin(IsolationLevel::ReadCommitted);

    manager.acquire_table_exclusive(txn1, "users").unwrap();
    manager.acquire_table_exclusive(txn2, "orders").unwrap();

    let wait = manager.acquire_table_exclusive(txn1, "orders").unwrap_err();
    assert!(wait.message().contains("table lock"));

    let deadlock = manager.acquire_table_exclusive(txn2, "users").unwrap_err();
    assert!(deadlock.message().contains("deadlock"));
    assert_eq!(manager.status(txn2).unwrap(), TxnStatus::Aborted);
}

fn deletion(table: &str, id: u64) -> UndoRecord {
    UndoRecord::DeleteRow { table: table.to_string(), row_id: RowId(id), previous_bytes: vec![7] }
}

fn named(batch: &[PurgeItem]) -> Vec<(u64, u64)> {
    batch
        .iter()
        .map(|item| match &item.record {
            UndoRecord::DeleteRow { row_id, .. } => (item.txn_id.0, row_id.0),
            _ => panic!("only deletions are purged"),
        })
        .collect()
}

#[test]
fn numbers_stamps_and_row_numbers_grow() {
    let mut manager = TxnManager::new();
    let first = manager.begin(IsolationLevel::ReadCommitted);
    assert_eq!(manager.allocate_row_id(first, "users", 5).unwrap(), RowId(5));
    manager.abort(first).unwrap();
    let second = manager.begin(IsolationLevel::ReadCommitted);
    assert!(second > first);
    assert_eq!(manager.allocate_row_id(second, "users", 1).unwrap(), RowId(6));
    let stamp = manager.commit(second).unwrap();
    let third = manager.begin(IsolationLevel::ReadCommitted);
    assert!(manager.commit(third).unwrap() > stamp);
    assert!(manager.commit(third).is_err());
    assert!(manager.abort(second).is_err());
    assert_eq!(manager.status(first).unwrap(), TxnStatus::Aborted);
    assert_eq!(manager.status(second).unwrap(), TxnStatus::Committed);
}

#[test]
fn known_row_numbers_are_never_lowered() {
    let mut manager = TxnManager::new();
    let txn = manager.begin(IsolationLevel::ReadCommitted);
    let mut counters: OrdMap<String, u64> = OrdMap::new();
    counters.insert("users".to_string(), 40);
    manager.sync_next_row_ids(&counters);
    manager.sync_next_row_ids(&counters);
    assert_eq!(manager.allocate_row_id(txn, "users", 1).unwrap(), RowId(40));
    counters.insert("users".to_string(), 7);
    manager.sync_next_row_ids(&counters);
    assert_eq!(manager.allocate_row_id(txn, "users", 1).unwrap(), RowId(41));
}

#[test]
fn smaller_batches_start_larger_ones() {
    let mut manager = TxnManager::new();
    let first = manager.begin(IsolationLevel::ReadCommitted);
    let second = manager.begin(IsolationLevel::ReadCommitted);
    manager.record_undo(first, deletion("users", 1)).unwrap();
    manager.record_undo(second, deletion("users", 2)).unwrap();
    manager.record_undo(second, deletion("users", 3)).unwrap();
    manager.commit(second).unwrap();
    let horizon = manager.commit(first).unwrap();
    let all = manager.planned_purge_batch(horizon, 8);
    assert_eq!(named(&all), vec![(second.0, 2), (second.0, 3), (first.0, 1)]);
    let some = manager.planned_purge_batch(horizon, 2);
    assert_eq!(named(&some), named(&all)[..2].to_vec());
    manager.complete_purge_batch(&some).unwrap();
    assert_eq!(named(&manager.planned_purge_batch(horizon, 8)), named(&all)[2..].to_vec());
}

#[test]
fn gaps_hold_off_what_lies_inside_them_alone() {
    let mut manager = TxnManager::new();
    let reader = manager.begin(IsolationLevel::Serializable);
    let writer = manager.begin(IsolationLevel::ReadCommitted);
    manager
        .acquire_gap_lock(
            reader,
            "users",
            "idx_users_active_name",
            &[Value::Boolean(true)],
            Some((CompareOp::Gte, &text("b"))),
            Some((CompareOp::Lt, &text("d"))),
        )
        .unwrap();
    for (name, free) in [("a", true), ("b", false), ("c", false), ("d", true)] {
        let key = active_key(vec![Value::Boolean(true), text(name)]);
        assert_eq!(manager.check_write_conflicts(writer, "users", &[key]).is_ok(), free, "{name}");
    }
    let other = active_key(vec![Value::Boolean(false), text("c")]);
    assert!(manager.check_write_conflicts(writer, "users", &[other]).is_ok());
    let own = active_key(vec![Value::Boolean(true), text("bb")]);
    assert!(manager.check_write_conflicts(reader, "users", &[own]).is_ok());
}
