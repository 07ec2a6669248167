use rustsql::common::ordmap::OrdMap;
use rustsql::v2::page::{empty_page, PageId, PageKind, PAGE_SIZE};
use rustsql::v2::pager::{CommitPlan, PageImage, Pager};

fn fresh() -> Pager {
    Pager::open(None, None, OrdMap::new()).unwrap()
}

fn reopen(pager: &Pager) -> Pager {
    Pager::open(Some(pager.file_pages()), Some(Vec::new()), pager.shared_pages()).unwrap()
}

fn write_through(file: &mut Vec<PageImage>, plan: &CommitPlan) {
    for (id, bytes) in &plan.pages {
        let at = id.0 as usize;
        while file.len() <= at {
            file.push(PageImage { bytes: vec![0_u8; PAGE_SIZE] });
        }
        file[at] = PageImage { bytes: bytes.clone() };
    }
}

#[test]
fn pager_initializes_new_database_and_reopens_meta_page() {
    let pager = fresh();
    let meta = pager.meta().unwrap();
    assert_eq!(meta.page_count, 2);
    assert_eq!(meta.catalog_page_id, PageId(1));

    let reopened = reopen(&pager);
    let meta = reopened.meta().unwrap();
    assert_eq!(meta.page_count, 2);
    assert_eq!(meta.catalog_page_id, PageId(1));
}

#[test]
fn rollback_discards_dirty_pages() {
    let mut pager = fresh();
    let txn = pager.begin().unwrap();
    let page_id = pager.allocate_page(txn).unwrap();
    pager.write_page(txn, page_id, vec![9_u8; PAGE_SIZE]).unwrap();
    pager.rollback(txn).unwrap();

    let reopened = reopen(&pager);
    assert!(reopened.read_page(page_id).is_err());
}

#[test]
fn rollback_restores_page_count_after_uncommitted_allocation() {
    let mut pager = fresh();

    let txn = pager.begin().unwrap();
    let page_id = pager.allocate_page(txn).unwrap();
    assert_eq!(page_id, PageId(2));
    assert_eq!(pager.meta().unwrap().page_count, 3);

    pager.rollback(txn).unwrap();
    assert_eq!(pager.meta().unwrap().page_count, 2);

    let next_txn = pager.begin().unwrap();
    assert_eq!(pager.allocate_page(next_txn).unwrap(), PageId(2));
}

#[test]
fn open_replays_committed_wal_frames() {
    let mut pager = fresh();
    let txn = pager.begin().unwrap();
    let page_id = pager.allocate_page(txn).unwrap();
    pager.write_page(txn, page_id, vec![5_u8; PAGE_SIZE]).unwrap();
    pager.commit(txn).unwrap();

    let reopened = reopen(&pager);
    assert_eq!(reopened.read_page(page_id).unwrap()[0], 5);
}

#[test]
fn concurrent_transactions_share_dirty_pages_before_commit() {
    let mut pager = fresh();

    let setup_txn = pager.begin().unwrap();
    let page_id = pager.allocate_page(setup_txn).unwrap();
    let mut committed_page = empty_page(PageKind::Leaf);
    committed_page[16] = 7;
    pager.write_page(setup_txn, page_id, committed_page.clone()).unwrap();
    pager.commit(setup_txn).unwrap();

    let txn1 = pager.begin().unwrap();
    let _txn2 = pager.begin().unwrap();

    let mut updated_page = empty_page(PageKind::Leaf);
    updated_page[16] = 9;
    pager.write_page(txn1, page_id, updated_page.clone()).unwrap();

    assert_eq!(pager.read_page(page_id).unwrap()[16], 9);
}

#[test]
fn rollback_restores_shared_page_after_uncommitted_write() {
    let mut pager = fresh();

    let setup_txn = pager.begin().unwrap();
    let page_id = pager.allocate_page(setup_txn).unwrap();
    let mut committed_page = empty_page(PageKind::Leaf);
    committed_page[16] = 4;
    pager.write_page(setup_txn, page_id, committed_page.clone()).unwrap();
    pager.commit(setup_txn).unwrap();

    let txn = pager.begin().unwrap();
    let mut updated_page = empty_page(PageKind::Leaf);
    updated_page[16] = 8;
    pager.write_page(txn, page_id, updated_page).unwrap();
    assert_eq!(pager.read_page(page_id).unwrap()[16], 8);

    pager.rollback(txn).unwrap();
    assert_eq!(pager.read_page(page_id).unwrap()[16], 4);
}

#[test]
fn commit_does_not_publish_uncommitted_pages_from_other_transactions() {
    let mut pager = fresh();

    let txn1 = pager.begin().unwrap();
    let txn2 = pager.begin().unwrap();

    let committed_page = pager.allocate_page(txn1).unwrap();
    pager.write_page(txn1, committed_page, empty_page(PageKind::Leaf)).unwrap();

    let uncommitted_page = pager.allocate_page(txn2).unwrap();
    pager.write_page(txn2, uncommitted_page, empty_page(PageKind::Leaf)).unwrap();

    let plan = pager.commit(txn1).unwrap();
    assert!(plan.pages.iter().all(|(id, _)| *id != uncommitted_page));

    let reopened = reopen(&pager);
    assert!(reopened.read_page(committed_page).is_ok());
    assert!(reopened.read_page(uncommitted_page).is_ok());

    pager.rollback(txn2).unwrap();

    let reopened_after_rollback = reopen(&pager);
    assert!(reopened_after_rollback.read_page(uncommitted_page).is_err());
}

#[test]
fn detects_deadlock_between_page_writers() {
    let mut pager = fresh();

    let setup_txn = pager.begin().unwrap();
    let left_page = pager.allocate_page(setup_txn).unwrap();
    pager.write_page(setup_txn, left_page, empty_page(PageKind::Leaf)).unwrap();
    let right_page = pager.allocate_page(setup_txn).unwrap();
    pager.write_page(setup_txn, right_page, empty_page(PageKind::Leaf)).unwrap();
    pager.commit(setup_txn).unwrap();

    let txn1 = pager.begin().unwrap();
    let txn2 = pager.begin().unwrap();

    pager.write_page(txn1, left_page, empty_page(PageKind::Leaf)).unwrap();
    pager.write_page(txn2, right_page, empty_page(PageKind::Leaf)).unwrap();

    let first_wait = pager.acquire_page_write_lock(txn1, right_page).unwrap_err();
    assert!(first_wait.message().contains("page write conflict"));

    let deadlock = pager.acquire_page_write_lock(txn2, left_page).unwrap_err();
    assert!(deadlock.message().contains("deadlock"));
}

#[test]
fn deadlock_victim_rollback_cleans_local_page_state() {
    let mut pager = fresh();

    let setup_txn = pager.begin().unwrap();
    let left_page = pager.allocate_page(setup_txn).unwrap();
    pager.write_page(setup_txn, left_page, empty_page(PageKind::Leaf)).unwrap();
    let right_page = pager.allocate_page(setup_txn).unwrap();
    pager.write_page(setup_txn, right_page, empty_page(PageKind::Leaf)).unwrap();
    pager.commit(setup_txn).unwrap();

    let txn1 = pager.begin().unwrap();
    let txn2 = pager.begin().unwrap();

    let mut left_update = empty_page(PageKind::Leaf);
    left_update[24] = 1;
    pager.write_page(txn1, left_page, left_update).unwrap();

    let mut right_update = empty_page(PageKind::Leaf);
    right_update[24] = 2;
    pager.write_page(txn2, right_page, right_update).unwrap();

    pager.acquire_page_write_lock(txn1, right_page).unwrap_err();

    let deadlock = pager.acquire_page_write_lock(txn2, left_page).unwrap_err();
    assert!(deadlock.message().contains("deadlock"));

    pager.cleanup_aborted_transaction_state(txn2);

    pager.write_page(txn1, right_page, empty_page(PageKind::Leaf)).unwrap();
    assert_eq!(pager.read_page(right_page).unwrap()[24], 0);
}

#[test]
fn a_second_writer_of_a_page_has_to_wait_until_the_first_commits() {
    let mut pager = fresh();
    let setup = pager.begin().unwrap();
    let page_id = pager.allocate_page(setup).unwrap();
    pager.write_page(setup, page_id, empty_page(PageKind::Leaf)).unwrap();
    pager.commit(setup).unwrap();

    let first = pager.begin().unwrap();
    let second = pager.begin().unwrap();
    pager.write_page(first, page_id, empty_page(PageKind::Leaf)).unwrap();
    let wait = pager.write_page(second, page_id, empty_page(PageKind::Leaf)).unwrap_err();
    assert!(wait.is_write_wait());
    pager.commit(first).unwrap();
    pager.write_page(second, page_id, empty_page(PageKind::Leaf)).unwrap();
    pager.commit(second).unwrap();
}

#[test]
fn a_commit_survives_a_crash_before_its_pages_are_written() {
    let mut pager = fresh();
    let before = pager.file_pages();
    let txn = pager.begin().unwrap();
    let page_id = pager.allocate_page(txn).unwrap();
    pager.write_page(txn, page_id, vec![5_u8; PAGE_SIZE]).unwrap();
    let plan = pager.commit(txn).unwrap();

    let crashed = Pager::open(Some(before), Some(plan.log.clone()), OrdMap::new()).unwrap();
    assert_eq!(crashed.read_page(page_id).unwrap(), vec![5_u8; PAGE_SIZE]);
    assert_eq!(crashed.meta().unwrap().page_count, 3);
}

#[test]
fn a_torn_log_leaves_the_file_as_it_was() {
    let mut pager = fresh();
    let before = pager.file_pages();
    let txn = pager.begin().unwrap();
    let page_id = pager.allocate_page(txn).unwrap();
    pager.write_page(txn, page_id, vec![5_u8; PAGE_SIZE]).unwrap();
    let plan = pager.commit(txn).unwrap();

    let torn = plan.log[..plan.log.len() - 1].to_vec();
    let crashed = Pager::open(Some(before), Some(torn), OrdMap::new()).unwrap();
    assert!(crashed.read_page(page_id).is_err());
    assert_eq!(crashed.meta().unwrap().page_count, 2);
}

#[test]
fn cut_logs_recover_what_they_still_hold() {
    let mut pager = fresh();
    let before = pager.file_pages();
    let mut log: Vec<u8> = Vec::new();
    let mut written: Vec<PageId> = Vec::new();
    for byte in [5_u8, 6] {
        let txn = pager.begin().unwrap();
        let page_id = pager.allocate_page(txn).unwrap();
        pager.write_page(txn, page_id, vec![byte; PAGE_SIZE]).unwrap();
        log.extend(pager.commit(txn).unwrap().log);
        written.push(page_id);
    }
    let copied: Vec<PageImage> =
        before.iter().map(|p| PageImage { bytes: p.bytes.clone() }).collect();
    let whole = Pager::open(Some(copied), Some(log.clone()), OrdMap::new()).unwrap();
    assert_eq!(whole.read_page(written[1]).unwrap(), vec![6_u8; PAGE_SIZE]);
    log.pop();
    let cut = Pager::open(Some(before), Some(log), OrdMap::new()).unwrap();
    assert_eq!(cut.read_page(written[0]).unwrap(), vec![5_u8; PAGE_SIZE]);
    assert!(cut.read_page(written[1]).is_err());
}

#[test]
fn the_pages_of_a_plan_make_the_file() {
    let mut pager = fresh();
    let mut file = pager.file_pages();
    let txn = pager.begin().unwrap();
    let page_id = pager.allocate_leaf_page(txn).unwrap();
    let mut page = empty_page(PageKind::Leaf);
    page[16] = 3;
    pager.write_page(txn, page_id, page.clone()).unwrap();
    let plan = pager.commit(txn).unwrap();
    write_through(&mut file, &plan);

    let reopened = Pager::open(Some(file), None, OrdMap::new()).unwrap();
    assert_eq!(reopened.read_page(page_id).unwrap(), page);
}

#[test]
fn writes_are_checked() {
    let mut pager = fresh();
    let txn = pager.begin().unwrap();
    let error = pager.write_page(txn, PageId(1), vec![0_u8; 7]).unwrap_err();
    assert_eq!(error.message(), "storage_v2 page writes require exactly 4096 bytes");
    let error = pager.write_page(txn, PageId(40), vec![0_u8; PAGE_SIZE]).unwrap_err();
    assert_eq!(error.message(), "page 40 is out of bounds for database with 2 pages");
    let error = pager.write_page(99, PageId(1), vec![0_u8; PAGE_SIZE]).unwrap_err();
    assert_eq!(error.message(), "transaction 99 is not active");
    let error = pager.read_page(PageId(40)).unwrap_err();
    assert_eq!(error.message(), "page 40 is out of bounds for database with 2 pages");
    let error = pager.begin_with_txn_id(txn).unwrap_err();
    assert_eq!(error.message(), format!("transaction {txn} is already active"));
}

#[test]
fn pending_writes_tell_before_and_after() {
    let mut pager = fresh();
    let txn = pager.begin().unwrap();
    let mut page = empty_page(PageKind::Catalog);
    page[16] = 1;
    pager.write_page(txn, PageId(1), page.clone()).unwrap();
    let writes = pager.pending_page_writes(txn).unwrap();
    assert_eq!(writes.len(), 1);
    assert_eq!(writes[0].page_id, PageId(1));
    assert_eq!(writes[0].after_image, page);
    assert_eq!(writes[0].before_image.as_ref().unwrap()[16], 0);
}
