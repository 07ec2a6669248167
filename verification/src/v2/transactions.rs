//! Beginning, committing and rolling back transactions, and purging what nobody sees any
//! more.

use vstd::prelude::*;

use crate::common::bytes::same_bytes;
use crate::common::error::{bare, DbError, DbResult, ErrorCode, ErrorView};
use crate::common::ordmap::{lemma_ascending_unique, Duplicate, OrdMap};
use crate::common::ordset::{lemma_is_sorted, sorted};
use crate::common::value::{IsolationLevel, RowId, TransactionId};
use crate::v2::btree::BTree;
use crate::v2::catalog::{catalog_stored, store_catalog, CatalogModel, CatalogState};
use crate::v2::codec::{
    encode_index_key, finalize_row_versions, finalized_bytes, kept_bytes, retained_versions, Held,
};
use crate::v2::page::PageId;
use crate::v2::pager::{is_snapshot, lemma_waits_kept, step, CommitPlan, PageWriteSnapshot, Pager};
use crate::v2::pager_model::{aborted, CommitView, PagerModel, WriteView};
use crate::v2::storage::{
    engine_step, fault_view, remove_row_id_from_index_entry, upsert_index_entry, FileStorage,
};
use crate::v2::storage_model::{
    entry_added, entry_removed, index_of, key_bytes, table_of, StorageModel,
};
use crate::v2::purged_rows::{
    lemma_purge_closed, lemma_purge_counted, lemma_records_clean_all, lemma_records_clean_none,
    lemma_records_clean_one, lemma_row_cleaned, lemma_row_gone, lemma_row_kept, lemma_row_missing,
    lemma_row_same, record_cleaned, records_clean, records_cleaned, row_cleans, tables_cleaned,
};
use crate::v2::settling::{
    all_settled, lemma_catalog_beside, lemma_commit_keeps_rows, lemma_settles_all,
    lemma_settles_none, lemma_settles_one, lemma_tables_settle_all, lemma_tables_settle_none,
    lemma_tables_settle_one, made_ready, pages_published, published, settled, settles, stamp_of,
    tables_settle, tables_settled,
};
use crate::v2::tables::{lemma_same_trees, rows_in, same_trees, stored, Tables};
use crate::v2::tree::{all_entries, found, removed_below, tree_put, MAX_PAGES};
use crate::v2::tree_node::{EntryView, LeafEntry};
use crate::v2::tree_shape::{grown, tree_became, tree_holds};
use crate::v2::tx_types::{
    image_view, PageWriteSetEntry, PageWriteView, TxnStatus, TxnView, UndoRecord, UndoView,
    WriteSetView,
};
use crate::v2::txn_laws::lemma_purge_completed_follows;
use crate::v2::txn_manager::{committed_at, PurgeItem};
use crate::v2::txn_model::{not_active, TxnModel};
use crate::v2::undo_laws::{cached, counted};
use crate::v2::wait_graph::waits_of;
use crate::v2::waiting::{
    followed, lemma_begun_unwaiting, lemma_no_blockers, lemma_records_purged,
    lemma_released_unwaiting, unwaiting,
};

verus! {

// ---------------------------------------------------------------------------
// Models

/// What a transaction has written, in the order of the pages.
pub open spec fn write_list(writes: Map<PageId, WriteView>) -> Seq<PageWriteView> {
    sorted::<PageId>(writes.dom()).map_values(
        |p: PageId|
            PageWriteView {
                page_id: p,
                before_image: writes[p].before_image,
                after_image: writes[p].after_image,
            },
    )
}

/// The purge horizon.
pub open spec fn horizon_of(m: TxnModel) -> u64 {
    choose|h: u64| m.is_purge_horizon(h)
}

/// How many records are purged at a time: one more for each time that there are twice as
/// many, up to eight.
pub open spec fn batch_size(records: nat) -> nat {
    if records < 2 {
        1
    } else if records < 4 {
        2
    } else if records < 8 {
        3
    } else if records < 16 {
        4
    } else if records < 32 {
        5
    } else if records < 64 {
        6
    } else if records < 128 {
        7
    } else {
        8
    }
}

/// The transactions once one has taken the next commit timestamp.
pub open spec fn stamp_taken(m: TxnModel, txn: TransactionId) -> (TxnModel, Result<u64, ErrorView>) {
    if m.next_commit_ts == u64::MAX {
        (m, Err(bare(ErrorCode::CommitStampsUsedUp)))
    } else {
        match m.activity_error(txn) {
            Some(e) => (m, Err(e)),
            None => {
                let ts = (m.next_commit_ts + 1) as u64;
                (TxnModel { next_commit_ts: ts, ..m }, Ok(ts))
            },
        }
    }
}

/// The transactions once one is marked as committed.
pub open spec fn marked_committed(m: TxnModel, txn: TransactionId, ts: u64) -> (
    TxnModel,
    Result<(), ErrorView>,
) {
    if m.is_active(txn) {
        (m.with_txn(txn, committed_at(m.txns[txn], ts)), Ok(()))
    } else {
        (m, Err(not_active(txn)))
    }
}

/// What a commit or a rollback leaves to be written to the file, and what went wrong
/// afterwards.
#[verifier::ext_equal]
pub struct FinishedView {
    pub plans: Seq<CommitView>,
    pub fault: Option<ErrorView>,
}

impl StorageModel {
    /// The engine once a transaction has begun.
    pub open spec fn began(self, level: IsolationLevel) -> (
        StorageModel,
        Result<TransactionId, ErrorView>,
    ) {
        match self.pager.begun(level) {
            (p, Err(e)) => (self.with_pager(p), Err(e)),
            (p, Ok(id)) => (
                StorageModel {
                    pager: p,
                    sessions: self.sessions.insert(TransactionId(id), self.catalog),
                    ..self
                },
                Ok(TransactionId(id)),
            ),
        }
    }

    /// The engine once a transaction knows which pages it has written.
    pub open spec fn writes_synced(self, txn: TransactionId) -> (
        StorageModel,
        Result<(), ErrorView>,
    ) {
        if !self.pager.knows(txn.0) {
            (self, Err(bare(ErrorCode::TxnNotActive(txn.0))))
        } else if !self.pager.txns.txns.dom().contains(txn) {
            (self, Err(not_active(txn)))
        } else {
            let list = write_list(self.pager.txn_page_states[txn.0]);
            let state = self.pager.txns.txns[txn];
            (
                self.with_txns(
                    self.pager.txns.with_txn(
                        txn,
                        TxnView {
                            write_set: WriteSetView {
                                touched_pages: list.map_values(
                                    |w: PageWriteView| w.page_id,
                                ).to_set(),
                                page_writes: list,
                            },
                            ..state
                        },
                    ),
                ),
                Ok(()),
            )
        }
    }

    /// The engine with ended transactions cleared away.
    pub open spec fn tidy(self, horizon: u64) -> StorageModel {
        self.with_txns(self.pager.txns.purged(horizon))
    }
}

/// The pager once the commit of a transaction is noted in a row, and the root of the table
/// then.
pub open spec fn row_finalized(
    m: PagerModel,
    txn: u64,
    ts: u64,
    root: PageId,
    entry: EntryView<u64>,
) -> (PagerModel, Result<PageId, ErrorView>) {
    match finalized_bytes(entry.value, txn, ts) {
        Err(e) => (m, Err(e)),
        Ok(bytes) => if bytes == entry.value {
            (m, Ok(root))
        } else {
            tree_put::<u64>(m, txn, root, entry.key, bytes)
        },
    }
}

/// The pager once the commit of a transaction is noted in rows of a table, from one on.
pub open spec fn rows_finalized_from(
    m: PagerModel,
    txn: u64,
    ts: u64,
    root: PageId,
    entries: Seq<EntryView<u64>>,
    i: int,
) -> (PagerModel, Result<(), ErrorView>)
    decreases entries.len() - i,
{
    if i < 0 || i >= entries.len() {
        (m, Ok(()))
    } else {
        match row_finalized(m, txn, ts, root, entries[i]) {
            (a, Err(e)) => (a, Err(e)),
            (a, Ok(next)) => rows_finalized_from(a, txn, ts, next, entries, i + 1),
        }
    }
}

/// The pager once the commit of a transaction is noted in the rows of a table.
pub open spec fn table_finalized(m: PagerModel, txn: u64, ts: u64, root: PageId) -> (
    PagerModel,
    Result<(), ErrorView>,
) {
    match all_entries::<u64>(m, root) {
        Err(e) => (m, Err(e)),
        Ok(entries) => rows_finalized_from(m, txn, ts, root, entries, 0),
    }
}

/// The pager once the commit of a transaction is noted in the rows of tables, from one on.
pub open spec fn tables_finalized_from(
    m: PagerModel,
    txn: u64,
    ts: u64,
    roots: Map<Seq<char>, PageId>,
    names: Seq<Seq<char>>,
    i: int,
) -> (PagerModel, Result<(), ErrorView>)
    decreases names.len() - i,
{
    if i < 0 || i >= names.len() {
        (m, Ok(()))
    } else {
        match table_finalized(m, txn, ts, roots[names[i]]) {
            (a, Err(e)) => (a, Err(e)),
            (a, Ok(_)) => tables_finalized_from(a, txn, ts, roots, names, i + 1),
        }
    }
}

/// The pager once the commit of a transaction is noted in the rows of all tables.
pub open spec fn all_tables_finalized(
    m: PagerModel,
    txn: u64,
    ts: u64,
    roots: Map<Seq<char>, PageId>,
) -> (PagerModel, Result<(), ErrorView>) {
    tables_finalized_from(m, txn, ts, roots, sorted::<String>(roots.dom()), 0)
}

/// The pager once one change of a transaction is taken back.
pub open spec fn change_undone(m: PagerModel, c: CatalogModel, txn: u64, record: UndoView) -> (
    PagerModel,
    Result<(), ErrorView>,
) {
    match record {
        UndoView::PageWrite { .. } => (m, Ok(())),
        UndoView::InsertRow { table, row_id } => match table_of(c, table) {
            Err(_) => (m, Ok(())),
            Ok((_, root)) => removed_below::<u64>(m, txn, root, row_id.0, MAX_PAGES as nat),
        },
        UndoView::DeleteRow { table, row_id, previous_bytes } => match table_of(c, table) {
            Err(_) => (m, Ok(())),
            Ok((_, root)) => without_value(
                tree_put::<u64>(m, txn, root, row_id.0, previous_bytes),
            ),
        },
        UndoView::IndexInsert { table, index, row_id, key } => match index_of(c, table, index) {
            Err(_) => (m, Ok(())),
            Ok(slot) => without_value(entry_removed(m, txn, slot.root, key_bytes(key), row_id)),
        },
        UndoView::IndexDelete { table, index, row_id, key } => match index_of(c, table, index) {
            Err(_) => (m, Ok(())),
            Ok(slot) => without_value(entry_added(m, txn, slot.root, key_bytes(key), row_id)),
        },
    }
}

/// A step whose value does not matter.
pub open spec fn without_value<T>(r: (PagerModel, Result<T, ErrorView>)) -> (
    PagerModel,
    Result<(), ErrorView>,
) {
    match r.1 {
        Ok(_) => (r.0, Ok(())),
        Err(e) => (r.0, Err(e)),
    }
}

/// The pager once changes of a transaction are taken back, from one on.
pub open spec fn changes_undone_from(
    m: PagerModel,
    c: CatalogModel,
    txn: u64,
    records: Seq<UndoView>,
    i: int,
) -> (PagerModel, Result<(), ErrorView>)
    decreases records.len() - i,
{
    if i < 0 || i >= records.len() {
        (m, Ok(()))
    } else {
        match change_undone(m, c, txn, records[i]) {
            (a, Err(e)) => (a, Err(e)),
            (a, Ok(_)) => changes_undone_from(a, c, txn, records, i + 1),
        }
    }
}

/// The pager once the versions of a deleted row that nobody wants are dropped.
pub open spec fn row_purged(
    m: PagerModel,
    c: CatalogModel,
    txn: u64,
    table: Seq<char>,
    id: RowId,
    horizon: u64,
) -> (PagerModel, Result<(), ErrorView>) {
    match table_of(c, table) {
        Err(_) => (m, Ok(())),
        Ok((_, root)) => match found::<u64>(m, root, id.0) {
            Err(e) => (m, Err(e)),
            Ok(None) => (m, Ok(())),
            Ok(Some(bytes)) => match kept_bytes(bytes, horizon) {
                Err(e) => (m, Err(e)),
                Ok(None) => removed_below::<u64>(m, txn, root, id.0, MAX_PAGES as nat),
                Ok(Some(kept)) => if kept == bytes {
                    (m, Ok(()))
                } else {
                    without_value(tree_put::<u64>(m, txn, root, id.0, kept))
                },
            },
        },
    }
}

/// The pager once planned records are purged, from one on.
pub open spec fn records_purged_from(
    m: PagerModel,
    c: CatalogModel,
    txn: u64,
    horizon: u64,
    records: Seq<(TransactionId, UndoView)>,
    i: int,
) -> (PagerModel, Result<(), ErrorView>)
    decreases records.len() - i,
{
    if i < 0 || i >= records.len() {
        (m, Ok(()))
    } else {
        let step = match records[i].1 {
            UndoView::DeleteRow { table, row_id, .. } => row_purged(
                m,
                c,
                txn,
                table,
                row_id,
                horizon,
            ),
            _ => (m, Ok(())),
        };
        match step {
            (a, Err(e)) => (a, Err(e)),
            (a, Ok(_)) => records_purged_from(a, c, txn, horizon, records, i + 1),
        }
    }
}

impl StorageModel {
    /// The engine once a purge is over: its transaction is committed, and its records are
    /// struck off. Says what is to be written, and what went wrong.
    pub open spec fn purge_closed(
        self,
        txn: TransactionId,
        horizon: u64,
        records: Seq<(TransactionId, UndoView)>,
    ) -> (StorageModel, FinishedView) {
        match stamp_taken(self.pager.txns, txn) {
            (t, Err(e)) => (
                self.with_txns(t),
                FinishedView { plans: Seq::empty(), fault: Some(e) },
            ),
            (t, Ok(ts)) => {
                let marked = self.with_txns(t.with_txn(txn, committed_at(t.txns[txn], ts)));
                match marked.pager.committed(txn.0) {
                    (p, Err(e)) => (
                        marked.with_pager(p),
                        FinishedView { plans: Seq::empty(), fault: Some(e) },
                    ),
                    (p, Ok(plan)) => match p.txns.purge_completed(records) {
                        (u, Err(e)) => (
                            marked.with_pager(p.with_txns(u)),
                            FinishedView { plans: seq![plan], fault: Some(e) },
                        ),
                        (u, Ok(_)) => (
                            marked.with_pager(p.with_txns(u.purged(horizon))),
                            FinishedView { plans: seq![plan], fault: None },
                        ),
                    },
                }
            },
        }
    }

    /// The engine once a purge has failed: what it did is taken back, unless all epochs of lock
    /// waits are used up.
    pub open spec fn purge_failed(self, txn: TransactionId, horizon: u64) -> StorageModel {
        if self.pager.txns.lock_wait_epoch == u64::MAX {
            self
        } else {
            let p = self.pager.rolled_back(txn.0).0;
            self.with_pager(p.with_txns(aborted(p.txns, txn.0).purged(horizon)))
        }
    }

    /// The engine once records are purged in a transaction of their own.
    pub open spec fn batch_purged(
        self,
        horizon: u64,
        records: Seq<(TransactionId, UndoView)>,
    ) -> (StorageModel, FinishedView) {
        match self.pager.begun(IsolationLevel::ReadCommitted) {
            (p, Err(e)) => (
                self.with_pager(p).tidy(horizon),
                FinishedView { plans: Seq::empty(), fault: Some(e) },
            ),
            (p, Ok(id)) => match records_purged_from(p, self.catalog, id, horizon, records, 0) {
                (q, Ok(_)) => self.with_pager(q).purge_closed(TransactionId(id), horizon, records),
                (q, Err(e)) => (
                    self.with_pager(q).purge_failed(TransactionId(id), horizon),
                    FinishedView { plans: Seq::empty(), fault: Some(e) },
                ),
            },
        }
    }

    /// The engine once some of what nobody sees any more is purged, if there is any.
    pub open spec fn garbage_purged(self) -> (StorageModel, FinishedView) {
        let horizon = horizon_of(self.pager.txns);
        let a = self.tidy(horizon);
        let nothing = FinishedView { plans: Seq::empty(), fault: None };
        let history = a.pager.txns.history_length();
        if history == 0 {
            (a, nothing)
        } else {
            let records = a.pager.txns.purge_plan(horizon, batch_size(history));
            if records.len() == 0 {
                (a.tidy(horizon), nothing)
            } else {
                a.batch_purged(horizon, records)
            }
        }
    }

    /// The engine once the rows and the catalog of a transaction are ready to be committed.
    pub open spec fn commit_prepared(self, txn: TransactionId, ts: u64, catalog: Seq<u8>) -> (
        StorageModel,
        Result<(), ErrorView>,
    ) {
        match all_tables_finalized(self.pager, txn.0, ts, self.catalog.table_roots) {
            (p, Err(e)) => (self.with_pager(p), Err(e)),
            (p, Ok(_)) => match catalog_stored(p, txn.0, catalog) {
                (q, Err(e)) => (self.with_pager(q), Err(e)),
                (q, Ok(_)) => (self.with_pager(q), Ok(())),
            },
        }
    }

    /// The engine once a transaction is committed at a timestamp.
    pub open spec fn commit_closed(self, txn: TransactionId, ts: u64) -> (
        StorageModel,
        Result<FinishedView, ErrorView>,
    ) {
        match self.pager.committed(txn.0) {
            (p, Err(e)) => (self.with_pager(p), Err(e)),
            (p, Ok(plan)) => match marked_committed(p.txns, txn, ts) {
                (t, Err(e)) => (
                    self.with_pager(p.with_txns(t)),
                    Ok(FinishedView { plans: seq![plan], fault: Some(e) }),
                ),
                (t, Ok(_)) => {
                    let done = StorageModel {
                        pager: p.with_txns(t),
                        sessions: self.sessions.remove(txn),
                        ..self
                    };
                    let (after, purge) = done.garbage_purged();
                    (
                        after,
                        Ok(FinishedView { plans: seq![plan] + purge.plans, fault: purge.fault }),
                    )
                },
            },
        }
    }

    /// The engine once a transaction is committed, with the bytes of the catalog.
    pub open spec fn committed(self, txn: TransactionId, catalog: Seq<u8>) -> (
        StorageModel,
        Result<FinishedView, ErrorView>,
    ) {
        match self.idle(txn) {
            Some(e) => (self, Err(e)),
            None => match self.writes_synced(txn) {
                (a, Err(e)) => (a, Err(e)),
                (a, Ok(_)) => match stamp_taken(a.pager.txns, txn) {
                    (t, Err(e)) => (a.with_txns(t), Err(e)),
                    (t, Ok(ts)) => match a.with_txns(t).commit_prepared(txn, ts, catalog) {
                        (b, Err(e)) => (b, Err(e)),
                        (b, Ok(_)) => b.commit_closed(txn, ts),
                    },
                },
            },
        }
    }

    /// The engine once the changes of a transaction are taken back one by one.
    pub open spec fn undo_replayed(self, txn: TransactionId) -> (
        StorageModel,
        Result<(), ErrorView>,
    ) {
        if !self.pager.txns.txns.dom().contains(txn) {
            (self, Err(not_active(txn)))
        } else {
            let state = self.pager.txns.txns[txn];
            let taken = self.pager.with_txns(
                self.pager.txns.with_txn(txn, TxnView { undo_records: Seq::empty(), ..state }),
            );
            match changes_undone_from(
                taken,
                self.catalog,
                txn.0,
                state.undo_records.reverse(),
                0,
            ) {
                (p, r) => (self.with_pager(p), r),
            }
        }
    }

    /// The engine once an active transaction is rolled back.
    pub open spec fn active_rolled_back(self, txn: TransactionId) -> (
        StorageModel,
        Result<(), ErrorView>,
    ) {
        match self.writes_synced(txn) {
            (a, Err(e)) => (a, Err(e)),
            (a, Ok(_)) => match a.undo_replayed(txn) {
                (b, Err(e)) => (b, Err(e)),
                (b, Ok(_)) => match b.pager.rolled_back(txn.0) {
                    (p, Err(e)) => (b.with_pager(p), Err(e)),
                    (p, Ok(_)) => if p.txns.is_active(txn) {
                        (b.with_pager(p.with_txns(aborted(p.txns, txn.0))), Ok(()))
                    } else {
                        (b.with_pager(p), Err(not_active(txn)))
                    },
                },
            },
        }
    }

    /// The engine once a transaction that was aborted is forgotten.
    pub open spec fn aborted_rolled_back(self, txn: TransactionId) -> StorageModel {
        let state = self.pager.txns.txns[txn];
        self.with_txns(
            self.pager.txns.with_txn(
                txn,
                TxnView { undo_records: Seq::empty(), terminal_error: None, ..state },
            ),
        )
    }

    /// The engine with the catalog as it was when a transaction began.
    pub open spec fn session_closed(self, txn: TransactionId) -> StorageModel {
        StorageModel {
            catalog: if self.sessions.dom().contains(txn) {
                self.sessions[txn]
            } else {
                self.catalog
            },
            sessions: self.sessions.remove(txn),
            ..self
        }
    }

    /// The engine once a transaction is over: the catalog is as it was when it began, and
    /// some garbage is purged.
    pub open spec fn session_ended(self, txn: TransactionId) -> (StorageModel, FinishedView) {
        self.session_closed(txn).garbage_purged()
    }

    /// The engine once a transaction is rolled back, before any garbage is purged.
    pub open spec fn turned_back(self, txn: TransactionId) -> StorageModel {
        if self.pager.txns.txns[txn].status == TxnStatus::Active {
            self.active_rolled_back(txn).0.session_closed(txn)
        } else {
            self.aborted_rolled_back(txn).session_closed(txn)
        }
    }

    /// The engine once a transaction is rolled back.
    pub open spec fn rolled_back(self, txn: TransactionId) -> (
        StorageModel,
        Result<FinishedView, ErrorView>,
    ) {
        if !self.pager.txns.txns.dom().contains(txn) {
            (self, Err(not_active(txn)))
        } else {
            match self.pager.txns.txns[txn].status {
                TxnStatus::Committed => (self, Err(not_active(txn))),
                TxnStatus::Active => match self.active_rolled_back(txn) {
                    (a, Err(e)) => (a, Err(e)),
                    (a, Ok(_)) => {
                        let (b, f) = a.session_ended(txn);
                        (b, Ok(f))
                    },
                },
                TxnStatus::Aborted => {
                    let (b, f) = self.aborted_rolled_back(txn).session_ended(txn);
                    (b, Ok(f))
                },
            }
        }
    }
}

// ---------------------------------------------------------------------------
// Purging

/// What a commit or a rollback leaves to be written to the file, and what went wrong
/// afterwards.
pub struct Finished {
    pub plans: Vec<CommitPlan>,
    pub fault: Option<DbError>,
}

impl View for Finished {
    type V = FinishedView;

    open spec fn view(&self) -> FinishedView {
        FinishedView {
            plans: Seq::new(self.plans@.len(), |i: int| self.plans@[i]@),
            fault: fault_view(self.fault),
        }
    }
}

fn finished(fault: Option<DbError>) -> (r: Finished)
    ensures
        r@ == (FinishedView { plans: Seq::empty(), fault: fault_view(fault) }),
{
    let r = Finished { plans: Vec::new(), fault };
    assert(r@.plans =~= Seq::<CommitView>::empty());
    r
}

fn finished_with(plan: CommitPlan, fault: Option<DbError>) -> (r: Finished)
    ensures
        r@ == (FinishedView { plans: seq![plan@], fault: fault_view(fault) }),
{
    let mut plans: Vec<CommitPlan> = Vec::new();
    plans.push(plan);
    let r = Finished { plans, fault };
    assert(r@.plans =~= seq![plan@]);
    r
}

/// The purge horizon is the only one of its kind.
pub proof fn lemma_horizon(m: TxnModel, h: u64)
    requires
        m.is_purge_horizon(h),
    ensures
        horizon_of(m) == h,
{
    let other = horizon_of(m);
    assert(m.is_purge_horizon(other));
    if exists|t: TransactionId| #[trigger] m.is_active(t) {
        let a = choose|t: TransactionId| #[trigger]
            m.is_active(t) && h == m.txns[t].snapshot.visible_up_to;
        let b = choose|t: TransactionId| #[trigger]
            m.is_active(t) && other == m.txns[t].snapshot.visible_up_to;
        assert(m.is_active(a) && m.is_active(b));
    }
}

fn size_of_batch(records: u128) -> (r: usize)
    ensures
        r == batch_size(records as nat),
{
    if records < 2 {
        1
    } else if records < 4 {
        2
    } else if records < 8 {
        3
    } else if records < 16 {
        4
    } else if records < 32 {
        5
    } else if records < 64 {
        6
    } else if records < 128 {
        7
    } else {
        8
    }
}

impl Pager {
    fn tidy_transactions(&mut self, horizon: u64)
        requires
            old(self)@.sound(),
        ensures
            final(self)@ == old(self)@.with_txns(old(self)@.txns.purged(horizon)),
            final(self)@.sound(),
    {
        let ghost start = self@;
        self.txns_mut().purge_finished_transactions_up_to(horizon);
        proof {
            lemma_waits_kept(start.txns, self@.txns);
        }
    }

    fn abort_quietly(&mut self, txn_id: TransactionId)
        requires
            old(self)@.sound(),
            !old(self)@.txns.is_active(txn_id) || unwaiting(old(self)@.txns, txn_id),
        ensures
            final(self)@ == old(self)@.with_txns(aborted(old(self)@.txns, txn_id.0)),
            final(self)@.sound(),
    {
        let ghost start = self@;
        assert(start =~= start.with_txns(start.txns));
        let _ = self.txns_mut().abort(txn_id);
        proof {
            lemma_waits_kept(start.txns, self@.txns);
        }
    }

    fn take_stamp(&mut self, txn_id: TransactionId) -> (r: DbResult<u64>)
        requires
            old(self)@.sound(),
        ensures
            ({
                let model = stamp_taken(old(self)@.txns, txn_id);
                step(r, final(self)@, (old(self)@.with_txns(model.0), model.1))
            }),
            final(self)@.sound(),
    {
        let ghost start = self@;
        assert(start =~= start.with_txns(start.txns));
        if self.transactions().last_stamp() == u64::MAX {
            return Err(DbError::bare(ErrorCode::CommitStampsUsedUp));
        }
        let r = self.txns_mut().reserve_commit_ts(txn_id);
        proof {
            lemma_waits_kept(start.txns, self@.txns);
            assert(self@ =~= start.with_txns(stamp_taken(start.txns, txn_id).0));
        }
        r
    }

    fn mark_committed(&mut self, txn_id: TransactionId, ts: u64) -> (r: DbResult<()>)
        requires
            old(self)@.sound(),
            unwaiting(old(self)@.txns, txn_id),
        ensures
            ({
                let model = marked_committed(old(self)@.txns, txn_id, ts);
                step(r, final(self)@, (old(self)@.with_txns(model.0), model.1))
            }),
            final(self)@.sound(),
    {
        let ghost start = self@;
        assert(start =~= start.with_txns(start.txns));
        let r = self.txns_mut().finalize_commit(txn_id, ts);
        proof {
            lemma_waits_kept(start.txns, self@.txns);
            assert(self@ =~= start.with_txns(marked_committed(start.txns, txn_id, ts).0));
        }
        match r {
            Ok(_) => Ok(()),
            Err(e) => Err(e),
        }
    }

    fn strike_off(&mut self, records: &Vec<PurgeItem>) -> (r: DbResult<()>)
        requires
            old(self)@.sound(),
        ensures
            final(self)@ == old(self)@.with_txns(
                old(self)@.txns.purge_completed(records.deep_view()).0,
            ),
            match r {
                Ok(_) => old(self)@.txns.purge_completed(records.deep_view()).1 is Ok,
                Err(e) => old(self)@.txns.purge_completed(records.deep_view()).1 == Err::<
                    (),
                    ErrorView,
                >(e@),
            },
            final(self)@.sound(),
    {
        let ghost start = self@;
        let slice = records.as_slice();
        assert(slice.deep_view() =~= records.deep_view());
        let r = self.txns_mut().complete_purge_batch(slice);
        proof {
            lemma_purge_completed_follows(start.txns, slice.deep_view());
            lemma_waits_kept(start.txns, self@.txns);
        }
        r
    }
}

// ---------------------------------------------------------------------------
// Rows

fn finalize_row(pager: &mut Pager, txn_id: u64, ts: u64, root: PageId, entry: &LeafEntry<u64>) -> (r:
    DbResult<PageId>)
    requires
        old(pager)@.sound(),
    ensures
        step(r, final(pager)@, row_finalized(old(pager)@, txn_id, ts, root, entry.deep_view())),
        forall|h: Held|
            entry.value@ == #[trigger] h.bytes() ==> finalized_bytes(entry.value@, txn_id, ts)
                == Ok::<_, ErrorView>(settled(h, txn_id, ts).bytes()),
        forall|pages: Set<PageId>, c: Map<u64, Seq<u8>>| #[trigger]
            tree_holds::<u64>(old(pager)@, root, pages, c) && c.dom().contains(entry.key) && r is Ok
                && (finalized_bytes(entry.value@, txn_id, ts)->Ok_0 == entry.value@
                ==> c[entry.key] == entry.value@) ==> r->Ok_0 == root && tree_became::<u64>(
                old(pager)@,
                pages,
                final(pager)@,
                root,
                c.insert(entry.key, finalized_bytes(entry.value@, txn_id, ts)->Ok_0),
            ),
        final(pager)@.sound(),
{
    let bytes = finalize_row_versions(entry.value.as_slice(), txn_id, ts)?;
    if same_bytes(bytes.as_slice(), entry.value.as_slice()) {
        proof {
            assert forall|pages: Set<PageId>, c: Map<u64, Seq<u8>>| #[trigger]
                tree_holds::<u64>(pager@, root, pages, c) && c.dom().contains(entry.key)
                    && c[entry.key] == entry.value@ implies tree_became::<u64>(
                pager@,
                pages,
                pager@,
                root,
                c.insert(entry.key, bytes@),
            ) by {
                assert(c.insert(entry.key, bytes@) =~= c);
                assert(grown(pager@, pages, pager@, pages));
            }
        }
        return Ok(root);
    }
    let mut tree = BTree::from_root(root);
    tree.insert(pager, txn_id, entry.key, bytes.as_slice())?;
    Ok(tree.root_page_id())
}

fn finalize_table(pager: &mut Pager, txn_id: u64, ts: u64, root: PageId) -> (r: DbResult<()>)
    requires
        old(pager)@.sound(),
    ensures
        step(r, final(pager)@, table_finalized(old(pager)@, txn_id, ts, root)),
        forall|pages: Set<PageId>, rows: Map<u64, Held>| #[trigger]
            tree_holds::<u64>(old(pager)@, root, pages, stored(rows)) && r is Ok ==> tree_became::<
                u64,
            >(old(pager)@, pages, final(pager)@, root, stored(all_settled(rows, txn_id, ts))),
        final(pager)@.sound(),
{
    let start_tree = BTree::from_root(root);
    let entries: Vec<LeafEntry<u64>> = start_tree.scan_all(pager)?;
    let ghost all = entries.deep_view();
    let ghost start = pager@;
    let ghost whole = rows_finalized_from(start, txn_id, ts, root, all, 0);
    let mut at: PageId = root;
    let mut i: usize = 0;
    proof {
        lemma_settles_none(start, root, all, txn_id, ts);
    }
    while i < entries.len()
        invariant
            i <= entries@.len(),
            all == entries.deep_view(),
            start == old(pager)@,
            settles(start, root, all, txn_id, ts, i as int, pager@, at),
            all_entries::<u64>(start, root) == Ok::<_, ErrorView>(all),
            pager@.sound(),
            whole == rows_finalized_from(start, txn_id, ts, root, all, 0),
            rows_finalized_from(pager@, txn_id, ts, at, all, i as int) == whole,
        decreases entries@.len() - i,
    {
        assert(all[i as int] == entries@[i as int].deep_view());
        let ghost middle = pager@;
        let ghost between = at;
        at = finalize_row(pager, txn_id, ts, at, &entries[i])?;
        proof {
            let bytes = finalized_bytes(entries@[i as int].value@, txn_id, ts)->Ok_0;
            lemma_settles_one(
                start,
                root,
                all,
                txn_id,
                ts,
                i as int,
                middle,
                between,
                bytes,
                pager@,
                at,
            );
        }
        i = i + 1;
    }
    proof {
        lemma_settles_all(start, root, all, txn_id, ts, pager@, at);
    }
    Ok(())
}

fn finalize_tables(pager: &mut Pager, txn_id: u64, ts: u64, roots: &OrdMap<String, PageId>) -> (r:
    DbResult<()>)
    requires
        old(pager)@.sound(),
    ensures
        step(r, final(pager)@, all_tables_finalized(old(pager)@, txn_id, ts, roots@)),
        forall|e: StorageModel, tables: Tables| #[trigger]
            rows_in(e, tables) && e.pager == old(pager)@ && e.catalog.table_roots == roots@ && r is Ok
                ==> rows_in(e.with_pager(final(pager)@), tables_settled(tables, txn_id, ts)),
        final(pager)@.sound(),
{
    let total: usize = roots.len();
    let ghost names = roots.keys();
    proof {
        assert(names.to_set() =~= roots@.dom());
        lemma_is_sorted::<String>(names, roots@.dom());
        lemma_ascending_unique::<String>(names);
        lemma_tables_settle_none(pager@, roots@, names, txn_id, ts);
    }
    let ghost start = pager@;
    let ghost whole = tables_finalized_from(start, txn_id, ts, roots@, names, 0);
    let mut i: usize = 0;
    while i < total
        invariant
            i <= total,
            total == names.len(),
            names == roots.keys(),
            names.no_duplicates(),
            names.to_set() == roots@.dom(),
            start == old(pager)@,
            pager@.sound(),
            tables_settle(start, roots@, names, txn_id, ts, i as int, pager@),
            whole == tables_finalized_from(start, txn_id, ts, roots@, names, 0),
            whole == all_tables_finalized(start, txn_id, ts, roots@),
            tables_finalized_from(pager@, txn_id, ts, roots@, names, i as int) == whole,
        decreases total - i,
    {
        let root: PageId = *roots.value_at(i);
        let ghost middle = pager@;
        finalize_table(pager, txn_id, ts, root)?;
        proof {
            lemma_tables_settle_one(start, roots@, names, txn_id, ts, i as int, middle, pager@);
        }
        i = i + 1;
    }
    proof {
        lemma_tables_settle_all(start, roots@, names, txn_id, ts, pager@);
    }
    Ok(())
}

#[verifier::spinoff_prover]
#[verifier::rlimit(60)]
fn undo_change(pager: &mut Pager, catalog: &CatalogState, txn_id: u64, record: &UndoRecord) -> (r:
    DbResult<()>)
    requires
        old(pager)@.sound(),
    ensures
        step(r, final(pager)@, change_undone(old(pager)@, catalog@, txn_id, record.deep_view())),
        final(pager)@.sound(),
{
    match record {
        UndoRecord::PageWrite { .. } => Ok(()),
        UndoRecord::InsertRow { table, row_id } => match catalog.table_schema_and_root(
            table.as_str(),
        ) {
            Err(_) => Ok(()),
            Ok((_, root)) => {
                let mut tree = BTree::from_root(root);
                tree.delete(pager, txn_id, row_id.0)
            },
        },
        UndoRecord::DeleteRow { table, row_id, previous_bytes } => match catalog.table_schema_and_root(
            table.as_str(),
        ) {
            Err(_) => Ok(()),
            Ok((_, root)) => {
                let mut tree = BTree::from_root(root);
                tree.insert(pager, txn_id, row_id.0, previous_bytes.as_slice())?;
                Ok(())
            },
        },
        UndoRecord::IndexInsert { table, index, row_id, key } => match catalog.index_meta_and_root(
            table.as_str(),
            index.as_str(),
        ) {
            Err(_) => Ok(()),
            Ok(slot) => match encode_index_key(key.as_slice()) {
                Err(e) => Err(e),
                Ok(bytes) => {
                    remove_row_id_from_index_entry(
                        pager,
                        txn_id,
                        slot.root,
                        bytes.as_slice(),
                        *row_id,
                    )?;
                    Ok(())
                },
            },
        },
        UndoRecord::IndexDelete { table, index, row_id, key } => match catalog.index_meta_and_root(
            table.as_str(),
            index.as_str(),
        ) {
            Err(_) => Ok(()),
            Ok(slot) => match encode_index_key(key.as_slice()) {
                Err(e) => Err(e),
                Ok(bytes) => {
                    upsert_index_entry(pager, txn_id, slot.root, bytes.as_slice(), *row_id)?;
                    Ok(())
                },
            },
        },
    }
}

fn purge_deleted_row(
    pager: &mut Pager,
    catalog: &CatalogState,
    txn_id: u64,
    table: &str,
    row_id: RowId,
    horizon: u64,
) -> (r: DbResult<()>)
    requires
        old(pager)@.sound(),
    ensures
        step(
            r,
            final(pager)@,
            row_purged(old(pager)@, catalog@, txn_id, table@, row_id, horizon),
        ),
        r is Ok && table_of(catalog@, table@) is Err ==> final(pager)@ == old(pager)@,
        r is Ok && table_of(catalog@, table@) is Ok ==> row_cleans(
            old(pager)@,
            catalog@.table_roots[table@],
            row_id.0,
            horizon,
            final(pager)@,
        ),
        final(pager)@.sound(),
{
    let root: PageId = match catalog.table_schema_and_root(table) {
        Err(_) => {
            return Ok(());
        },
        Ok((_, root)) => root,
    };
    let ghost start = pager@;
    let mut tree = BTree::from_root(root);
    match tree.get(pager, row_id.0)? {
        None => {
            proof {
                lemma_row_missing(start, root, row_id.0, horizon);
            }
            Ok(())
        },
        Some(bytes) => match retained_versions(bytes.as_slice(), horizon)? {
            None => {
                let r = tree.delete(pager, txn_id, row_id.0);
                proof {
                    if r is Ok {
                        lemma_row_gone(start, root, row_id.0, horizon, bytes@, pager@);
                    }
                }
                r
            },
            Some(kept) => {
                if same_bytes(kept.as_slice(), bytes.as_slice()) {
                    proof {
                        lemma_row_same(start, root, row_id.0, horizon, bytes@);
                    }
                    return Ok(());
                }
                tree.insert(pager, txn_id, row_id.0, kept.as_slice())?;
                proof {
                    lemma_row_kept(start, root, row_id.0, horizon, bytes@, kept@, pager@, tree@);
                }
                Ok(())
            },
        },
    }
}

fn purge_record(
    pager: &mut Pager,
    catalog: &CatalogState,
    txn_id: u64,
    horizon: u64,
    record: &UndoRecord,
) -> (r: DbResult<()>)
    requires
        old(pager)@.sound(),
    ensures
        step(
            r,
            final(pager)@,
            match record.deep_view() {
                UndoView::DeleteRow { table, row_id, .. } => row_purged(
                    old(pager)@,
                    catalog@,
                    txn_id,
                    table,
                    row_id,
                    horizon,
                ),
                _ => (old(pager)@, Ok(())),
            },
        ),
        forall|e: StorageModel, tables: Tables| #[trigger]
            rows_in(e, tables) && e.pager == old(pager)@ && e.catalog == catalog@ && r is Ok
                ==> rows_in(
                e.with_pager(final(pager)@),
                record_cleaned(tables, catalog@, record.deep_view(), horizon),
            ),
        final(pager)@.sound(),
{
    let ghost start = pager@;
    let r = match record {
        UndoRecord::DeleteRow { table, row_id, .. } => purge_deleted_row(
            pager,
            catalog,
            txn_id,
            table.as_str(),
            *row_id,
            horizon,
        ),
        _ => Ok(()),
    };
    proof {
        assert forall|e: StorageModel, tables: Tables| #[trigger]
            rows_in(e, tables) && e.pager == start && e.catalog == catalog@ && r is Ok implies rows_in(
            e.with_pager(pager@),
            record_cleaned(tables, catalog@, record.deep_view(), horizon),
        ) by {
            assert(e.with_pager(start) == e);
            match record.deep_view() {
                UndoView::DeleteRow { table, row_id, .. } => {
                    if table_of(catalog@, table) is Ok {
                        lemma_row_cleaned(e, tables, table, row_id.0, horizon, pager@);
                    }
                },
                _ => {},
            }
        }
    }
    r
}

fn purge_row_versions(
    pager: &mut Pager,
    catalog: &CatalogState,
    txn_id: u64,
    horizon: u64,
    records: &Vec<PurgeItem>,
) -> (r: DbResult<()>)
    requires
        old(pager)@.sound(),
    ensures
        step(
            r,
            final(pager)@,
            records_purged_from(old(pager)@, catalog@, txn_id, horizon, records.deep_view(), 0),
        ),
        forall|e: StorageModel, tables: Tables| #[trigger]
            rows_in(e, tables) && e.pager == old(pager)@ && e.catalog == catalog@ && r is Ok
                ==> rows_in(
                e.with_pager(final(pager)@),
                records_cleaned(
                    tables,
                    catalog@,
                    records.deep_view(),
                    horizon,
                    records@.len() as int,
                ),
            ),
        final(pager)@.sound(),
{
    let ghost all = records.deep_view();
    let ghost start = pager@;
    let ghost whole = records_purged_from(start, catalog@, txn_id, horizon, all, 0);
    let mut i: usize = 0;
    proof {
        lemma_records_clean_none(start, catalog@, all, horizon);
    }
    while i < records.len()
        invariant
            i <= records@.len(),
            all == records.deep_view(),
            start == old(pager)@,
            pager@.sound(),
            whole == records_purged_from(start, catalog@, txn_id, horizon, all, 0),
            records_purged_from(pager@, catalog@, txn_id, horizon, all, i as int) == whole,
            records_clean(start, catalog@, all, horizon, i as int, pager@),
        decreases records@.len() - i,
    {
        assert(all[i as int] == records@[i as int].deep_view());
        let ghost middle = pager@;
        purge_record(pager, catalog, txn_id, horizon, &records[i].record)?;
        proof {
            lemma_records_clean_one(start, catalog@, all, horizon, i as int, middle, pager@);
        }
        i = i + 1;
    }
    proof {
        lemma_records_clean_all(start, catalog@, all, horizon, pager@);
    }
    Ok(())
}

/// The model of what a commit or a rollback leaves behind, or an error.
pub open spec fn finished_result(r: DbResult<Finished>) -> Result<FinishedView, ErrorView> {
    match r {
        Ok(f) => Ok(f@),
        Err(e) => Err(e@),
    }
}

// ---------------------------------------------------------------------------
// The engine

impl FileStorage {
    /// Begins a transaction.
    pub fn begin(&mut self) -> (r: DbResult<TransactionId>)
        requires
            old(self)@.pager.sound(),
        ensures
            engine_step(r, final(self)@, old(self)@.began(IsolationLevel::ReadCommitted)),
            final(self)@.pager.sound(),
            forall|tables: Tables| #[trigger]
                rows_in(old(self)@, tables) ==> rows_in(final(self)@, tables),
    {
        self.begin_with_isolation(IsolationLevel::ReadCommitted)
    }

    /// Begins a transaction with an isolation level.
    pub fn begin_with_isolation(&mut self, isolation_level: IsolationLevel) -> (r: DbResult<
        TransactionId,
    >)
        requires
            old(self)@.pager.sound(),
        ensures
            engine_step(r, final(self)@, old(self)@.began(isolation_level)),
            final(self)@.pager.sound(),
            forall|tables: Tables| #[trigger]
                rows_in(old(self)@, tables) ==> rows_in(final(self)@, tables),
    {
        let ghost start = self@;
        proof {
            lemma_same_trees(start, self@.began(isolation_level).0);
        }
        let id: u64 = self.pager.begin_with_isolation(isolation_level)?;
        self.sessions.insert(TransactionId(id), self.catalog.duplicate());
        Ok(TransactionId(id))
    }

    fn sync_transaction_page_writes(&mut self, transaction_id: TransactionId) -> (r: DbResult<()>)
        requires
            old(self)@.pager.sound(),
        ensures
            engine_step(r, final(self)@, old(self)@.writes_synced(transaction_id)),
            final(self)@.pager.sound(),
    {
        let ghost start = self@;
        let writes = self.pager.pending_page_writes(transaction_id.0)?;
        let ghost map = start.pager.txn_page_states[transaction_id.0];
        let mut list: Vec<PageWriteSetEntry> = Vec::new();
        let ghost given = writes@;
        let mut left = writes;
        proof {
            let ids = Seq::new(given.len(), |i: int| given[i].page_id);
            lemma_is_sorted::<PageId>(ids, map.dom());
        }
        left = reversed(left);
        while left.len() > 0
            invariant
                left@.len() + list@.len() == given.len(),
                forall|k: int|
                    0 <= k < left@.len() ==> #[trigger] left@[k] == given[given.len() - 1 - k],
                forall|k: int|
                    0 <= k < list@.len() ==> (#[trigger] list@[k]).deep_view() == (PageWriteView {
                        page_id: given[k].page_id,
                        before_image: image_view(given[k].before_image),
                        after_image: given[k].after_image@,
                    }),
            decreases left@.len(),
        {
            match left.pop() {
                Some(w) => {
                    list.push(
                        PageWriteSetEntry {
                            page_id: w.page_id,
                            before_image: w.before_image,
                            after_image: w.after_image,
                        },
                    );
                },
                None => {},
            }
        }
        proof {
            let want = write_list(map);
            assert(list.deep_view() =~= want) by {
                assert(list@.len() == given.len());
                assert(want.len() == given.len());
                assert forall|k: int| 0 <= k < given.len() implies list.deep_view()[k]
                    == want[k] by {
                    assert(list.deep_view()[k] == list@[k].deep_view());
                    assert(is_snapshot(given[k], map[given[k].page_id]));
                }
            }
        }
        let r = self.pager.txns_mut().replace_page_write_set(transaction_id, list);
        proof {
            lemma_waits_kept(start.pager.txns, self@.pager.txns);
            assert(start =~= start.with_txns(start.pager.txns));
            assert(self@ =~= start.writes_synced(transaction_id).0);
        }
        match r {
            Ok(_) => Ok(()),
            Err(e) => Err(e),
        }
    }

    fn close_purge(&mut self, txn_id: TransactionId, horizon: u64, records: &Vec<PurgeItem>) -> (r:
        Finished)
        requires
            old(self)@.pager.sound(),
            unwaiting(old(self)@.pager.txns, txn_id),
        ensures
            (final(self)@, r@) == old(self)@.purge_closed(txn_id, horizon, records.deep_view()),
            final(self)@.pager.sound(),
    {
        let ts: u64 = match self.pager.take_stamp(txn_id) {
            Ok(ts) => ts,
            Err(e) => {
                return finished(Some(e));
            },
        };
        let ghost stamped = self@;
        match self.pager.mark_committed(txn_id, ts) {
            Ok(_) => {},
            Err(e) => {
                return finished(Some(e));
            },
        }
        let plan = match self.pager.commit(txn_id.0) {
            Ok(plan) => plan,
            Err(e) => {
                return finished(Some(e));
            },
        };
        match self.pager.strike_off(records) {
            Ok(_) => {},
            Err(e) => {
                return finished_with(plan, Some(e));
            },
        }
        self.pager.tidy_transactions(horizon);
        finished_with(plan, None)
    }

    fn fail_purge(&mut self, txn_id: TransactionId, horizon: u64)
        requires
            old(self)@.pager.sound(),
            followed(old(self)@.pager, txn_id.0),
        ensures
            final(self)@ == old(self)@.purge_failed(txn_id, horizon),
            final(self)@.pager.sound(),
    {
        if self.pager.transactions().current_lock_wait_epoch() == u64::MAX {
            return ;
        }
        let ghost start = self@;
        let _ = self.pager.rollback(txn_id.0);
        proof {
            lemma_released_unwaiting(start.pager.forgotten(txn_id.0).txns, txn_id);
        }
        self.pager.abort_quietly(txn_id);
        self.pager.tidy_transactions(horizon);
    }

    fn purge_batch(&mut self, horizon: u64, records: &Vec<PurgeItem>) -> (r: Finished)
        requires
            old(self)@.pager.sound(),
        ensures
            (final(self)@, r@) == old(self)@.batch_purged(horizon, records.deep_view()),
            forall|tables: Tables| #[trigger]
                rows_in(old(self)@, tables) && counted(old(self)@.pager) && r.fault is None
                    ==> counted(final(self)@.pager) && rows_in(
                    final(self)@,
                    records_cleaned(
                        tables,
                        old(self)@.catalog,
                        records.deep_view(),
                        horizon,
                        records@.len() as int,
                    ),
                ),
            final(self)@.pager.sound(),
    {
        let ghost start = self@;
        let id: u64 = match self.pager.begin() {
            Ok(id) => id,
            Err(e) => {
                self.pager.tidy_transactions(horizon);
                return finished(Some(e));
            },
        };
        let ghost begun = self@;
        proof {
            assert(unwaiting(begun.pager.txns, TransactionId(id))) by {
                assert(!start.pager.txns.txns.dom().contains(TransactionId(id)));
                assert(waits_of(start.pager.txns.waits_for, TransactionId(id)) == Set::<
                    TransactionId,
                >::empty());
                lemma_no_blockers(start.pager.txns, TransactionId(id));
                lemma_begun_unwaiting(start.pager, IsolationLevel::ReadCommitted);
            }
            lemma_records_purged(
                begun.pager,
                begun.catalog,
                id,
                horizon,
                records.deep_view(),
                0,
            );
        }
        match purge_row_versions(&mut self.pager, &self.catalog, id, horizon, records) {
            Ok(_) => {
                let ghost purged = self@;
                let r = self.close_purge(TransactionId(id), horizon, records);
                proof {
                    let all = records.deep_view();
                    assert forall|tables: Tables| #[trigger]
                        rows_in(start, tables) && counted(start.pager) && r.fault is None implies counted(
                        self@.pager,
                    ) && rows_in(
                        self@,
                        records_cleaned(tables, start.catalog, all, horizon, all.len() as int),
                    ) by {
                        lemma_same_trees(start, begun);
                        assert(rows_in(begun, tables));
                        lemma_purge_counted(start.pager, start.catalog, horizon, all);
                        assert(purged == begun.with_pager(purged.pager));
                        lemma_purge_closed(
                            purged,
                            TransactionId(id),
                            horizon,
                            all,
                            records_cleaned(tables, start.catalog, all, horizon, all.len() as int),
                        );
                    }
                }
                r
            },
            Err(e) => {
                self.fail_purge(TransactionId(id), horizon);
                finished(Some(e))
            },
        }
    }

    /// Purges some of what nobody sees any more.
    pub fn maybe_purge_garbage(&mut self) -> (r: Finished)
        requires
            old(self)@.pager.sound(),
        ensures
            (final(self)@, r@) == old(self)@.garbage_purged(),
            forall|tables: Tables| #[trigger]
                rows_in(old(self)@, tables) && counted(old(self)@.pager) && r.fault is None
                    ==> counted(final(self)@.pager) && rows_in(
                    final(self)@,
                    tables_cleaned(old(self)@, tables),
                ),
            final(self)@.pager.sound(),
    {
        let ghost start = self@;
        let horizon: u64 = self.pager.transactions().purge_horizon();
        proof {
            lemma_horizon(self@.pager.txns, horizon);
        }
        self.pager.tidy_transactions(horizon);
        let ghost tidied = self@;
        proof {
            lemma_same_trees(start, tidied);
            lemma_same_trees(start, tidied.tidy(horizon));
        }
        let history: u128 = self.pager.transactions().history_list_length();
        if history == 0 {
            return finished(None);
        }
        let records = self.pager.transactions().planned_purge_batch(
            horizon,
            size_of_batch(history),
        );
        if records.len() == 0 {
            self.pager.tidy_transactions(horizon);
            return finished(None);
        }
        self.purge_batch(horizon, &records)
    }

    fn prepare_commit(&mut self, transaction_id: TransactionId, ts: u64, catalog: &[u8]) -> (r:
        DbResult<()>)
        requires
            old(self)@.pager.sound(),
        ensures
            engine_step(r, final(self)@, old(self)@.commit_prepared(transaction_id, ts, catalog@)),
            forall|tables: Tables| #[trigger]
                rows_in(old(self)@, tables) && r is Ok ==> rows_in(
                    final(self)@,
                    tables_settled(tables, transaction_id.0, ts),
                ),
            final(self)@.pager.sound(),
    {
        let ghost start = self@;
        finalize_tables(&mut self.pager, transaction_id.0, ts, &self.catalog.table_roots)?;
        let ghost middle = self@;
        assert(middle =~= start.with_pager(middle.pager));
        store_catalog(&mut self.pager, transaction_id.0, catalog)?;
        assert(self@ =~= middle.with_pager(self@.pager));
        proof {
            assert forall|tables: Tables| #[trigger] rows_in(start, tables) implies rows_in(
                self@,
                tables_settled(tables, transaction_id.0, ts),
            ) by {
                lemma_catalog_beside(
                    middle,
                    transaction_id.0,
                    catalog@,
                    tables_settled(tables, transaction_id.0, ts),
                );
            }
        }
        Ok(())
    }

    fn close_commit(&mut self, transaction_id: TransactionId, ts: u64) -> (r: DbResult<Finished>)
        requires
            old(self)@.pager.sound(),
        ensures
            final(self)@ == old(self)@.commit_closed(transaction_id, ts).0,
            finished_result(r) == old(self)@.commit_closed(transaction_id, ts).1,
            forall|tables: Tables|
                r is Ok && r->Ok_0.fault is None && counted(
                    pages_published(old(self)@, transaction_id, ts).pager,
                ) && #[trigger] rows_in(pages_published(old(self)@, transaction_id, ts), tables)
                    ==> counted(final(self)@.pager) && rows_in(
                    final(self)@,
                    tables_cleaned(pages_published(old(self)@, transaction_id, ts), tables),
                ),
            final(self)@.pager.sound(),
    {
        let ghost start = self@;
        let plan = self.pager.commit(transaction_id.0)?;
        match self.pager.mark_committed(transaction_id, ts) {
            Ok(_) => {},
            Err(e) => {
                return Ok(finished_with(plan, Some(e)));
            },
        }
        self.sessions.remove(&transaction_id);
        assert(self@ == pages_published(start, transaction_id, ts));
        let purge = self.maybe_purge_garbage();
        let ghost more = purge@.plans;
        let mut plans: Vec<CommitPlan> = Vec::new();
        plans.push(plan);
        let mut rest = purge.plans;
        plans.append(&mut rest);
        let r = Finished { plans, fault: purge.fault };
        assert(r@.plans =~= seq![plan@] + more);
        Ok(r)
    }

    /// Commits a transaction. `catalog` holds the bytes of the catalog as it is now. The tables
    /// then hold what they held, with the timestamp of the commit in the versions that the
    /// transaction made and deleted; garbage may be purged after that, which drops versions that
    /// nobody wants any more.
    pub fn commit(&mut self, transaction_id: TransactionId, catalog: &[u8]) -> (r: DbResult<Finished>)
        requires
            old(self)@.pager.sound(),
        ensures
            final(self)@ == old(self)@.committed(transaction_id, catalog@).0,
            finished_result(r) == old(self)@.committed(transaction_id, catalog@).1,
            final(self)@.pager.sound(),
            forall|tables: Tables| #[trigger]
                rows_in(old(self)@, tables) && r is Ok && counted(old(self)@.pager) && cached(
                    old(self)@.pager,
                    transaction_id.0,
                ) ==> rows_in(
                    published(old(self)@, transaction_id, catalog@),
                    tables_settled(tables, transaction_id.0, stamp_of(old(self)@, transaction_id)),
                ),
            forall|tables: Tables| #[trigger]
                rows_in(old(self)@, tables) && r is Ok && counted(old(self)@.pager) && cached(
                    old(self)@.pager,
                    transaction_id.0,
                ) && r->Ok_0.fault is None ==> counted(final(self)@.pager) && rows_in(
                    final(self)@,
                    tables_cleaned(
                        published(old(self)@, transaction_id, catalog@),
                        tables_settled(
                            tables,
                            transaction_id.0,
                            stamp_of(old(self)@, transaction_id),
                        ),
                    ),
                ),
    {
        let ghost start = self@;
        self.validate_transaction(transaction_id)?;
        self.sync_transaction_page_writes(transaction_id)?;
        let ts: u64 = self.pager.take_stamp(transaction_id)?;
        let ghost stamped = self@;
        assert(same_trees(start, stamped));
        self.prepare_commit(transaction_id, ts, catalog)?;
        assert(self@ == made_ready(start, transaction_id, catalog@));
        let r = self.close_commit(transaction_id, ts);
        proof {
            lemma_same_trees(start, stamped);
            assert forall|tables: Tables| #[trigger]
                rows_in(start, tables) && r is Ok && counted(start.pager) && cached(
                    start.pager,
                    transaction_id.0,
                ) implies rows_in(
                published(start, transaction_id, catalog@),
                tables_settled(tables, transaction_id.0, ts),
            ) && (r->Ok_0.fault is None ==> counted(self@.pager) && rows_in(
                self@,
                tables_cleaned(
                    published(start, transaction_id, catalog@),
                    tables_settled(tables, transaction_id.0, ts),
                ),
            )) by {
                assert(rows_in(stamped, tables));
                lemma_commit_keeps_rows(
                    start,
                    transaction_id,
                    catalog@,
                    tables_settled(tables, transaction_id.0, ts),
                );
            }
        }
        r
    }

    fn replay_undo_records(&mut self, transaction_id: TransactionId) -> (r: DbResult<()>)
        requires
            old(self)@.pager.sound(),
        ensures
            engine_step(r, final(self)@, old(self)@.undo_replayed(transaction_id)),
            final(self)@.pager.sound(),
    {
        let ghost start = self@;
        let taken = self.pager.txns_mut().take_undo_records(transaction_id);
        proof {
            lemma_waits_kept(start.pager.txns, self@.pager.txns);
            assert(start =~= start.with_txns(start.pager.txns));
        }
        let records = taken?;
        let ghost all = records.deep_view();
        let ghost middle = self@.pager;
        let ghost whole = changes_undone_from(middle, start.catalog, transaction_id.0, all, 0);
        let mut i: usize = 0;
        while i < records.len()
            invariant
                i <= records@.len(),
                all == records.deep_view(),
                start == old(self)@,
                self@.pager.sound(),
                self@ == start.with_pager(self@.pager),
                start.undo_replayed(transaction_id) == (start.with_pager(whole.0), whole.1),
                changes_undone_from(
                    self@.pager,
                    start.catalog,
                    transaction_id.0,
                    all,
                    i as int,
                ) == whole,
            decreases records@.len() - i,
        {
            assert(all[i as int] == records@[i as int].deep_view());
            undo_change(&mut self.pager, &self.catalog, transaction_id.0, &records[i])?;
            i = i + 1;
        }
        Ok(())
    }

    fn roll_back_active(&mut self, transaction_id: TransactionId) -> (r: DbResult<()>)
        requires
            old(self)@.pager.sound(),
        ensures
            engine_step(r, final(self)@, old(self)@.active_rolled_back(transaction_id)),
            final(self)@.pager.sound(),
    {
        self.sync_transaction_page_writes(transaction_id)?;
        self.replay_undo_records(transaction_id)?;
        self.pager.rollback(transaction_id.0)?;
        let ghost middle = self@;
        let r = self.pager.txns_mut().abort(transaction_id);
        proof {
            lemma_waits_kept(middle.pager.txns, self@.pager.txns);
            assert(middle =~= middle.with_pager(middle.pager));
            assert(self@ =~= middle.with_txns(aborted(middle.pager.txns, transaction_id.0)));
        }
        match r {
            Ok(_) => Ok(()),
            Err(e) => Err(e),
        }
    }

    fn roll_back_aborted(&mut self, transaction_id: TransactionId)
        requires
            old(self)@.pager.sound(),
            old(self)@.pager.txns.txns.dom().contains(transaction_id),
        ensures
            final(self)@ == old(self)@.aborted_rolled_back(transaction_id),
            final(self)@.pager.sound(),
    {
        let ghost start = self@;
        let _ = self.pager.txns_mut().take_undo_records(transaction_id);
        let _ = self.pager.txns_mut().clear_terminal_error(transaction_id);
        proof {
            lemma_waits_kept(start.pager.txns, self@.pager.txns);
            assert(self@.pager.txns.txns =~= start.aborted_rolled_back(
                transaction_id,
            ).pager.txns.txns);
            assert(self@ =~= start.aborted_rolled_back(transaction_id));
        }
    }

    fn end_session(&mut self, transaction_id: TransactionId) -> (r: Finished)
        requires
            old(self)@.pager.sound(),
        ensures
            (final(self)@, r@) == old(self)@.session_ended(transaction_id),
            forall|tables: Tables| #[trigger]
                rows_in(old(self)@.session_closed(transaction_id), tables) && counted(
                    old(self)@.pager,
                ) && r.fault is None ==> counted(final(self)@.pager) && rows_in(
                    final(self)@,
                    tables_cleaned(old(self)@.session_closed(transaction_id), tables),
                ),
            final(self)@.pager.sound(),
    {
        let ghost start = self@;
        match self.sessions.remove(&transaction_id) {
            Some(catalog) => {
                self.catalog = catalog;
            },
            None => {},
        }
        assert(self@ == start.session_closed(transaction_id));
        self.maybe_purge_garbage()
    }

    /// Rolls back a transaction. Garbage may be purged after that, which drops versions that
    /// nobody wants any more.
    pub fn rollback(&mut self, transaction_id: TransactionId) -> (r: DbResult<Finished>)
        requires
            old(self)@.pager.sound(),
        ensures
            final(self)@ == old(self)@.rolled_back(transaction_id).0,
            finished_result(r) == old(self)@.rolled_back(transaction_id).1,
            forall|tables: Tables| #[trigger]
                rows_in(old(self)@.turned_back(transaction_id), tables) && counted(
                    old(self)@.turned_back(transaction_id).pager,
                ) && r is Ok && r->Ok_0.fault is None ==> counted(final(self)@.pager) && rows_in(
                    final(self)@,
                    tables_cleaned(old(self)@.turned_back(transaction_id), tables),
                ),
            final(self)@.pager.sound(),
    {
        let status = self.pager.transactions().status(transaction_id)?;
        match status {
            TxnStatus::Committed => {
                return Err(DbError::bare(ErrorCode::TxnNotActive(transaction_id.0)));
            },
            TxnStatus::Active => {
                self.roll_back_active(transaction_id)?;
            },
            TxnStatus::Aborted => {
                self.roll_back_aborted(transaction_id);
            },
        }
        Ok(self.end_session(transaction_id))
    }
}

fn reversed(list: Vec<PageWriteSnapshot>) -> (r: Vec<PageWriteSnapshot>)
    ensures
        r@.len() == list@.len(),
        forall|k: int| 0 <= k < r@.len() ==> #[trigger] r@[k] == list@[list@.len() - 1 - k],
{
    let ghost given = list@;
    let mut left = list;
    let mut out: Vec<PageWriteSnapshot> = Vec::new();
    while left.len() > 0
        invariant
            left@.len() + out@.len() == given.len(),
            forall|k: int| 0 <= k < left@.len() ==> #[trigger] left@[k] == given[k],
            forall|k: int|
                0 <= k < out@.len() ==> #[trigger] out@[k] == given[given.len() - 1 - k],
        decreases left@.len(),
    {
        match left.pop() {
            Some(w) => {
                out.push(w);
            },
            None => {},
        }
    }
    out
}

} // verus!
