//! The model of the transaction manager: what each operation does to locks, waits and
//! transactions.

use vstd::prelude::*;

use crate::common::error::{about, about_both, bare, ErrorCode, ErrorView};
use crate::common::ordset::sorted;
use crate::common::text::nat_text;
use crate::common::value::{IsolationLevel, TransactionId};
use crate::v2::locks::{
    lock_conflicts, modes_conflict, stronger, write_key, IndexKeyView, PredicateLockView,
    TableLockMode, TableLockView, WriteKeyView,
};
use crate::v2::page::PageId;
use crate::v2::tx_types::{SnapshotView, TxnStatus, TxnView, UndoView, WriteSetView};
use crate::v2::wait_graph::{wait_chain, waits_of, WaitGraph};

verus! {

/// The state of the transaction manager.
#[verifier::ext_equal]
pub struct TxnModel {
    pub next_txn_id: u64,
    pub next_commit_ts: u64,
    pub next_row_ids: Map<Seq<char>, u64>,
    pub txns: Map<TransactionId, TxnView>,
    pub table_locks: Seq<TableLockView>,
    pub predicate_locks: Seq<PredicateLockView>,
    pub table_wait_queues: Map<Seq<char>, Seq<TransactionId>>,
    pub page_write_owners: Map<PageId, TransactionId>,
    pub page_write_wait_queues: Map<PageId, Seq<TransactionId>>,
    pub predicate_write_wait_queues: Map<WriteKeyView, Seq<TransactionId>>,
    pub table_wait_blockers: WaitGraph,
    pub page_wait_blockers: WaitGraph,
    pub predicate_wait_blockers: WaitGraph,
    pub waits_for: WaitGraph,
    pub lock_wait_epoch: u64,
}

/// Why transactions wait for each other, for the message about a deadlock.
#[derive(Clone, Copy)]
pub enum WaitReason {
    Page { txn: u64, other: u64, page: u32 },
    TableQueue,
    TableLock,
    PredicateQueue,
    PredicateLock,
}

/// The error that a deadlock leaves behind.
pub open spec fn deadlock_error(
    reason: WaitReason,
    table: Seq<char>,
    victim: TransactionId,
) -> ErrorView {
    match reason {
        WaitReason::Page { txn, other, page } => about(
            ErrorCode::PageDeadlock { txn, other, page, victim: victim.0 },
            table,
        ),
        WaitReason::TableQueue => about(ErrorCode::TableWaitDeadlock { victim: victim.0 }, table),
        WaitReason::TableLock => about(ErrorCode::TableLockDeadlock { victim: victim.0 }, table),
        WaitReason::PredicateQueue => about(
            ErrorCode::PredicateWaitDeadlock { victim: victim.0 },
            table,
        ),
        WaitReason::PredicateLock => about(
            ErrorCode::PredicateWriteDeadlock { victim: victim.0 },
            table,
        ),
    }
}

/// The error about a transaction that is not there or not active.
pub open spec fn not_active(txn: TransactionId) -> ErrorView {
    bare(ErrorCode::TxnNotActive(txn.0))
}

/// The numbers of transactions, separated by commas.
pub open spec fn id_list(ids: Seq<TransactionId>) -> Seq<char>
    decreases ids.len(),
{
    if ids.len() == 0 {
        Seq::empty()
    } else if ids.len() == 1 {
        nat_text(ids[0].0 as nat)
    } else {
        id_list(ids.drop_last()) + seq![','] + nat_text(ids.last().0 as nat)
    }
}

/// A queue without a transaction.
pub open spec fn queue_without(
    queue: Seq<TransactionId>,
    txn: TransactionId,
) -> Seq<TransactionId> {
    queue.filter(|t: TransactionId| t != txn)
}

/// Wait queues once a transaction leaves them all: a queue that it leaves empty goes.
pub open spec fn queues_without<K>(
    queues: Map<K, Seq<TransactionId>>,
    txn: TransactionId,
) -> Map<K, Seq<TransactionId>> {
    Map::new(
        |k: K|
            queues.dom().contains(k) && !(queues[k].contains(txn) && queue_without(
                queues[k],
                txn,
            ).len() == 0),
        |k: K| queue_without(queues[k], txn),
    )
}

/// The queue of a key.
pub open spec fn queue_of<K>(queues: Map<K, Seq<TransactionId>>, key: K) -> Seq<TransactionId> {
    if queues.dom().contains(key) {
        queues[key]
    } else {
        Seq::empty()
    }
}

/// Wait queues once a transaction stands in the queue of a key, behind those before it.
pub open spec fn enqueued<K>(
    queues: Map<K, Seq<TransactionId>>,
    key: K,
    txn: TransactionId,
) -> Map<K, Seq<TransactionId>> {
    let queue = queue_of(queues, key);
    queues.insert(
        key,
        if queue.contains(txn) {
            queue
        } else {
            queue.push(txn)
        },
    )
}

/// A queue once a transaction leaves its front, where it stands there.
pub open spec fn front_left(
    queue: Seq<TransactionId>,
    txn: TransactionId,
) -> Seq<TransactionId> {
    if queue.len() > 0 && queue[0] == txn {
        queue.drop_first()
    } else {
        queue
    }
}

/// Wait queues once a transaction leaves the front of the queue of a key.
pub open spec fn dequeued<K>(
    queues: Map<K, Seq<TransactionId>>,
    key: K,
    txn: TransactionId,
) -> Map<K, Seq<TransactionId>> {
    if !queues.dom().contains(key) {
        queues
    } else if front_left(queues[key], txn).len() == 0 {
        queues.remove(key)
    } else {
        queues.insert(key, front_left(queues[key], txn))
    }
}

/// A wait graph in which a transaction has an entry.
pub open spec fn with_entry(graph: WaitGraph, txn: TransactionId) -> WaitGraph {
    if graph.dom().contains(txn) {
        graph
    } else {
        graph.insert(txn, Set::empty())
    }
}

/// A wait graph in which none of the given transactions waits for `gone` any more.
pub open spec fn without_waits_on(
    graph: WaitGraph,
    waiters: Set<TransactionId>,
    gone: TransactionId,
) -> WaitGraph {
    Map::new(
        |t: TransactionId| graph.dom().contains(t),
        |t: TransactionId|
            if waiters.contains(t) && t != gone {
                graph[t].remove(gone)
            } else {
                graph[t]
            },
    )
}

/// How many table locks of a list a transaction holds.
pub open spec fn table_lock_count(locks: Seq<TableLockView>, txn: TransactionId) -> nat
    decreases locks.len(),
{
    if locks.len() == 0 {
        0
    } else {
        table_lock_count(locks.drop_last(), txn) + if locks.last().txn_id == txn {
            1nat
        } else {
            0nat
        }
    }
}

/// How many predicate locks of a list a transaction holds.
pub open spec fn predicate_lock_count(locks: Seq<PredicateLockView>, txn: TransactionId) -> nat
    decreases locks.len(),
{
    if locks.len() == 0 {
        0
    } else {
        predicate_lock_count(locks.drop_last(), txn) + if locks.last().txn_id == txn {
            1nat
        } else {
            0nat
        }
    }
}

/// The first transaction of a list that waits for another, directly or through others.
pub open spec fn first_deadlocked(
    graph: WaitGraph,
    list: Seq<TransactionId>,
    txn: TransactionId,
) -> Option<TransactionId>
    decreases list.len(),
{
    if list.len() == 0 {
        None
    } else if wait_chain(graph, list[0], txn) is Some {
        Some(list[0])
    } else {
        first_deadlocked(graph, list.drop_first(), txn)
    }
}

/// Whether every known transaction has a number below the next one.
pub open spec fn numbers_used(m: TxnModel) -> bool {
    forall|t: TransactionId| #[trigger] m.txns.dom().contains(t) ==> t.0 < m.next_txn_id
}

impl TxnModel {
    /// The state of a new manager.
    pub open spec fn initial(next_txn_id: u64) -> TxnModel {
        TxnModel {
            next_txn_id,
            next_commit_ts: if next_txn_id > 0 {
                (next_txn_id - 1) as u64
            } else {
                0
            },
            next_row_ids: Map::empty(),
            txns: Map::empty(),
            table_locks: Seq::empty(),
            predicate_locks: Seq::empty(),
            table_wait_queues: Map::empty(),
            page_write_owners: Map::empty(),
            page_write_wait_queues: Map::empty(),
            predicate_write_wait_queues: Map::empty(),
            table_wait_blockers: Map::empty(),
            page_wait_blockers: Map::empty(),
            predicate_wait_blockers: Map::empty(),
            waits_for: Map::empty(),
            lock_wait_epoch: 0,
        }
    }

    /// Whether a transaction is active.
    pub open spec fn is_active(self, txn: TransactionId) -> bool {
        self.txns.dom().contains(txn) && self.txns[txn].status == TxnStatus::Active
    }

    /// The active transactions.
    pub open spec fn active_set(self) -> Set<TransactionId> {
        Set::new(|t: TransactionId| self.is_active(t))
    }

    /// What keeps a transaction from going on, if anything.
    pub open spec fn activity_error(self, txn: TransactionId) -> Option<ErrorView> {
        if !self.txns.dom().contains(txn) {
            Some(not_active(txn))
        } else if self.txns[txn].status == TxnStatus::Active {
            None
        } else {
            Some(
                match self.txns[txn].terminal_error {
                    Some(e) => e,
                    None => not_active(txn),
                },
            )
        }
    }

    /// The state once a transaction is replaced.
    pub open spec fn with_txn(self, txn: TransactionId, state: TxnView) -> TxnModel {
        TxnModel { txns: self.txns.insert(txn, state), ..self }
    }

    /// The state once a transaction has begun.
    pub open spec fn begun(self, txn: TransactionId, isolation_level: IsolationLevel) -> TxnModel {
        TxnModel {
            txns: self.txns.insert(
                txn,
                TxnView {
                    id: txn,
                    isolation_level,
                    status: TxnStatus::Active,
                    terminal_error: None,
                    start_ts: txn.0,
                    commit_ts: None,
                    snapshot: SnapshotView {
                        visible_up_to: self.next_commit_ts,
                        active_txns: self.active_set(),
                    },
                    write_set: WriteSetView {
                        touched_pages: Set::empty(),
                        page_writes: Seq::empty(),
                    },
                    undo_records: Seq::empty(),
                    purge_records: Seq::empty(),
                },
            ),
            table_wait_blockers: with_entry(self.table_wait_blockers, txn),
            page_wait_blockers: with_entry(self.page_wait_blockers, txn),
            predicate_wait_blockers: with_entry(self.predicate_wait_blockers, txn),
            waits_for: with_entry(self.waits_for, txn),
            ..self
        }
    }

    /// The transactions that a transaction waits for, for whatever reason.
    pub open spec fn all_blockers(self, txn: TransactionId) -> Set<TransactionId> {
        waits_of(self.table_wait_blockers, txn).union(
            waits_of(self.page_wait_blockers, txn),
        ).union(waits_of(self.predicate_wait_blockers, txn))
    }

    /// The state once the waits of a transaction are gathered anew.
    pub open spec fn refreshed(self, txn: TransactionId) -> TxnModel {
        TxnModel { waits_for: self.waits_for.insert(txn, self.all_blockers(txn)), ..self }
    }

    /// The state once a transaction waits for these for a table.
    pub open spec fn with_table_waits(
        self,
        txn: TransactionId,
        blockers: Set<TransactionId>,
    ) -> TxnModel {
        TxnModel {
            table_wait_blockers: self.table_wait_blockers.insert(txn, blockers),
            ..self
        }.refreshed(txn)
    }

    /// The state once a transaction waits for these for a page.
    pub open spec fn with_page_waits(
        self,
        txn: TransactionId,
        blockers: Set<TransactionId>,
    ) -> TxnModel {
        TxnModel {
            page_wait_blockers: self.page_wait_blockers.insert(txn, blockers),
            ..self
        }.refreshed(txn)
    }

    /// The state once a transaction waits for these for a predicate.
    pub open spec fn with_predicate_waits(
        self,
        txn: TransactionId,
        blockers: Set<TransactionId>,
    ) -> TxnModel {
        TxnModel {
            predicate_wait_blockers: self.predicate_wait_blockers.insert(txn, blockers),
            ..self
        }.refreshed(txn)
    }

    /// The state once nobody waits for a transaction any more.
    pub open spec fn unblocked(self, gone: TransactionId) -> TxnModel {
        let cleared = TxnModel {
            table_wait_blockers: without_waits_on(self.table_wait_blockers, self.txns.dom(), gone),
            page_wait_blockers: without_waits_on(self.page_wait_blockers, self.txns.dom(), gone),
            predicate_wait_blockers: without_waits_on(
                self.predicate_wait_blockers,
                self.txns.dom(),
                gone,
            ),
            ..self
        };
        TxnModel {
            waits_for: Map::new(
                |t: TransactionId|
                    self.waits_for.dom().contains(t) || (self.txns.dom().contains(t) && t != gone),
                |t: TransactionId|
                    if self.txns.dom().contains(t) && t != gone {
                        cleared.all_blockers(t)
                    } else {
                        self.waits_for[t]
                    },
            ),
            ..cleared
        }
    }

    /// The state once a transaction has left all its locks and queues.
    pub open spec fn without_locks(self, txn: TransactionId) -> TxnModel {
        TxnModel {
            table_locks: self.table_locks.filter(|l: TableLockView| l.txn_id != txn),
            page_write_owners: Map::new(
                |p: PageId|
                    self.page_write_owners.dom().contains(p) && self.page_write_owners[p] != txn,
                |p: PageId| self.page_write_owners[p],
            ),
            table_wait_queues: queues_without(self.table_wait_queues, txn),
            page_write_wait_queues: queues_without(self.page_write_wait_queues, txn),
            predicate_write_wait_queues: queues_without(self.predicate_write_wait_queues, txn),
            predicate_locks: self.predicate_locks.filter(|l: PredicateLockView| l.txn_id != txn),
            table_wait_blockers: self.table_wait_blockers.remove(txn),
            page_wait_blockers: self.page_wait_blockers.remove(txn),
            predicate_wait_blockers: self.predicate_wait_blockers.remove(txn),
            waits_for: self.waits_for.remove(txn),
            ..self
        }
    }

    /// The state once a transaction has given back all that it holds and nobody waits for
    /// it: waiters are told by a new epoch.
    pub open spec fn released(self, txn: TransactionId) -> TxnModel {
        TxnModel {
            lock_wait_epoch: (self.lock_wait_epoch + 1) as u64,
            ..self.without_locks(txn).unblocked(txn)
        }
    }

    /// The pages that a transaction holds.
    pub open spec fn owned_pages(self, txn: TransactionId) -> Set<PageId> {
        Set::new(
            |p: PageId|
                self.page_write_owners.dom().contains(p) && self.page_write_owners[p] == txn,
        )
    }

    /// How much is lost by aborting a transaction: its changes and its locks.
    pub open spec fn rollback_cost(self, txn: TransactionId) -> nat {
        self.txns[txn].undo_records.len() + self.txns[txn].write_set.page_writes.len()
            + self.owned_pages(txn).len() + table_lock_count(self.table_locks, txn)
            + predicate_lock_count(self.predicate_locks, txn)
    }

    /// Whether one transaction is a better victim than another: it loses less, or it
    /// started later, or it is the one that asks, or its number is smaller.
    pub open spec fn better_victim(
        self,
        requester: TransactionId,
        a: TransactionId,
        b: TransactionId,
    ) -> bool {
        ||| self.rollback_cost(a) < self.rollback_cost(b)
        ||| self.rollback_cost(a) == self.rollback_cost(b) && {
            ||| self.txns[a].start_ts > self.txns[b].start_ts
            ||| self.txns[a].start_ts == self.txns[b].start_ts && {
                ||| a == requester && b != requester
                ||| (a == requester) == (b == requester) && a.0 < b.0
            }
        }
    }

    /// Whether a transaction is the best victim of a set.
    pub open spec fn is_victim(
        self,
        requester: TransactionId,
        members: Set<TransactionId>,
        victim: TransactionId,
    ) -> bool {
        &&& members.contains(victim)
        &&& forall|t: TransactionId| #[trigger]
            members.contains(t) && t != victim ==> self.better_victim(requester, victim, t)
    }

    /// The victim of a deadlock between transactions that wait for each other in a circle.
    pub open spec fn victim(
        self,
        requester: TransactionId,
        members: Set<TransactionId>,
    ) -> TransactionId {
        choose|v: TransactionId| self.is_victim(requester, members, v)
    }

    /// The state once a transaction is aborted for a deadlock.
    pub open spec fn sacrificed(self, victim: TransactionId, error: ErrorView) -> TxnModel {
        let state = self.txns[victim];
        let after = if state.status == TxnStatus::Active {
            TxnView { status: TxnStatus::Aborted, terminal_error: Some(error), ..state }
        } else {
            state
        };
        self.with_txn(victim, after).released(victim)
    }

    /// The victim where a transaction waits for a blocker that waits for it.
    pub open spec fn deadlock_victim(
        self,
        requester: TransactionId,
        blocker: TransactionId,
    ) -> TransactionId {
        self.victim(
            requester,
            wait_chain(self.waits_for, blocker, requester)->Some_0.to_set().insert(requester),
        )
    }

    /// The transactions other than one that wait for something.
    pub open spec fn other_waiters(self, txn: TransactionId) -> Set<TransactionId> {
        Set::new(
            |t: TransactionId| t != txn && waits_of(self.waits_for, t) != Set::<TransactionId>::empty(),
        )
    }

    /// Whether the recorded waits are those for tables, pages and predicates together.
    pub open spec fn waits_in_step(self) -> bool {
        forall|t: TransactionId| #[trigger] waits_of(self.waits_for, t) == self.all_blockers(t)
    }

    /// Whether every transaction that waits for something is known.
    pub open spec fn waiters_known(self) -> bool {
        forall|t: TransactionId|
            #[trigger] waits_of(self.waits_for, t) != Set::<TransactionId>::empty()
                ==> self.txns.dom().contains(t)
    }

    /// Whether every transaction that waits for something is active.
    pub open spec fn waiters_active(self) -> bool {
        forall|t: TransactionId|
            #[trigger] waits_of(self.waits_for, t) != Set::<TransactionId>::empty()
                ==> self.is_active(t)
    }

    /// What holds of the manager after a step, against before it: no counter goes back, and
    /// where all known transactions have numbers below the next one, they still have, and
    /// those that have ended stay as they ended.
    pub open spec fn follows(self, before: TxnModel) -> bool {
        &&& before.next_txn_id <= self.next_txn_id
        &&& before.next_commit_ts <= self.next_commit_ts
        &&& forall|table: Seq<char>| #[trigger]
            before.next_row_ids.dom().contains(table) ==> self.next_row_ids.dom().contains(table)
                && before.next_row_ids[table] <= self.next_row_ids[table]
        &&& numbers_used(before) ==> {
            &&& numbers_used(self)
            &&& forall|t: TransactionId| #[trigger]
                self.txns.dom().contains(t) && before.txns.dom().contains(t) && !before.is_active(t)
                    ==> self.txns[t].status == before.txns[t].status
        }
    }

    /// Whether the epoch can count every other waiting transaction leaving.
    pub open spec fn epoch_has_room(self, txn: TransactionId) -> bool {
        self.lock_wait_epoch + self.other_waiters(txn).len() + 1 <= u64::MAX
    }

    /// What asking for the right to write a page does.
    ///
    /// The owner of the page has it already. A page without an owner goes to whoever is
    /// first in its queue. Everybody else waits, and where that closes a circle of waits a
    /// victim is aborted: if it is another transaction, the page is asked for again.
    pub open spec fn page_acquired(
        self,
        txn: TransactionId,
        page: PageId,
    ) -> (TxnModel, Result<(), ErrorView>)
        decreases self.other_waiters(txn).len(),
    {
        if self.page_write_owners.dom().contains(page) && self.page_write_owners[page] == txn {
            (
                TxnModel {
                    page_write_wait_queues: dequeued(self.page_write_wait_queues, page, txn),
                    ..self
                }.with_page_waits(txn, Set::empty()),
                Ok(()),
            )
        } else if self.activity_error(txn) is Some {
            (self, Err(self.activity_error(txn)->Some_0))
        } else if self.page_write_owners.dom().contains(page) && !self.txns.dom().contains(
            self.page_write_owners[page],
        ) {
            (self, Err(not_active(self.page_write_owners[page])))
        } else {
            let owned = self.page_write_owners.dom().contains(page);
            let queue = queue_of(self.page_write_wait_queues, page);
            if !owned && (queue.len() == 0 || queue[0] == txn) {
                (
                    TxnModel {
                        page_write_wait_queues: dequeued(self.page_write_wait_queues, page, txn),
                        page_write_owners: self.page_write_owners.insert(page, txn),
                        ..self
                    }.with_page_waits(txn, Set::empty()),
                    Ok(()),
                )
            } else {
                let blocker = if owned {
                    self.page_write_owners[page]
                } else {
                    queue[0]
                };
                let waiting = TxnModel {
                    page_write_wait_queues: enqueued(self.page_write_wait_queues, page, txn),
                    ..self
                }.with_page_waits(txn, Set::empty().insert(blocker));
                let error = if owned {
                    bare(ErrorCode::PageWriteConflict { page: page.0, owner: blocker.0 })
                } else {
                    bare(ErrorCode::PageWriteWait { page: page.0, ahead: blocker.0 })
                };
                if wait_chain(waiting.waits_for, blocker, txn) is None {
                    (waiting, Err(error))
                } else {
                    let victim = waiting.deadlock_victim(txn, blocker);
                    let deadlock = deadlock_error(
                        WaitReason::Page { txn: txn.0, other: blocker.0, page: page.0 },
                        Seq::empty(),
                        victim,
                    );
                    let after = waiting.sacrificed(victim, deadlock);
                    if victim == txn {
                        (after, Err(deadlock))
                    } else if after.other_waiters(txn).len() < self.other_waiters(txn).len() {
                        after.page_acquired(txn, page)
                    } else {
                        (after, Err(error))
                    }
                }
            }
        }
    }

    /// The transactions whose locks on a table stand in the way, gathered lock by lock, or
    /// the error about a lock whose transaction is not known.
    pub open spec fn table_blockers(
        self,
        txn: TransactionId,
        table: Seq<char>,
        mode: TableLockMode,
        from: int,
        found: Set<TransactionId>,
    ) -> Result<Set<TransactionId>, ErrorView>
        decreases self.table_locks.len() - from,
    {
        if from < 0 || from >= self.table_locks.len() {
            Ok(found)
        } else {
            let lock = self.table_locks[from];
            if lock.txn_id == txn || lock.table != table {
                self.table_blockers(txn, table, mode, from + 1, found)
            } else if !self.txns.dom().contains(lock.txn_id) {
                Err(not_active(lock.txn_id))
            } else if self.txns[lock.txn_id].status == TxnStatus::Active && modes_conflict(
                lock.mode,
                mode,
            ) {
                self.table_blockers(txn, table, mode, from + 1, found.insert(lock.txn_id))
            } else {
                self.table_blockers(txn, table, mode, from + 1, found)
            }
        }
    }

    /// The table locks once a transaction holds a table in a mode: a lock that it has is
    /// made stronger, never weaker.
    pub open spec fn table_locked(
        locks: Seq<TableLockView>,
        txn: TransactionId,
        table: Seq<char>,
        mode: TableLockMode,
        from: int,
    ) -> Seq<TableLockView>
        decreases locks.len() - from,
    {
        if from < 0 || from >= locks.len() {
            locks.push(TableLockView { txn_id: txn, table, mode })
        } else if locks[from].txn_id == txn && locks[from].table == table {
            locks.update(
                from,
                TableLockView { txn_id: txn, table, mode: stronger(locks[from].mode, mode) },
            )
        } else {
            Self::table_locked(locks, txn, table, mode, from + 1)
        }
    }

    /// What asking for a lock on a table does.
    pub open spec fn table_acquired(
        self,
        txn: TransactionId,
        table: Seq<char>,
        mode: TableLockMode,
    ) -> (TxnModel, Result<(), ErrorView>)
        decreases self.other_waiters(txn).len(),
    {
        if self.activity_error(txn) is Some {
            (self, Err(self.activity_error(txn)->Some_0))
        } else {
            match self.table_blockers(txn, table, mode, 0, Set::empty()) {
                Err(e) => (self, Err(e)),
                Ok(blockers) => {
                    let queue = queue_of(self.table_wait_queues, table);
                    let free = blockers == Set::<TransactionId>::empty();
                    if free && (queue.len() == 0 || queue[0] == txn) {
                        let granted = TxnModel {
                            table_wait_queues: dequeued(self.table_wait_queues, table, txn),
                            ..self
                        }.with_table_waits(txn, Set::empty());
                        (
                            TxnModel {
                                table_locks: Self::table_locked(
                                    self.table_locks,
                                    txn,
                                    table,
                                    mode,
                                    0,
                                ),
                                ..granted
                            },
                            Ok(()),
                        )
                    } else {
                        let blockers = if free {
                            Set::empty().insert(queue[0])
                        } else {
                            blockers
                        };
                        let waiting = TxnModel {
                            table_wait_queues: enqueued(self.table_wait_queues, table, txn),
                            ..self
                        }.with_table_waits(txn, blockers);
                        let error = if free {
                            about(ErrorCode::TableLockWait { ahead: queue[0].0 }, table)
                        } else {
                            about_both(
                                ErrorCode::TableLockConflict,
                                table,
                                id_list(sorted::<TransactionId>(blockers)),
                            )
                        };
                        match first_deadlocked(
                            waiting.waits_for,
                            sorted::<TransactionId>(blockers),
                            txn,
                        ) {
                            None => (waiting, Err(error)),
                            Some(blocker) => {
                                let victim = waiting.deadlock_victim(txn, blocker);
                                let deadlock = deadlock_error(
                                    if free {
                                        WaitReason::TableQueue
                                    } else {
                                        WaitReason::TableLock
                                    },
                                    table,
                                    victim,
                                );
                                let after = waiting.sacrificed(victim, deadlock);
                                if victim == txn {
                                    (after, Err(deadlock))
                                } else if after.other_waiters(txn).len() < self.other_waiters(
                                    txn,
                                ).len() {
                                    after.table_acquired(txn, table, mode)
                                } else {
                                    (after, Err(error))
                                }
                            },
                        }
                    }
                },
            }
        }
    }

    /// The state once a transaction holds a predicate lock. Only serializable transactions
    /// take them, and each one once.
    pub open spec fn predicate_locked(self, lock: PredicateLockView) -> TxnModel {
        if self.txns[lock.txn_id].isolation_level != IsolationLevel::Serializable
            || self.predicate_locks.contains(lock) {
            self
        } else {
            TxnModel { predicate_locks: self.predicate_locks.push(lock), ..self }
        }
    }

    /// The transactions whose predicate locks stand in the way of a write, gathered lock by
    /// lock, or the error about a lock whose transaction is not known.
    pub open spec fn predicate_blockers(
        self,
        txn: TransactionId,
        table: Seq<char>,
        keys: Seq<IndexKeyView>,
        from: int,
        found: Set<TransactionId>,
    ) -> Result<Set<TransactionId>, ErrorView>
        decreases self.predicate_locks.len() - from,
    {
        if from < 0 || from >= self.predicate_locks.len() {
            Ok(found)
        } else {
            let lock = self.predicate_locks[from];
            if lock.txn_id == txn || lock.table != table {
                self.predicate_blockers(txn, table, keys, from + 1, found)
            } else if !self.txns.dom().contains(lock.txn_id) {
                Err(not_active(lock.txn_id))
            } else if self.txns[lock.txn_id].status == TxnStatus::Active && lock_conflicts(
                lock,
                keys,
            ) {
                self.predicate_blockers(txn, table, keys, from + 1, found.insert(lock.txn_id))
            } else {
                self.predicate_blockers(txn, table, keys, from + 1, found)
            }
        }
    }

    /// What checking a write against the predicate locks of others does.
    pub open spec fn write_checked(
        self,
        txn: TransactionId,
        table: Seq<char>,
        keys: Seq<IndexKeyView>,
    ) -> (TxnModel, Result<(), ErrorView>)
        decreases self.other_waiters(txn).len(),
    {
        if self.activity_error(txn) is Some {
            (self, Err(self.activity_error(txn)->Some_0))
        } else {
            match self.predicate_blockers(txn, table, keys, 0, Set::empty()) {
                Err(e) => (self, Err(e)),
                Ok(blockers) => {
                    let key = write_key(table, keys);
                    let queue = queue_of(self.predicate_write_wait_queues, key);
                    let free = blockers == Set::<TransactionId>::empty();
                    if free && (queue.len() == 0 || queue[0] == txn) {
                        (
                            TxnModel {
                                predicate_write_wait_queues: dequeued(
                                    self.predicate_write_wait_queues,
                                    key,
                                    txn,
                                ),
                                ..self
                            }.with_predicate_waits(txn, Set::empty()),
                            Ok(()),
                        )
                    } else {
                        let blockers = if free {
                            Set::empty().insert(queue[0])
                        } else {
                            blockers
                        };
                        let waiting = TxnModel {
                            predicate_write_wait_queues: enqueued(
                                self.predicate_write_wait_queues,
                                key,
                                txn,
                            ),
                            ..self
                        }.with_predicate_waits(txn, blockers);
                        let error = if free {
                            about(ErrorCode::PredicateWriteWait { ahead: queue[0].0 }, table)
                        } else {
                            about_both(
                                ErrorCode::SerializableConflict,
                                table,
                                id_list(sorted::<TransactionId>(blockers)),
                            )
                        };
                        match first_deadlocked(
                            waiting.waits_for,
                            sorted::<TransactionId>(blockers),
                            txn,
                        ) {
                            None => (waiting, Err(error)),
                            Some(blocker) => {
                                let victim = waiting.deadlock_victim(txn, blocker);
                                let deadlock = deadlock_error(
                                    if free {
                                        WaitReason::PredicateQueue
                                    } else {
                                        WaitReason::PredicateLock
                                    },
                                    table,
                                    victim,
                                );
                                let after = waiting.sacrificed(victim, deadlock);
                                if victim == txn {
                                    (after, Err(deadlock))
                                } else if after.other_waiters(txn).len() < self.other_waiters(
                                    txn,
                                ).len() {
                                    after.write_checked(txn, table, keys)
                                } else {
                                    (after, Err(error))
                                }
                            },
                        }
                    }
                },
            }
        }
    }

    /// The transactions that survive clearing away what has ended: active ones, committed
    /// ones that somebody may not see yet or that still have rows to purge, and aborted ones
    /// with something left to undo or to report.
    pub open spec fn survives_purge(state: TxnView, horizon: u64) -> bool {
        match state.status {
            TxnStatus::Active => true,
            TxnStatus::Committed => (state.commit_ts matches Some(ts) ==> ts > horizon)
                || state.purge_records.len() > 0,
            TxnStatus::Aborted => state.undo_records.len() > 0 || state.terminal_error is Some,
        }
    }

    /// The state once ended transactions are cleared away.
    pub open spec fn purged(self, horizon: u64) -> TxnModel {
        TxnModel {
            txns: Map::new(
                |t: TransactionId|
                    self.txns.dom().contains(t) && Self::survives_purge(self.txns[t], horizon),
                |t: TransactionId| self.txns[t],
            ),
            ..self
        }
    }

    /// Whether a timestamp is the purge horizon: the earliest snapshot of an active
    /// transaction, or the last commit where none is active.
    pub open spec fn is_purge_horizon(self, horizon: u64) -> bool {
        &&& forall|t: TransactionId| #[trigger]
            self.is_active(t) ==> horizon <= self.txns[t].snapshot.visible_up_to
        &&& if exists|t: TransactionId| #[trigger] self.is_active(t) {
            exists|t: TransactionId| #[trigger]
                self.is_active(t) && horizon == self.txns[t].snapshot.visible_up_to
        } else {
            horizon == self.next_commit_ts
        }
    }

    /// Whether a committed transaction has rows that can be purged up to a horizon.
    pub open spec fn purgeable(self, txn: TransactionId, horizon: u64) -> bool {
        &&& self.txns.dom().contains(txn)
        &&& self.txns[txn].status == TxnStatus::Committed
        &&& self.txns[txn].commit_ts matches Some(ts) && ts <= horizon
        &&& self.txns[txn].purge_records.len() > 0
    }

    /// What purging a list of records does: each one is taken from the front of its
    /// transaction.
    pub open spec fn purge_completed(
        self,
        records: Seq<(TransactionId, UndoView)>,
    ) -> (TxnModel, Result<(), ErrorView>)
        decreases records.len(),
    {
        if records.len() == 0 {
            (self, Ok(()))
        } else {
            let (txn, record) = records[0];
            if !self.txns.dom().contains(txn) {
                (self, Err(not_active(txn)))
            } else if self.txns[txn].purge_records.len() == 0 {
                (self, Err(bare(ErrorCode::PurgeRecordMissing(txn.0))))
            } else {
                let rest = TxnView {
                    purge_records: self.txns[txn].purge_records.drop_first(),
                    ..self.txns[txn]
                };
                let after = self.with_txn(txn, rest);
                if self.txns[txn].purge_records[0] != record {
                    (after, Err(bare(ErrorCode::PurgeRecordOrder(txn.0))))
                } else {
                    after.purge_completed(records.drop_first())
                }
            }
        }
    }
}

} // verus!
