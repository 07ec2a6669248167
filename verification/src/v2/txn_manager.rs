//! The transaction manager: timestamps, snapshots, locks and deadlocks.

use vstd::prelude::*;

use crate::common::assoc::AssocMap;
use crate::common::error::{about, about_both, bare, DbError, DbResult, ErrorCode, ErrorView};
use crate::common::ordmap::{Duplicate, Order, OrdKey, OrdMap};
use crate::common::ordset::{lemma_ascending_determined, sorted, OrdSet};
use crate::common::text::{nat_text, same_text, u64_text};
use crate::common::value::{copy_values, CompareOp, IsolationLevel, RowId, TransactionId, DbValue};
use crate::v2::locks::{
    bound_view, predicate_lock_conflicts, predicate_write_key, stronger_mode,
    table_lock_modes_conflict, Bound, BoundView, IndexKey, LockKindView, PredicateLock,
    PredicateLockKind, PredicateLockView, PredicateWriteKey, TableLock, TableLockMode,
    TableLockView, WriteKeyView,
};
use crate::v2::page::PageId;
use crate::v2::txn_laws::{
    lemma_chain_known, lemma_follows_twice, lemma_purge_completed_follows, lemma_sacrifice_progress,
    lemma_victim_unique, lemma_waits_changed,
};
use crate::v2::tx_types::{
    PageWriteSetEntry, PageWriteView, SnapshotView, TxnSnapshot, TxnState, TxnStatus, TxnView,
    TxnWriteSet, UndoRecord, UndoView, WriteSetView,
};
use crate::v2::txn_model::{
    deadlock_error, dequeued, enqueued, first_deadlocked, front_left, id_list, not_active,
    predicate_lock_count, queue_of, queue_without, queues_without, table_lock_count, with_entry,
    without_waits_on, TxnModel, WaitReason,
};
use crate::v2::wait_graph::{
    graph_is_ordered, has_wait_path, is_wait_path, wait_chain, wait_path, waits_of, WaitGraph,
};

verus! {

/// Hands out transaction numbers, timestamps, row numbers and locks.
pub struct TxnManager {
    next_txn_id: u64,
    next_commit_ts: u64,
    next_row_ids: OrdMap<String, u64>,
    txns: OrdMap<TransactionId, TxnState>,
    table_locks: Vec<TableLock>,
    predicate_locks: Vec<PredicateLock>,
    table_wait_queues: OrdMap<String, Vec<TransactionId>>,
    page_write_owners: OrdMap<PageId, TransactionId>,
    page_write_wait_queues: OrdMap<PageId, Vec<TransactionId>>,
    predicate_write_wait_queues: AssocMap<PredicateWriteKey, Vec<TransactionId>>,
    table_wait_blockers: OrdMap<TransactionId, OrdSet<TransactionId>>,
    page_wait_blockers: OrdMap<TransactionId, OrdSet<TransactionId>>,
    predicate_wait_blockers: OrdMap<TransactionId, OrdSet<TransactionId>>,
    waits_for: OrdMap<TransactionId, OrdSet<TransactionId>>,
    lock_wait_epoch: u64,
}

impl View for TxnManager {
    type V = TxnModel;

    closed spec fn view(&self) -> TxnModel {
        TxnModel {
            next_txn_id: self.next_txn_id,
            next_commit_ts: self.next_commit_ts,
            next_row_ids: self.next_row_ids@,
            txns: self.txns@,
            table_locks: self.table_locks.deep_view(),
            predicate_locks: self.predicate_locks.deep_view(),
            table_wait_queues: self.table_wait_queues@,
            page_write_owners: self.page_write_owners@,
            page_write_wait_queues: self.page_write_wait_queues@,
            predicate_write_wait_queues: self.predicate_write_wait_queues@,
            table_wait_blockers: self.table_wait_blockers@,
            page_wait_blockers: self.page_wait_blockers@,
            predicate_wait_blockers: self.predicate_wait_blockers@,
            waits_for: self.waits_for@,
            lock_wait_epoch: self.lock_wait_epoch,
        }
    }
}

impl TxnManager {
    /// Copies all that is known.
    pub fn copy(&self) -> (r: TxnManager)
        ensures
            r@ == self@,
    {
        let r = TxnManager {
            next_txn_id: self.next_txn_id,
            next_commit_ts: self.next_commit_ts,
            next_row_ids: self.next_row_ids.duplicate(),
            txns: self.txns.duplicate(),
            table_locks: self.table_locks.duplicate(),
            predicate_locks: self.predicate_locks.duplicate(),
            table_wait_queues: self.table_wait_queues.duplicate(),
            page_write_owners: self.page_write_owners.duplicate(),
            page_write_wait_queues: self.page_write_wait_queues.duplicate(),
            predicate_write_wait_queues: self.predicate_write_wait_queues.duplicate(),
            table_wait_blockers: self.table_wait_blockers.duplicate(),
            page_wait_blockers: self.page_wait_blockers.duplicate(),
            predicate_wait_blockers: self.predicate_wait_blockers.duplicate(),
            waits_for: self.waits_for.duplicate(),
            lock_wait_epoch: self.lock_wait_epoch,
        };
        assert(r@ =~= self@);
        r
    }
}

/// Whether a result is what the model says.
pub open spec fn same_outcome(r: DbResult<()>, model: Result<(), ErrorView>) -> bool {
    match (r, model) {
        (Ok(_), Ok(_)) => true,
        (Err(e), Err(m)) => e@ == m,
        _ => false,
    }
}

/// Whether the epoch can count every waiting transaction leaving.
pub open spec fn room_for_waiters(m: TxnModel) -> bool {
    m.lock_wait_epoch + m.waits_for.dom().len() + 1 <= u64::MAX
}

// ---------------------------------------------------------------------------
// Wait queues

fn queue_contains(queue: &Vec<TransactionId>, txn: TransactionId) -> (r: bool)
    ensures
        r == queue.deep_view().contains(txn),
{
    let mut i: usize = 0;
    while i < queue.len()
        invariant
            i <= queue@.len(),
            forall|j: int| 0 <= j < i ==> #[trigger] queue.deep_view()[j] != txn,
        decreases queue@.len() - i,
    {
        if queue[i] == txn {
            assert(queue.deep_view()[i as int] == txn);
            return true;
        }
        i = i + 1;
    }
    false
}

fn copy_without(queue: &Vec<TransactionId>, txn: TransactionId) -> (r: Vec<TransactionId>)
    ensures
        r.deep_view() == queue_without(queue.deep_view(), txn),
{
    let mut r: Vec<TransactionId> = Vec::new();
    let ghost all = queue.deep_view();
    let mut i: usize = 0;
    proof {
        assert(queue_without(all.take(0), txn) =~= Seq::<TransactionId>::empty()) by {
            reveal(Seq::filter);
        }
        assert(r.deep_view() =~= Seq::<TransactionId>::empty());
    }
    while i < queue.len()
        invariant
            i <= queue@.len(),
            all == queue.deep_view(),
            r.deep_view() == queue_without(all.take(i as int), txn),
        decreases queue@.len() - i,
    {
        proof {
            let next = all.take(i + 1);
            assert(next.drop_last() =~= all.take(i as int));
            assert(next.last() == queue@[i as int]);
            reveal(Seq::filter);
        }
        let ghost before = r.deep_view();
        if queue[i] != txn {
            r.push(queue[i]);
            assert(r.deep_view() =~= before.push(queue@[i as int]));
        }
        i = i + 1;
    }
    assert(all.take(queue@.len() as int) =~= all);
    r
}

fn enqueue<K: OrdKey>(
    queues: &mut OrdMap<K, Vec<TransactionId>>,
    key: K,
    txn: TransactionId,
)
    ensures
        final(queues)@ == enqueued(old(queues)@, key.deep_view(), txn),
{
    if let Some(queue) = queues.get_mut(&key) {
        let ghost before = queue.deep_view();
        if !queue_contains(queue, txn) {
            queue.push(txn);
            assert(queue.deep_view() =~= before.push(txn));
        }
        return;
    }
    let mut queue: Vec<TransactionId> = Vec::new();
    queue.push(txn);
    assert(queue.deep_view() =~= Seq::<TransactionId>::empty().push(txn));
    let _ = queues.insert(key, queue);
}

fn leave_front(queue: &mut Vec<TransactionId>, txn: TransactionId)
    ensures
        final(queue).deep_view() == front_left(old(queue).deep_view(), txn),
{
    if queue.len() > 0 && queue[0] == txn {
        let _ = queue.remove(0);
        assert(queue.deep_view() =~= old(queue).deep_view().drop_first());
    }
}

fn dequeue<K: OrdKey>(
    queues: &mut OrdMap<K, Vec<TransactionId>>,
    key: &K,
    txn: TransactionId,
)
    ensures
        final(queues)@ == dequeued(old(queues)@, key.deep_view(), txn),
{
    let ghost before = queues@;
    let mut emptied = false;
    if let Some(queue) = queues.get_mut(key) {
        leave_front(queue, txn);
        emptied = queue.len() == 0;
        assert(queue.deep_view().len() == queue@.len());
    }
    if emptied {
        let _ = queues.remove(key);
        assert(queues@ =~= before.remove(key.deep_view()));
    }
}

fn front_of<K: OrdKey>(
    queues: &OrdMap<K, Vec<TransactionId>>,
    key: &K,
) -> (r: Option<TransactionId>)
    ensures
        match r {
            Some(t) => queue_of(queues@, key.deep_view()).len() > 0 && queue_of(
                queues@,
                key.deep_view(),
            )[0] == t,
            None => queue_of(queues@, key.deep_view()).len() == 0,
        },
{
    match queues.get(key) {
        Some(queue) => {
            assert(queue.deep_view().len() == queue@.len());
            if queue.len() > 0 {
                assert(queue.deep_view()[0] == queue@[0]);
                Some(queue[0])
            } else {
                None
            }
        },
        None => None,
    }
}

fn all_without<K: OrdKey>(
    queues: &OrdMap<K, Vec<TransactionId>>,
    txn: TransactionId,
) -> (r: OrdMap<K, Vec<TransactionId>>)
    ensures
        r@ == queues_without(queues@, txn),
{
    let mut r: OrdMap<K, Vec<TransactionId>> = OrdMap::new();
    let n: usize = queues.len();
    let ghost keys = queues.keys();
    let ghost all = queues_without(queues@, txn);
    let mut i: usize = 0;
    while i < n
        invariant
            i <= n == keys.len(),
            keys == queues.keys(),
            queues.ordered(),
            all == queues_without(queues@, txn),
            forall|j: int| #![trigger keys[j]] 0 <= j < n ==> queues@.dom().contains(keys[j]),
            forall|k: K::V| #[trigger]
                r@.dom().contains(k) <==> all.dom().contains(k) && exists|j: int|
                    0 <= j < i && #[trigger] keys[j] == k,
            forall|k: K::V| #[trigger] r@.dom().contains(k) ==> r@[k] == all[k],
        decreases n - i,
    {
        let queue = queues.value_at(i);
        let rest = copy_without(queue, txn);
        assert(rest.deep_view().len() == rest@.len());
        let ghost before = r@;
        let ghost k = keys[i as int];
        let keep = !(queue_contains(queue, txn) && rest.len() == 0);
        if keep {
            let _ = r.insert(queues.key_at(i).copy_key(), rest);
        }
        i = i + 1;
        proof {
            assert forall|x: K::V| #[trigger] r@.dom().contains(x) <==> all.dom().contains(x)
                && exists|j: int| 0 <= j < i && #[trigger] keys[j] == x by {
                if x == k {
                    assert(keys[i - 1] == x);
                } else {
                    if exists|j: int| 0 <= j < i - 1 && #[trigger] keys[j] == x {
                        let j = choose|j: int| 0 <= j < i - 1 && #[trigger] keys[j] == x;
                        assert(keys[j] == x);
                    }
                    assert(r@.dom().contains(x) == before.dom().contains(x));
                }
            }
        }
    }
    proof {
        assert forall|k: K::V| #[trigger] r@.dom().contains(k) <==> all.dom().contains(k) by {
            if all.dom().contains(k) {
                assert(queues@.dom().contains(k));
                let j = keys.index_of(k);
                assert(keys.contains(k));
                assert(keys[j] == k);
            }
        }
        assert(r@ =~= all);
    }
    r
}

fn enqueue_write(
    queues: &mut AssocMap<PredicateWriteKey, Vec<TransactionId>>,
    key: PredicateWriteKey,
    txn: TransactionId,
)
    ensures
        final(queues)@ == enqueued(old(queues)@, key.deep_view(), txn),
{
    if let Some(queue) = queues.get_mut(&key) {
        let ghost before = queue.deep_view();
        if !queue_contains(queue, txn) {
            queue.push(txn);
            assert(queue.deep_view() =~= before.push(txn));
        }
        return;
    }
    let mut queue: Vec<TransactionId> = Vec::new();
    queue.push(txn);
    assert(queue.deep_view() =~= Seq::<TransactionId>::empty().push(txn));
    queues.insert_new(key, queue);
}

fn dequeue_write(
    queues: &mut AssocMap<PredicateWriteKey, Vec<TransactionId>>,
    key: &PredicateWriteKey,
    txn: TransactionId,
)
    ensures
        final(queues)@ == dequeued(old(queues)@, key.deep_view(), txn),
{
    let ghost before = queues@;
    let mut emptied = false;
    if let Some(queue) = queues.get_mut(key) {
        leave_front(queue, txn);
        emptied = queue.len() == 0;
        assert(queue.deep_view().len() == queue@.len());
    }
    if emptied {
        let _ = queues.remove(key);
        assert(queues@ =~= before.remove(key.deep_view()));
    }
}

fn front_of_write(
    queues: &AssocMap<PredicateWriteKey, Vec<TransactionId>>,
    key: &PredicateWriteKey,
) -> (r: Option<TransactionId>)
    ensures
        match r {
            Some(t) => queue_of(queues@, key.deep_view()).len() > 0 && queue_of(
                queues@,
                key.deep_view(),
            )[0] == t,
            None => queue_of(queues@, key.deep_view()).len() == 0,
        },
{
    match queues.get(key) {
        Some(queue) => {
            assert(queue.deep_view().len() == queue@.len());
            if queue.len() > 0 {
                assert(queue.deep_view()[0] == queue@[0]);
                Some(queue[0])
            } else {
                None
            }
        },
        None => None,
    }
}

fn all_writes_without(
    queues: AssocMap<PredicateWriteKey, Vec<TransactionId>>,
    txn: TransactionId,
) -> (r: AssocMap<PredicateWriteKey, Vec<TransactionId>>)
    ensures
        r@ == queues_without(queues@, txn),
{
    let mut left = queues;
    let mut r: AssocMap<PredicateWriteKey, Vec<TransactionId>> = AssocMap::new();
    let ghost all = queues_without(queues@, txn);
    proof {
        assert(r@.dom() =~= Set::empty());
    }
    loop
        invariant
            all == queues_without(queues@, txn),
            forall|k: WriteKeyView| #[trigger] left@.dom().contains(k) ==> queues@.dom().contains(k)
                && left@[k] == queues@[k] && !r@.dom().contains(k),
            forall|k: WriteKeyView| #[trigger] r@.dom().contains(k) <==> all.dom().contains(k)
                && !left@.dom().contains(k),
            forall|k: WriteKeyView| #[trigger] r@.dom().contains(k) ==> r@[k] == all[k],
        ensures
            r@ == all,
        decreases left.keys().len(),
    {
        let ghost before = r@;
        let ghost rest_before = left@;
        match left.pop() {
            None => {
                assert(r@ =~= all);
                break;
            },
            Some((key, queue)) => {
                let ghost k = key.deep_view();
                assert(rest_before.dom().contains(k));
                let rest = copy_without(&queue, txn);
                assert(rest.deep_view().len() == rest@.len());
                let keep = !(queue_contains(&queue, txn) && rest.len() == 0);
                if keep {
                    r.insert_new(key, rest);
                }
                proof {
                    assert forall|x: WriteKeyView| #[trigger] r@.dom().contains(
                        x,
                    ) <==> all.dom().contains(x) && !left@.dom().contains(x) by {
                        if x != k {
                            assert(r@.dom().contains(x) == before.dom().contains(x));
                            assert(left@.dom().contains(x) == rest_before.dom().contains(x));
                        }
                    }
                }
            },
        }
    }
    r
}

// ---------------------------------------------------------------------------
// Transactions

impl Default for TxnManager {
    fn default() -> (r: TxnManager)
        ensures
            r@ == TxnModel::initial(1),
    {
        TxnManager::with_next_txn_id(1)
    }
}

impl TxnManager {
    /// Makes a manager that starts counting transactions at one.
    #[must_use]
    pub fn new() -> (r: TxnManager)
        ensures
            r@ == TxnModel::initial(1),
    {
        TxnManager::default()
    }

    /// Makes a manager that goes on counting transactions at a number.
    #[must_use]
    pub fn with_next_txn_id(next_txn_id: u64) -> (r: TxnManager)
        ensures
            r@ == TxnModel::initial(next_txn_id),
    {
        let r = TxnManager {
            next_txn_id,
            next_commit_ts: if next_txn_id > 0 {
                next_txn_id - 1
            } else {
                0
            },
            next_row_ids: OrdMap::new(),
            txns: OrdMap::new(),
            table_locks: Vec::new(),
            predicate_locks: Vec::new(),
            table_wait_queues: OrdMap::new(),
            page_write_owners: OrdMap::new(),
            page_write_wait_queues: OrdMap::new(),
            predicate_write_wait_queues: AssocMap::new(),
            table_wait_blockers: OrdMap::new(),
            page_wait_blockers: OrdMap::new(),
            predicate_wait_blockers: OrdMap::new(),
            waits_for: OrdMap::new(),
            lock_wait_epoch: 0,
        };
        assert(r@ =~= TxnModel::initial(next_txn_id));
        r
    }

    /// The number of times that a transaction has given back its locks. Whoever waits for a
    /// lock waits for it to change.
    pub fn current_lock_wait_epoch(&self) -> (r: u64)
        ensures
            r == self@.lock_wait_epoch,
    {
        self.lock_wait_epoch
    }

    /// The number that the next transaction is to get.
    pub fn next_id(&self) -> (r: u64)
        ensures
            r == self@.next_txn_id,
    {
        self.next_txn_id
    }

    /// Whether the epoch can count every waiting transaction leaving.
    pub fn has_epoch_room(&self) -> (r: bool)
        ensures
            r == room_for_waiters(self@),
            r ==> forall|t: TransactionId| #[trigger] self@.epoch_has_room(t),
    {
        let waiting: usize = self.waits_for.len();
        let r = self.lock_wait_epoch as u128 + waiting as u128 + 1 <= u64::MAX as u128;
        proof {
            assert forall|t: TransactionId| r implies #[trigger] self@.epoch_has_room(t) by {
                assert(self@.other_waiters(t).subset_of(self@.waits_for.dom()));
                vstd::set_lib::lemma_len_subset(self@.other_waiters(t), self@.waits_for.dom());
            }
        }
        r
    }

    /// Whether waiting since an observed epoch is over.
    pub fn wait_for_lock_epoch_change(&self, observed_epoch: u64) -> (r: bool)
        ensures
            r == (self@.lock_wait_epoch != observed_epoch),
    {
        self.lock_wait_epoch != observed_epoch
    }

    fn active_ids(&self) -> (r: OrdSet<TransactionId>)
        ensures
            r@ == self@.active_set(),
    {
        let mut r: OrdSet<TransactionId> = OrdSet::new();
        let n: usize = self.txns.len();
        let ghost keys = self.txns.keys();
        let mut i: usize = 0;
        while i < n
            invariant
                i <= n == keys.len(),
                keys == self.txns.keys(),
                self.txns.ordered(),
                forall|t: TransactionId| #[trigger]
                    r@.contains(t) <==> self@.is_active(t) && exists|j: int|
                        0 <= j < i && #[trigger] keys[j] == t,
            decreases n - i,
        {
            let state = self.txns.value_at(i);
            let id: TransactionId = *self.txns.key_at(i);
            let ghost before = r@;
            if state.status == TxnStatus::Active {
                let _ = r.insert(id);
            }
            i = i + 1;
            proof {
                assert forall|t: TransactionId| #[trigger]
                    r@.contains(t) <==> self@.is_active(t) && exists|j: int|
                        0 <= j < i && #[trigger] keys[j] == t by {
                    if t == id {
                        assert(keys[i - 1] == t);
                    } else {
                        if exists|j: int| 0 <= j < i - 1 && #[trigger] keys[j] == t {
                            let j = choose|j: int| 0 <= j < i - 1 && #[trigger] keys[j] == t;
                            assert(keys[j] == t);
                        }
                    }
                }
            }
        }
        proof {
            assert forall|t: TransactionId| #[trigger]
                r@.contains(t) <==> self@.active_set().contains(t) by {
                if self@.is_active(t) {
                    assert(self.txns@.dom().contains(t));
                    let j = keys.index_of(t);
                    assert(keys[j] == t);
                }
            }
            assert(r@ =~= self@.active_set());
        }
        r
    }

    fn insert_txn(&mut self, txn_id: TransactionId, isolation_level: IsolationLevel)
        ensures
            final(self)@ == old(self)@.begun(txn_id, isolation_level),
    {
        let snapshot = TxnSnapshot {
            visible_up_to: self.next_commit_ts,
            active_txns: self.active_ids(),
        };
        let state = TxnState {
            id: txn_id,
            isolation_level,
            status: TxnStatus::Active,
            terminal_error: None,
            start_ts: txn_id.0,
            commit_ts: None,
            snapshot,
            write_set: TxnWriteSet::default(),
            undo_records: Vec::new(),
            purge_records: Vec::new(),
        };
        proof {
            assert(state.undo_records.deep_view() =~= Seq::<UndoView>::empty());
            assert(state.purge_records.deep_view() =~= Seq::<UndoView>::empty());
        }
        let _ = self.txns.insert(txn_id, state);
        give_entry(&mut self.table_wait_blockers, txn_id);
        give_entry(&mut self.page_wait_blockers, txn_id);
        give_entry(&mut self.predicate_wait_blockers, txn_id);
        give_entry(&mut self.waits_for, txn_id);
        assert(self@ =~= old(self)@.begun(txn_id, isolation_level));
    }

    /// Begins a transaction with the next number.
    pub fn begin(&mut self, isolation_level: IsolationLevel) -> (r: TransactionId)
        requires
            old(self)@.next_txn_id < u64::MAX,
        ensures
            r.0 == if old(self)@.next_txn_id >= 1 {
                old(self)@.next_txn_id
            } else {
                1
            },
            final(self)@ == (TxnModel { next_txn_id: (r.0 + 1) as u64, ..old(self)@ }).begun(
                r,
                isolation_level,
            ),
            final(self)@.follows(old(self)@),
    {
        let id: TransactionId = if self.next_txn_id >= 1 {
            TransactionId(self.next_txn_id)
        } else {
            TransactionId(1)
        };
        self.next_txn_id = id.0 + 1;
        assert(self@ =~= TxnModel { next_txn_id: (id.0 + 1) as u64, ..old(self)@ });
        self.insert_txn(id, isolation_level);
        id
    }

    /// Begins a transaction with a number of the caller's choice.
    pub fn begin_with_id(
        &mut self,
        txn_id: TransactionId,
        isolation_level: IsolationLevel,
    ) -> (r: DbResult<()>)
        ensures
            match r {
                Ok(_) => {
                    &&& !old(self)@.txns.dom().contains(txn_id)
                    &&& final(self)@ == (TxnModel {
                        next_txn_id: next_after(old(self)@.next_txn_id, txn_id),
                        ..old(self)@
                    }).begun(txn_id, isolation_level)
                },
                Err(e) => {
                    &&& old(self)@.txns.dom().contains(txn_id)
                    &&& final(self)@ == old(self)@
                    &&& e@ == bare(ErrorCode::TxnAlreadyRegistered(txn_id.0))
                },
            },
            txn_id.0 < u64::MAX ==> final(self)@.follows(old(self)@),
    {
        if self.txns.contains_key(&txn_id) {
            return Err(DbError::bare(ErrorCode::TxnAlreadyRegistered(txn_id.0)));
        }
        let after: u64 = if txn_id.0 < u64::MAX {
            txn_id.0 + 1
        } else {
            txn_id.0
        };
        if self.next_txn_id < after {
            self.next_txn_id = after;
        }
        assert(self@ =~= TxnModel {
            next_txn_id: next_after(old(self)@.next_txn_id, txn_id),
            ..old(self)@
        });
        self.insert_txn(txn_id, isolation_level);
        Ok(())
    }

    /// The state of a transaction.
    pub fn get(&self, txn_id: TransactionId) -> (r: DbResult<&TxnState>)
        ensures
            match r {
                Ok(state) => self@.txns.dom().contains(txn_id) && state.deep_view()
                    == self@.txns[txn_id],
                Err(e) => !self@.txns.dom().contains(txn_id) && e@ == not_active(txn_id),
            },
    {
        match self.txns.get(&txn_id) {
            Some(state) => Ok(state),
            None => Err(DbError::bare(ErrorCode::TxnNotActive(txn_id.0))),
        }
    }

    /// The state of a transaction for changing it.
    pub fn get_mut(&mut self, txn_id: TransactionId) -> (r: DbResult<&mut TxnState>)
        ensures
            match r {
                Ok(state) => {
                    &&& old(self)@.txns.dom().contains(txn_id)
                    &&& state.deep_view() == old(self)@.txns[txn_id]
                    &&& final(self)@ == old(self)@.with_txn(txn_id, final(state).deep_view())
                },
                Err(e) => {
                    &&& !old(self)@.txns.dom().contains(txn_id)
                    &&& final(self)@ == old(self)@
                    &&& e@ == not_active(txn_id)
                },
            },
    {
        match self.txns.get_mut(&txn_id) {
            Some(state) => Ok(state),
            None => Err(DbError::bare(ErrorCode::TxnNotActive(txn_id.0))),
        }
    }

    fn ensure_active(&self, txn_id: TransactionId) -> (r: DbResult<()>)
        ensures
            match r {
                Ok(_) => self@.activity_error(txn_id) is None && self@.is_active(txn_id),
                Err(e) => self@.activity_error(txn_id) == Some(e@),
            },
    {
        let txn = self.get(txn_id)?;
        if txn.status == TxnStatus::Active {
            Ok(())
        } else {
            match &txn.terminal_error {
                Some(e) => Err(e.copy()),
                None => Err(DbError::bare(ErrorCode::TxnNotActive(txn_id.0))),
            }
        }
    }

    /// Takes the next commit timestamp for an active transaction.
    pub fn reserve_commit_ts(&mut self, txn_id: TransactionId) -> (r: DbResult<u64>)
        requires
            old(self)@.next_commit_ts < u64::MAX,
        ensures
            match r {
                Ok(ts) => {
                    &&& old(self)@.activity_error(txn_id) is None
                    &&& ts == old(self)@.next_commit_ts + 1
                    &&& final(self)@ == (TxnModel { next_commit_ts: ts, ..old(self)@ })
                },
                Err(e) => old(self)@.activity_error(txn_id) == Some(e@) && final(self)@ == old(
                    self,
                )@,
            },
            final(self)@.follows(old(self)@),
    {
        self.ensure_active(txn_id)?;
        let commit_ts: u64 = self.next_commit_ts + 1;
        self.next_commit_ts = commit_ts;
        assert(self@ =~= TxnModel { next_commit_ts: commit_ts, ..old(self)@ });
        Ok(commit_ts)
    }

    /// Marks an active transaction as committed at a timestamp. The rows that it deleted are
    /// to be purged later.
    pub fn finalize_commit(&mut self, txn_id: TransactionId, commit_ts: u64) -> (r: DbResult<()>)
        ensures
            match r {
                Ok(_) => old(self)@.is_active(txn_id) && final(self)@ == old(self)@.with_txn(
                    txn_id,
                    committed_at(old(self)@.txns[txn_id], commit_ts),
                ),
                Err(e) => !old(self)@.is_active(txn_id) && final(self)@ == old(self)@ && e@
                    == not_active(txn_id),
            },
            final(self)@.follows(old(self)@),
    {
        let ghost before = self@;
        let ghost view = before.txns[txn_id];
        let txn = self.get_mut(txn_id)?;
        if txn.status != TxnStatus::Active {
            assert(before.with_txn(txn_id, view) =~= before);
            return Err(DbError::bare(ErrorCode::TxnNotActive(txn_id.0)));
        }
        txn.status = TxnStatus::Committed;
        txn.terminal_error = None;
        txn.commit_ts = Some(commit_ts);
        let purge_records = deleted_rows(&txn.undo_records);
        txn.purge_records = purge_records;
        assert(txn.deep_view() =~= committed_at(view, commit_ts));
        Ok(())
    }

    /// Commits an active transaction at the next timestamp.
    pub fn commit(&mut self, txn_id: TransactionId) -> (r: DbResult<u64>)
        requires
            old(self)@.next_commit_ts < u64::MAX,
        ensures
            match r {
                Ok(ts) => {
                    &&& old(self)@.is_active(txn_id)
                    &&& ts == old(self)@.next_commit_ts + 1
                    &&& final(self)@ == (TxnModel { next_commit_ts: ts, ..old(self)@ }).with_txn(
                        txn_id,
                        committed_at(old(self)@.txns[txn_id], ts),
                    )
                },
                Err(e) => old(self)@.activity_error(txn_id) == Some(e@) && final(self)@ == old(
                    self,
                )@,
            },
            final(self)@.follows(old(self)@),
    {
        let commit_ts: u64 = self.reserve_commit_ts(txn_id)?;
        self.finalize_commit(txn_id, commit_ts)?;
        Ok(commit_ts)
    }

    /// Marks an active transaction as aborted.
    pub fn abort(&mut self, txn_id: TransactionId) -> (r: DbResult<()>)
        ensures
            match r {
                Ok(_) => old(self)@.is_active(txn_id) && final(self)@ == old(self)@.with_txn(
                    txn_id,
                    (TxnView {
                        status: TxnStatus::Aborted,
                        terminal_error: None,
                        ..old(self)@.txns[txn_id]
                    }),
                ),
                Err(e) => !old(self)@.is_active(txn_id) && final(self)@ == old(self)@ && e@
                    == not_active(txn_id),
            },
            final(self)@.follows(old(self)@),
    {
        let ghost before = self@;
        let ghost view = before.txns[txn_id];
        let txn = self.get_mut(txn_id)?;
        if txn.status != TxnStatus::Active {
            assert(before.with_txn(txn_id, view) =~= before);
            return Err(DbError::bare(ErrorCode::TxnNotActive(txn_id.0)));
        }
        txn.status = TxnStatus::Aborted;
        txn.terminal_error = None;
        assert(txn.deep_view() =~= TxnView {
            status: TxnStatus::Aborted,
            terminal_error: None,
            ..view
        });
        Ok(())
    }

    /// Whether any transaction is active.
    #[must_use]
    pub fn has_active_transactions(&self) -> (r: bool)
        ensures
            r == exists|t: TransactionId| self@.is_active(t),
    {
        let active = self.active_ids();
        let empty = active.is_empty();
        proof {
            if !empty {
                if forall|t: TransactionId| !self@.is_active(t) {
                    assert(active@ =~= Set::empty());
                }
            } else {
                assert forall|t: TransactionId| !self@.is_active(t) by {
                    assert(!self@.active_set().contains(t));
                }
            }
        }
        !empty
    }

    /// Takes a new snapshot for a transaction.
    pub fn refresh_snapshot(&mut self, txn_id: TransactionId) -> (r: DbResult<TxnSnapshot>)
        ensures
            match r {
                Ok(snapshot) => {
                    &&& old(self)@.txns.dom().contains(txn_id)
                    &&& snapshot.deep_view() == (SnapshotView {
                        visible_up_to: old(self)@.next_commit_ts,
                        active_txns: old(self)@.active_set().remove(txn_id),
                    })
                    &&& final(self)@ == old(self)@.with_txn(
                        txn_id,
                        (TxnView { snapshot: snapshot.deep_view(), ..old(self)@.txns[txn_id] }),
                    )
                },
                Err(e) => !old(self)@.txns.dom().contains(txn_id) && final(self)@ == old(self)@
                    && e@ == not_active(txn_id),
            },
            final(self)@.follows(old(self)@),
    {
        let visible_up_to: u64 = self.next_commit_ts;
        let mut active_txns = self.active_ids();
        let _ = active_txns.remove(&txn_id);
        let snapshot = TxnSnapshot { visible_up_to, active_txns };
        let ghost view = self@.txns[txn_id];
        let txn = self.get_mut(txn_id)?;
        txn.snapshot = snapshot.copy();
        assert(txn.deep_view() =~= TxnView { snapshot: snapshot.deep_view(), ..view });
        Ok(snapshot)
    }

    /// The snapshot of a transaction.
    pub fn snapshot(&self, txn_id: TransactionId) -> (r: DbResult<TxnSnapshot>)
        ensures
            match r {
                Ok(snapshot) => self@.txns.dom().contains(txn_id) && snapshot.deep_view()
                    == self@.txns[txn_id].snapshot,
                Err(e) => !self@.txns.dom().contains(txn_id) && e@ == not_active(txn_id),
            },
    {
        Ok(self.get(txn_id)?.snapshot.copy())
    }

    /// The isolation level of a transaction.
    pub fn isolation_level(&self, txn_id: TransactionId) -> (r: DbResult<IsolationLevel>)
        ensures
            match r {
                Ok(level) => self@.txns.dom().contains(txn_id) && level
                    == self@.txns[txn_id].isolation_level,
                Err(e) => !self@.txns.dom().contains(txn_id) && e@ == not_active(txn_id),
            },
    {
        Ok(self.get(txn_id)?.isolation_level)
    }

    /// How far a transaction has come.
    pub fn status(&self, txn_id: TransactionId) -> (r: DbResult<TxnStatus>)
        ensures
            match r {
                Ok(status) => self@.txns.dom().contains(txn_id) && status
                    == self@.txns[txn_id].status,
                Err(e) => !self@.txns.dom().contains(txn_id) && e@ == not_active(txn_id),
            },
    {
        Ok(self.get(txn_id)?.status)
    }

    /// Notes how to take back a change.
    pub fn record_undo(&mut self, txn_id: TransactionId, record: UndoRecord) -> (r: DbResult<()>)
        ensures
            match r {
                Ok(_) => old(self)@.txns.dom().contains(txn_id) && final(self)@ == old(
                    self,
                )@.with_txn(
                    txn_id,
                    (TxnView {
                        undo_records: old(self)@.txns[txn_id].undo_records.push(
                            record.deep_view(),
                        ),
                        ..old(self)@.txns[txn_id]
                    }),
                ),
                Err(e) => !old(self)@.txns.dom().contains(txn_id) && final(self)@ == old(self)@
                    && e@ == not_active(txn_id),
            },
            final(self)@.follows(old(self)@),
    {
        let ghost view = self@.txns[txn_id];
        let txn = self.get_mut(txn_id)?;
        txn.undo_records.push(record);
        assert(txn.undo_records.deep_view() =~= view.undo_records.push(record.deep_view()));
        assert(txn.deep_view() =~= TxnView {
            undo_records: view.undo_records.push(record.deep_view()),
            ..view
        });
        Ok(())
    }

    /// What a transaction has noted for taking back its changes.
    pub fn undo_records(&self, txn_id: TransactionId) -> (r: DbResult<&Vec<UndoRecord>>)
        ensures
            match r {
                Ok(records) => self@.txns.dom().contains(txn_id) && records.deep_view()
                    == self@.txns[txn_id].undo_records,
                Err(e) => !self@.txns.dom().contains(txn_id) && e@ == not_active(txn_id),
            },
    {
        Ok(&self.get(txn_id)?.undo_records)
    }

    /// Takes the undo records of a transaction, the latest first.
    pub fn take_undo_records(&mut self, txn_id: TransactionId) -> (r: DbResult<Vec<UndoRecord>>)
        ensures
            match r {
                Ok(records) => {
                    &&& old(self)@.txns.dom().contains(txn_id)
                    &&& records.deep_view() == old(self)@.txns[txn_id].undo_records.reverse()
                    &&& final(self)@ == old(self)@.with_txn(
                        txn_id,
                        (TxnView { undo_records: Seq::empty(), ..old(self)@.txns[txn_id] }),
                    )
                },
                Err(e) => !old(self)@.txns.dom().contains(txn_id) && final(self)@ == old(self)@
                    && e@ == not_active(txn_id),
            },
            final(self)@.follows(old(self)@),
    {
        let ghost view = self@.txns[txn_id];
        let txn = self.get_mut(txn_id)?;
        let mut records: Vec<UndoRecord> = Vec::new();
        std::mem::swap(&mut records, &mut txn.undo_records);
        assert(txn.undo_records.deep_view() =~= Seq::<UndoView>::empty());
        assert(txn.deep_view() =~= TxnView { undo_records: Seq::empty(), ..view });
        let ghost taken = records@;
        let mut reversed: Vec<UndoRecord> = Vec::new();
        let n: usize = records.len();
        while records.len() > 0
            invariant
                records@.len() <= n == taken.len(),
                records@ == taken.take(records@.len() as int),
                reversed@.len() == n - records@.len(),
                forall|i: int|
                    0 <= i < reversed@.len() ==> #[trigger] reversed@[i] == taken[n - 1 - i],
            decreases records@.len(),
        {
            if let Some(record) = records.pop() {
                reversed.push(record);
            }
        }
        assert(reversed.deep_view() =~= view.undo_records.reverse());
        Ok(reversed)
    }

    /// Forgets why a transaction was aborted.
    pub fn clear_terminal_error(&mut self, txn_id: TransactionId) -> (r: DbResult<()>)
        ensures
            match r {
                Ok(_) => old(self)@.txns.dom().contains(txn_id) && final(self)@ == old(
                    self,
                )@.with_txn(
                    txn_id,
                    (TxnView { terminal_error: None, ..old(self)@.txns[txn_id] }),
                ),
                Err(e) => !old(self)@.txns.dom().contains(txn_id) && final(self)@ == old(self)@
                    && e@ == not_active(txn_id),
            },
            final(self)@.follows(old(self)@),
    {
        let ghost view = self@.txns[txn_id];
        let txn = self.get_mut(txn_id)?;
        txn.terminal_error = None;
        assert(txn.deep_view() =~= TxnView { terminal_error: None, ..view });
        Ok(())
    }

    /// Replaces what a transaction has written.
    pub fn replace_page_write_set(
        &mut self,
        txn_id: TransactionId,
        page_writes: Vec<PageWriteSetEntry>,
    ) -> (r: DbResult<()>)
        ensures
            match r {
                Ok(_) => old(self)@.txns.dom().contains(txn_id) && final(self)@ == old(
                    self,
                )@.with_txn(
                    txn_id,
                    (TxnView {
                        write_set: WriteSetView {
                            touched_pages: page_writes.deep_view().map_values(
                                |w: PageWriteView| w.page_id,
                            ).to_set(),
                            page_writes: page_writes.deep_view(),
                        },
                        ..old(self)@.txns[txn_id]
                    }),
                ),
                Err(e) => !old(self)@.txns.dom().contains(txn_id) && final(self)@ == old(self)@
                    && e@ == not_active(txn_id),
            },
            final(self)@.follows(old(self)@),
    {
        let ghost view = self@.txns[txn_id];
        let touched_pages = pages_of(&page_writes);
        let txn = self.get_mut(txn_id)?;
        txn.write_set = TxnWriteSet { touched_pages, page_writes };
        assert(txn.deep_view() =~= TxnView { write_set: txn.write_set.deep_view(), ..view });
        Ok(())
    }

    /// What a transaction has written.
    pub fn page_write_set(&self, txn_id: TransactionId) -> (r: DbResult<&TxnWriteSet>)
        ensures
            match r {
                Ok(write_set) => self@.txns.dom().contains(txn_id) && write_set.deep_view()
                    == self@.txns[txn_id].write_set,
                Err(e) => !self@.txns.dom().contains(txn_id) && e@ == not_active(txn_id),
            },
    {
        Ok(&self.get(txn_id)?.write_set)
    }
}

/// The next transaction number once a number has been used.
pub open spec fn next_after(next_txn_id: u64, txn: TransactionId) -> u64 {
    let after = if txn.0 < u64::MAX {
        (txn.0 + 1) as u64
    } else {
        txn.0
    };
    if next_txn_id < after {
        after
    } else {
        next_txn_id
    }
}

/// The records about deleted rows.
pub open spec fn delete_records(records: Seq<UndoView>) -> Seq<UndoView> {
    records.filter(|r: UndoView| r is DeleteRow)
}

/// The state of a transaction once it is committed at a timestamp.
pub open spec fn committed_at(state: TxnView, commit_ts: u64) -> TxnView {
    TxnView {
        status: TxnStatus::Committed,
        terminal_error: None,
        commit_ts: Some(commit_ts),
        purge_records: delete_records(state.undo_records),
        ..state
    }
}

fn deleted_rows(records: &Vec<UndoRecord>) -> (r: Vec<UndoRecord>)
    ensures
        r.deep_view() == delete_records(records.deep_view()),
{
    let mut r: Vec<UndoRecord> = Vec::new();
    let ghost all = records.deep_view();
    let mut i: usize = 0;
    proof {
        assert(delete_records(all.take(0)) =~= Seq::<UndoView>::empty()) by {
            reveal(Seq::filter);
        }
        assert(r.deep_view() =~= Seq::<UndoView>::empty());
    }
    while i < records.len()
        invariant
            i <= records@.len(),
            all == records.deep_view(),
            r.deep_view() == delete_records(all.take(i as int)),
        decreases records@.len() - i,
    {
        proof {
            let next = all.take(i + 1);
            assert(next.drop_last() =~= all.take(i as int));
            assert(next.last() == records@[i as int].deep_view());
            reveal(Seq::filter);
        }
        let ghost before = r.deep_view();
        if records[i].is_delete_row() {
            let copy = records[i].copy();
            r.push(copy);
            assert(r.deep_view() =~= before.push(copy.deep_view()));
        }
        i = i + 1;
    }
    assert(all.take(records@.len() as int) =~= all);
    r
}

fn pages_of(page_writes: &Vec<PageWriteSetEntry>) -> (r: OrdSet<PageId>)
    ensures
        r@ == page_writes.deep_view().map_values(|w: PageWriteView| w.page_id).to_set(),
{
    let mut r: OrdSet<PageId> = OrdSet::new();
    let ghost pages = page_writes.deep_view().map_values(|w: PageWriteView| w.page_id);
    let mut i: usize = 0;
    while i < page_writes.len()
        invariant
            i <= page_writes@.len() == pages.len(),
            pages == page_writes.deep_view().map_values(|w: PageWriteView| w.page_id),
            forall|p: PageId| #[trigger]
                r@.contains(p) <==> exists|j: int| 0 <= j < i && #[trigger] pages[j] == p,
        decreases page_writes@.len() - i,
    {
        let _ = r.insert(page_writes[i].page_id);
        assert(pages[i as int] == page_writes@[i as int].page_id);
        i = i + 1;
    }
    proof {
        assert forall|p: PageId| #[trigger] r@.contains(p) <==> pages.to_set().contains(p) by {
            if pages.contains(p) {
                let j = pages.index_of(p);
                assert(pages[j] == p);
            }
        }
        assert(r@ =~= pages.to_set());
    }
    r
}

fn give_entry(
    graph: &mut OrdMap<TransactionId, OrdSet<TransactionId>>,
    txn_id: TransactionId,
)
    ensures
        final(graph)@ == with_entry(old(graph)@, txn_id),
{
    if !graph.contains_key(&txn_id) {
        let _ = graph.insert(txn_id, OrdSet::new());
    }
}

// ---------------------------------------------------------------------------
// Waits

/// Whether a key is one of the first `n`.
spec fn among<A>(keys: Seq<A>, n: int, key: A) -> bool {
    exists|j: int| 0 <= j < n && #[trigger] keys[j] == key
}

proof fn lemma_among_next<A>(keys: Seq<A>, n: int)
    requires
        0 < n <= keys.len(),
    ensures
        forall|k: A| #[trigger] among(keys, n, k) <==> among(keys, n - 1, k) || k == keys[n - 1],
{
    assert forall|k: A| #[trigger] among(keys, n, k) <==> among(keys, n - 1, k) || k == keys[n
        - 1] by {
        if among(keys, n - 1, k) {
            let j = choose|j: int| 0 <= j < n - 1 && #[trigger] keys[j] == k;
            assert(keys[j] == k);
        }
    }
}

proof fn lemma_among_all<A>(keys: Seq<A>)
    ensures
        forall|k: A| #[trigger] among(keys, keys.len() as int, k) <==> keys.contains(k),
{
    assert forall|k: A| #[trigger] among(keys, keys.len() as int, k) <==> keys.contains(k) by {
        if keys.contains(k) {
            let j = keys.index_of(k);
            assert(keys[j] == k);
        }
    }
}

fn waits_copied_into(
    graph: &OrdMap<TransactionId, OrdSet<TransactionId>>,
    txn_id: TransactionId,
    out: &mut OrdSet<TransactionId>,
)
    ensures
        final(out)@ == old(out)@.union(waits_of(graph@, txn_id)),
{
    match graph.get(&txn_id) {
        Some(waits) => out.add_all(waits),
        None => {
            assert(out@ =~= out@.union(Set::empty()));
        },
    }
}

/// A graph in which the first of some transactions no longer wait for one.
spec fn partly_without(
    graph: WaitGraph,
    done: Set<TransactionId>,
    gone: TransactionId,
) -> WaitGraph {
    without_waits_on(graph, done, gone)
}

fn forget_waits(
    graph: &mut OrdMap<TransactionId, OrdSet<TransactionId>>,
    txns: &OrdMap<TransactionId, TxnState>,
    gone: TransactionId,
)
    ensures
        final(graph)@ == without_waits_on(old(graph)@, txns@.dom(), gone),
{
    let n: usize = txns.len();
    let ghost keys = txns.keys();
    let ghost start = graph@;
    let mut i: usize = 0;
    assert(graph@ =~= partly_without(start, keys.take(0).to_set(), gone));
    while i < n
        invariant
            i <= n == keys.len(),
            keys == txns.keys(),
            txns.ordered(),
            graph@ == partly_without(start, keys.take(i as int).to_set(), gone),
        decreases n - i,
    {
        let id: TransactionId = *txns.key_at(i);
        let ghost before = graph@;
        let ghost done = keys.take(i as int).to_set();
        if id != gone {
            if let Some(waits) = graph.get_mut(&id) {
                let _ = waits.remove(&gone);
            }
        }
        i = i + 1;
        proof {
            let next = keys.take(i as int);
            assert forall|t: TransactionId| next.to_set().contains(t) == (done.contains(t) || t
                == id) by {
                if next.contains(t) {
                    let j = next.index_of(t);
                    if j < i - 1 {
                        assert(keys.take(i - 1)[j] == t);
                    }
                }
                if done.contains(t) {
                    let j = keys.take(i - 1).index_of(t);
                    assert(next[j] == t);
                }
                assert(next[i - 1] == id);
            }
            assert forall|t: TransactionId| start.dom().contains(t) implies graph@[t]
                == partly_without(start, next.to_set(), gone)[t] by {
                if t == id && id != gone && done.contains(t) {
                    assert(before[t] =~= before[t].remove(gone));
                }
            }
            assert(graph@ =~= partly_without(start, next.to_set(), gone));
        }
    }
    proof {
        assert(keys.take(n as int) =~= keys);
        assert forall|t: TransactionId| keys.to_set().contains(t) == txns@.dom().contains(t) by {
            assert(txns@.dom().contains(t) == keys.contains(t));
        }
        assert(keys.to_set() =~= txns@.dom());
    }
}

impl TxnManager {
    fn all_blockers(&self, txn_id: TransactionId) -> (r: OrdSet<TransactionId>)
        ensures
            r@ == self@.all_blockers(txn_id),
    {
        let mut r: OrdSet<TransactionId> = OrdSet::new();
        waits_copied_into(&self.table_wait_blockers, txn_id, &mut r);
        waits_copied_into(&self.page_wait_blockers, txn_id, &mut r);
        waits_copied_into(&self.predicate_wait_blockers, txn_id, &mut r);
        assert(r@ =~= self@.all_blockers(txn_id));
        r
    }

    fn refresh_waits_for(&mut self, txn_id: TransactionId)
        ensures
            final(self)@ == old(self)@.refreshed(txn_id),
            final(self).txns == old(self).txns,
    {
        let blockers = self.all_blockers(txn_id);
        let _ = self.waits_for.insert(txn_id, blockers);
        assert(self@ =~= old(self)@.refreshed(txn_id));
    }

    fn set_table_wait_edges(&mut self, txn_id: TransactionId, blockers: OrdSet<TransactionId>)
        ensures
            final(self)@ == old(self)@.with_table_waits(txn_id, blockers@),
    {
        let _ = self.table_wait_blockers.insert(txn_id, blockers);
        self.refresh_waits_for(txn_id);
        assert(self@ =~= old(self)@.with_table_waits(txn_id, blockers@));
    }

    fn clear_table_wait_edges(&mut self, txn_id: TransactionId)
        ensures
            final(self)@ == old(self)@.with_table_waits(txn_id, Set::empty()),
    {
        self.set_table_wait_edges(txn_id, OrdSet::new());
    }

    fn set_page_wait_edges(&mut self, txn_id: TransactionId, blockers: OrdSet<TransactionId>)
        ensures
            final(self)@ == old(self)@.with_page_waits(txn_id, blockers@),
    {
        let _ = self.page_wait_blockers.insert(txn_id, blockers);
        self.refresh_waits_for(txn_id);
        assert(self@ =~= old(self)@.with_page_waits(txn_id, blockers@));
    }

    fn clear_page_wait_edges(&mut self, txn_id: TransactionId)
        ensures
            final(self)@ == old(self)@.with_page_waits(txn_id, Set::empty()),
    {
        self.set_page_wait_edges(txn_id, OrdSet::new());
    }

    fn set_predicate_wait_edges(&mut self, txn_id: TransactionId, blockers: OrdSet<TransactionId>)
        ensures
            final(self)@ == old(self)@.with_predicate_waits(txn_id, blockers@),
    {
        let _ = self.predicate_wait_blockers.insert(txn_id, blockers);
        self.refresh_waits_for(txn_id);
        assert(self@ =~= old(self)@.with_predicate_waits(txn_id, blockers@));
    }

    fn clear_predicate_wait_edges(&mut self, txn_id: TransactionId)
        ensures
            final(self)@ == old(self)@.with_predicate_waits(txn_id, Set::empty()),
    {
        self.set_predicate_wait_edges(txn_id, OrdSet::new());
    }

    fn remove_wait_dependency_on(&mut self, blocker: TransactionId)
        ensures
            final(self)@ == old(self)@.unblocked(blocker),
    {
        forget_waits(&mut self.table_wait_blockers, &self.txns, blocker);
        forget_waits(&mut self.page_wait_blockers, &self.txns, blocker);
        forget_waits(&mut self.predicate_wait_blockers, &self.txns, blocker);
        let ghost cleared = self@;
        let ghost target = old(self)@.unblocked(blocker);
        let n: usize = self.txns.len();
        let ghost keys = self.txns.keys();
        let mut i: usize = 0;
        while i < n
            invariant
                i <= n == keys.len(),
                keys == self.txns.keys(),
                self.txns.ordered(),
                target == old(self)@.unblocked(blocker),
                self@ == (TxnModel { waits_for: self@.waits_for, ..cleared }),
                self.txns@ == old(self)@.txns,
                cleared == (TxnModel { waits_for: old(self)@.waits_for, ..target }),
                forall|t: TransactionId| #[trigger]
                    self@.waits_for.dom().contains(t) <==> old(self)@.waits_for.dom().contains(t)
                        || (t != blocker && among(keys, i as int, t)),
                forall|t: TransactionId| #[trigger]
                    self@.waits_for.dom().contains(t) ==> self@.waits_for[t] == (if t != blocker
                        && among(keys, i as int, t) {
                        target.all_blockers(t)
                    } else {
                        old(self)@.waits_for[t]
                    }),
            decreases n - i,
        {
            let id: TransactionId = *self.txns.key_at(i);
            let ghost before = self@;
            if id != blocker {
                self.refresh_waits_for(id);
                assert(before.all_blockers(id) =~= target.all_blockers(id));
            }
            i = i + 1;
            proof {
                lemma_among_next(keys, i as int);
                assert(self@ =~= TxnModel { waits_for: self@.waits_for, ..cleared });
            }
        }
        proof {
            lemma_among_all(keys);
            assert(self@.waits_for =~= target.waits_for);
            assert(self@ =~= target);
        }
    }

    /// Gives back all that a transaction holds, and lets nobody wait for it any more.
    pub fn release_transaction_resources(&mut self, txn_id: TransactionId) -> (r: DbResult<()>)
        requires
            old(self)@.lock_wait_epoch < u64::MAX,
        ensures
            match r {
                Ok(_) => old(self)@.txns.dom().contains(txn_id) && final(self)@ == old(
                    self,
                )@.released(txn_id),
                Err(e) => !old(self)@.txns.dom().contains(txn_id) && final(self)@ == old(self)@
                    && e@ == not_active(txn_id),
            },
            final(self)@.follows(old(self)@),
    {
        let _ = self.get(txn_id)?;
        drop_table_locks(&mut self.table_locks, txn_id);
        self.page_write_owners = owners_without(&self.page_write_owners, txn_id);
        self.table_wait_queues = all_without(&self.table_wait_queues, txn_id);
        self.page_write_wait_queues = all_without(&self.page_write_wait_queues, txn_id);
        let mut queues: AssocMap<PredicateWriteKey, Vec<TransactionId>> = AssocMap::new();
        std::mem::swap(&mut queues, &mut self.predicate_write_wait_queues);
        self.predicate_write_wait_queues = all_writes_without(queues, txn_id);
        drop_predicate_locks(&mut self.predicate_locks, txn_id);
        let _ = self.table_wait_blockers.remove(&txn_id);
        let _ = self.page_wait_blockers.remove(&txn_id);
        let _ = self.predicate_wait_blockers.remove(&txn_id);
        let _ = self.waits_for.remove(&txn_id);
        assert(self@ =~= old(self)@.without_locks(txn_id));
        self.remove_wait_dependency_on(txn_id);
        self.lock_wait_epoch = self.lock_wait_epoch + 1;
        assert(self@ =~= old(self)@.released(txn_id));
        Ok(())
    }
}

fn drop_table_locks(locks: &mut Vec<TableLock>, txn_id: TransactionId)
    ensures
        final(locks).deep_view() == old(locks).deep_view().filter(
            |l: TableLockView| l.txn_id != txn_id,
        ),
{
    let mut kept: Vec<TableLock> = Vec::new();
    let mut all: Vec<TableLock> = Vec::new();
    std::mem::swap(&mut all, locks);
    let ghost views = all.deep_view();
    let ghost start = all@;
    let n: usize = all.len();
    let mut i: usize = 0;
    proof {
        assert(views.take(0).filter(|l: TableLockView| l.txn_id != txn_id) =~= Seq::<
            TableLockView,
        >::empty()) by {
            reveal(Seq::filter);
        }
        assert(kept.deep_view() =~= Seq::<TableLockView>::empty());
    }
    for lock in it: all
        invariant
            it.seq() == start,
            views.len() == start.len(),
            forall|j: int| 0 <= j < start.len() ==> #[trigger] views[j] == start[j].deep_view(),
            kept.deep_view() == views.take(it.index() as int).filter(
                |l: TableLockView| l.txn_id != txn_id,
            ),
    {
        let ghost at = it.index() as int;
        proof {
            let next = views.take(at + 1);
            assert(next.drop_last() =~= views.take(at));
            assert(next.last() == views[at]);
            assert(views[at] == lock.deep_view());
            reveal(Seq::filter);
        }
        let ghost before = kept.deep_view();
        if lock.txn_id != txn_id {
            kept.push(lock);
            assert(kept.deep_view() =~= before.push(lock.deep_view()));
        }
    }
    assert(views.take(views.len() as int) =~= views);
    *locks = kept;
}

fn drop_predicate_locks(locks: &mut Vec<PredicateLock>, txn_id: TransactionId)
    ensures
        final(locks).deep_view() == old(locks).deep_view().filter(
            |l: PredicateLockView| l.txn_id != txn_id,
        ),
{
    let mut kept: Vec<PredicateLock> = Vec::new();
    let mut all: Vec<PredicateLock> = Vec::new();
    std::mem::swap(&mut all, locks);
    let ghost views = all.deep_view();
    let ghost start = all@;
    proof {
        assert(views.take(0).filter(|l: PredicateLockView| l.txn_id != txn_id) =~= Seq::<
            PredicateLockView,
        >::empty()) by {
            reveal(Seq::filter);
        }
        assert(kept.deep_view() =~= Seq::<PredicateLockView>::empty());
    }
    for lock in it: all
        invariant
            it.seq() == start,
            views.len() == start.len(),
            forall|j: int| 0 <= j < start.len() ==> #[trigger] views[j] == start[j].deep_view(),
            kept.deep_view() == views.take(it.index() as int).filter(
                |l: PredicateLockView| l.txn_id != txn_id,
            ),
    {
        let ghost at = it.index() as int;
        proof {
            let next = views.take(at + 1);
            assert(next.drop_last() =~= views.take(at));
            assert(next.last() == views[at]);
            assert(views[at] == lock.deep_view());
            reveal(Seq::filter);
        }
        let ghost before = kept.deep_view();
        if lock.txn_id != txn_id {
            kept.push(lock);
            assert(kept.deep_view() =~= before.push(lock.deep_view()));
        }
    }
    assert(views.take(views.len() as int) =~= views);
    *locks = kept;
}

fn owners_without(
    owners: &OrdMap<PageId, TransactionId>,
    txn_id: TransactionId,
) -> (r: OrdMap<PageId, TransactionId>)
    ensures
        r@ == Map::new(
            |p: PageId| owners@.dom().contains(p) && owners@[p] != txn_id,
            |p: PageId| owners@[p],
        ),
{
    let mut r: OrdMap<PageId, TransactionId> = OrdMap::new();
    let n: usize = owners.len();
    let ghost keys = owners.keys();
    let mut i: usize = 0;
    while i < n
        invariant
            i <= n == keys.len(),
            keys == owners.keys(),
            owners.ordered(),
            forall|p: PageId| #[trigger]
                r@.dom().contains(p) <==> owners@.dom().contains(p) && owners@[p] != txn_id
                    && exists|j: int| 0 <= j < i && #[trigger] keys[j] == p,
            forall|p: PageId| #[trigger] r@.dom().contains(p) ==> r@[p] == owners@[p],
        decreases n - i,
    {
        let owner: TransactionId = *owners.value_at(i);
        let page: PageId = *owners.key_at(i);
        let ghost before = r@;
        if owner != txn_id {
            let _ = r.insert(page, owner);
        }
        i = i + 1;
        proof {
            assert forall|p: PageId| #[trigger]
                r@.dom().contains(p) <==> owners@.dom().contains(p) && owners@[p] != txn_id
                    && exists|j: int| 0 <= j < i && #[trigger] keys[j] == p by {
                assert(keys[i - 1] == page);
                if p != page {
                    if exists|j: int| 0 <= j < i - 1 && #[trigger] keys[j] == p {
                        let j = choose|j: int| 0 <= j < i - 1 && #[trigger] keys[j] == p;
                        assert(keys[j] == p);
                    }
                    assert(r@.dom().contains(p) == before.dom().contains(p));
                }
            }
        }
    }
    proof {
        let target = Map::new(
            |p: PageId| owners@.dom().contains(p) && owners@[p] != txn_id,
            |p: PageId| owners@[p],
        );
        assert forall|p: PageId| #[trigger] r@.dom().contains(p) <==> target.dom().contains(p) by {
            if owners@.dom().contains(p) {
                let j = keys.index_of(p);
                assert(keys.contains(p));
                assert(keys[j] == p);
            }
        }
        assert(r@ =~= target);
    }
    r
}

// ---------------------------------------------------------------------------
// Deadlocks

fn join_ids(ids: &OrdSet<TransactionId>) -> (r: String)
    ensures
        r@ == id_list(sorted::<TransactionId>(ids@)),
{
    let n: usize = ids.len();
    let ghost keys = ids.keys();
    let mut r = String::new();
    let mut i: usize = 0;
    assert(keys.take(0) =~= Seq::<TransactionId>::empty());
    while i < n
        invariant
            i <= n == keys.len(),
            keys == ids.keys(),
            r@ == id_list(keys.take(i as int)),
        decreases n - i,
    {
        let id: TransactionId = *ids.item_at(i);
        let number = u64_text(id.0);
        let ghost next = keys.take(i + 1);
        assert(next.drop_last() =~= keys.take(i as int));
        if i > 0 {
            r.push(',');
            r.append(number.as_str());
            assert(r@ =~= id_list(keys.take(i as int)) + seq![','] + nat_text(id.0 as nat));
        } else {
            r = number;
            assert(next[0] == id);
        }
        i = i + 1;
    }
    assert(keys.take(n as int) =~= keys);
    r
}

fn make_deadlock_error(reason: WaitReason, table: &str, victim: TransactionId) -> (r: DbError)
    ensures
        r@ == deadlock_error(reason, table@, victim),
{
    match reason {
        WaitReason::Page { txn, other, page } => DbError::about(
            ErrorCode::PageDeadlock { txn, other, page, victim: victim.0 },
            table,
        ),
        WaitReason::TableQueue => DbError::about(
            ErrorCode::TableWaitDeadlock { victim: victim.0 },
            table,
        ),
        WaitReason::TableLock => DbError::about(
            ErrorCode::TableLockDeadlock { victim: victim.0 },
            table,
        ),
        WaitReason::PredicateQueue => DbError::about(
            ErrorCode::PredicateWaitDeadlock { victim: victim.0 },
            table,
        ),
        WaitReason::PredicateLock => DbError::about(
            ErrorCode::PredicateWriteDeadlock { victim: victim.0 },
            table,
        ),
    }
}

fn count_table_locks(locks: &Vec<TableLock>, txn_id: TransactionId) -> (n: usize)
    ensures
        n == table_lock_count(locks.deep_view(), txn_id),
{
    let ghost all = locks.deep_view();
    let mut n: usize = 0;
    let mut i: usize = 0;
    assert(all.take(0) =~= Seq::<TableLockView>::empty());
    while i < locks.len()
        invariant
            n <= i <= locks@.len(),
            all == locks.deep_view(),
            n == table_lock_count(all.take(i as int), txn_id),
        decreases locks@.len() - i,
    {
        let ghost next = all.take(i + 1);
        assert(next.drop_last() =~= all.take(i as int));
        assert(next.last() == locks@[i as int].deep_view());
        if locks[i].txn_id == txn_id {
            n = n + 1;
        }
        i = i + 1;
    }
    assert(all.take(locks@.len() as int) =~= all);
    n
}

fn count_predicate_locks(locks: &Vec<PredicateLock>, txn_id: TransactionId) -> (n: usize)
    ensures
        n == predicate_lock_count(locks.deep_view(), txn_id),
{
    let ghost all = locks.deep_view();
    let mut n: usize = 0;
    let mut i: usize = 0;
    assert(all.take(0) =~= Seq::<PredicateLockView>::empty());
    while i < locks.len()
        invariant
            n <= i <= locks@.len(),
            all == locks.deep_view(),
            n == predicate_lock_count(all.take(i as int), txn_id),
        decreases locks@.len() - i,
    {
        let ghost next = all.take(i + 1);
        assert(next.drop_last() =~= all.take(i as int));
        assert(next.last() == locks@[i as int].deep_view());
        if locks[i].txn_id == txn_id {
            n = n + 1;
        }
        i = i + 1;
    }
    assert(all.take(locks@.len() as int) =~= all);
    n
}

impl TxnManager {
    fn count_owned_pages(&self, txn_id: TransactionId) -> (n: usize)
        ensures
            n == self@.owned_pages(txn_id).len(),
    {
        let total: usize = self.page_write_owners.len();
        let ghost keys = self.page_write_owners.keys();
        let ghost mut seen: Set<PageId> = Set::empty();
        let mut n: usize = 0;
        let mut i: usize = 0;
        while i < total
            invariant
                n <= i <= total == keys.len(),
                keys == self.page_write_owners.keys(),
                self.page_write_owners.ordered(),
                seen.finite(),
                seen.len() == n,
                forall|p: PageId| #[trigger]
                    seen.contains(p) <==> self@.owned_pages(txn_id).contains(p) && among(
                        keys,
                        i as int,
                        p,
                    ),
            decreases total - i,
        {
            let owner: TransactionId = *self.page_write_owners.value_at(i);
            let ghost page = keys[i as int];
            proof {
                lemma_among_next(keys, i + 1);
                assert(!among(keys, i as int, page)) by {
                    if among(keys, i as int, page) {
                        let j = choose|j: int| 0 <= j < i && #[trigger] keys[j] == page;
                        assert(PageId::before(keys[j], keys[i as int]));
                    }
                }
            }
            if owner == txn_id {
                n = n + 1;
                proof {
                    seen = seen.insert(page);
                }
            }
            i = i + 1;
        }
        proof {
            lemma_among_all(keys);
            let _ = self.page_write_owners;
            assert forall|p: PageId| self@.owned_pages(txn_id).contains(p) implies among(
                keys,
                total as int,
                p,
            ) by {
                assert(self.page_write_owners@.dom().contains(p));
            }
            assert(seen =~= self@.owned_pages(txn_id));
        }
        n
    }

    fn rollback_cost(&self, txn_id: TransactionId) -> (r: u128)
        requires
            self@.txns.dom().contains(txn_id),
        ensures
            r == self@.rollback_cost(txn_id),
    {
        let pages: usize = self.count_owned_pages(txn_id);
        let tables: usize = count_table_locks(&self.table_locks, txn_id);
        let predicates: usize = count_predicate_locks(&self.predicate_locks, txn_id);
        match self.txns.get(&txn_id) {
            Some(txn) => {
                let undo: usize = txn.undo_records.len();
                let writes: usize = txn.write_set.page_writes.len();
                assert(txn.undo_records.deep_view().len() == undo);
                assert(txn.write_set.page_writes.deep_view().len() == writes);
                undo as u128 + writes as u128 + pages as u128 + tables as u128 + predicates as u128
            },
            None => 0,
        }
    }

    fn start_ts(&self, txn_id: TransactionId) -> (r: u64)
        requires
            self@.txns.dom().contains(txn_id),
        ensures
            r == self@.txns[txn_id].start_ts,
    {
        match self.txns.get(&txn_id) {
            Some(txn) => txn.start_ts,
            None => 0,
        }
    }

    fn is_better_victim(
        &self,
        requester: TransactionId,
        a: TransactionId,
        b: TransactionId,
    ) -> (r: bool)
        requires
            self@.txns.dom().contains(a),
            self@.txns.dom().contains(b),
        ensures
            r == self@.better_victim(requester, a, b),
    {
        let cost_a: u128 = self.rollback_cost(a);
        let cost_b: u128 = self.rollback_cost(b);
        if cost_a != cost_b {
            return cost_a < cost_b;
        }
        let start_a: u64 = self.start_ts(a);
        let start_b: u64 = self.start_ts(b);
        if start_a != start_b {
            return start_a > start_b;
        }
        if (a == requester) != (b == requester) {
            return a == requester;
        }
        a.0 < b.0
    }

    fn choose_deadlock_victim(
        &self,
        requester: TransactionId,
        blocker: TransactionId,
    ) -> (r: Option<TransactionId>)
        requires
            self@.waiters_known(),
            self@.txns.dom().contains(requester),
        ensures
            match r {
                Some(victim) => {
                    &&& wait_chain(self@.waits_for, blocker, requester) matches Some(path)
                    &&& is_wait_path(self@.waits_for, path, blocker, requester)
                    &&& path.to_set().insert(requester).contains(victim)
                    &&& victim == self@.deadlock_victim(requester, blocker)
                },
                None => wait_chain(self@.waits_for, blocker, requester) is None,
            },
    {
        let cycle = match wait_path(&self.waits_for, blocker, requester) {
            Some(path) => path,
            None => {
                return None;
            },
        };
        let ghost members = cycle@.to_set().insert(requester);
        let mut best: TransactionId = requester;
        let mut i: usize = 0;
        while i < cycle.len()
            invariant
                i <= cycle@.len(),
                self@.waiters_known(),
                self@.txns.dom().contains(requester),
                self@.txns.dom().contains(best),
                is_wait_path(self@.waits_for, cycle@, blocker, requester),
                members == cycle@.to_set().insert(requester),
                members.contains(best),
                best == requester || self@.better_victim(requester, best, requester),
                forall|j: int|
                    0 <= j < i ==> #[trigger] cycle@[j] == best || self@.better_victim(
                        requester,
                        best,
                        cycle@[j],
                    ),
            decreases cycle@.len() - i,
        {
            let candidate: TransactionId = cycle[i];
            proof {
                lemma_chain_known(self@, cycle@, blocker, requester, i as int);
            }
            if self.is_better_victim(requester, candidate, best) {
                best = candidate;
            }
            i = i + 1;
        }
        proof {
            assert(self@.is_victim(requester, members, best)) by {
                assert forall|t: TransactionId| #[trigger]
                    members.contains(t) && t != best implies self@.better_victim(
                    requester,
                    best,
                    t,
                ) by {
                    if t != requester {
                        let j = cycle@.index_of(t);
                        assert(cycle@[j] == t);
                    }
                }
            }
            lemma_victim_unique(
                self@,
                requester,
                members,
                best,
                self@.victim(requester, members),
            );
        }
        Some(best)
    }

    fn abort_deadlock_victim(&mut self, victim: TransactionId, error: DbError)
        requires
            old(self)@.txns.dom().contains(victim),
            old(self)@.lock_wait_epoch < u64::MAX,
        ensures
            final(self)@ == old(self)@.sacrificed(victim, error@),
    {
        let ghost view = self@.txns[victim];
        let ghost reason = error@;
        if let Ok(txn) = self.get_mut(victim) {
            if txn.status == TxnStatus::Active {
                txn.status = TxnStatus::Aborted;
                txn.terminal_error = Some(error);
                assert(txn.deep_view() =~= TxnView {
                    status: TxnStatus::Aborted,
                    terminal_error: Some(reason),
                    ..view
                });
            }
        }
        let _ = self.release_transaction_resources(victim);
    }

    /// Aborts the victim of a deadlock, if a blocker waits for the transaction that asks.
    /// Says whether another transaction was the victim.
    fn resolve_deadlock(
        &mut self,
        requester: TransactionId,
        blocker: TransactionId,
        reason: WaitReason,
        table: &str,
    ) -> (r: DbResult<bool>)
        requires
            old(self)@.waits_in_step(),
            old(self)@.waiters_known(),
            old(self)@.txns.dom().contains(requester),
            old(self)@.lock_wait_epoch < u64::MAX,
        ensures
            wait_chain(old(self)@.waits_for, blocker, requester) is None ==> {
                &&& r matches Ok(resolved) && !resolved
                &&& final(self)@ == old(self)@
            },
            wait_chain(old(self)@.waits_for, blocker, requester) is Some ==> {
                let victim = old(self)@.deadlock_victim(requester, blocker);
                let error = deadlock_error(reason, table@, victim);
                let after = old(self)@.sacrificed(victim, error);
                &&& final(self)@ == after
                &&& after.waits_in_step()
                &&& after.waiters_known()
                &&& after.txns.dom() == old(self)@.txns.dom()
                &&& after.follows(old(self)@)
                &&& old(self)@.waiters_active() ==> after.waiters_active()
                &&& after.lock_wait_epoch == old(self)@.lock_wait_epoch + 1
                &&& match r {
                    Ok(resolved) => resolved && victim != requester && after.other_waiters(
                        requester,
                    ).len() < old(self)@.other_waiters(requester).len(),
                    Err(e) => victim == requester && e@ == error,
                }
            },
    {
        graph_is_ordered(&self.waits_for);
        match self.choose_deadlock_victim(requester, blocker) {
            None => Ok(false),
            Some(victim) => {
                let error = make_deadlock_error(reason, table, victim);
                proof {
                    lemma_sacrifice_progress(self@, requester, blocker, victim, error@);
                }
                self.abort_deadlock_victim(victim, error.copy());
                if victim == requester {
                    return Err(error);
                }
                Ok(true)
            },
        }
    }

    /// Asks for the right to write a page.
    pub fn acquire_page_write(&mut self, txn_id: TransactionId, page_id: PageId) -> (r: DbResult<
        (),
    >)
        requires
            old(self)@.waits_in_step(),
            old(self)@.waiters_known(),
            old(self)@.epoch_has_room(txn_id),
        ensures
            final(self)@ == old(self)@.page_acquired(txn_id, page_id).0,
            same_outcome(r, old(self)@.page_acquired(txn_id, page_id).1),
            final(self)@.waits_in_step(),
            final(self)@.waiters_known(),
            final(self)@.follows(old(self)@),
            old(self)@.waiters_active() ==> final(self)@.waiters_active(),
        decreases old(self)@.other_waiters(txn_id).len(),
    {
        let ghost start = self@;
        let owner = match self.page_write_owners.get(&page_id) {
            Some(owner) => Some(*owner),
            None => None,
        };
        if let Some(owner) = owner {
            if owner == txn_id {
                dequeue(&mut self.page_write_wait_queues, &page_id, txn_id);
                assert(self@ =~= TxnModel {
                    page_write_wait_queues: dequeued(start.page_write_wait_queues, page_id, txn_id),
                    ..start
                });
                self.clear_page_wait_edges(txn_id);
                proof {
                    assert(waits_of(start.waits_for, txn_id) == start.all_blockers(txn_id));
                    assert(self@.all_blockers(txn_id).subset_of(start.all_blockers(txn_id)));
                    if !start.txns.dom().contains(txn_id) || (start.waiters_active()
                        && !start.is_active(txn_id)) {
                        assert(self@.all_blockers(txn_id) =~= Set::empty());
                    }
                    lemma_waits_changed(start, self@, txn_id);
                }
                return Ok(());
            }
        }
        self.ensure_active(txn_id)?;
        let blocker = match owner {
            Some(owner) => {
                let _ = self.get(owner)?;
                owner
            },
            None => {
                match front_of(&self.page_write_wait_queues, &page_id) {
                    Some(front) if front != txn_id => front,
                    _ => {
                        dequeue(&mut self.page_write_wait_queues, &page_id, txn_id);
                        let _ = self.page_write_owners.insert(page_id, txn_id);
                        assert(self@ =~= TxnModel {
                            page_write_wait_queues: dequeued(
                                start.page_write_wait_queues,
                                page_id,
                                txn_id,
                            ),
                            page_write_owners: start.page_write_owners.insert(page_id, txn_id),
                            ..start
                        });
                        self.clear_page_wait_edges(txn_id);
                        proof {
                            lemma_waits_changed(start, self@, txn_id);
                        }
                        return Ok(());
                    },
                }
            },
        };
        enqueue(&mut self.page_write_wait_queues, page_id, txn_id);
        assert(self@ =~= TxnModel {
            page_write_wait_queues: enqueued(start.page_write_wait_queues, page_id, txn_id),
            ..start
        });
        self.set_page_wait_edges(txn_id, OrdSet::single(blocker));
        proof {
            lemma_waits_changed(start, self@, txn_id);
        }
        if has_wait_path(&self.waits_for, blocker, txn_id) {
            let resolved = self.resolve_deadlock(
                txn_id,
                blocker,
                WaitReason::Page { txn: txn_id.0, other: blocker.0, page: page_id.0 },
                "",
            );
            proof {
                reveal_strlit("");
                assert(""@ =~= Seq::<char>::empty());
            }
            match resolved {
                Err(e) => {
                    return Err(e);
                },
                Ok(_) => {
                    let ghost middle = self@;
                    let r = self.acquire_page_write(txn_id, page_id);
                    proof {
                        lemma_follows_twice(start, middle, self@);
                    }
                    return r;
                },
            }
        }
        Err(
            DbError::bare(
                if owner.is_some() {
                    ErrorCode::PageWriteConflict { page: page_id.0, owner: blocker.0 }
                } else {
                    ErrorCode::PageWriteWait { page: page_id.0, ahead: blocker.0 }
                },
            ),
        )
    }
}

// ---------------------------------------------------------------------------
// Table locks

fn hold_table_lock(
    locks: &mut Vec<TableLock>,
    txn_id: TransactionId,
    table: &str,
    mode: TableLockMode,
)
    ensures
        final(locks).deep_view() == TxnModel::table_locked(
            old(locks).deep_view(),
            txn_id,
            table@,
            mode,
            0,
        ),
{
    let ghost all = locks.deep_view();
    let n: usize = locks.len();
    let mut i: usize = 0;
    while i < n
        invariant
            i <= n == locks@.len(),
            all == locks.deep_view(),
            all == old(locks).deep_view(),
            TxnModel::table_locked(all, txn_id, table@, mode, 0) == TxnModel::table_locked(
                all,
                txn_id,
                table@,
                mode,
                i as int,
            ),
        decreases n - i,
    {
        assert(all[i as int] == locks@[i as int].deep_view());
        if locks[i].txn_id == txn_id && same_text(locks[i].table.as_str(), table) {
            let lock = TableLock {
                txn_id,
                table: table.to_owned(),
                mode: stronger_mode(locks[i].mode, mode),
            };
            let ghost view = lock.deep_view();
            locks.set(i, lock);
            assert(locks.deep_view() =~= all.update(i as int, view));
            return;
        }
        i = i + 1;
    }
    let lock = TableLock { txn_id, table: table.to_owned(), mode };
    let ghost view = lock.deep_view();
    locks.push(lock);
    assert(locks.deep_view() =~= all.push(view));
}

/// The first transaction of a set that waits for another, directly or through others.
fn find_deadlocked(
    graph: &OrdMap<TransactionId, OrdSet<TransactionId>>,
    blockers: &OrdSet<TransactionId>,
    txn_id: TransactionId,
) -> (r: Option<TransactionId>)
    ensures
        r == first_deadlocked(graph@, sorted::<TransactionId>(blockers@), txn_id),
        r matches Some(t) ==> wait_chain(graph@, t, txn_id) is Some,
{
    let n: usize = blockers.len();
    let ghost keys = blockers.keys();
    let mut i: usize = 0;
    assert(keys.skip(0) =~= keys);
    while i < n
        invariant
            i <= n == keys.len(),
            keys == blockers.keys(),
            keys == sorted::<TransactionId>(blockers@),
            first_deadlocked(graph@, keys, txn_id) == first_deadlocked(
                graph@,
                keys.skip(i as int),
                txn_id,
            ),
        decreases n - i,
    {
        let blocker: TransactionId = *blockers.item_at(i);
        assert(keys.skip(i as int)[0] == blocker);
        assert(keys.skip(i as int).drop_first() =~= keys.skip(i + 1));
        if has_wait_path(graph, blocker, txn_id) {
            return Some(blocker);
        }
        i = i + 1;
    }
    assert(keys.skip(n as int).len() == 0);
    None
}

impl TxnManager {
    fn conflicting_table_lock_txns(
        &self,
        txn_id: TransactionId,
        table: &str,
        requested_mode: TableLockMode,
    ) -> (r: DbResult<OrdSet<TransactionId>>)
        ensures
            match r {
                Ok(blockers) => self@.table_blockers(
                    txn_id,
                    table@,
                    requested_mode,
                    0,
                    Set::empty(),
                ) == Ok::<_, ErrorView>(blockers@),
                Err(e) => self@.table_blockers(txn_id, table@, requested_mode, 0, Set::empty())
                    == Err::<Set<TransactionId>, _>(e@),
            },
    {
        let mut blockers: OrdSet<TransactionId> = OrdSet::new();
        let mut i: usize = 0;
        while i < self.table_locks.len()
            invariant
                i <= self.table_locks@.len(),
                self@.table_blockers(txn_id, table@, requested_mode, 0, Set::empty())
                    == self@.table_blockers(
                    txn_id,
                    table@,
                    requested_mode,
                    i as int,
                    blockers@,
                ),
            decreases self.table_locks@.len() - i,
        {
            let lock = &self.table_locks[i];
            assert(self@.table_locks[i as int] == lock.deep_view());
            i = i + 1;
            if lock.txn_id == txn_id || !same_text(lock.table.as_str(), table) {
                continue;
            }
            if self.get(lock.txn_id)?.status != TxnStatus::Active {
                continue;
            }
            if table_lock_modes_conflict(lock.mode, requested_mode) {
                let _ = blockers.insert(lock.txn_id);
            }
        }
        Ok(blockers)
    }

    fn acquire_table_lock(
        &mut self,
        txn_id: TransactionId,
        table: &str,
        mode: TableLockMode,
    ) -> (r: DbResult<()>)
        requires
            old(self)@.waits_in_step(),
            old(self)@.waiters_known(),
            old(self)@.epoch_has_room(txn_id),
        ensures
            final(self)@ == old(self)@.table_acquired(txn_id, table@, mode).0,
            same_outcome(r, old(self)@.table_acquired(txn_id, table@, mode).1),
            final(self)@.waits_in_step(),
            final(self)@.waiters_known(),
            final(self)@.follows(old(self)@),
            old(self)@.waiters_active() ==> final(self)@.waiters_active(),
        decreases old(self)@.other_waiters(txn_id).len(),
    {
        let ghost start = self@;
        self.ensure_active(txn_id)?;
        let conflicts = self.conflicting_table_lock_txns(txn_id, table, mode)?;
        let free = conflicts.is_empty();
        let table_key: String = table.to_owned();
        let mut blockers = conflicts;
        let mut ahead: u64 = 0;
        if free {
            match front_of(&self.table_wait_queues, &table_key) {
                Some(front) if front != txn_id => {
                    ahead = front.0;
                    blockers = OrdSet::single(front);
                },
                _ => {
                    dequeue(&mut self.table_wait_queues, &table_key, txn_id);
                    assert(self@ =~= TxnModel {
                        table_wait_queues: dequeued(start.table_wait_queues, table@, txn_id),
                        ..start
                    });
                    self.clear_table_wait_edges(txn_id);
                    proof {
                        lemma_waits_changed(start, self@, txn_id);
                    }
                    let ghost granted = self@;
                    hold_table_lock(&mut self.table_locks, txn_id, table, mode);
                    assert(self@ =~= TxnModel { table_locks: self@.table_locks, ..granted });
                    proof {
                        assert forall|t: TransactionId| #[trigger]
                            waits_of(self@.waits_for, t) == self@.all_blockers(t) by {
                            assert(waits_of(granted.waits_for, t) == granted.all_blockers(t));
                        }
                    }
                    return Ok(());
                },
            }
        }
        let error = if free {
            DbError::about(ErrorCode::TableLockWait { ahead }, table)
        } else {
            DbError::about_both(ErrorCode::TableLockConflict, table, join_ids(&blockers).as_str())
        };
        enqueue(&mut self.table_wait_queues, table_key, txn_id);
        assert(self@ =~= TxnModel {
            table_wait_queues: enqueued(start.table_wait_queues, table@, txn_id),
            ..start
        });
        self.set_table_wait_edges(txn_id, blockers.copy());
        proof {
            lemma_waits_changed(start, self@, txn_id);
        }
        if let Some(blocker) = find_deadlocked(&self.waits_for, &blockers, txn_id) {
            let reason = if free {
                WaitReason::TableQueue
            } else {
                WaitReason::TableLock
            };
            match self.resolve_deadlock(txn_id, blocker, reason, table) {
                Err(e) => {
                    return Err(e);
                },
                Ok(_) => {
                    let ghost middle = self@;
                    let r = self.acquire_table_lock(txn_id, table, mode);
                    proof {
                        lemma_follows_twice(start, middle, self@);
                    }
                    return r;
                },
            }
        }
        Err(error)
    }

    /// Asks for the right to read a table, whatever is in it.
    pub fn acquire_table_read_lock(&mut self, txn_id: TransactionId, table: &str) -> (r: DbResult<
        (),
    >)
        requires
            old(self)@.waits_in_step(),
            old(self)@.waiters_known(),
            old(self)@.epoch_has_room(txn_id),
        ensures
            ({
                let (after, outcome) = old(self)@.table_acquired(
                    txn_id,
                    table@,
                    TableLockMode::IntentionRead,
                );
                &&& same_outcome(r, outcome)
                &&& final(self)@ == if outcome is Ok {
                    after.predicate_locked(
                        PredicateLockView {
                            txn_id,
                            table: table@,
                            index: None,
                            kind: LockKindView::Table,
                        },
                    )
                } else {
                    after
                }
            }),
            final(self)@.waits_in_step(),
            final(self)@.waiters_known(),
            final(self)@.follows(old(self)@),
            old(self)@.waiters_active() ==> final(self)@.waiters_active(),
    {
        let ghost start = self@;
        self.acquire_table_intention_read(txn_id, table)?;
        proof {
            start.table_acquired_keeps_known(txn_id, table@, TableLockMode::IntentionRead);
        }
        self.acquire_predicate_lock(
            PredicateLock {
                txn_id,
                table: table.to_owned(),
                index: None,
                kind: PredicateLockKind::Table,
            },
        )
    }

    /// Announces reading from a table.
    pub fn acquire_table_intention_read(
        &mut self,
        txn_id: TransactionId,
        table: &str,
    ) -> (r: DbResult<()>)
        requires
            old(self)@.waits_in_step(),
            old(self)@.waiters_known(),
            old(self)@.epoch_has_room(txn_id),
        ensures
            final(self)@ == old(self)@.table_acquired(
                txn_id,
                table@,
                TableLockMode::IntentionRead,
            ).0,
            same_outcome(
                r,
                old(self)@.table_acquired(txn_id, table@, TableLockMode::IntentionRead).1,
            ),
            final(self)@.waits_in_step(),
            final(self)@.waiters_known(),
            final(self)@.follows(old(self)@),
            old(self)@.waiters_active() ==> final(self)@.waiters_active(),
    {
        self.acquire_table_lock(txn_id, table, TableLockMode::IntentionRead)
    }

    /// Announces writing to a table.
    pub fn acquire_table_intention_write(
        &mut self,
        txn_id: TransactionId,
        table: &str,
    ) -> (r: DbResult<()>)
        requires
            old(self)@.waits_in_step(),
            old(self)@.waiters_known(),
            old(self)@.epoch_has_room(txn_id),
        ensures
            final(self)@ == old(self)@.table_acquired(
                txn_id,
                table@,
                TableLockMode::IntentionWrite,
            ).0,
            same_outcome(
                r,
                old(self)@.table_acquired(txn_id, table@, TableLockMode::IntentionWrite).1,
            ),
            final(self)@.waits_in_step(),
            final(self)@.waiters_known(),
            final(self)@.follows(old(self)@),
            old(self)@.waiters_active() ==> final(self)@.waiters_active(),
    {
        self.acquire_table_lock(txn_id, table, TableLockMode::IntentionWrite)
    }

    /// Asks to have a table alone.
    pub fn acquire_table_exclusive(&mut self, txn_id: TransactionId, table: &str) -> (r: DbResult<
        (),
    >)
        requires
            old(self)@.waits_in_step(),
            old(self)@.waiters_known(),
            old(self)@.epoch_has_room(txn_id),
        ensures
            final(self)@ == old(self)@.table_acquired(txn_id, table@, TableLockMode::Exclusive).0,
            same_outcome(
                r,
                old(self)@.table_acquired(txn_id, table@, TableLockMode::Exclusive).1,
            ),
            final(self)@.waits_in_step(),
            final(self)@.waiters_known(),
            final(self)@.follows(old(self)@),
            old(self)@.waiters_active() ==> final(self)@.waiters_active(),
    {
        self.acquire_table_lock(txn_id, table, TableLockMode::Exclusive)
    }

    // -----------------------------------------------------------------------
    // Predicate locks

    fn acquire_predicate_lock(&mut self, lock: PredicateLock) -> (r: DbResult<()>)
        ensures
            match r {
                Ok(_) => old(self)@.txns.dom().contains(lock.txn_id) && final(self)@ == old(
                    self,
                )@.predicate_locked(lock.deep_view()),
                Err(e) => !old(self)@.txns.dom().contains(lock.txn_id) && final(self)@ == old(
                    self,
                )@ && e@ == not_active(lock.txn_id),
            },
            old(self)@.waits_in_step() ==> final(self)@.waits_in_step(),
            old(self)@.waiters_known() ==> final(self)@.waiters_known(),
            final(self)@.follows(old(self)@),
            old(self)@.waiters_active() ==> final(self)@.waiters_active(),
    {
        let ghost start = self@;
        let ghost view = lock.deep_view();
        if self.isolation_level(lock.txn_id)? != IsolationLevel::Serializable {
            return Ok(());
        }
        let mut i: usize = 0;
        while i < self.predicate_locks.len()
            invariant
                i <= self.predicate_locks@.len(),
                self@ == start,
                view == lock.deep_view(),
                start.txns.dom().contains(lock.txn_id),
                start == old(self)@,
                forall|j: int| 0 <= j < i ==> #[trigger] start.predicate_locks[j] != view,
            decreases self.predicate_locks@.len() - i,
        {
            assert(self@.predicate_locks[i as int] == self.predicate_locks@[i as int].deep_view());
            if self.predicate_locks[i].same(&lock) {
                assert(start.predicate_locks[i as int] == view);
                return Ok(());
            }
            i = i + 1;
        }
        self.predicate_locks.push(lock);
        proof {
            assert(self.predicate_locks.deep_view() =~= start.predicate_locks.push(view));
            assert(self@ =~= start.predicate_locked(view));
            assert forall|t: TransactionId| start.waits_in_step() implies #[trigger] waits_of(
                self@.waits_for,
                t,
            ) == self@.all_blockers(t) by {
                assert(waits_of(start.waits_for, t) == start.all_blockers(t));
            }
        }
        Ok(())
    }

    /// Locks one key of an index.
    pub fn acquire_exact_key_lock(
        &mut self,
        txn_id: TransactionId,
        table: &str,
        index: &str,
        key: &[DbValue],
    ) -> (r: DbResult<()>)
        ensures
            locked_as(
                old(self)@,
                final(self)@,
                r,
                PredicateLockView {
                    txn_id,
                    table: table@,
                    index: Some(index@),
                    kind: LockKindView::Record(key.deep_view()),
                },
            ),
    {
        self.acquire_record_lock(txn_id, table, index, key)
    }

    /// Locks one key of an index.
    pub fn acquire_record_lock(
        &mut self,
        txn_id: TransactionId,
        table: &str,
        index: &str,
        key: &[DbValue],
    ) -> (r: DbResult<()>)
        ensures
            locked_as(
                old(self)@,
                final(self)@,
                r,
                PredicateLockView {
                    txn_id,
                    table: table@,
                    index: Some(index@),
                    kind: LockKindView::Record(key.deep_view()),
                },
            ),
    {
        self.acquire_predicate_lock(
            PredicateLock {
                txn_id,
                table: table.to_owned(),
                index: Some(index.to_owned()),
                kind: PredicateLockKind::Record(copy_values(key)),
            },
        )
    }

    /// Locks all keys of an index that start with a prefix.
    pub fn acquire_prefix_lock(
        &mut self,
        txn_id: TransactionId,
        table: &str,
        index: &str,
        key_prefix: &[DbValue],
    ) -> (r: DbResult<()>)
        ensures
            locked_as(
                old(self)@,
                final(self)@,
                r,
                PredicateLockView {
                    txn_id,
                    table: table@,
                    index: Some(index@),
                    kind: LockKindView::NextKey {
                        prefix: key_prefix.deep_view(),
                        lower: None,
                        upper: None,
                    },
                },
            ),
    {
        self.acquire_next_key_lock(txn_id, table, index, key_prefix, None, None)
    }

    /// Locks the gap between two bounds behind a prefix.
    pub fn acquire_gap_lock(
        &mut self,
        txn_id: TransactionId,
        table: &str,
        index: &str,
        key_prefix: &[DbValue],
        lower: Option<(CompareOp, &DbValue)>,
        upper: Option<(CompareOp, &DbValue)>,
    ) -> (r: DbResult<()>)
        ensures
            locked_as(
                old(self)@,
                final(self)@,
                r,
                PredicateLockView {
                    txn_id,
                    table: table@,
                    index: Some(index@),
                    kind: LockKindView::Gap {
                        prefix: key_prefix.deep_view(),
                        lower: given_bound(lower),
                        upper: given_bound(upper),
                    },
                },
            ),
    {
        self.acquire_predicate_lock(
            PredicateLock {
                txn_id,
                table: table.to_owned(),
                index: Some(index.to_owned()),
                kind: PredicateLockKind::Gap {
                    prefix: copy_values(key_prefix),
                    lower: copy_bound(lower),
                    upper: copy_bound(upper),
                },
            },
        )
    }

    /// Locks the keys between two bounds behind a prefix.
    pub fn acquire_range_lock(
        &mut self,
        txn_id: TransactionId,
        table: &str,
        index: &str,
        key_prefix: &[DbValue],
        lower: Option<(CompareOp, &DbValue)>,
        upper: Option<(CompareOp, &DbValue)>,
    ) -> (r: DbResult<()>)
        ensures
            locked_as(
                old(self)@,
                final(self)@,
                r,
                PredicateLockView {
                    txn_id,
                    table: table@,
                    index: Some(index@),
                    kind: LockKindView::NextKey {
                        prefix: key_prefix.deep_view(),
                        lower: given_bound(lower),
                        upper: given_bound(upper),
                    },
                },
            ),
    {
        self.acquire_next_key_lock(txn_id, table, index, key_prefix, lower, upper)
    }

    /// Locks the keys between two bounds behind a prefix, and the gaps before them.
    pub fn acquire_next_key_lock(
        &mut self,
        txn_id: TransactionId,
        table: &str,
        index: &str,
        key_prefix: &[DbValue],
        lower: Option<(CompareOp, &DbValue)>,
        upper: Option<(CompareOp, &DbValue)>,
    ) -> (r: DbResult<()>)
        ensures
            locked_as(
                old(self)@,
                final(self)@,
                r,
                PredicateLockView {
                    txn_id,
                    table: table@,
                    index: Some(index@),
                    kind: LockKindView::NextKey {
                        prefix: key_prefix.deep_view(),
                        lower: given_bound(lower),
                        upper: given_bound(upper),
                    },
                },
            ),
    {
        self.acquire_predicate_lock(
            PredicateLock {
                txn_id,
                table: table.to_owned(),
                index: Some(index.to_owned()),
                kind: PredicateLockKind::NextKey {
                    prefix: copy_values(key_prefix),
                    lower: copy_bound(lower),
                    upper: copy_bound(upper),
                },
            },
        )
    }

    fn conflicting_predicate_lock_txns(
        &self,
        txn_id: TransactionId,
        table: &str,
        index_keys: &[IndexKey],
    ) -> (r: DbResult<OrdSet<TransactionId>>)
        ensures
            match r {
                Ok(blockers) => self@.predicate_blockers(
                    txn_id,
                    table@,
                    index_keys.deep_view(),
                    0,
                    Set::empty(),
                ) == Ok::<_, ErrorView>(blockers@),
                Err(e) => self@.predicate_blockers(
                    txn_id,
                    table@,
                    index_keys.deep_view(),
                    0,
                    Set::empty(),
                ) == Err::<Set<TransactionId>, _>(e@),
            },
    {
        let mut blockers: OrdSet<TransactionId> = OrdSet::new();
        let ghost keys = index_keys.deep_view();
        let mut i: usize = 0;
        while i < self.predicate_locks.len()
            invariant
                i <= self.predicate_locks@.len(),
                keys == index_keys.deep_view(),
                self@.predicate_blockers(txn_id, table@, keys, 0, Set::empty())
                    == self@.predicate_blockers(txn_id, table@, keys, i as int, blockers@),
            decreases self.predicate_locks@.len() - i,
        {
            let lock = &self.predicate_locks[i];
            assert(self@.predicate_locks[i as int] == lock.deep_view());
            i = i + 1;
            if lock.txn_id == txn_id || !same_text(lock.table.as_str(), table) {
                continue;
            }
            if self.get(lock.txn_id)?.status != TxnStatus::Active {
                continue;
            }
            if predicate_lock_conflicts(lock, index_keys) {
                let _ = blockers.insert(lock.txn_id);
            }
        }
        Ok(blockers)
    }

    /// Checks that no other transaction has locked what a row with these index keys would
    /// change.
    pub fn check_write_conflicts(
        &mut self,
        txn_id: TransactionId,
        table: &str,
        index_keys: &[IndexKey],
    ) -> (r: DbResult<()>)
        requires
            old(self)@.waits_in_step(),
            old(self)@.waiters_known(),
            old(self)@.epoch_has_room(txn_id),
        ensures
            final(self)@ == old(self)@.write_checked(txn_id, table@, index_keys.deep_view()).0,
            same_outcome(
                r,
                old(self)@.write_checked(txn_id, table@, index_keys.deep_view()).1,
            ),
            final(self)@.waits_in_step(),
            final(self)@.waiters_known(),
            final(self)@.follows(old(self)@),
            old(self)@.waiters_active() ==> final(self)@.waiters_active(),
        decreases old(self)@.other_waiters(txn_id).len(),
    {
        let ghost start = self@;
        self.ensure_active(txn_id)?;
        let wait_key = predicate_write_key(table, index_keys);
        let ghost key = wait_key.deep_view();
        let conflicts = self.conflicting_predicate_lock_txns(txn_id, table, index_keys)?;
        let free = conflicts.is_empty();
        let mut blockers = conflicts;
        let mut ahead: u64 = 0;
        if free {
            match front_of_write(&self.predicate_write_wait_queues, &wait_key) {
                Some(front) if front != txn_id => {
                    ahead = front.0;
                    blockers = OrdSet::single(front);
                },
                _ => {
                    dequeue_write(&mut self.predicate_write_wait_queues, &wait_key, txn_id);
                    assert(self@ =~= TxnModel {
                        predicate_write_wait_queues: dequeued(
                            start.predicate_write_wait_queues,
                            key,
                            txn_id,
                        ),
                        ..start
                    });
                    self.clear_predicate_wait_edges(txn_id);
                    proof {
                        lemma_waits_changed(start, self@, txn_id);
                    }
                    return Ok(());
                },
            }
        }
        let error = if free {
            DbError::about(ErrorCode::PredicateWriteWait { ahead }, table)
        } else {
            DbError::about_both(
                ErrorCode::SerializableConflict,
                table,
                join_ids(&blockers).as_str(),
            )
        };
        enqueue_write(&mut self.predicate_write_wait_queues, wait_key, txn_id);
        assert(self@ =~= TxnModel {
            predicate_write_wait_queues: enqueued(start.predicate_write_wait_queues, key, txn_id),
            ..start
        });
        self.set_predicate_wait_edges(txn_id, blockers.copy());
        proof {
            lemma_waits_changed(start, self@, txn_id);
        }
        if let Some(blocker) = find_deadlocked(&self.waits_for, &blockers, txn_id) {
            let reason = if free {
                WaitReason::PredicateQueue
            } else {
                WaitReason::PredicateLock
            };
            match self.resolve_deadlock(txn_id, blocker, reason, table) {
                Err(e) => {
                    return Err(e);
                },
                Ok(_) => {
                    let ghost middle = self@;
                    let r = self.check_write_conflicts(txn_id, table, index_keys);
                    proof {
                        lemma_follows_twice(start, middle, self@);
                    }
                    return r;
                },
            }
        }
        Err(error)
    }
}

/// The model of a bound that is handed in.
pub open spec fn given_bound(bound: Option<(CompareOp, &DbValue)>) -> Option<BoundView> {
    match bound {
        Some(b) => Some(BoundView { op: b.0, value: b.1@ }),
        None => None,
    }
}

fn copy_bound(bound: Option<(CompareOp, &DbValue)>) -> (r: Option<Bound>)
    ensures
        bound_view(r) == given_bound(bound),
{
    match bound {
        Some((op, value)) => Some(Bound { op, value: value.copy() }),
        None => None,
    }
}

/// Whether asking for a predicate lock went as it should: a known transaction gets it.
pub open spec fn locked_as(
    before: TxnModel,
    after: TxnModel,
    r: DbResult<()>,
    lock: PredicateLockView,
) -> bool {
    &&& match r {
        Ok(_) => before.txns.dom().contains(lock.txn_id) && after == before.predicate_locked(lock),
        Err(e) => !before.txns.dom().contains(lock.txn_id) && after == before && e@ == not_active(
            lock.txn_id,
        ),
    }
    &&& before.waits_in_step() ==> after.waits_in_step()
    &&& before.waiters_known() ==> after.waiters_known()
    &&& before.waiters_active() ==> after.waiters_active()
    &&& after.follows(before)
}

// ---------------------------------------------------------------------------
// Row numbers

/// The larger of two numbers.
pub open spec fn larger(a: u64, b: u64) -> u64 {
    if a >= b {
        a
    } else {
        b
    }
}

/// The next row numbers once those of a catalog are taken into account: none goes back.
pub open spec fn row_ids_joined(
    known: Map<Seq<char>, u64>,
    given: Map<Seq<char>, u64>,
) -> Map<Seq<char>, u64> {
    Map::new(
        |t: Seq<char>| known.dom().contains(t) || given.dom().contains(t),
        |t: Seq<char>|
            if !given.dom().contains(t) {
                known[t]
            } else if !known.dom().contains(t) {
                given[t]
            } else {
                larger(known[t], given[t])
            },
    )
}

/// The next row number of a table.
pub open spec fn next_row_id(
    known: Map<Seq<char>, u64>,
    table: Seq<char>,
    fallback: u64,
) -> u64 {
    let least = larger(fallback, 1);
    if known.dom().contains(table) {
        larger(known[table], least)
    } else {
        least
    }
}

impl TxnManager {
    /// Takes the next row numbers of a catalog into account.
    pub fn sync_next_row_ids(&mut self, next_row_ids: &OrdMap<String, u64>)
        ensures
            final(self)@ == (TxnModel {
                next_row_ids: row_ids_joined(old(self)@.next_row_ids, next_row_ids@),
                ..old(self)@
            }),
            final(self)@.follows(old(self)@),
    {
        let n: usize = next_row_ids.len();
        let ghost keys = next_row_ids.keys();
        let ghost known = self@.next_row_ids;
        let ghost target = row_ids_joined(known, next_row_ids@);
        let mut i: usize = 0;
        while i < n
            invariant
                i <= n == keys.len(),
                keys == next_row_ids.keys(),
                next_row_ids.ordered(),
                known == old(self)@.next_row_ids,
                target == row_ids_joined(known, next_row_ids@),
                self@ == (TxnModel { next_row_ids: self@.next_row_ids, ..old(self)@ }),
                forall|t: Seq<char>| #[trigger]
                    self@.next_row_ids.dom().contains(t) <==> known.dom().contains(t) || among(
                        keys,
                        i as int,
                        t,
                    ),
                forall|t: Seq<char>| #[trigger]
                    self@.next_row_ids.dom().contains(t) ==> self@.next_row_ids[t] == if among(
                        keys,
                        i as int,
                        t,
                    ) {
                        target[t]
                    } else {
                        known[t]
                    },
            decreases n - i,
        {
            let table = next_row_ids.key_at(i);
            let given: u64 = *next_row_ids.value_at(i);
            let ghost name = keys[i as int];
            proof {
                lemma_among_next(keys, i + 1);
                assert(!among(keys, i as int, name)) by {
                    if among(keys, i as int, name) {
                        let j = choose|j: int| 0 <= j < i && #[trigger] keys[j] == name;
                        assert(String::before(keys[j], keys[i as int]));
                        String::before_irreflexive(name);
                    }
                }
            }
            let value: u64 = match self.next_row_ids.get(table) {
                Some(existing) => {
                    if *existing >= given {
                        *existing
                    } else {
                        given
                    }
                },
                None => given,
            };
            let _ = self.next_row_ids.insert(table.copy_key(), value);
            i = i + 1;
            assert(self@ =~= TxnModel { next_row_ids: self@.next_row_ids, ..old(self)@ });
        }
        proof {
            lemma_among_all(keys);
            assert(self@.next_row_ids =~= target);
        }
    }

    /// The next row number of a table.
    pub fn next_row_number(&self, table: &str, fallback_next_row_id: u64) -> (r: u64)
        ensures
            r == next_row_id(self@.next_row_ids, table@, fallback_next_row_id),
    {
        let least: u64 = if fallback_next_row_id >= 1 {
            fallback_next_row_id
        } else {
            1
        };
        match self.next_row_ids.get(&table.to_owned()) {
            Some(known) => if *known >= least {
                *known
            } else {
                least
            },
            None => least,
        }
    }

    /// Hands out the next row number of a table to an active transaction.
    pub fn allocate_row_id(
        &mut self,
        txn_id: TransactionId,
        table: &str,
        fallback_next_row_id: u64,
    ) -> (r: DbResult<RowId>)
        requires
            next_row_id(old(self)@.next_row_ids, table@, fallback_next_row_id) < u64::MAX,
        ensures
            match r {
                Ok(row_id) => {
                    &&& old(self)@.is_active(txn_id)
                    &&& row_id.0 == next_row_id(
                        old(self)@.next_row_ids,
                        table@,
                        fallback_next_row_id,
                    )
                    &&& final(self)@ == (TxnModel {
                        next_row_ids: old(self)@.next_row_ids.insert(
                            table@,
                            (row_id.0 + 1) as u64,
                        ),
                        ..old(self)@
                    })
                },
                Err(e) => old(self)@.activity_error(txn_id) == Some(e@) && final(self)@ == old(
                    self,
                )@,
            },
            final(self)@.follows(old(self)@),
    {
        self.ensure_active(txn_id)?;
        let key: String = table.to_owned();
        let least: u64 = if fallback_next_row_id >= 1 {
            fallback_next_row_id
        } else {
            1
        };
        let row_id: u64 = match self.next_row_ids.get(&key) {
            Some(existing) => {
                if *existing >= least {
                    *existing
                } else {
                    least
                }
            },
            None => least,
        };
        let _ = self.next_row_ids.insert(key, row_id + 1);
        assert(self@ =~= TxnModel {
            next_row_ids: old(self)@.next_row_ids.insert(table@, (row_id + 1) as u64),
            ..old(self)@
        });
        Ok(RowId(row_id))
    }
}

// ---------------------------------------------------------------------------
// Purging

/// A committed transaction, ordered by its commit.
#[derive(Debug, Clone, Copy, PartialEq, Eq, Structural)]
pub struct CommitOrder {
    pub commit_ts: u64,
    pub txn_id: TransactionId,
}

impl DeepView for CommitOrder {
    type V = CommitOrder;

    open spec fn deep_view(&self) -> CommitOrder {
        *self
    }
}

impl OrdKey for CommitOrder {
    open spec fn before(a: CommitOrder, b: CommitOrder) -> bool {
        a.commit_ts < b.commit_ts || (a.commit_ts == b.commit_ts && a.txn_id.0 < b.txn_id.0)
    }

    proof fn before_irreflexive(a: CommitOrder) {
    }

    proof fn before_transitive(a: CommitOrder, b: CommitOrder, c: CommitOrder) {
    }

    proof fn before_total(a: CommitOrder, b: CommitOrder) {
    }

    fn compare(&self, other: &Self) -> (r: Order) {
        if self.commit_ts < other.commit_ts {
            Order::Less
        } else if self.commit_ts > other.commit_ts {
            Order::Greater
        } else {
            self.txn_id.compare(&other.txn_id)
        }
    }

    fn copy_key(&self) -> (r: Self) {
        *self
    }
}

impl TxnModel {
    /// The committed transactions with rows to purge up to a horizon.
    pub open spec fn purge_candidates(self, horizon: u64) -> Set<CommitOrder> {
        Set::new(
            |c: CommitOrder|
                self.purgeable(c.txn_id, horizon) && self.txns[c.txn_id].commit_ts == Some(
                    c.commit_ts,
                ),
        )
    }

    /// The purge records of some transactions, one transaction after the other.
    pub open spec fn purge_records_of(
        self,
        txns: Seq<CommitOrder>,
    ) -> Seq<(TransactionId, UndoView)>
        decreases txns.len(),
    {
        if txns.len() == 0 {
            Seq::empty()
        } else {
            let txn = txns.last().txn_id;
            self.purge_records_of(txns.drop_last()) + self.txns[txn].purge_records.map_values(
                |r: UndoView| (txn, r),
            )
        }
    }

    /// The records to purge next: those of the transactions that committed first, up to a
    /// limit.
    pub open spec fn purge_plan(self, horizon: u64, limit: nat) -> Seq<(TransactionId, UndoView)> {
        let all = self.purge_records_of(sorted::<CommitOrder>(self.purge_candidates(horizon)));
        if all.len() <= limit {
            all
        } else {
            all.take(limit as int)
        }
    }

    /// The number of records that committed transactions have left to purge.
    pub open spec fn history_of(self, txns: Seq<TransactionId>) -> nat
        decreases txns.len(),
    {
        if txns.len() == 0 {
            0
        } else {
            self.history_of(txns.drop_last()) + if self.txns[txns.last()].status
                == TxnStatus::Committed {
                self.txns[txns.last()].purge_records.len()
            } else {
                0
            }
        }
    }

    /// The number of records that all committed transactions have left to purge.
    pub open spec fn history_length(self) -> nat {
        self.history_of(sorted::<TransactionId>(self.txns.dom()))
    }
}

fn survives(state: &TxnState, purge_horizon: u64) -> (r: bool)
    ensures
        r == TxnModel::survives_purge(state.deep_view(), purge_horizon),
{
    assert(state.purge_records.deep_view().len() == state.purge_records@.len());
    assert(state.undo_records.deep_view().len() == state.undo_records@.len());
    match state.status {
        TxnStatus::Active => true,
        TxnStatus::Committed => {
            let late = match state.commit_ts {
                Some(ts) => ts > purge_horizon,
                None => true,
            };
            late || state.purge_records.len() > 0
        },
        TxnStatus::Aborted => state.undo_records.len() > 0 || state.terminal_error.is_some(),
    }
}

/// A planned purge: a transaction and one of its records.
pub struct PurgeItem {
    pub txn_id: TransactionId,
    pub record: UndoRecord,
}

impl DeepView for PurgeItem {
    type V = (TransactionId, UndoView);

    open spec fn deep_view(&self) -> (TransactionId, UndoView) {
        (self.txn_id, self.record.deep_view())
    }
}

impl TxnManager {
    /// The timestamp up to which nobody needs old row versions.
    pub fn purge_horizon(&self) -> (r: u64)
        ensures
            self@.is_purge_horizon(r),
    {
        let n: usize = self.txns.len();
        let ghost keys = self.txns.keys();
        let mut found = false;
        let mut horizon: u64 = self.next_commit_ts;
        let mut i: usize = 0;
        while i < n
            invariant
                i <= n == keys.len(),
                keys == self.txns.keys(),
                self.txns.ordered(),
                !found ==> horizon == self@.next_commit_ts,
                found ==> exists|t: TransactionId| #[trigger]
                    self@.is_active(t) && horizon == self@.txns[t].snapshot.visible_up_to,
                !found ==> forall|t: TransactionId|
                    among(keys, i as int, t) ==> !#[trigger] self@.is_active(t),
                found ==> forall|t: TransactionId|
                    among(keys, i as int, t) && #[trigger] self@.is_active(t) ==> horizon
                        <= self@.txns[t].snapshot.visible_up_to,
            decreases n - i,
        {
            let state = self.txns.value_at(i);
            let ghost id = keys[i as int];
            proof {
                lemma_among_next(keys, i + 1);
                assert(self@.txns[id] == state.deep_view());
                assert(self@.is_active(id) == (state.status == TxnStatus::Active));
            }
            if state.status == TxnStatus::Active {
                if !found || state.snapshot.visible_up_to < horizon {
                    horizon = state.snapshot.visible_up_to;
                }
                found = true;
            }
            i = i + 1;
        }
        proof {
            lemma_among_all(keys);
            assert forall|t: TransactionId| #[trigger] self@.is_active(t) implies among(
                keys,
                n as int,
                t,
            ) by {
                assert(self.txns@.dom().contains(t));
            }
        }
        horizon
    }

    /// The last commit timestamp that was handed out.
    pub fn last_stamp(&self) -> (r: u64)
        ensures
            r == self@.next_commit_ts,
    {
        self.next_commit_ts
    }

    /// Clears away ended transactions that nobody needs.
    pub fn purge_finished_transactions_up_to(&mut self, purge_horizon: u64)
        ensures
            final(self)@ == old(self)@.purged(purge_horizon),
            final(self)@.follows(old(self)@),
    {
        let n: usize = self.txns.len();
        let ghost keys = self.txns.keys();
        let mut gone: Vec<TransactionId> = Vec::new();
        let mut i: usize = 0;
        while i < n
            invariant
                i <= n == keys.len(),
                keys == self.txns.keys(),
                self.txns.ordered(),
                forall|t: TransactionId| #[trigger]
                    gone@.contains(t) <==> among(keys, i as int, t) && !TxnModel::survives_purge(
                        self@.txns[t],
                        purge_horizon,
                    ),
            decreases n - i,
        {
            let state = self.txns.value_at(i);
            let id: TransactionId = *self.txns.key_at(i);
            let ghost before = gone@;
            if !survives(state, purge_horizon) {
                gone.push(id);
                proof {
                    assert forall|t: TransactionId| #[trigger] gone@.contains(t) <==> before.contains(
                        t,
                    ) || t == id by {
                        if before.contains(t) {
                            let j = before.index_of(t);
                            assert(gone@[j] == t);
                        }
                        assert(gone@[before.len() as int] == id);
                    }
                }
            }
            i = i + 1;
            proof {
                lemma_among_next(keys, i as int);
            }
        }
        let ghost start = self@;
        let mut k: usize = 0;
        while k < gone.len()
            invariant
                k <= gone@.len(),
                start == old(self)@,
                self@ == (TxnModel { txns: self@.txns, ..start }),
                forall|t: TransactionId| #[trigger]
                    self@.txns.dom().contains(t) <==> start.txns.dom().contains(t) && !among(
                        gone@,
                        k as int,
                        t,
                    ),
                forall|t: TransactionId| #[trigger]
                    self@.txns.dom().contains(t) ==> self@.txns[t] == start.txns[t],
            decreases gone@.len() - k,
        {
            let _ = self.txns.remove(&gone[k]);
            k = k + 1;
            proof {
                lemma_among_next(gone@, k as int);
                assert(self@ =~= TxnModel { txns: self@.txns, ..start });
            }
        }
        proof {
            lemma_among_all(gone@);
            lemma_among_all(keys);
            assert forall|t: TransactionId| #[trigger] start.txns.dom().contains(t) implies among(
                keys,
                n as int,
                t,
            ) by {
                assert(keys.contains(t));
            }
            assert(self@.txns =~= start.purged(purge_horizon).txns);
            assert(self@ =~= start.purged(purge_horizon));
        }
    }

    /// Clears away ended transactions that nobody needs any more.
    pub fn purge_finished_transactions(&mut self)
        ensures
            exists|horizon: u64| #[trigger]
                old(self)@.is_purge_horizon(horizon) && final(self)@ == old(self)@.purged(horizon),
            final(self)@.follows(old(self)@),
    {
        let purge_horizon: u64 = self.purge_horizon();
        self.purge_finished_transactions_up_to(purge_horizon);
    }

    /// The number of records that committed transactions have left to purge.
    pub fn history_list_length(&self) -> (r: u128)
        ensures
            r == self@.history_length(),
    {
        let n: usize = self.txns.len();
        let ghost keys = self.txns.keys();
        proof {
            assert(keys.to_set() =~= self.txns@.dom());
            lemma_ascending_determined::<TransactionId>(
                keys,
                sorted::<TransactionId>(self@.txns.dom()),
            );
        }
        let mut total: u128 = 0;
        let mut i: usize = 0;
        assert(keys.take(0) =~= Seq::<TransactionId>::empty());
        while i < n
            invariant
                i <= n == keys.len(),
                keys == self.txns.keys(),
                self.txns.ordered(),
                total == self@.history_of(keys.take(i as int)),
                total <= i * 0xffff_ffff_ffff_ffff,
            decreases n - i,
        {
            let state = self.txns.value_at(i);
            proof {
                let next = keys.take(i + 1);
                assert(next.drop_last() =~= keys.take(i as int));
                assert(next.last() == keys[i as int]);
                assert(state.purge_records.deep_view().len() == state.purge_records@.len());
            }
            if state.status == TxnStatus::Committed {
                total = total + state.purge_records.len() as u128;
            }
            i = i + 1;
        }
        assert(keys.take(n as int) =~= keys);
        total
    }

    /// The records to purge next, of the transactions that committed first, up to a limit.
    pub fn planned_purge_batch(&self, purge_horizon: u64, limit: usize) -> (r: Vec<PurgeItem>)
        ensures
            r.deep_view() == self@.purge_plan(purge_horizon, limit as nat),
    {
        let candidates = self.purge_candidates(purge_horizon);
        let count: usize = candidates.len();
        let ghost order = candidates.keys();
        let ghost all = self@.purge_records_of(order);
        let mut planned: Vec<PurgeItem> = Vec::new();
        let mut i: usize = 0;
        assert(order.take(0) =~= Seq::<CommitOrder>::empty());
        assert(planned.deep_view() =~= Seq::<(TransactionId, UndoView)>::empty());
        while i < count
            invariant
                i <= count == order.len(),
                order == candidates.keys(),
                order == sorted::<CommitOrder>(self@.purge_candidates(purge_horizon)),
                candidates@ == self@.purge_candidates(purge_horizon),
                order.to_set() == candidates@,
                all == self@.purge_records_of(order),
                planned@.len() <= limit,
                planned.deep_view() == self@.purge_records_of(order.take(i as int)),
            decreases count - i,
        {
            let txn_id: TransactionId = candidates.item_at(i).txn_id;
            let ghost done = self@.purge_records_of(order.take(i as int));
            let ghost records = self@.txns[txn_id].purge_records.map_values(
                |r: UndoView| (txn_id, r),
            );
            proof {
                assert(order.to_set().contains(order[i as int]));
                assert(self@.purgeable(txn_id, purge_horizon));
                assert(order.take(i + 1).drop_last() =~= order.take(i as int));
                assert(order.take(i + 1).last() == order[i as int]);
                lemma_purge_prefix(self@, order, i + 1);
            }
            let state = match self.txns.get(&txn_id) {
                Some(state) => state,
                None => {
                    return planned;
                },
            };
            assert(state.deep_view() == self@.txns[txn_id]);
            let mut k: usize = 0;
            assert(done + records.take(0) =~= done);
            while k < state.purge_records.len()
                invariant
                    k <= state.purge_records@.len(),
                    state.deep_view() == self@.txns[txn_id],
                    records == self@.txns[txn_id].purge_records.map_values(
                        |r: UndoView| (txn_id, r),
                    ),
                    planned@.len() <= limit,
                    planned.deep_view() == done + records.take(k as int),
                    all == self@.purge_records_of(order),
                    order == sorted::<CommitOrder>(self@.purge_candidates(purge_horizon)),
                    (done + records).is_prefix_of(all),
                decreases state.purge_records@.len() - k,
            {
                let ghost before = planned.deep_view();
                assert(state.purge_records.deep_view().len() == state.purge_records@.len());
                if planned.len() == limit {
                    proof {
                        let whole = done + records;
                        assert(before =~= whole.take(limit as int));
                        assert(before =~= all.take(limit as int)) by {
                            assert(whole =~= all.subrange(0, whole.len() as int));
                        }
                        assert(all.len() >= whole.len() > limit);
                    }
                    return planned;
                }
                let item = PurgeItem { txn_id, record: state.purge_records[k].copy() };
                let ghost view = item.deep_view();
                planned.push(item);
                proof {
                    assert(view == records[k as int]);
                    assert(planned.deep_view() =~= before.push(view));
                    assert(records.take(k + 1) =~= records.take(k as int).push(records[k as int]));
                    assert(done + records.take(k + 1) =~= (done + records.take(k as int)).push(
                        records[k as int],
                    ));
                }
                k = k + 1;
            }
            proof {
                assert(state.purge_records.deep_view().len() == state.purge_records@.len());
                assert(records.take(records.len() as int) =~= records);
            }
            i = i + 1;
        }
        proof {
            assert(order.take(count as int) =~= order);
            assert(planned.deep_view().len() == planned@.len());
        }
        planned
    }

    fn purge_candidates(&self, purge_horizon: u64) -> (r: OrdSet<CommitOrder>)
        ensures
            r@ == self@.purge_candidates(purge_horizon),
    {
        let mut r: OrdSet<CommitOrder> = OrdSet::new();
        let n: usize = self.txns.len();
        let ghost keys = self.txns.keys();
        let mut i: usize = 0;
        while i < n
            invariant
                i <= n == keys.len(),
                keys == self.txns.keys(),
                self.txns.ordered(),
                forall|c: CommitOrder| #[trigger]
                    r@.contains(c) <==> self@.purge_candidates(purge_horizon).contains(c) && among(
                        keys,
                        i as int,
                        c.txn_id,
                    ),
            decreases n - i,
        {
            let state = self.txns.value_at(i);
            let id: TransactionId = *self.txns.key_at(i);
            assert(state.purge_records.deep_view().len() == state.purge_records@.len());
            assert(self@.txns[id] == state.deep_view());
            if state.status == TxnStatus::Committed && state.purge_records.len() > 0 {
                if let Some(commit_ts) = state.commit_ts {
                    if commit_ts <= purge_horizon {
                        let _ = r.insert(CommitOrder { commit_ts, txn_id: id });
                    }
                }
            }
            i = i + 1;
            proof {
                lemma_among_next(keys, i as int);
                assert(!among(keys, i - 1, id)) by {
                    if among(keys, i - 1, id) {
                        let j = choose|j: int| 0 <= j < i - 1 && #[trigger] keys[j] == id;
                        assert(TransactionId::before(keys[j], keys[i - 1]));
                    }
                }
            }
        }
        proof {
            lemma_among_all(keys);
            assert forall|c: CommitOrder| self@.purge_candidates(purge_horizon).contains(
                c,
            ) implies among(keys, n as int, c.txn_id) by {
                assert(self.txns@.dom().contains(c.txn_id));
            }
            assert(r@ =~= self@.purge_candidates(purge_horizon));
        }
        r
    }

    /// Takes purged records from the front of their transactions.
    pub fn complete_purge_batch(&mut self, purged_records: &[PurgeItem]) -> (r: DbResult<()>)
        ensures
            final(self)@ == old(self)@.purge_completed(purged_records.deep_view()).0,
            same_outcome(r, old(self)@.purge_completed(purged_records.deep_view()).1),
            final(self)@.follows(old(self)@),
    {
        let ghost records = purged_records.deep_view();
        let ghost outcome = self@.purge_completed(records);
        proof {
            lemma_purge_completed_follows(self@, records);
        }
        let mut i: usize = 0;
        assert(records.skip(0) =~= records);
        while i < purged_records.len()
            invariant
                i <= purged_records@.len(),
                records == purged_records.deep_view(),
                outcome == old(self)@.purge_completed(records),
                outcome.0.follows(old(self)@),
                outcome == self@.purge_completed(records.skip(i as int)),
            decreases purged_records@.len() - i,
        {
            let txn_id: TransactionId = purged_records[i].txn_id;
            let ghost rest = records.skip(i as int);
            let ghost before = self@;
            let ghost view = before.txns[txn_id];
            proof {
                assert(rest[0] == purged_records@[i as int].deep_view());
                assert(rest.drop_first() =~= records.skip(i + 1));
            }
            let txn = self.get_mut(txn_id)?;
            assert(txn.purge_records.deep_view().len() == txn.purge_records@.len());
            if txn.purge_records.len() == 0 {
                assert(before.with_txn(txn_id, view) =~= before);
                return Err(DbError::bare(ErrorCode::PurgeRecordMissing(txn_id.0)));
            }
            let front = txn.purge_records.remove(0);
            proof {
                assert(front.deep_view() == view.purge_records[0]);
                assert(txn.purge_records.deep_view() =~= view.purge_records.drop_first());
                assert(txn.deep_view() =~= TxnView {
                    purge_records: view.purge_records.drop_first(),
                    ..view
                });
            }
            if !front.same(&purged_records[i].record) {
                return Err(DbError::bare(ErrorCode::PurgeRecordOrder(txn_id.0)));
            }
            i = i + 1;
        }
        assert(records.skip(i as int).len() == 0);
        Ok(())
    }
}

proof fn lemma_purge_prefix(m: TxnModel, order: Seq<CommitOrder>, n: int)
    requires
        0 <= n <= order.len(),
    ensures
        m.purge_records_of(order.take(n)).is_prefix_of(m.purge_records_of(order)),
    decreases order.len(),
{
    if n < order.len() {
        lemma_purge_prefix(m, order.drop_last(), n);
        assert(order.drop_last().take(n) =~= order.take(n));
        let a = m.purge_records_of(order.take(n));
        let b = m.purge_records_of(order.drop_last());
        let c = m.purge_records_of(order);
        assert(b.is_prefix_of(c));
        assert(a =~= c.subrange(0, a.len() as int)) by {
            assert(a =~= b.subrange(0, a.len() as int));
            assert(b =~= c.subrange(0, b.len() as int));
        }
    } else {
        assert(order.take(n) =~= order);
    }
}

} // verus!
