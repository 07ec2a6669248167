//! What holds of the transaction manager in every state.

use vstd::prelude::*;

use crate::common::error::{is_deadlock, ErrorView};
use crate::common::ordset::{lemma_sorted_exists, sorted};
use crate::common::value::{IsolationLevel, TransactionId};
use crate::v2::locks::{
    lock_conflicts, modes_conflict, write_key, IndexKeyView, PredicateLockView, TableLockMode,
    TableLockView, WriteKeyView,
};
use crate::v2::page::PageId;
use crate::v2::tx_types::{TxnStatus, TxnView, UndoView};
use crate::v2::txn_model::{
    deadlock_error, dequeued, enqueued, first_deadlocked, numbers_used, queue_of, queue_without,
    TxnModel, WaitReason,
};
use crate::v2::wait_graph::{
    is_wait_path, law_wait_chain_finds_waits, sorted_ok, wait_chain, waits_of, waits_through,
};

verus! {

/// No two transactions are both the best victim.
pub proof fn lemma_victim_unique(
    m: TxnModel,
    requester: TransactionId,
    members: Set<TransactionId>,
    a: TransactionId,
    b: TransactionId,
)
    requires
        m.is_victim(requester, members, a),
        m.is_victim(requester, members, b),
    ensures
        a == b,
{
    if a != b {
        assert(members.contains(a) && members.contains(b));
        assert(m.better_victim(requester, a, b));
        assert(m.better_victim(requester, b, a));
    }
}

/// A step after a step is a step, where no transaction is cleared away by the first.
pub proof fn lemma_follows_twice(a: TxnModel, b: TxnModel, c: TxnModel)
    requires
        b.follows(a),
        c.follows(b),
        a.txns.dom().subset_of(b.txns.dom()),
    ensures
        c.follows(a),
{
    assert forall|table: Seq<char>| #[trigger]
        a.next_row_ids.dom().contains(table) implies c.next_row_ids.dom().contains(table)
        && a.next_row_ids[table] <= c.next_row_ids[table] by {
        assert(b.next_row_ids.dom().contains(table));
    }
}

/// Striking off purged records is a step.
pub proof fn lemma_purge_completed_follows(m: TxnModel, records: Seq<(TransactionId, UndoView)>)
    ensures
        m.purge_completed(records).0.follows(m),
        m.purge_completed(records).0.txns.dom() == m.txns.dom(),
        m.purge_completed(records).0 == (TxnModel {
            txns: m.purge_completed(records).0.txns,
            ..m
        }),
        forall|t: TransactionId| #[trigger]
            m.txns.dom().contains(t) ==> m.purge_completed(records).0.txns[t].status
                == m.txns[t].status,
    decreases records.len(),
{
    if records.len() > 0 {
        let (txn, record) = records[0];
        if m.txns.dom().contains(txn) && m.txns[txn].purge_records.len() > 0 {
            let rest = TxnView {
                purge_records: m.txns[txn].purge_records.drop_first(),
                ..m.txns[txn]
            };
            let after = m.with_txn(txn, rest);
            assert(after.txns.dom() =~= m.txns.dom());
            lemma_purge_completed_follows(after, records.drop_first());
            lemma_follows_twice(m, after, after.purge_completed(records.drop_first()).0);
        }
    }
}

/// Changing what one transaction waits for leaves the others as they are.
pub proof fn lemma_waits_changed(before: TxnModel, after: TxnModel, txn: TransactionId)
    requires
        before.waits_in_step(),
        before.waiters_known(),
        before.txns.dom().contains(txn) || after.all_blockers(txn) == Set::<
            TransactionId,
        >::empty(),
        after.txns == before.txns,
        after.waits_for == before.waits_for.insert(txn, after.all_blockers(txn)),
        forall|t: TransactionId|
            t != txn ==> #[trigger] after.all_blockers(t) == before.all_blockers(t),
    ensures
        after.waits_in_step(),
        after.waiters_known(),
        before.waiters_active() && (before.is_active(txn) || after.all_blockers(txn) == Set::<
            TransactionId,
        >::empty()) ==> after.waiters_active(),
        after.other_waiters(txn) == before.other_waiters(txn),
{
    assert forall|t: TransactionId|
        before.waiters_active() && (before.is_active(txn) || after.all_blockers(txn) == Set::<
            TransactionId,
        >::empty()) && #[trigger] waits_of(after.waits_for, t) != Set::<
            TransactionId,
        >::empty() implies after.is_active(t) by {
        if t != txn {
            assert(waits_of(after.waits_for, t) == waits_of(before.waits_for, t));
        }
    }
    assert forall|t: TransactionId| #[trigger] waits_of(after.waits_for, t) == after.all_blockers(
        t,
    ) by {
        if t != txn {
            assert(waits_of(after.waits_for, t) == waits_of(before.waits_for, t));
            assert(after.all_blockers(t) == before.all_blockers(t));
        }
    }
    assert forall|t: TransactionId|
        #[trigger] waits_of(after.waits_for, t) != Set::<TransactionId>::empty() implies after.txns.dom().contains(
        t,
    ) by {
        if t != txn {
            assert(waits_of(after.waits_for, t) == waits_of(before.waits_for, t));
        }
    }
    assert forall|t: TransactionId| #[trigger] after.other_waiters(txn).contains(t)
        == before.other_waiters(txn).contains(t) by {
        if t != txn {
            assert(waits_of(after.waits_for, t) == waits_of(before.waits_for, t));
        }
    }
    assert(after.other_waiters(txn) =~= before.other_waiters(txn));
}

/// Once a transaction has given back what it holds, the recorded waits are still in step,
/// it waits for nobody and nobody waits for more than before.
pub proof fn lemma_released(m: TxnModel, txn: TransactionId)
    requires
        m.waits_in_step(),
        m.waiters_known(),
    ensures
        m.released(txn).waits_in_step(),
        m.released(txn).waiters_known(),
        waits_of(m.released(txn).waits_for, txn) == Set::<TransactionId>::empty(),
        forall|t: TransactionId| #[trigger]
            waits_of(m.released(txn).waits_for, t).subset_of(waits_of(m.waits_for, t)),
        m.released(txn).txns == m.txns,
        (forall|t: TransactionId|
            t != txn && #[trigger] waits_of(m.waits_for, t) != Set::<TransactionId>::empty()
                ==> m.is_active(t)) ==> m.released(txn).waiters_active(),
{
    let after = m.released(txn);
    assert forall|t: TransactionId|
        #[trigger] waits_of(after.waits_for, t) == after.all_blockers(t) && waits_of(
            after.waits_for,
            t,
        ).subset_of(waits_of(m.waits_for, t)) by {
        assert(waits_of(m.waits_for, t) == m.all_blockers(t));
        if t == txn {
            assert(waits_of(after.table_wait_blockers, t) =~= Set::empty());
            assert(waits_of(after.page_wait_blockers, t) =~= Set::empty());
            assert(waits_of(after.predicate_wait_blockers, t) =~= Set::empty());
            assert(after.all_blockers(t) =~= Set::empty());
            assert(waits_of(after.waits_for, t) =~= Set::empty());
        } else if m.txns.dom().contains(t) {
            assert(waits_of(after.waits_for, t) == after.all_blockers(t));
            assert(waits_of(after.table_wait_blockers, t).subset_of(
                waits_of(m.table_wait_blockers, t),
            ));
            assert(waits_of(after.page_wait_blockers, t).subset_of(
                waits_of(m.page_wait_blockers, t),
            ));
            assert(waits_of(after.predicate_wait_blockers, t).subset_of(
                waits_of(m.predicate_wait_blockers, t),
            ));
        } else {
            assert(waits_of(after.table_wait_blockers, t) =~= waits_of(m.table_wait_blockers, t));
            assert(waits_of(after.page_wait_blockers, t) =~= waits_of(m.page_wait_blockers, t));
            assert(waits_of(after.predicate_wait_blockers, t) =~= waits_of(
                m.predicate_wait_blockers,
                t,
            ));
            assert(waits_of(after.waits_for, t) =~= waits_of(m.waits_for, t));
        }
    }
    assert forall|t: TransactionId|
        #[trigger] waits_of(after.waits_for, t) != Set::<TransactionId>::empty() implies after.txns.dom().contains(
        t,
    ) by {
        assert(waits_of(after.waits_for, t).subset_of(waits_of(m.waits_for, t)));
        if waits_of(m.waits_for, t) == Set::<TransactionId>::empty() {
            assert(waits_of(after.waits_for, t) =~= Set::empty());
        }
    }
    if forall|t: TransactionId|
        t != txn && #[trigger] waits_of(m.waits_for, t) != Set::<TransactionId>::empty()
            ==> m.is_active(t) {
        assert forall|t: TransactionId|
            #[trigger] waits_of(after.waits_for, t) != Set::<TransactionId>::empty() implies after.is_active(
            t,
        ) by {
            assert(waits_of(after.waits_for, t).subset_of(waits_of(m.waits_for, t)));
            if waits_of(m.waits_for, t) == Set::<TransactionId>::empty() {
                assert(waits_of(after.waits_for, t) =~= Set::empty());
            }
        }
    }
}

/// Everybody in a chain of waits is known.
pub proof fn lemma_chain_known(
    m: TxnModel,
    path: Seq<TransactionId>,
    from: TransactionId,
    to: TransactionId,
    i: int,
)
    requires
        m.waiters_known(),
        m.txns.dom().contains(to),
        is_wait_path(m.waits_for, path, from, to),
        0 <= i < path.len(),
    ensures
        m.txns.dom().contains(path[i]),
        path[i] != to ==> waits_of(m.waits_for, path[i]) != Set::<TransactionId>::empty(),
{
    if i < path.len() - 1 {
        assert(waits_of(m.waits_for, path[i]).contains(path[i + 1]));
    }
}

/// Aborting the victim of a deadlock leaves fewer transactions waiting.
pub proof fn lemma_sacrifice_progress(
    m: TxnModel,
    requester: TransactionId,
    blocker: TransactionId,
    victim: TransactionId,
    error: ErrorView,
)
    requires
        m.waits_in_step(),
        m.waiters_known(),
        m.waits_for.dom().finite(),
        m.txns.dom().contains(requester),
        wait_chain(m.waits_for, blocker, requester) matches Some(path) && is_wait_path(
            m.waits_for,
            path,
            blocker,
            requester,
        ) && path.to_set().insert(requester).contains(victim),
    ensures
        m.txns.dom().contains(victim),
        m.sacrificed(victim, error).waits_in_step(),
        m.sacrificed(victim, error).waiters_known(),
        m.sacrificed(victim, error).txns.dom() == m.txns.dom(),
        m.sacrificed(victim, error).follows(m),
        m.waiters_active() ==> m.sacrificed(victim, error).waiters_active(),
        m.other_waiters(requester).finite(),
        blocker != requester ==> m.other_waiters(requester).len() > 0,
        victim != requester ==> m.sacrificed(victim, error).other_waiters(requester).len()
            < m.other_waiters(requester).len(),
{
    let path = wait_chain(m.waits_for, blocker, requester)->Some_0;
    if victim != requester {
        let i = path.index_of(victim);
        assert(path[i] == victim);
        lemma_chain_known(m, path, blocker, requester, i);
    }
    let state = m.txns[victim];
    let changed = if state.status == TxnStatus::Active {
        TxnView { status: TxnStatus::Aborted, terminal_error: Some(error), ..state }
    } else {
        state
    };
    let marked = m.with_txn(victim, changed);
    assert(marked.txns.dom() =~= m.txns.dom());
    assert forall|t: TransactionId| #[trigger] waits_of(marked.waits_for, t)
        == marked.all_blockers(t) by {
        assert(waits_of(m.waits_for, t) == m.all_blockers(t));
    }
    assert forall|t: TransactionId|
        #[trigger] waits_of(marked.waits_for, t) != Set::<TransactionId>::empty() implies marked.txns.dom().contains(
        t,
    ) by {
        assert(waits_of(m.waits_for, t) != Set::<TransactionId>::empty());
    }
    assert forall|t: TransactionId|
        m.waiters_active() && t != victim && #[trigger] waits_of(marked.waits_for, t) != Set::<
            TransactionId,
        >::empty() implies marked.is_active(t) by {
        assert(waits_of(m.waits_for, t) != Set::<TransactionId>::empty());
    }
    lemma_released(marked, victim);
    let after = m.sacrificed(victim, error);
    assert(m.other_waiters(requester).subset_of(m.waits_for.dom())) by {
        assert forall|t: TransactionId| m.other_waiters(requester).contains(
            t,
        ) implies m.waits_for.dom().contains(t) by {}
    }
    vstd::set_lib::lemma_len_subset(m.other_waiters(requester), m.waits_for.dom());
    if blocker != requester {
        lemma_chain_known(m, path, blocker, requester, 0);
        assert(m.other_waiters(requester).contains(blocker));
        assert(m.other_waiters(requester).len() != 0);
    }
    if victim != requester {
        assert(m.other_waiters(requester).contains(victim));
        assert forall|t: TransactionId| after.other_waiters(requester).contains(
            t,
        ) implies m.other_waiters(requester).remove(victim).contains(t) by {
            assert(waits_of(after.waits_for, t).subset_of(waits_of(marked.waits_for, t)));
            if waits_of(m.waits_for, t) == Set::<TransactionId>::empty() {
                assert(waits_of(after.waits_for, t) =~= Set::empty());
            }
        }
        vstd::set_lib::lemma_len_subset(
            after.other_waiters(requester),
            m.other_waiters(requester).remove(victim),
        );
    }
}

impl TxnModel {
    /// Asking for a table lock keeps every known transaction known.
    pub proof fn table_acquired_keeps_known(
        self,
        txn: TransactionId,
        table: Seq<char>,
        mode: TableLockMode,
    )
        ensures
            self.txns.dom().subset_of(self.table_acquired(txn, table, mode).0.txns.dom()),
            self.table_acquired(txn, table, mode).1 is Ok ==> self.is_active(txn),
        decreases self.other_waiters(txn).len(),
    {
        match self.table_blockers(txn, table, mode, 0, Set::empty()) {
            Err(_) => {},
            Ok(blockers) => {
                let queue = queue_of(self.table_wait_queues, table);
                let free = blockers == Set::<TransactionId>::empty();
                let blockers = if free {
                    Set::empty().insert(queue[0])
                } else {
                    blockers
                };
                let waiting = TxnModel {
                    table_wait_queues: enqueued(self.table_wait_queues, table, txn),
                    ..self
                }.with_table_waits(txn, blockers);
                match first_deadlocked(waiting.waits_for, sorted::<TransactionId>(blockers), txn) {
                    None => {},
                    Some(blocker) => {
                        let victim = waiting.deadlock_victim(txn, blocker);
                        let deadlock = deadlock_error(
                            if free {
                                WaitReason::TableQueue
                            } else {
                                WaitReason::TableLock
                            },
                            table,
                            victim,
                        );
                        let after = waiting.sacrificed(victim, deadlock);
                        if after.other_waiters(txn).len() < self.other_waiters(txn).len() {
                            after.table_acquired_keeps_known(txn, table, mode);
                        }
                    },
                }
            },
        }
    }
}

/// Transaction numbers are never used twice: a transaction that begins with the next number
/// is new, and the next number moves past it. Its snapshot does not show the transactions
/// that were active before it.
pub proof fn law_begin_is_fresh(m: TxnModel, isolation_level: IsolationLevel)
    requires
        numbers_used(m),
        1 <= m.next_txn_id < u64::MAX,
    ensures
        ({
            let id = TransactionId(m.next_txn_id);
            let after = TxnModel { next_txn_id: (id.0 + 1) as u64, ..m }.begun(
                id,
                isolation_level,
            );
            &&& !m.txns.dom().contains(id)
            &&& numbers_used(after)
            &&& after.is_active(id)
            &&& after.txns[id].snapshot.active_txns == m.active_set()
            &&& !after.txns[id].snapshot.active_txns.contains(id)
            &&& forall|t: TransactionId| #[trigger]
                m.txns.dom().contains(t) ==> after.txns[t] == m.txns[t]
        }),
{
}

/// Once a transaction has given back what it holds, it holds no lock and no page, stands in
/// no queue and waits for nobody, and no known transaction waits for it.
pub proof fn law_release_frees_everything(m: TxnModel, txn: TransactionId)
    requires
        m.waits_in_step(),
        m.waiters_known(),
    ensures
        ({
            let after = m.released(txn);
            &&& forall|i: int|
                0 <= i < after.table_locks.len() ==> (#[trigger] after.table_locks[i]).txn_id
                    != txn
            &&& forall|i: int|
                0 <= i < after.predicate_locks.len() ==> (
                #[trigger] after.predicate_locks[i]).txn_id != txn
            &&& forall|p: PageId| #[trigger]
                after.page_write_owners.dom().contains(p) ==> after.page_write_owners[p] != txn
            &&& forall|p: PageId| #[trigger]
                after.page_write_wait_queues.dom().contains(p)
                    ==> !after.page_write_wait_queues[p].contains(txn)
            &&& forall|t: Seq<char>| #[trigger]
                after.table_wait_queues.dom().contains(t)
                    ==> !after.table_wait_queues[t].contains(txn)
            &&& forall|k: WriteKeyView| #[trigger]
                after.predicate_write_wait_queues.dom().contains(k)
                    ==> !after.predicate_write_wait_queues[k].contains(txn)
            &&& waits_of(after.waits_for, txn) == Set::<TransactionId>::empty()
            &&& forall|t: TransactionId|
                after.txns.dom().contains(t) ==> !(#[trigger] waits_of(
                    after.waits_for,
                    t,
                )).contains(txn)
        }),
{
    lemma_released(m, txn);
    let after = m.released(txn);
    let keep_table = |l: TableLockView| l.txn_id != txn;
    let keep_predicate = |l: PredicateLockView| l.txn_id != txn;
    assert forall|i: int| 0 <= i < after.table_locks.len() implies (
    #[trigger] after.table_locks[i]).txn_id != txn by {
        m.table_locks.lemma_filter_pred(keep_table, i);
    }
    assert forall|i: int| 0 <= i < after.predicate_locks.len() implies (
    #[trigger] after.predicate_locks[i]).txn_id != txn by {
        m.predicate_locks.lemma_filter_pred(keep_predicate, i);
    }
    assert forall|q: Seq<TransactionId>| !(#[trigger] queue_without(q, txn)).contains(txn) by {
        let keep = |t: TransactionId| t != txn;
        if queue_without(q, txn).contains(txn) {
            let i = queue_without(q, txn).index_of(txn);
            q.lemma_filter_pred(keep, i);
        }
    }
    assert forall|t: TransactionId| after.txns.dom().contains(t) implies !(#[trigger] waits_of(
        after.waits_for,
        t,
    )).contains(txn) by {
        if t != txn {
            assert(waits_of(after.waits_for, t) == after.all_blockers(t));
        }
    }
}

/// Whether no two active transactions hold locks on one table that stand in each other's
/// way.
pub open spec fn table_locks_compatible(m: TxnModel) -> bool {
    forall|i: int, j: int|
        #![trigger m.table_locks[i], m.table_locks[j]]
        0 <= i < m.table_locks.len() && 0 <= j < m.table_locks.len() && m.table_locks[i].table
            == m.table_locks[j].table && m.table_locks[i].txn_id != m.table_locks[j].txn_id
            && m.is_active(m.table_locks[i].txn_id) && m.is_active(m.table_locks[j].txn_id)
            ==> !modes_conflict(m.table_locks[i].mode, m.table_locks[j].mode)
}

proof fn lemma_blockers_gather(
    m: TxnModel,
    txn: TransactionId,
    table: Seq<char>,
    mode: TableLockMode,
    from: int,
    found: Set<TransactionId>,
)
    requires
        0 <= from,
        m.table_blockers(txn, table, mode, from, found) is Ok,
    ensures
        found.subset_of(m.table_blockers(txn, table, mode, from, found)->Ok_0),
        forall|i: int|
            from <= i < m.table_locks.len() && (#[trigger] m.table_locks[i]).table == table
                && m.table_locks[i].txn_id != txn && m.is_active(m.table_locks[i].txn_id)
                && modes_conflict(m.table_locks[i].mode, mode) ==> m.table_blockers(
                txn,
                table,
                mode,
                from,
                found,
            )->Ok_0.contains(m.table_locks[i].txn_id),
    decreases m.table_locks.len() - from,
{
    if from < m.table_locks.len() {
        let lock = m.table_locks[from];
        if lock.txn_id == txn || lock.table != table {
            lemma_blockers_gather(m, txn, table, mode, from + 1, found);
        } else if m.txns[lock.txn_id].status == TxnStatus::Active && modes_conflict(
            lock.mode,
            mode,
        ) {
            lemma_blockers_gather(m, txn, table, mode, from + 1, found.insert(lock.txn_id));
        } else {
            lemma_blockers_gather(m, txn, table, mode, from + 1, found);
        }
    }
}

proof fn lemma_lock_held(
    m: TxnModel,
    txn: TransactionId,
    table: Seq<char>,
    mode: TableLockMode,
    from: int,
)
    requires
        0 <= from,
        table_locks_compatible(m),
        m.is_active(txn),
        forall|i: int|
            0 <= i < m.table_locks.len() && (#[trigger] m.table_locks[i]).table == table
                && m.table_locks[i].txn_id != txn && m.is_active(m.table_locks[i].txn_id)
                ==> !modes_conflict(m.table_locks[i].mode, mode),
    ensures
        table_locks_compatible(
            (TxnModel {
                table_locks: TxnModel::table_locked(m.table_locks, txn, table, mode, from),
                ..m
            }),
        ),
    decreases m.table_locks.len() - from,
{
    if from < m.table_locks.len() && !(m.table_locks[from].txn_id == txn
        && m.table_locks[from].table == table) {
        lemma_lock_held(m, txn, table, mode, from + 1);
    }
}

proof fn lemma_fewer_locks(m: TxnModel, after: TxnModel)
    requires
        table_locks_compatible(m),
        forall|t: TransactionId| #[trigger] after.is_active(t) ==> m.is_active(t),
        forall|i: int|
            0 <= i < after.table_locks.len() ==> m.table_locks.contains(
                #[trigger] after.table_locks[i],
            ),
    ensures
        table_locks_compatible(after),
{
    assert forall|i: int, j: int|
        #![trigger after.table_locks[i], after.table_locks[j]]
        0 <= i < after.table_locks.len() && 0 <= j < after.table_locks.len()
            && after.table_locks[i].table == after.table_locks[j].table
            && after.table_locks[i].txn_id != after.table_locks[j].txn_id && after.is_active(
            after.table_locks[i].txn_id,
        ) && after.is_active(after.table_locks[j].txn_id) implies !modes_conflict(
        after.table_locks[i].mode,
        after.table_locks[j].mode,
    ) by {
        let a = m.table_locks.index_of(after.table_locks[i]);
        let b = m.table_locks.index_of(after.table_locks[j]);
        assert(m.table_locks[a] == after.table_locks[i]);
        assert(m.table_locks[b] == after.table_locks[j]);
    }
}

/// Asking for table locks never lets two active transactions hold locks on one table that
/// stand in each other's way, however the request ends.
pub proof fn law_table_locks_stay_compatible(
    m: TxnModel,
    txn: TransactionId,
    table: Seq<char>,
    mode: TableLockMode,
)
    requires
        table_locks_compatible(m),
    ensures
        table_locks_compatible(m.table_acquired(txn, table, mode).0),
    decreases m.other_waiters(txn).len(),
{
    match m.table_blockers(txn, table, mode, 0, Set::empty()) {
        Err(_) => {},
        Ok(blockers) => {
            lemma_blockers_gather(m, txn, table, mode, 0, Set::empty());
            let queue = queue_of(m.table_wait_queues, table);
            let free = blockers == Set::<TransactionId>::empty();
            if m.activity_error(txn) is None {
                if free && (queue.len() == 0 || queue[0] == txn) {
                    lemma_lock_held(m, txn, table, mode, 0);
                    let held = TxnModel {
                        table_locks: TxnModel::table_locked(m.table_locks, txn, table, mode, 0),
                        ..m
                    };
                    let after = m.table_acquired(txn, table, mode).0;
                    assert forall|t: TransactionId| #[trigger] after.is_active(
                        t,
                    ) implies held.is_active(t) by {}
                    assert forall|i: int|
                        0 <= i < after.table_locks.len() implies held.table_locks.contains(
                        #[trigger] after.table_locks[i],
                    ) by {
                        assert(after.table_locks == held.table_locks);
                    }
                    lemma_fewer_locks(held, after);
                } else {
                    let blockers = if free {
                        Set::empty().insert(queue[0])
                    } else {
                        blockers
                    };
                    let waiting = TxnModel {
                        table_wait_queues: enqueued(m.table_wait_queues, table, txn),
                        ..m
                    }.with_table_waits(txn, blockers);
                    assert forall|i: int|
                        0 <= i < waiting.table_locks.len() implies m.table_locks.contains(
                        #[trigger] waiting.table_locks[i],
                    ) by {
                        assert(waiting.table_locks[i] == m.table_locks[i]);
                    }
                    assert forall|t: TransactionId| #[trigger] waiting.is_active(
                        t,
                    ) implies m.is_active(t) by {}
                    lemma_fewer_locks(m, waiting);
                    match first_deadlocked(
                        waiting.waits_for,
                        sorted::<TransactionId>(blockers),
                        txn,
                    ) {
                        None => {},
                        Some(blocker) => {
                            let victim = waiting.deadlock_victim(txn, blocker);
                            let deadlock = deadlock_error(
                                if free {
                                    WaitReason::TableQueue
                                } else {
                                    WaitReason::TableLock
                                },
                                table,
                                victim,
                            );
                            let after = waiting.sacrificed(victim, deadlock);
                            lemma_sacrificed_locks(waiting, victim, deadlock);
                            if after.other_waiters(txn).len() < m.other_waiters(txn).len() {
                                law_table_locks_stay_compatible(after, txn, table, mode);
                            }
                        },
                    }
                }
            }
        },
    }
}

proof fn lemma_sacrificed_locks(m: TxnModel, victim: TransactionId, error: ErrorView)
    requires
        table_locks_compatible(m),
    ensures
        table_locks_compatible(m.sacrificed(victim, error)),
{
    let after = m.sacrificed(victim, error);
    let keep = |l: TableLockView| l.txn_id != victim;
    assert forall|i: int| 0 <= i < after.table_locks.len() implies m.table_locks.contains(
        #[trigger] after.table_locks[i],
    ) by {
        m.table_locks.lemma_filter_contains_rev(keep, after.table_locks[i]);
    }
    let state = m.txns[victim];
    if m.txns.dom().contains(victim) {
        assert forall|t: TransactionId| #[trigger] after.is_active(t) implies m.is_active(t) by {}
        lemma_fewer_locks(m, after);
    } else {
        assert forall|i: int, j: int|
            #![trigger after.table_locks[i], after.table_locks[j]]
            0 <= i < after.table_locks.len() && 0 <= j < after.table_locks.len()
                && after.table_locks[i].table == after.table_locks[j].table
                && after.table_locks[i].txn_id != after.table_locks[j].txn_id && after.is_active(
                after.table_locks[i].txn_id,
            ) && after.is_active(after.table_locks[j].txn_id) implies !modes_conflict(
            after.table_locks[i].mode,
            after.table_locks[j].mode,
        ) by {
            m.table_locks.lemma_filter_pred(keep, i);
            m.table_locks.lemma_filter_pred(keep, j);
            let a = m.table_locks.index_of(after.table_locks[i]);
            let b = m.table_locks.index_of(after.table_locks[j]);
            assert(m.table_locks.contains(after.table_locks[i]));
            assert(m.table_locks.contains(after.table_locks[j]));
            assert(m.table_locks[a] == after.table_locks[i]);
            assert(m.table_locks[b] == after.table_locks[j]);
            assert(m.is_active(m.table_locks[a].txn_id));
            assert(m.is_active(m.table_locks[b].txn_id));
        }
    }
}

proof fn lemma_victim_exists(
    m: TxnModel,
    requester: TransactionId,
    path: Seq<TransactionId>,
) -> (v: TransactionId)
    ensures
        m.is_victim(requester, path.to_set().insert(requester), v),
    decreases path.len(),
{
    if path.len() == 0 {
        requester
    } else {
        let rest = path.drop_last();
        let v = lemma_victim_exists(m, requester, rest);
        let c = path.last();
        let members = path.to_set().insert(requester);
        let fewer = rest.to_set().insert(requester);
        assert forall|t: TransactionId| #[trigger] members.contains(t) implies fewer.contains(t)
            || t == c by {
            if path.contains(t) {
                let i = path.index_of(t);
                if i < rest.len() {
                    assert(rest[i] == t);
                }
            }
        }
        assert(members.contains(c)) by {
            assert(path[path.len() - 1] == c);
        }
        assert(members.contains(v)) by {
            if rest.contains(v) {
                let i = rest.index_of(v);
                assert(path[i] == v);
            }
        }
        if c != v && m.better_victim(requester, c, v) {
            assert forall|t: TransactionId| #[trigger]
                members.contains(t) && t != c implies m.better_victim(requester, c, t) by {
                if t != v {
                    assert(m.better_victim(requester, v, t));
                }
            }
            c
        } else {
            assert forall|t: TransactionId| #[trigger]
                members.contains(t) && t != v implies m.better_victim(requester, v, t) by {
                if fewer.contains(t) {
                    assert(m.better_victim(requester, v, t));
                }
            }
            v
        }
    }
}

/// Whether what is recorded of waits is finite, as everything that is stored is.
pub open spec fn waits_finite(m: TxnModel) -> bool {
    &&& m.waits_for.dom().finite()
    &&& forall|t: TransactionId| #[trigger] m.waits_for.dom().contains(t)
        ==> m.waits_for[t].finite()
    &&& m.txns.dom().finite()
    &&& forall|t: TransactionId| #[trigger] waits_of(m.table_wait_blockers, t).finite()
    &&& forall|t: TransactionId| #[trigger] waits_of(m.page_wait_blockers, t).finite()
    &&& forall|t: TransactionId| #[trigger] waits_of(m.predicate_wait_blockers, t).finite()
}

proof fn lemma_release_finite(m: TxnModel, victim: TransactionId, error: ErrorView)
    requires
        waits_finite(m),
        m.txns.dom().contains(victim),
    ensures
        waits_finite(m.sacrificed(victim, error)),
{
    let after = m.sacrificed(victim, error);
    assert(after.txns.dom() =~= m.txns.dom());
    assert(after.waits_for.dom().subset_of(m.waits_for.dom().union(m.txns.dom())));
    vstd::set_lib::lemma_len_subset(
        after.waits_for.dom(),
        m.waits_for.dom().union(m.txns.dom()),
    );
    assert forall|t: TransactionId| #[trigger] waits_of(after.table_wait_blockers, t).finite() by {
        assert(waits_of(m.table_wait_blockers, t).finite());
    }
    assert forall|t: TransactionId| #[trigger] waits_of(after.page_wait_blockers, t).finite() by {
        assert(waits_of(m.page_wait_blockers, t).finite());
    }
    assert forall|t: TransactionId| #[trigger]
        waits_of(after.predicate_wait_blockers, t).finite() by {
        assert(waits_of(m.predicate_wait_blockers, t).finite());
    }
    assert forall|t: TransactionId| #[trigger]
        after.waits_for.dom().contains(t) implies after.waits_for[t].finite() by {
        if m.txns.dom().contains(t) && t != victim {
            assert(waits_of(after.table_wait_blockers, t).finite());
            assert(waits_of(after.page_wait_blockers, t).finite());
            assert(waits_of(after.predicate_wait_blockers, t).finite());
        } else {
            assert(m.waits_for.dom().contains(t));
        }
    }
}

/// Whoever is granted a page owns it. Whoever is told to wait for it is in its queue, and is
/// not waited for, directly or through others, by whom it waits for: no request leaves a
/// deadlock behind.
pub proof fn law_page_requests_leave_no_deadlock(m: TxnModel, txn: TransactionId, page: PageId)
    requires
        m.waits_in_step(),
        m.waiters_known(),
        waits_finite(m),
        m.is_active(txn),
    ensures
        ({
            let (after, outcome) = m.page_acquired(txn, page);
            match outcome {
                Ok(_) => after.page_write_owners.dom().contains(page)
                    && after.page_write_owners[page] == txn,
                Err(e) => is_deadlock(e.code) && !after.is_active(txn) || !after.txns.dom().contains(
                    after.page_write_owners[page],
                ) || queue_of(after.page_write_wait_queues, page).contains(txn) && forall|
                    t: TransactionId,
                | #[trigger]
                    waits_of(after.page_wait_blockers, txn).contains(t) ==> !waits_through(
                        after.waits_for,
                        t,
                        txn,
                    ),
            }
        }),
    decreases m.other_waiters(txn).len(),
{
    let owned = m.page_write_owners.dom().contains(page);
    let queue = queue_of(m.page_write_wait_queues, page);
    if !(owned && m.page_write_owners[page] == txn) && !(owned && !m.txns.dom().contains(
        m.page_write_owners[page],
    )) && !(!owned && (queue.len() == 0 || queue[0] == txn)) {
        let blocker = if owned {
            m.page_write_owners[page]
        } else {
            queue[0]
        };
        let waiting = TxnModel {
            page_write_wait_queues: enqueued(m.page_write_wait_queues, page, txn),
            ..m
        }.with_page_waits(txn, Set::empty().insert(blocker));
        lemma_waits_changed(m, waiting, txn);
        assert(waits_finite(waiting)) by {
            assert forall|t: TransactionId| #[trigger]
                waits_of(waiting.page_wait_blockers, t).finite() by {
                if t != txn {
                    assert(waits_of(m.page_wait_blockers, t).finite());
                }
            }
            assert(waits_of(m.table_wait_blockers, txn).finite());
            assert(waits_of(m.predicate_wait_blockers, txn).finite());
        }
        assert forall|t: TransactionId| #[trigger]
            waiting.waits_for.dom().contains(t) implies sorted_ok(waiting.waits_for[t]) by {
            lemma_sorted_exists::<TransactionId>(waiting.waits_for[t]);
        }
        law_wait_chain_finds_waits(waiting.waits_for, blocker, txn);
        if wait_chain(waiting.waits_for, blocker, txn) is None {
            let q = queue_of(m.page_write_wait_queues, page);
            if !q.contains(txn) {
                assert(q.push(txn)[q.len() as int] == txn);
            }
            assert(queue_of(waiting.page_write_wait_queues, page).contains(txn));
        } else {
            let path = wait_chain(waiting.waits_for, blocker, txn)->Some_0;
            let v = lemma_victim_exists(waiting, txn, path);
            let victim = waiting.deadlock_victim(txn, blocker);
            lemma_victim_unique(waiting, txn, path.to_set().insert(txn), v, victim);
            let deadlock = deadlock_error(
                WaitReason::Page { txn: txn.0, other: blocker.0, page: page.0 },
                Seq::empty(),
                victim,
            );
            lemma_sacrifice_progress(waiting, txn, blocker, victim, deadlock);
            lemma_release_finite(waiting, victim, deadlock);
            let after = waiting.sacrificed(victim, deadlock);
            if victim != txn {
                law_page_requests_leave_no_deadlock(after, txn, page);
            }
        }
    }
}

proof fn lemma_predicate_blockers_gather(
    m: TxnModel,
    txn: TransactionId,
    table: Seq<char>,
    keys: Seq<IndexKeyView>,
    from: int,
    found: Set<TransactionId>,
)
    requires
        0 <= from,
        m.predicate_blockers(txn, table, keys, from, found) is Ok,
    ensures
        found.subset_of(m.predicate_blockers(txn, table, keys, from, found)->Ok_0),
        forall|i: int|
            from <= i < m.predicate_locks.len() && (#[trigger] m.predicate_locks[i]).table == table
                && m.predicate_locks[i].txn_id != txn && m.is_active(m.predicate_locks[i].txn_id)
                && lock_conflicts(m.predicate_locks[i], keys) ==> m.predicate_blockers(
                txn,
                table,
                keys,
                from,
                found,
            )->Ok_0.contains(m.predicate_locks[i].txn_id),
    decreases m.predicate_locks.len() - from,
{
    if from < m.predicate_locks.len() {
        let lock = m.predicate_locks[from];
        if lock.txn_id == txn || lock.table != table {
            lemma_predicate_blockers_gather(m, txn, table, keys, from + 1, found);
        } else if m.txns[lock.txn_id].status == TxnStatus::Active && lock_conflicts(lock, keys) {
            lemma_predicate_blockers_gather(
                m,
                txn,
                table,
                keys,
                from + 1,
                found.insert(lock.txn_id),
            );
        } else {
            lemma_predicate_blockers_gather(m, txn, table, keys, from + 1, found);
        }
    }
}

/// A write that is let through touches no key that another active transaction has locked in
/// the table.
pub proof fn law_checked_writes_respect_predicate_locks(
    m: TxnModel,
    txn: TransactionId,
    table: Seq<char>,
    keys: Seq<IndexKeyView>,
    i: int,
)
    requires
        m.write_checked(txn, table, keys).1 is Ok,
        0 <= i < m.write_checked(txn, table, keys).0.predicate_locks.len(),
    ensures
        ({
            let after = m.write_checked(txn, table, keys).0;
            let lock = after.predicate_locks[i];
            lock.table == table && lock.txn_id != txn && after.is_active(lock.txn_id)
                ==> !lock_conflicts(lock, keys)
        }),
    decreases m.other_waiters(txn).len(),
{
    match m.predicate_blockers(txn, table, keys, 0, Set::empty()) {
        Err(_) => {},
        Ok(blockers) => {
            lemma_predicate_blockers_gather(m, txn, table, keys, 0, Set::empty());
            let key = write_key(table, keys);
            let queue = queue_of(m.predicate_write_wait_queues, key);
            let free = blockers == Set::<TransactionId>::empty();
            if !(free && (queue.len() == 0 || queue[0] == txn)) {
                let blockers = if free {
                    Set::empty().insert(queue[0])
                } else {
                    blockers
                };
                let waiting = TxnModel {
                    predicate_write_wait_queues: enqueued(
                        m.predicate_write_wait_queues,
                        key,
                        txn,
                    ),
                    ..m
                }.with_predicate_waits(txn, blockers);
                match first_deadlocked(waiting.waits_for, sorted::<TransactionId>(blockers), txn) {
                    None => {},
                    Some(blocker) => {
                        let victim = waiting.deadlock_victim(txn, blocker);
                        let deadlock = deadlock_error(
                            if free {
                                WaitReason::PredicateQueue
                            } else {
                                WaitReason::PredicateLock
                            },
                            table,
                            victim,
                        );
                        let after = waiting.sacrificed(victim, deadlock);
                        if after.other_waiters(txn).len() < m.other_waiters(txn).len() {
                            law_checked_writes_respect_predicate_locks(after, txn, table, keys, i);
                        }
                    },
                }
            }
        },
    }
}

/// Whether nobody stands in a queue twice.
pub open spec fn fair_queue(queue: Seq<TransactionId>) -> bool {
    forall|i: int, j: int|
        #![trigger queue[i], queue[j]]
        0 <= i < j < queue.len() ==> queue[i] != queue[j]
}

/// Queues are first come, first served: who joins a queue goes behind those who stand in it,
/// nobody stands in it twice, and who stands in it already keeps the place.
pub proof fn law_queues_are_fair<K>(
    queues: Map<K, Seq<TransactionId>>,
    key: K,
    txn: TransactionId,
)
    requires
        fair_queue(queue_of(queues, key)),
    ensures
        fair_queue(queue_of(enqueued(queues, key, txn), key)),
        queue_of(queues, key).is_prefix_of(queue_of(enqueued(queues, key, txn), key)),
        queue_of(enqueued(queues, key, txn), key).contains(txn),
        fair_queue(queue_of(dequeued(queues, key, txn), key)),
{
    let queue = queue_of(queues, key);
    if !queue.contains(txn) {
        let after = queue.push(txn);
        assert(after[queue.len() as int] == txn);
        assert forall|i: int, j: int|
            #![trigger after[i], after[j]]
            0 <= i < j < after.len() implies after[i] != after[j] by {
            if j == queue.len() {
                assert(queue.contains(queue[i]));
            } else {
                assert(queue[i] != queue[j]);
            }
        }
    }
    if queue.len() > 0 && queue[0] == txn {
        let rest = queue.drop_first();
        assert forall|i: int, j: int|
            #![trigger rest[i], rest[j]]
            0 <= i < j < rest.len() implies rest[i] != rest[j] by {
            assert(queue[i + 1] != queue[j + 1]);
        }
    }
}

} // verus!
