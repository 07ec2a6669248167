//! When locks are granted.

use vstd::prelude::*;

use crate::common::error::{about_both, ErrorCode, ErrorView};
use crate::common::ordset::{lemma_sorted_exists, sorted};
use crate::common::value::TransactionId;
use crate::v2::locks::{
    lock_conflicts, modes_conflict, range_covers, write_key, IndexKeyView, LockKindView,
    PredicateLockView, TableLockMode, TableLockView,
};
use crate::v2::txn_laws::waits_finite;
use crate::v2::txn_model::{enqueued, first_deadlocked, id_list, queue_of, TxnModel};
use crate::v2::wait_graph::{
    is_wait_path, law_wait_chain_finds_waits, sorted_ok, wait_chain, waits_of, WaitGraph,
};

verus! {

/// Whether a lock of another active transaction stands in the way of one on a table.
pub open spec fn stands_in_the_way(
    m: TxnModel,
    lock: TableLockView,
    txn: TransactionId,
    table: Seq<char>,
    mode: TableLockMode,
) -> bool {
    &&& lock.table == table
    &&& lock.txn_id != txn
    &&& m.is_active(lock.txn_id)
    &&& modes_conflict(lock.mode, mode)
}

/// Whether the transactions that hold locks are known.
pub open spec fn holders_known(m: TxnModel) -> bool {
    &&& forall|i: int|
        0 <= i < m.table_locks.len() ==> m.txns.dom().contains((#[trigger] m.table_locks[i]).txn_id)
    &&& forall|i: int|
        0 <= i < m.predicate_locks.len() ==> m.txns.dom().contains(
            (#[trigger] m.predicate_locks[i]).txn_id,
        )
}

/// Whether no transaction waits for anything.
pub open spec fn nobody_waits(m: TxnModel) -> bool {
    forall|t: TransactionId| #[trigger]
        m.all_blockers(t) == Set::<TransactionId>::empty() && waits_of(m.waits_for, t) == Set::<
            TransactionId,
        >::empty()
}

proof fn lemma_table_blockers(
    m: TxnModel,
    txn: TransactionId,
    table: Seq<char>,
    mode: TableLockMode,
    from: int,
    found: Set<TransactionId>,
)
    requires
        0 <= from <= m.table_locks.len(),
        holders_known(m),
        found.finite(),
    ensures
        m.table_blockers(txn, table, mode, from, found) matches Ok(s) && s.finite()
            && found.subset_of(s) && (forall|i: int|
            from <= i < m.table_locks.len() && stands_in_the_way(
                m,
                #[trigger] m.table_locks[i],
                txn,
                table,
                mode,
            ) ==> s.contains(m.table_locks[i].txn_id)) && (forall|t: TransactionId| #[trigger]
            s.contains(t) && !found.contains(t) ==> m.is_active(t) && t != txn && exists|i: int|
                from <= i < m.table_locks.len() && stands_in_the_way(
                    m,
                    #[trigger] m.table_locks[i],
                    txn,
                    table,
                    mode,
                ) && m.table_locks[i].txn_id == t),
    decreases m.table_locks.len() - from,
{
    if from < m.table_locks.len() {
        let lock = m.table_locks[from];
        let next = if stands_in_the_way(m, lock, txn, table, mode) {
            found.insert(lock.txn_id)
        } else {
            found
        };
        lemma_table_blockers(m, txn, table, mode, from + 1, next);
        assert(m.table_blockers(txn, table, mode, from, found) == m.table_blockers(
            txn,
            table,
            mode,
            from + 1,
            next,
        ));
    }
}

/// Where nobody waits, a transaction that asks for something waits alone, and there is no
/// deadlock.
proof fn lemma_no_deadlock(
    m: TxnModel,
    graph: WaitGraph,
    txn: TransactionId,
    blockers: Set<TransactionId>,
)
    requires
        nobody_waits(m),
        waits_finite(m),
        blockers.finite(),
        !blockers.contains(txn),
        graph == m.waits_for.insert(txn, blockers),
    ensures
        first_deadlocked(graph, sorted::<TransactionId>(blockers), txn) is None,
{
    lemma_sorted_exists::<TransactionId>(blockers);
    assert forall|t: TransactionId| #[trigger] graph.dom().contains(t) implies sorted_ok(
        graph[t],
    ) by {
        if t == txn {
            lemma_sorted_exists::<TransactionId>(blockers);
        } else {
            assert(m.waits_for.dom().contains(t));
            lemma_sorted_exists::<TransactionId>(m.waits_for[t]);
        }
    }
    let list = sorted::<TransactionId>(blockers);
    assert forall|i: int| 0 <= i < list.len() implies wait_chain(graph, #[trigger] list[i], txn) is None by {
        assert(list.to_set().contains(list[i]));
        law_wait_chain_finds_waits(graph, list[i], txn);
        assert(m.all_blockers(list[i]) == Set::<TransactionId>::empty());
        if wait_chain(graph, list[i], txn) is Some {
            let path = wait_chain(graph, list[i], txn)->Some_0;
            assert(is_wait_path(graph, path, list[i], txn));
            assert(waits_of(graph, path[0]).contains(path[1]));
        }
    }
    lemma_none_deadlocked(graph, list, txn);
}

proof fn lemma_none_deadlocked(graph: WaitGraph, list: Seq<TransactionId>, txn: TransactionId)
    requires
        forall|i: int| 0 <= i < list.len() ==> wait_chain(graph, #[trigger] list[i], txn) is None,
    ensures
        first_deadlocked(graph, list, txn) is None,
    decreases list.len(),
{
    if list.len() > 0 {
        assert(wait_chain(graph, list[0], txn) is None);
        let rest = list.drop_first();
        assert forall|i: int| 0 <= i < rest.len() implies wait_chain(graph, #[trigger] rest[i], txn) is None by {
            assert(rest[i] == list[i + 1]);
        }
        lemma_none_deadlocked(graph, rest, txn);
    }
}

/// Where nobody waits for anything, a lock on a table is granted if and only if no other active
/// transaction holds one that stands in its way; otherwise the transaction is told whom it
/// waits for.
pub proof fn law_table_locks_are_granted_exactly(
    m: TxnModel,
    txn: TransactionId,
    table: Seq<char>,
    mode: TableLockMode,
)
    requires
        m.is_active(txn),
        holders_known(m),
        nobody_waits(m),
        waits_finite(m),
        queue_of(m.table_wait_queues, table).len() == 0,
    ensures
        m.table_acquired(txn, table, mode).1 is Ok <==> forall|i: int|
            0 <= i < m.table_locks.len() ==> !stands_in_the_way(
                m,
                #[trigger] m.table_locks[i],
                txn,
                table,
                mode,
            ),
        m.table_acquired(txn, table, mode).1 matches Err(e) ==> exists|who: Set<TransactionId>|
            e == about_both(
                ErrorCode::TableLockConflict,
                table,
                id_list(#[trigger] sorted::<TransactionId>(who)),
            ) && forall|t: TransactionId| #[trigger]
                who.contains(t) <==> exists|i: int|
                    0 <= i < m.table_locks.len() && stands_in_the_way(
                        m,
                        #[trigger] m.table_locks[i],
                        txn,
                        table,
                        mode,
                    ) && m.table_locks[i].txn_id == t,
{
    lemma_table_blockers(m, txn, table, mode, 0, Set::empty());
    let blockers = m.table_blockers(txn, table, mode, 0, Set::empty())->Ok_0;
    if blockers == Set::<TransactionId>::empty() {
        assert forall|i: int| 0 <= i < m.table_locks.len() implies !stands_in_the_way(
            m,
            #[trigger] m.table_locks[i],
            txn,
            table,
            mode,
        ) by {
            if stands_in_the_way(m, m.table_locks[i], txn, table, mode) {
                assert(blockers.contains(m.table_locks[i].txn_id));
            }
        }
    } else {
        assert(exists|t: TransactionId| #[trigger] blockers.contains(t)) by {
            if forall|t: TransactionId| !#[trigger] blockers.contains(t) {
                assert(blockers =~= Set::empty());
            }
        }
        let waiting = TxnModel {
            table_wait_queues: enqueued(m.table_wait_queues, table, txn),
            ..m
        }.with_table_waits(txn, blockers);
        assert(waiting.all_blockers(txn) =~= blockers) by {
            assert(m.all_blockers(txn) == Set::<TransactionId>::empty());
            assert(waits_of(m.page_wait_blockers, txn).subset_of(m.all_blockers(txn)));
            assert(waits_of(m.predicate_wait_blockers, txn).subset_of(m.all_blockers(txn)));
        }
        lemma_no_deadlock(m, waiting.waits_for, txn, blockers);
        assert forall|t: TransactionId| #[trigger] blockers.contains(t) <==> exists|i: int|
            0 <= i < m.table_locks.len() && stands_in_the_way(
                m,
                #[trigger] m.table_locks[i],
                txn,
                table,
                mode,
            ) && m.table_locks[i].txn_id == t by {}
        assert(sorted::<TransactionId>(blockers) == sorted::<TransactionId>(blockers));
    }
}

/// Where nobody waits for anything, an announcement of writing to a table is granted if and only
/// if no other active transaction has the table alone. Once it is granted, no other active
/// transaction gets the table alone.
pub proof fn law_intention_writes_are_granted_exactly(
    m: TxnModel,
    txn: TransactionId,
    table: Seq<char>,
    other: TransactionId,
)
    requires
        m.is_active(txn),
        m.is_active(other),
        other != txn,
        holders_known(m),
        nobody_waits(m),
        waits_finite(m),
        queue_of(m.table_wait_queues, table).len() == 0,
    ensures
        m.table_acquired(txn, table, TableLockMode::IntentionWrite).1 is Ok <==> forall|i: int|
            0 <= i < m.table_locks.len() && (#[trigger] m.table_locks[i]).table == table
                && m.table_locks[i].txn_id != txn && m.is_active(m.table_locks[i].txn_id)
                ==> m.table_locks[i].mode != TableLockMode::Exclusive,
        m.table_acquired(txn, table, TableLockMode::IntentionWrite).1 is Ok ==> m.table_acquired(
            txn,
            table,
            TableLockMode::IntentionWrite,
        ).0.table_acquired(other, table, TableLockMode::Exclusive).1 is Err,
{
    let mode = TableLockMode::IntentionWrite;
    law_table_locks_are_granted_exactly(m, txn, table, mode);
    lemma_table_blockers(m, txn, table, mode, 0, Set::empty());
    let (after, r) = m.table_acquired(txn, table, mode);
    assert((forall|i: int|
        0 <= i < m.table_locks.len() ==> !stands_in_the_way(
            m,
            #[trigger] m.table_locks[i],
            txn,
            table,
            mode,
        )) <==> (forall|i: int|
        0 <= i < m.table_locks.len() && (#[trigger] m.table_locks[i]).table == table
            && m.table_locks[i].txn_id != txn && m.is_active(m.table_locks[i].txn_id)
            ==> m.table_locks[i].mode != TableLockMode::Exclusive));
    if r is Ok {
        let blockers = m.table_blockers(txn, table, mode, 0, Set::empty())->Ok_0;
        assert forall|t: TransactionId| !#[trigger] blockers.contains(t) by {
            if blockers.contains(t) {
                let i = choose|i: int|
                    0 <= i < m.table_locks.len() && stands_in_the_way(
                        m,
                        #[trigger] m.table_locks[i],
                        txn,
                        table,
                        mode,
                    ) && m.table_locks[i].txn_id == t;
                assert(!stands_in_the_way(m, m.table_locks[i], txn, table, mode));
            }
        }
        assert(blockers =~= Set::empty());
        assert(after.txns == m.txns);
        let at = lemma_lock_taken(m.table_locks, txn, table, mode, 0);
        assert forall|t: TransactionId| #[trigger]
            after.all_blockers(t) == Set::<TransactionId>::empty() && waits_of(after.waits_for, t)
                == Set::<TransactionId>::empty() by {
            assert(m.all_blockers(t) == Set::<TransactionId>::empty());
            assert(waits_of(m.table_wait_blockers, t).subset_of(m.all_blockers(t)));
            assert(waits_of(m.page_wait_blockers, t).subset_of(m.all_blockers(t)));
            assert(waits_of(m.predicate_wait_blockers, t).subset_of(m.all_blockers(t)));
            assert(after.all_blockers(t) =~= Set::empty());
            assert(waits_of(after.waits_for, t) =~= Set::empty());
        }
        assert(waits_finite(after)) by {
            assert forall|t: TransactionId| #[trigger]
                waits_of(after.table_wait_blockers, t).finite() by {
                assert(waits_of(m.table_wait_blockers, t).finite());
            }
            assert(waits_of(m.page_wait_blockers, txn).finite());
            assert(waits_of(m.predicate_wait_blockers, txn).finite());
        }
        assert(queue_of(after.table_wait_queues, table).len() == 0);
        assert(holders_known(after)) by {
            lemma_lock_holders(m, txn, table, mode, 0);
        }
        law_table_locks_are_granted_exactly(after, other, table, TableLockMode::Exclusive);
        assert(stands_in_the_way(
            after,
            after.table_locks[at],
            other,
            table,
            TableLockMode::Exclusive,
        ));
    }
}

proof fn lemma_lock_taken(
    locks: Seq<TableLockView>,
    txn: TransactionId,
    table: Seq<char>,
    mode: TableLockMode,
    from: int,
) -> (at: int)
    requires
        0 <= from <= locks.len(),
    ensures
        ({
            let after = TxnModel::table_locked(locks, txn, table, mode, from);
            0 <= at < after.len() && after[at].txn_id == txn && after[at].table == table
        }),
    decreases locks.len() - from,
{
    if from < locks.len() && !(locks[from].txn_id == txn && locks[from].table == table) {
        lemma_lock_taken(locks, txn, table, mode, from + 1)
    } else {
        from
    }
}

proof fn lemma_lock_holders(
    m: TxnModel,
    txn: TransactionId,
    table: Seq<char>,
    mode: TableLockMode,
    from: int,
)
    requires
        0 <= from <= m.table_locks.len(),
        m.txns.dom().contains(txn),
        holders_known(m),
    ensures
        forall|i: int|
            0 <= i < TxnModel::table_locked(m.table_locks, txn, table, mode, from).len()
                ==> m.txns.dom().contains(
                (#[trigger] TxnModel::table_locked(
                    m.table_locks,
                    txn,
                    table,
                    mode,
                    from,
                )[i]).txn_id,
            ),
    decreases m.table_locks.len() - from,
{
    let locks = m.table_locks;
    if from < locks.len() && !(locks[from].txn_id == txn && locks[from].table == table) {
        lemma_lock_holders(m, txn, table, mode, from + 1);
    } else {
        let after = TxnModel::table_locked(locks, txn, table, mode, from);
        assert forall|i: int| 0 <= i < after.len() implies m.txns.dom().contains(
            (#[trigger] after[i]).txn_id,
        ) by {
            if i < locks.len() {
                assert(m.txns.dom().contains(locks[i].txn_id));
            }
        }
    }
}

/// Where one predicate lock of another active transaction is all that there is, and nobody waits
/// for anything, a write to its table is held off if and only if it goes against the lock.
pub proof fn law_one_lock_holds_off_exactly(
    m: TxnModel,
    txn: TransactionId,
    lock: PredicateLockView,
    keys: Seq<IndexKeyView>,
)
    requires
        m.predicate_locks == seq![lock],
        m.is_active(txn),
        m.is_active(lock.txn_id),
        lock.txn_id != txn,
        nobody_waits(m),
        waits_finite(m),
        queue_of(m.predicate_write_wait_queues, write_key(lock.table, keys)).len() == 0,
    ensures
        m.write_checked(txn, lock.table, keys).1 is Err <==> lock_conflicts(lock, keys),
{
    reveal_with_fuel(TxnModel::predicate_blockers, 3);
    assert(m.predicate_locks[0] == lock);
    if lock_conflicts(lock, keys) {
        let blockers = Set::<TransactionId>::empty().insert(lock.txn_id);
        assert(m.predicate_blockers(txn, lock.table, keys, 0, Set::empty()) == Ok::<_, ErrorView>(
            blockers,
        ));
        assert(blockers.contains(lock.txn_id));
        let waiting = TxnModel {
            predicate_write_wait_queues: enqueued(
                m.predicate_write_wait_queues,
                write_key(lock.table, keys),
                txn,
            ),
            ..m
        }.with_predicate_waits(txn, blockers);
        assert(waiting.all_blockers(txn) =~= blockers) by {
            assert(m.all_blockers(txn) == Set::<TransactionId>::empty());
            assert(waits_of(m.page_wait_blockers, txn).subset_of(m.all_blockers(txn)));
            assert(waits_of(m.table_wait_blockers, txn).subset_of(m.all_blockers(txn)));
        }
        lemma_no_deadlock(m, waiting.waits_for, txn, blockers);
    }
}

/// A single gap lock holds off a write of another transaction if and only if a key of the row
/// lies in the gap: it is one of the index, starts with the prefix, and has its next value
/// inside the bounds.
pub proof fn law_gap_locks_hold_off_exactly(
    m: TxnModel,
    txn: TransactionId,
    lock: PredicateLockView,
    keys: Seq<IndexKeyView>,
)
    requires
        m.predicate_locks == seq![lock],
        lock.kind is Gap,
        m.is_active(txn),
        m.is_active(lock.txn_id),
        lock.txn_id != txn,
        nobody_waits(m),
        waits_finite(m),
        queue_of(m.predicate_write_wait_queues, write_key(lock.table, keys)).len() == 0,
    ensures
        lock.kind matches LockKindView::Gap { prefix, lower, upper } && (m.write_checked(
            txn,
            lock.table,
            keys,
        ).1 is Err <==> exists|i: int|
            0 <= i < keys.len() && lock.index == Some((#[trigger] keys[i]).index) && range_covers(
                prefix,
                lower,
                upper,
                keys[i].key,
            )),
{
    law_one_lock_holds_off_exactly(m, txn, lock, keys);
}

} // verus!
