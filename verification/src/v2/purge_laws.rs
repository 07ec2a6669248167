//! What purging leaves to be purged.

use vstd::prelude::*;

use crate::common::ordmap::{ascending, lemma_ascending_unique, OrdKey};
use crate::common::ordset::{lemma_is_sorted, lemma_sorted_exists, sorted};
use crate::common::value::TransactionId;
use crate::v2::tx_types::{TxnStatus, TxnView, UndoView};
use crate::v2::txn_manager::CommitOrder;
use crate::v2::txn_model::TxnModel;

verus! {

/// A smaller batch of records to purge is the start of a larger one.
pub proof fn law_smaller_batches_start_larger_ones(m: TxnModel, horizon: u64, less: nat, more: nat)
    requires
        less <= more,
    ensures
        m.purge_plan(horizon, less).is_prefix_of(m.purge_plan(horizon, more)),
        m.purge_plan(horizon, less).len() <= less,
        m.purge_plan(horizon, less).len() < less ==> m.purge_plan(horizon, less) == m.purge_plan(
            horizon,
            more,
        ),
{
}

/// All records that can be purged up to a horizon, in their order.
pub open spec fn all_to_purge(m: TxnModel, horizon: u64) -> Seq<(TransactionId, UndoView)> {
    m.purge_records_of(sorted::<CommitOrder>(m.purge_candidates(horizon)))
}

/// The records of a transaction, each with its number.
pub open spec fn records_of(m: TxnModel, txn: TransactionId) -> Seq<(TransactionId, UndoView)> {
    m.txns[txn].purge_records.map_values(|r: UndoView| (txn, r))
}

proof fn lemma_candidates(m: TxnModel, horizon: u64)
    requires
        m.txns.dom().finite(),
    ensures
        m.purge_candidates(horizon).finite(),
        ascending::<CommitOrder>(sorted::<CommitOrder>(m.purge_candidates(horizon))),
        sorted::<CommitOrder>(m.purge_candidates(horizon)).to_set() == m.purge_candidates(horizon),
{
    let f = |t: TransactionId|
        CommitOrder { commit_ts: m.txns[t].commit_ts->Some_0, txn_id: t };
    m.txns.dom().lemma_map_finite(f);
    assert forall|c: CommitOrder| #[trigger]
        m.purge_candidates(horizon).contains(c) implies m.txns.dom().map(f).contains(c) by {
        assert(m.txns.dom().contains(c.txn_id));
        assert(f(c.txn_id) == c);
    }
    vstd::set_lib::lemma_len_subset(m.purge_candidates(horizon), m.txns.dom().map(f));
    lemma_sorted_exists::<CommitOrder>(m.purge_candidates(horizon));
}

/// The records of transactions begin with those of the first.
proof fn lemma_first_records(m: TxnModel, order: Seq<CommitOrder>)
    requires
        order.len() > 0,
    ensures
        m.purge_records_of(order) == records_of(m, order[0].txn_id) + m.purge_records_of(
            order.drop_first(),
        ),
    decreases order.len(),
{
    let last = order.last().txn_id;
    if order.len() == 1 {
        assert(order.drop_last() =~= Seq::empty());
        assert(order.drop_first() =~= Seq::empty());
        assert(m.purge_records_of(Seq::empty()) == Seq::<(TransactionId, UndoView)>::empty());
        assert(m.purge_records_of(order) =~= records_of(m, order[0].txn_id));
    } else {
        lemma_first_records(m, order.drop_last());
        assert(order.drop_last().drop_first() =~= order.drop_first().drop_last());
        assert(order.drop_first().last() == order.last());
        assert(m.purge_records_of(order) =~= records_of(m, order[0].txn_id) + (m.purge_records_of(
            order.drop_first().drop_last(),
        ) + records_of(m, last)));
    }
}

proof fn lemma_same_records(a: TxnModel, b: TxnModel, order: Seq<CommitOrder>)
    requires
        forall|i: int|
            0 <= i < order.len() ==> b.txns[(#[trigger] order[i]).txn_id].purge_records
                == a.txns[order[i].txn_id].purge_records,
    ensures
        b.purge_records_of(order) == a.purge_records_of(order),
    decreases order.len(),
{
    if order.len() > 0 {
        assert forall|i: int| 0 <= i < order.drop_last().len() implies b.txns[(
        #[trigger] order.drop_last()[i]).txn_id].purge_records == a.txns[order.drop_last()[i].txn_id].purge_records by {
            assert(order.drop_last()[i] == order[i]);
        }
        lemma_same_records(a, b, order.drop_last());
        assert(order[order.len() - 1] == order.last());
    }
}

/// The manager once the first record of a transaction is struck off.
pub open spec fn struck(m: TxnModel, txn: TransactionId) -> TxnModel {
    m.with_txn(
        txn,
        TxnView { purge_records: m.txns[txn].purge_records.drop_first(), ..m.txns[txn] },
    )
}

/// Striking off the first record of all leaves the others.
proof fn lemma_first_struck(m: TxnModel, horizon: u64)
    requires
        m.txns.dom().finite(),
        all_to_purge(m, horizon).len() > 0,
    ensures
        ({
            let (txn, record) = all_to_purge(m, horizon)[0];
            &&& m.txns.dom().contains(txn)
            &&& m.txns[txn].status == TxnStatus::Committed
            &&& m.txns[txn].purge_records.len() > 0
            &&& m.txns[txn].purge_records[0] == record
            &&& all_to_purge(struck(m, txn), horizon) == all_to_purge(m, horizon).drop_first()
            &&& struck(m, txn).txns.dom() == m.txns.dom()
        }),
{
    lemma_candidates(m, horizon);
    let cands = m.purge_candidates(horizon);
    let order = sorted::<CommitOrder>(cands);
    if order.len() == 0 {
        assert(false);
    }
    let c = order[0];
    let txn = c.txn_id;
    assert(order.to_set().contains(c));
    lemma_first_records(m, order);
    let all = all_to_purge(m, horizon);
    assert(records_of(m, txn).len() > 0);
    assert(all[0] == records_of(m, txn)[0]);
    let after = struck(m, txn);
    assert(after.txns.dom() =~= m.txns.dom());
    lemma_candidates(after, horizon);
    lemma_ascending_unique::<CommitOrder>(order);
    let rest = order.drop_first();
    assert forall|i: int| 0 <= i < rest.len() implies (#[trigger] rest[i]).txn_id != txn && cands.contains(
        rest[i],
    ) by {
        assert(rest[i] == order[i + 1]);
        assert(order.to_set().contains(order[i + 1]));
        if rest[i].txn_id == txn {
            assert(rest[i] == c);
            assert(order.index_of(order[i + 1]) == i + 1);
        }
    }
    lemma_same_records(m, after, rest);
    assert(records_of(after, txn) =~= records_of(m, txn).drop_first());
    if m.txns[txn].purge_records.len() > 1 {
        assert(after.purge_candidates(horizon) =~= cands);
        lemma_first_records(after, order);
        assert(all_to_purge(after, horizon) =~= all.drop_first());
    } else {
        assert(ascending::<CommitOrder>(rest)) by {
            assert forall|i: int, j: int|
                #![trigger rest[i], rest[j]]
                0 <= i < j < rest.len() implies CommitOrder::before(
                rest[i],
                rest[j],
            ) by {
                assert(rest[i] == order[i + 1] && rest[j] == order[j + 1]);
            }
        }
        assert forall|x: CommitOrder| #[trigger] rest.to_set().contains(x)
            == after.purge_candidates(horizon).contains(x) by {
            if after.purge_candidates(horizon).contains(x) {
                assert(x.txn_id != txn);
                assert(cands.contains(x));
                assert(order.to_set().contains(x));
                let i = order.index_of(x);
                assert(order[i] == x);
                assert(rest[i - 1] == x);
            }
            if rest.to_set().contains(x) {
                let i = rest.index_of(x);
                assert(rest[i] == x);
            }
        }
        assert(rest.to_set() =~= after.purge_candidates(horizon));
        lemma_is_sorted::<CommitOrder>(rest, after.purge_candidates(horizon));
        assert(all_to_purge(after, horizon) =~= all.drop_first());
    }
}

proof fn lemma_history_alike(a: TxnModel, b: TxnModel, list: Seq<TransactionId>)
    requires
        forall|i: int|
            0 <= i < list.len() ==> b.txns[#[trigger] list[i]].status == a.txns[list[i]].status
                && b.txns[list[i]].purge_records.len() == a.txns[list[i]].purge_records.len(),
    ensures
        b.history_of(list) == a.history_of(list),
    decreases list.len(),
{
    if list.len() > 0 {
        assert forall|i: int| 0 <= i < list.drop_last().len() implies b.txns[
        #[trigger] list.drop_last()[i]].status == a.txns[list.drop_last()[i]].status
            && b.txns[list.drop_last()[i]].purge_records.len()
            == a.txns[list.drop_last()[i]].purge_records.len() by {
            assert(list.drop_last()[i] == list[i]);
        }
        lemma_history_alike(a, b, list.drop_last());
        assert(list[list.len() - 1] == list.last());
    }
}

/// Striking off one record makes the history one shorter.
proof fn lemma_history_struck(m: TxnModel, txn: TransactionId, list: Seq<TransactionId>)
    requires
        list.no_duplicates(),
        list.contains(txn),
        m.txns[txn].status == TxnStatus::Committed,
        m.txns[txn].purge_records.len() > 0,
    ensures
        struck(m, txn).history_of(list) + 1 == m.history_of(list),
    decreases list.len(),
{
    let after = struck(m, txn);
    if list.last() == txn {
        let rest = list.drop_last();
        assert forall|i: int| 0 <= i < rest.len() implies after.txns[#[trigger] rest[i]].status
            == m.txns[rest[i]].status && after.txns[rest[i]].purge_records.len()
            == m.txns[rest[i]].purge_records.len() by {
            assert(list[i] != list[list.len() - 1]);
        }
        lemma_history_alike(m, after, rest);
    } else {
        let i = list.index_of(txn);
        assert(list.drop_last()[i] == txn);
        lemma_history_struck(m, txn, list.drop_last());
    }
}

/// Completing a planned batch goes well. What is left to purge is the rest of the longer plan,
/// and the history is shorter by the batch.
pub proof fn law_completed_batches_leave_the_rest(m: TxnModel, horizon: u64, done: nat, more: nat)
    requires
        m.txns.dom().finite(),
    ensures
        ({
            let batch = m.purge_plan(horizon, done);
            let (after, r) = m.purge_completed(batch);
            &&& r is Ok
            &&& after.purge_plan(horizon, more) == m.purge_plan(horizon, done + more).skip(
                batch.len() as int,
            )
            &&& after.history_length() + batch.len() == m.history_length()
            &&& after.txns.dom() == m.txns.dom()
        }),
    decreases done,
{
    let all = all_to_purge(m, horizon);
    let batch = m.purge_plan(horizon, done);
    if done == 0 || all.len() == 0 {
        assert(batch =~= Seq::empty());
        assert(m.purge_plan(horizon, done + more).skip(0) =~= m.purge_plan(horizon, more));
    } else {
        lemma_first_struck(m, horizon);
        let (txn, record) = all[0];
        let next = struck(m, txn);
        let less = (done - 1) as nat;
        law_completed_batches_leave_the_rest(next, horizon, less, more);
        let rest = all_to_purge(next, horizon);
        assert(batch[0] == all[0]);
        assert(batch.drop_first() =~= next.purge_plan(horizon, less));
        assert(m.purge_plan(horizon, done + more).skip(batch.len() as int) =~= next.purge_plan(
            horizon,
            less + more,
        ).skip(next.purge_plan(horizon, less).len() as int));
        let list = sorted::<TransactionId>(m.txns.dom());
        lemma_sorted_exists::<TransactionId>(m.txns.dom());
        lemma_ascending_unique::<TransactionId>(list);
        assert(list.to_set().contains(txn));
        assert(list.no_duplicates());
        lemma_history_struck(m, txn, list);
    }
}

} // verus!
