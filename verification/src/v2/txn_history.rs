//! What holds of the transaction manager, and of the pager, over any number of steps.

use vstd::prelude::*;

use crate::common::value::{IsolationLevel, TransactionId};
use crate::v2::page::PageId;
use crate::v2::pager_model::PagerModel;
use crate::v2::tx_types::TxnStatus;
use crate::v2::txn_manager::{committed_at, larger, next_row_id, row_ids_joined};
use crate::v2::txn_model::{numbers_used, TxnModel};

verus! {

/// Whether one state of a list comes from the one before it by a step.
pub open spec fn step_at(states: Seq<TxnModel>, i: int) -> bool {
    states[i + 1].follows(states[i])
}

/// Whether states of the manager come one from another, each by a step.
pub open spec fn history(states: Seq<TxnModel>) -> bool {
    forall|i: int| 0 <= i < states.len() - 1 ==> #[trigger] step_at(states, i)
}

/// The number that the next transaction gets.
pub open spec fn number_to_give(m: TxnModel) -> u64 {
    if m.next_txn_id >= 1 {
        m.next_txn_id
    } else {
        1
    }
}

proof fn lemma_history(states: Seq<TxnModel>, i: int, j: int)
    requires
        history(states),
        0 <= i <= j < states.len(),
    ensures
        states[i].next_txn_id <= states[j].next_txn_id,
        states[i].next_commit_ts <= states[j].next_commit_ts,
        numbers_used(states[i]) ==> numbers_used(states[j]),
        forall|table: Seq<char>| #[trigger]
            states[i].next_row_ids.dom().contains(table) ==> states[j].next_row_ids.dom().contains(
                table,
            ) && states[i].next_row_ids[table] <= states[j].next_row_ids[table],
    decreases j - i,
{
    if i < j {
        lemma_history(states, i, j - 1);
        assert(step_at(states, j - 1));
        assert forall|table: Seq<char>| #[trigger]
            states[i].next_row_ids.dom().contains(table) implies states[j].next_row_ids.dom().contains(
            table,
        ) && states[i].next_row_ids[table] <= states[j].next_row_ids[table] by {
            assert(states[j - 1].next_row_ids.dom().contains(table));
        }
    }
}

/// The numbers that a manager gives to transactions grow, whatever happens between two calls:
/// each is new. All known numbers stay below the next one.
pub proof fn law_transaction_numbers_grow(
    states: Seq<TxnModel>,
    i: int,
    j: int,
    level: IsolationLevel,
)
    requires
        history(states),
        numbers_used(states[0]),
        0 <= i < j < states.len(),
        states[i].next_txn_id < u64::MAX,
        states[i + 1] == (TxnModel {
            next_txn_id: (number_to_give(states[i]) + 1) as u64,
            ..states[i]
        }).begun(TransactionId(number_to_give(states[i])), level),
    ensures
        1 <= number_to_give(states[i]) < number_to_give(states[j]),
        numbers_used(states[j]),
        !states[j].txns.dom().contains(TransactionId(number_to_give(states[j]))),
{
    lemma_history(states, 0, j);
    lemma_history(states, i + 1, j);
}

/// The timestamps of commits grow, whatever happens between two of them.
pub proof fn law_commit_stamps_grow(states: Seq<TxnModel>, i: int, j: int)
    requires
        history(states),
        0 <= i < j < states.len(),
        states[i].next_commit_ts < u64::MAX,
        states[i + 1].next_commit_ts == states[i].next_commit_ts + 1,
    ensures
        states[i].next_commit_ts + 1 < states[j].next_commit_ts + 1,
{
    lemma_history(states, i + 1, j);
}

/// A transaction that has ended keeps its status for as long as it is known.
pub proof fn law_ended_transactions_keep_their_status(
    states: Seq<TxnModel>,
    txn: TransactionId,
    i: int,
    j: int,
)
    requires
        history(states),
        numbers_used(states[0]),
        0 <= i <= j < states.len(),
        !states[i].is_active(txn),
        forall|k: int| i <= k <= j ==> (#[trigger] states[k]).txns.dom().contains(txn),
    ensures
        states[j].txns[txn].status == states[i].txns[txn].status,
    decreases j - i,
{
    if i < j {
        law_ended_transactions_keep_their_status(states, txn, i, j - 1);
        lemma_history(states, 0, j - 1);
        assert(step_at(states, j - 1));
        assert(states[j - 1].txns.dom().contains(txn));
        assert(states[j].txns.dom().contains(txn));
    }
}

/// The row numbers that a table gives grow, whatever happens between two calls and whichever
/// transactions ask: none is given twice, not even one of a transaction that was aborted.
pub proof fn law_row_numbers_are_given_once(
    states: Seq<TxnModel>,
    i: int,
    j: int,
    table: Seq<char>,
    first_fallback: u64,
    second_fallback: u64,
)
    requires
        history(states),
        0 <= i < j < states.len(),
        next_row_id(states[i].next_row_ids, table, first_fallback) < u64::MAX,
        states[i + 1].next_row_ids == states[i].next_row_ids.insert(
            table,
            (next_row_id(states[i].next_row_ids, table, first_fallback) + 1) as u64,
        ),
    ensures
        1 <= next_row_id(states[i].next_row_ids, table, first_fallback),
        first_fallback <= next_row_id(states[i].next_row_ids, table, first_fallback),
        next_row_id(states[i].next_row_ids, table, first_fallback) < next_row_id(
            states[j].next_row_ids,
            table,
            second_fallback,
        ),
{
    lemma_history(states, i + 1, j);
    assert(states[i + 1].next_row_ids.dom().contains(table));
}

/// Taking the row numbers of a catalog into account never lowers a counter: a table then goes
/// on from the larger of the two. Doing so twice is like doing so once.
pub proof fn law_syncing_never_lowers_row_numbers(
    known: Map<Seq<char>, u64>,
    given: Map<Seq<char>, u64>,
    table: Seq<char>,
    fallback: u64,
)
    ensures
        next_row_id(row_ids_joined(known, given), table, fallback) == larger(
            next_row_id(known, table, fallback),
            next_row_id(given, table, fallback),
        ),
        row_ids_joined(row_ids_joined(known, given), given) == row_ids_joined(known, given),
        row_ids_joined(known, given) == row_ids_joined(given, known),
{
    let joined = row_ids_joined(known, given);
    assert(row_ids_joined(joined, given) =~= joined);
    assert(joined =~= row_ids_joined(given, known));
}

/// A committed transaction has its timestamp, can neither be committed nor aborted any more,
/// and keeps its locks until they are released. Other transactions are as they were.
pub proof fn law_commits_end_transactions(m: TxnModel, txn: TransactionId, ts: u64)
    requires
        m.is_active(txn),
    ensures
        ({
            let after = (TxnModel { next_commit_ts: ts, ..m }).with_txn(
                txn,
                committed_at(m.txns[txn], ts),
            );
            &&& after.txns[txn].status == TxnStatus::Committed
            &&& after.txns[txn].commit_ts == Some(ts)
            &&& !after.is_active(txn)
            &&& after.activity_error(txn) is Some
            &&& after.txns.dom() == m.txns.dom()
            &&& forall|other: TransactionId|
                other != txn ==> #[trigger] after.txns[other] == m.txns[other]
            &&& after.page_write_owners == m.page_write_owners
            &&& after.table_locks == m.table_locks
            &&& after.predicate_locks == m.predicate_locks
        }),
{
    let after = (TxnModel { next_commit_ts: ts, ..m }).with_txn(txn, committed_at(m.txns[txn], ts));
    assert(after.txns.dom() =~= m.txns.dom());
}

/// Whether states of a pager come one from another, each by a step of its transactions.
pub open spec fn pager_history(states: Seq<PagerModel>) -> bool {
    history(states.map_values(|p: PagerModel| p.txns))
}

/// The numbers that a pager gives to transactions grow, whatever happens between two calls. A
/// transaction that begins has written nothing, the number that the meta page names next lies
/// behind it, and the pages and what other transactions wrote are as they were.
pub proof fn law_pager_numbers_grow(
    states: Seq<PagerModel>,
    i: int,
    j: int,
    first_level: IsolationLevel,
    second_level: IsolationLevel,
)
    requires
        pager_history(states),
        0 <= i < j < states.len(),
        states[i].begun(first_level).1 is Ok,
        states[i + 1] == states[i].begun(first_level).0,
        states[j].begun(second_level).1 is Ok,
    ensures
        states[i].begun(first_level).1->Ok_0 < states[j].begun(second_level).1->Ok_0,
        ({
            let (after, r) = states[j].begun(second_level);
            let id = r->Ok_0;
            &&& after.txn_page_states == states[j].txn_page_states.insert(id, Map::empty())
            &&& !states[j].knows(id)
            &&& after.meta.next_txn_id >= (if id < u64::MAX {
                id + 1
            } else {
                u64::MAX as int
            })
            &&& after.meta.page_count == states[j].meta.page_count
            &&& forall|p: PageId| #[trigger] after.read(p) == states[j].read(p)
        }),
{
    let list = states.map_values(|p: PagerModel| p.txns);
    lemma_history(list, i + 1, j);
}

} // verus!
