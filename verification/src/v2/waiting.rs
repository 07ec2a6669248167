//! What a transaction that changes pages waits for: nothing, where all went well.

use vstd::prelude::*;

use crate::common::value::{IsolationLevel, RowId, TransactionId};
use crate::v2::catalog::CatalogModel;
use crate::v2::codec::kept_bytes;
use crate::v2::page::{MetaPage, PageId, PageKind};
use crate::v2::pager_model::PagerModel;
use crate::v2::storage_model::table_of;
use crate::v2::transactions::{records_purged_from, row_purged};
use crate::v2::tree::{
    child_from, entries_put, found, internal_put, leaf_put, place_from, put_below, removed_below,
    tree_put, INTERNAL_MAX_KEYS, LEAF_MAX_ENTRIES, MAX_PAGES,
};
use crate::v2::tree_node::{node_at, node_page, node_written, EntryView, NodeView, TreeKey};
use crate::v2::tx_types::UndoView;
use crate::v2::txn_model::{deadlock_error, enqueued, queue_of, TxnModel, WaitReason};
use crate::v2::wait_graph::waits_of;

verus! {

/// Whether a transaction waits for nobody, for whatever reason.
pub open spec fn unwaiting(m: TxnModel, txn: TransactionId) -> bool {
    &&& waits_of(m.table_wait_blockers, txn) == Set::<TransactionId>::empty()
    &&& waits_of(m.page_wait_blockers, txn) == Set::<TransactionId>::empty()
    &&& waits_of(m.predicate_wait_blockers, txn) == Set::<TransactionId>::empty()
    &&& waits_of(m.waits_for, txn) == Set::<TransactionId>::empty()
}

/// Whether a transaction is one that the pager has begun, or one that is not active.
pub open spec fn followed(m: PagerModel, txn: u64) -> bool {
    m.knows(txn) || !m.txns.is_active(TransactionId(txn))
}

/// What a step of a transaction keeps: the pager follows it, and where the step went well, it
/// still waits for nobody.
pub open spec fn steady(a: PagerModel, b: PagerModel, txn: u64, well: bool) -> bool {
    &&& followed(a, txn) ==> followed(b, txn)
    &&& well && unwaiting(a.txns, TransactionId(txn)) ==> unwaiting(b.txns, TransactionId(txn))
}

/// A page that is granted leaves a transaction without waits for tables and predicates without
/// any.
proof fn lemma_page_acquired(m: TxnModel, txn: TransactionId, page: PageId)
    requires
        waits_of(m.table_wait_blockers, txn) == Set::<TransactionId>::empty(),
        waits_of(m.predicate_wait_blockers, txn) == Set::<TransactionId>::empty(),
        m.page_acquired(txn, page).1 is Ok,
    ensures
        unwaiting(m.page_acquired(txn, page).0, txn),
    decreases m.other_waiters(txn).len(),
{
    let after = m.page_acquired(txn, page).0;
    let owned = m.page_write_owners.dom().contains(page);
    let queue = queue_of(m.page_write_wait_queues, page);
    if (owned && m.page_write_owners[page] == txn) || (!owned && (queue.len() == 0 || queue[0]
        == txn)) {
        assert(after.all_blockers(txn) =~= Set::empty());
    } else {
        let blocker = if owned {
            m.page_write_owners[page]
        } else {
            queue[0]
        };
        let waiting = TxnModel {
            page_write_wait_queues: enqueued(m.page_write_wait_queues, page, txn),
            ..m
        }.with_page_waits(txn, Set::empty().insert(blocker));
        let victim = waiting.deadlock_victim(txn, blocker);
        let deadlock = deadlock_error(
            WaitReason::Page { txn: txn.0, other: blocker.0, page: page.0 },
            Seq::empty(),
            victim,
        );
        let next = waiting.sacrificed(victim, deadlock);
        assert(waits_of(next.table_wait_blockers, txn) =~= Set::empty());
        assert(waits_of(next.predicate_wait_blockers, txn) =~= Set::empty());
        lemma_page_acquired(next, txn, page);
    }
}

proof fn lemma_locked(m: PagerModel, txn: u64, id: PageId)
    requires
        m.knows(txn),
    ensures
        steady(m, m.locked(txn, id).0, txn, m.locked(txn, id).1 is Ok),
{
    let t = TransactionId(txn);
    if m.locked(txn, id).1 is Ok && unwaiting(m.txns, t) {
        lemma_page_acquired(m.txns, t, id);
    }
}

proof fn lemma_written(m: PagerModel, txn: u64, id: PageId, page: Seq<u8>)
    ensures
        steady(m, m.written(txn, id, page).0, txn, m.written(txn, id, page).1 is Ok),
{
    if m.knows(txn) {
        lemma_locked(m, txn, id);
    }
}

proof fn lemma_allocated(m: PagerModel, txn: u64, kind: PageKind)
    ensures
        steady(m, m.allocated(txn, kind).0, txn, m.allocated(txn, kind).1 is Ok),
{
    if m.knows(txn) && m.meta.page_count < u32::MAX {
        let longer = PagerModel {
            meta: MetaPage {
                page_count: (m.meta.page_count + 1) as u32,
                ..m.meta
            },
            ..m
        };
        lemma_locked(longer, txn, PageId(m.meta.page_count));
    }
}

proof fn lemma_node<K: TreeKey>(m: PagerModel, txn: u64, id: PageId, n: NodeView<K::V>)
    ensures
        steady(
            m,
            node_written::<K>(m, txn, id, n).0,
            txn,
            node_written::<K>(m, txn, id, n).1 is Ok,
        ),
{
    lemma_written(m, txn, id, node_page::<K>(n));
}

proof fn lemma_leaf_put<K: TreeKey>(
    m: PagerModel,
    txn: u64,
    id: PageId,
    entries: Seq<EntryView<K::V>>,
    next: Option<PageId>,
)
    ensures
        steady(
            m,
            leaf_put::<K>(m, txn, id, entries, next).0,
            txn,
            leaf_put::<K>(m, txn, id, entries, next).1 is Ok,
        ),
{
    if entries.len() <= LEAF_MAX_ENTRIES {
        lemma_node::<K>(m, txn, id, NodeView::Leaf { entries, next });
    } else {
        let half = (entries.len() / 2) as int;
        let (a, r) = m.allocated(txn, PageKind::Leaf);
        lemma_allocated(m, txn, PageKind::Leaf);
        if r is Ok {
            let new = r->Ok_0;
            let left = NodeView::Leaf { entries: entries.take(half), next: Some(new) };
            let right = NodeView::Leaf { entries: entries.skip(half), next };
            let b = node_written::<K>(a, txn, id, left).0;
            lemma_node::<K>(a, txn, id, left);
            lemma_node::<K>(b, txn, new, right);
        }
    }
}

proof fn lemma_internal_put<K: TreeKey>(
    m: PagerModel,
    txn: u64,
    id: PageId,
    separators: Seq<K::V>,
    children: Seq<PageId>,
)
    ensures
        steady(
            m,
            internal_put::<K>(m, txn, id, separators, children).0,
            txn,
            internal_put::<K>(m, txn, id, separators, children).1 is Ok,
        ),
{
    if separators.len() <= INTERNAL_MAX_KEYS {
        lemma_node::<K>(m, txn, id, NodeView::Internal { separators, children });
    } else {
        let mid = (separators.len() / 2) as int;
        let (a, r) = m.allocated(txn, PageKind::Internal);
        lemma_allocated(m, txn, PageKind::Internal);
        if r is Ok {
            let new = r->Ok_0;
            let left = NodeView::Internal {
                separators: separators.take(mid),
                children: children.take(mid + 1),
            };
            let right = NodeView::Internal {
                separators: separators.skip(mid + 1),
                children: children.skip(mid + 1),
            };
            let b = node_written::<K>(a, txn, id, left).0;
            lemma_node::<K>(a, txn, id, left);
            lemma_node::<K>(b, txn, new, right);
        }
    }
}

proof fn lemma_put_below<K: TreeKey>(
    m: PagerModel,
    txn: u64,
    id: PageId,
    key: K::V,
    value: Seq<u8>,
    depth: nat,
)
    ensures
        steady(
            m,
            put_below::<K>(m, txn, id, key, value, depth).0,
            txn,
            put_below::<K>(m, txn, id, key, value, depth).1 is Ok,
        ),
    decreases depth,
{
    if depth > 0 {
        match node_at::<K>(m, id) {
            Err(_) => {},
            Ok(NodeView::Leaf { entries, next }) => {
                lemma_leaf_put::<K>(m, txn, id, entries_put::<K>(entries, key, value), next);
            },
            Ok(NodeView::Internal { separators, children }) => {
                let i = child_from::<K>(separators, key, 0);
                let below = (depth - 1) as nat;
                lemma_put_below::<K>(m, txn, children[i], key, value, below);
                match put_below::<K>(m, txn, children[i], key, value, below) {
                    (after, Ok(Some(split))) => {
                        lemma_internal_put::<K>(
                            after,
                            txn,
                            id,
                            separators.insert(i, split.separator_key),
                            children.insert(i + 1, split.right_page_id),
                        );
                    },
                    _ => {},
                }
            },
        }
    }
}

proof fn lemma_tree_put<K: TreeKey>(m: PagerModel, txn: u64, root: PageId, key: K::V, value: Seq<u8>)
    ensures
        steady(
            m,
            tree_put::<K>(m, txn, root, key, value).0,
            txn,
            tree_put::<K>(m, txn, root, key, value).1 is Ok,
        ),
{
    lemma_put_below::<K>(m, txn, root, key, value, MAX_PAGES as nat);
    match put_below::<K>(m, txn, root, key, value, MAX_PAGES as nat) {
        (after, Ok(Some(split))) => {
            lemma_allocated(after, txn, PageKind::Internal);
            match after.allocated(txn, PageKind::Internal) {
                (a, Ok(new)) => {
                    lemma_node::<K>(
                        a,
                        txn,
                        new,
                        NodeView::Internal {
                            separators: seq![split.separator_key],
                            children: seq![root, split.right_page_id],
                        },
                    );
                },
                _ => {},
            }
        },
        _ => {},
    }
}

proof fn lemma_removed_below<K: TreeKey>(m: PagerModel, txn: u64, id: PageId, key: K::V, depth: nat)
    ensures
        steady(
            m,
            removed_below::<K>(m, txn, id, key, depth).0,
            txn,
            removed_below::<K>(m, txn, id, key, depth).1 is Ok,
        ),
    decreases depth,
{
    if depth > 0 {
        match node_at::<K>(m, id) {
            Err(_) => {},
            Ok(NodeView::Leaf { entries, next }) => {
                let at = place_from::<K>(entries, key, 0);
                lemma_node::<K>(
                    m,
                    txn,
                    id,
                    NodeView::Leaf { entries: entries.remove(at), next },
                );
            },
            Ok(NodeView::Internal { separators, children }) => {
                let i = child_from::<K>(separators, key, 0);
                lemma_removed_below::<K>(m, txn, children[i], key, (depth - 1) as nat);
            },
        }
    }
}

proof fn lemma_row_purged(
    m: PagerModel,
    c: CatalogModel,
    txn: u64,
    table: Seq<char>,
    id: RowId,
    horizon: u64,
)
    ensures
        steady(
            m,
            row_purged(m, c, txn, table, id, horizon).0,
            txn,
            row_purged(m, c, txn, table, id, horizon).1 is Ok,
        ),
{
    match table_of(c, table) {
        Err(_) => {},
        Ok((_, root)) => match found::<u64>(m, root, id.0) {
            Ok(Some(bytes)) => match kept_bytes(bytes, horizon) {
                Err(_) => {},
                Ok(None) => {
                    lemma_removed_below::<u64>(m, txn, root, id.0, MAX_PAGES as nat);
                },
                Ok(Some(kept)) => {
                    lemma_tree_put::<u64>(m, txn, root, id.0, kept);
                },
            },
            _ => {},
        },
    }
}

/// A transaction that purges rows waits for nobody once it is done, and where it failed, the
/// pager has begun it or it is not active.
pub proof fn lemma_records_purged(
    m: PagerModel,
    c: CatalogModel,
    txn: u64,
    horizon: u64,
    records: Seq<(TransactionId, UndoView)>,
    i: int,
)
    ensures
        steady(
            m,
            records_purged_from(m, c, txn, horizon, records, i).0,
            txn,
            records_purged_from(m, c, txn, horizon, records, i).1 is Ok,
        ),
    decreases records.len() - i,
{
    if 0 <= i < records.len() {
        match records[i].1 {
            UndoView::DeleteRow { table, row_id, previous_bytes } => {
                lemma_row_purged(m, c, txn, table, row_id, horizon);
                match row_purged(m, c, txn, table, row_id, horizon) {
                    (a, Ok(_)) => {
                        lemma_records_purged(a, c, txn, horizon, records, i + 1);
                    },
                    _ => {},
                }
            },
            _ => {
                lemma_records_purged(m, c, txn, horizon, records, i + 1);
            },
        }
    }
}

/// A transaction without recorded waits has no blockers.
pub proof fn lemma_no_blockers(m: TxnModel, txn: TransactionId)
    requires
        m.waits_in_step(),
        waits_of(m.waits_for, txn) == Set::<TransactionId>::empty(),
    ensures
        unwaiting(m, txn),
{
    assert(m.all_blockers(txn) == Set::<TransactionId>::empty());
    assert(waits_of(m.table_wait_blockers, txn).subset_of(m.all_blockers(txn)));
    assert(waits_of(m.page_wait_blockers, txn).subset_of(m.all_blockers(txn)));
    assert(waits_of(m.predicate_wait_blockers, txn).subset_of(m.all_blockers(txn)));
    assert(waits_of(m.table_wait_blockers, txn) =~= Set::empty());
    assert(waits_of(m.page_wait_blockers, txn) =~= Set::empty());
    assert(waits_of(m.predicate_wait_blockers, txn) =~= Set::empty());
}

/// A transaction that has just begun waits for nobody.
pub proof fn lemma_begun_unwaiting(m: PagerModel, level: IsolationLevel)
    requires
        m.begun(level).1 is Ok,
        unwaiting(m.txns, TransactionId(m.begun(level).1->Ok_0)),
    ensures
        unwaiting(m.begun(level).0.txns, TransactionId(m.begun(level).1->Ok_0)),
{
}

/// Once a transaction has given back what it holds, it waits for nobody.
pub proof fn lemma_released_unwaiting(m: TxnModel, txn: TransactionId)
    ensures
        unwaiting(m.released(txn), txn),
{
    let after = m.released(txn);
    assert(waits_of(after.table_wait_blockers, txn) =~= Set::empty());
    assert(waits_of(after.page_wait_blockers, txn) =~= Set::empty());
    assert(waits_of(after.predicate_wait_blockers, txn) =~= Set::empty());
    assert(waits_of(after.waits_for, txn) =~= Set::empty());
}

} // verus!
