//! What rolling back a transaction leaves: all pages, and so all rows, as they were when it
//! began.

use vstd::prelude::*;

use crate::common::error::ErrorView;
use crate::common::json::json_bytes;
use crate::common::schema::{IndexView, Schema};
use crate::common::value::{IsolationLevel, RowId, SqlValue, TransactionId};
use crate::v2::catalog::CatalogModel;
use crate::v2::codec::{
    changed_bytes, deleted_bytes, fresh, ids_json, projected, row_of, versions_json,
};
use crate::v2::index_store::{row_listed, rows_listed};
use crate::v2::locks::IndexKeyView;
use crate::v2::page::{PageId, PageKind};
use crate::v2::pager_laws::{law_rollback_undoes_allocations, law_rollback_undoes_writes};
use crate::v2::pager_model::{
    count_for, covers, lemma_covers_exists, lemma_effective_count, opened, restored, wrote,
    PagerModel, WriteView,
};
use crate::v2::row_changes::{touched_from, ChangeView};
use crate::v2::schema_store::rows_lengthened;
use crate::v2::storage_model::{
    entry_added, entry_removed, ids_with, ids_without, index_of, key_bytes, listed, named_keys,
    row_keys, seen_at, slots, table_of, FaultsView, PlanView, SlotView, StorageModel,
};
use crate::v2::tables::{lemma_rows_kept, rows_in, Tables};
use crate::v2::transactions::{change_undone, changes_undone_from};
use crate::v2::tree::{
    all_entries, child_from, entries_put, internal_put, leaf_put, place_from, put_below,
    removed_below, tree_made, tree_put, INTERNAL_MAX_KEYS, LEAF_MAX_ENTRIES, MAX_PAGES,
};
use crate::v2::tree_node::{node_at, node_page, node_written, ByteKey, EntryView, NodeView, TreeKey};
use crate::v2::tx_types::{SnapshotView, TxnStatus, TxnView, UndoView};
use crate::v2::txn_model::TxnModel;
use crate::v2::values_json::row_json;

verus! {

/// Whether the pages of a pager are counted: all that are cached or written, and no more than
/// those and the committed ones.
pub open spec fn counted(m: PagerModel) -> bool {
    &&& covers(m.txn_page_states, m.committed_page_count, m.meta.page_count)
    &&& forall|p: PageId| #[trigger] m.page_cache.dom().contains(p) ==> p.0 < m.meta.page_count
    &&& forall|t: u64, p: PageId| #[trigger]
        wrote(m.txn_page_states, t, p) ==> p.0 < m.meta.page_count
}

/// Whether the cache has the pages that a transaction wrote as it wrote them.
pub open spec fn cached(m: PagerModel, txn: u64) -> bool {
    forall|p: PageId| #[trigger]
        wrote(m.txn_page_states, txn, p) ==> m.page_cache.dom().contains(p) && m.page_cache[p]
            == m.txn_page_states[txn][p].after_image
}

/// Whether rolling back a transaction would leave the same pages in two states of the pager.
pub open spec fn same_base(a: PagerModel, b: PagerModel, txn: u64) -> bool {
    &&& b.disk == a.disk
    &&& b.committed_page_count == a.committed_page_count
    &&& b.txn_page_states.remove(txn) == a.txn_page_states.remove(txn)
    &&& forall|x: PageId| #[trigger]
        b.forgotten(txn).read(x) == a.forgotten(txn).read(x)
}

/// Whether a transaction that has begun can be rolled back in one state of the pager as it could
/// in another.
#[verifier::opaque]
pub open spec fn undoable(a: PagerModel, b: PagerModel, txn: u64) -> bool {
    counted(a) && a.knows(txn) && cached(a, txn) ==> {
        &&& counted(b)
        &&& b.knows(txn)
        &&& cached(b, txn)
        &&& same_base(a, b, txn)
    }
}

/// Whether a transaction that has begun can be rolled back in one state of the engine as it could
/// in another.
pub open spec fn can_be_undone(a: StorageModel, b: StorageModel, txn: TransactionId) -> bool {
    &&& undoable(a.pager, b.pager, txn.0)
    &&& b.sessions == a.sessions
}

pub proof fn lemma_trans(a: PagerModel, b: PagerModel, c: PagerModel, txn: u64)
    requires
        undoable(a, b, txn),
        undoable(b, c, txn),
    ensures
        undoable(a, c, txn),
{
    reveal(undoable);
    if counted(a) && a.knows(txn) && cached(a, txn) {
        assert forall|x: PageId| #[trigger]
            c.forgotten(txn).read(x) == a.forgotten(txn).read(x) by {
            assert(b.forgotten(txn).read(x) == a.forgotten(txn).read(x));
        }
    }
}

pub proof fn lemma_same(a: PagerModel, txns: TxnModel, txn: u64)
    ensures
        undoable(a, a, txn),
        undoable(a, a.with_txns(txns), txn),
{
    reveal(undoable);
    let b = a.with_txns(txns);
    assert forall|x: PageId| #[trigger] b.forgotten(txn).read(x) == a.forgotten(txn).read(x) by {}
}

pub proof fn lemma_written(m: PagerModel, txn: u64, id: PageId, page: Seq<u8>)
    requires
        m.written(txn, id, page).1 is Ok,
    ensures
        undoable(m, m.written(txn, id, page).0, txn),
{
    reveal(undoable);
    let after = m.written(txn, id, page).0;
    if counted(m) && cached(m, txn) {
        let (s, t) = (m.txn_page_states, after.txn_page_states);
        assert(m.locked(txn, id).0.txn_page_states == s);
        assert forall|u: u64, p: PageId| #[trigger] wrote(t, u, p) implies count_for(p)
            <= m.meta.page_count && p.0 < m.meta.page_count by {
            if !(u == txn && p == id) {
                assert(wrote(s, u, p));
            }
        }
        if m.meta.page_count != m.committed_page_count {
            let (u, p) = choose|u: u64, p: PageId| #[trigger]
                wrote(s, u, p) && m.meta.page_count == count_for(p);
            assert(wrote(t, u, p));
        }
        assert(t.remove(txn) =~= s.remove(txn));
        assert forall|p: PageId| #[trigger] wrote(t, txn, p) implies after.page_cache.dom().contains(
            p,
        ) && after.page_cache[p] == t[txn][p].after_image by {
            if p != id {
                assert(wrote(s, txn, p));
            }
        }
        assert forall|x: PageId| #[trigger]
            after.forgotten(txn).read(x) == m.forgotten(txn).read(x) by {
            law_rollback_undoes_writes(m, txn, id, page, x);
        }
    }
}

pub proof fn lemma_allocated(m: PagerModel, txn: u64, kind: PageKind)
    requires
        m.allocated(txn, kind).1 is Ok,
    ensures
        undoable(m, m.allocated(txn, kind).0, txn),
{
    reveal(undoable);
    let after = m.allocated(txn, kind).0;
    let id = PageId(m.meta.page_count);
    if counted(m) && cached(m, txn) {
        let (s, t) = (m.txn_page_states, after.txn_page_states);
        if s[txn].dom().contains(id) {
            assert(wrote(s, txn, id));
        }
        assert forall|u: u64, p: PageId| #[trigger] wrote(t, u, p) implies count_for(p)
            <= after.meta.page_count && p.0 < after.meta.page_count by {
            if !(u == txn && p == id) {
                assert(wrote(s, u, p));
            }
        }
        assert(wrote(t, txn, id));
        assert(t.remove(txn) =~= s.remove(txn));
        assert forall|p: PageId| #[trigger] wrote(t, txn, p) implies after.page_cache.dom().contains(
            p,
        ) && after.page_cache[p] == t[txn][p].after_image by {
            if p != id {
                assert(wrote(s, txn, p));
            }
        }
        assert forall|x: PageId| #[trigger]
            after.forgotten(txn).read(x) == m.forgotten(txn).read(x) by {
            law_rollback_undoes_allocations(m, txn, kind, x);
        }
    }
}

// ---------------------------------------------------------------------------
// Trees

proof fn lemma_node_written<K: TreeKey>(m: PagerModel, txn: u64, id: PageId, n: NodeView<K::V>)
    requires
        node_written::<K>(m, txn, id, n).1 is Ok,
    ensures
        undoable(m, node_written::<K>(m, txn, id, n).0, txn),
{
    lemma_written(m, txn, id, node_page::<K>(n));
}

proof fn lemma_leaf_put<K: TreeKey>(
    m: PagerModel,
    txn: u64,
    id: PageId,
    entries: Seq<EntryView<K::V>>,
    next: Option<PageId>,
)
    requires
        leaf_put::<K>(m, txn, id, entries, next).1 is Ok,
    ensures
        undoable(m, leaf_put::<K>(m, txn, id, entries, next).0, txn),
{
    if entries.len() <= LEAF_MAX_ENTRIES {
        lemma_node_written::<K>(m, txn, id, NodeView::Leaf { entries, next });
    } else {
        let half = (entries.len() / 2) as int;
        let (a, r) = m.allocated(txn, PageKind::Leaf);
        let new = r->Ok_0;
        let left = NodeView::Leaf { entries: entries.take(half), next: Some(new) };
        let right = NodeView::Leaf { entries: entries.skip(half), next };
        let b = node_written::<K>(a, txn, id, left).0;
        let c = node_written::<K>(b, txn, new, right).0;
        lemma_allocated(m, txn, PageKind::Leaf);
        lemma_node_written::<K>(a, txn, id, left);
        lemma_node_written::<K>(b, txn, new, right);
        lemma_trans(m, a, b, txn);
        lemma_trans(m, b, c, txn);
    }
}

proof fn lemma_internal_put<K: TreeKey>(
    m: PagerModel,
    txn: u64,
    id: PageId,
    separators: Seq<K::V>,
    children: Seq<PageId>,
)
    requires
        internal_put::<K>(m, txn, id, separators, children).1 is Ok,
    ensures
        undoable(m, internal_put::<K>(m, txn, id, separators, children).0, txn),
{
    if separators.len() <= INTERNAL_MAX_KEYS {
        lemma_node_written::<K>(m, txn, id, NodeView::Internal { separators, children });
    } else {
        let mid = (separators.len() / 2) as int;
        let (a, r) = m.allocated(txn, PageKind::Internal);
        let new = r->Ok_0;
        let left = NodeView::Internal {
            separators: separators.take(mid),
            children: children.take(mid + 1),
        };
        let right = NodeView::Internal {
            separators: separators.skip(mid + 1),
            children: children.skip(mid + 1),
        };
        let b = node_written::<K>(a, txn, id, left).0;
        let c = node_written::<K>(b, txn, new, right).0;
        lemma_allocated(m, txn, PageKind::Internal);
        lemma_node_written::<K>(a, txn, id, left);
        lemma_node_written::<K>(b, txn, new, right);
        lemma_trans(m, a, b, txn);
        lemma_trans(m, b, c, txn);
    }
}

proof fn lemma_put_below<K: TreeKey>(
    m: PagerModel,
    txn: u64,
    id: PageId,
    key: K::V,
    value: Seq<u8>,
    depth: nat,
)
    requires
        put_below::<K>(m, txn, id, key, value, depth).1 is Ok,
    ensures
        undoable(m, put_below::<K>(m, txn, id, key, value, depth).0, txn),
    decreases depth,
{
    match node_at::<K>(m, id)->Ok_0 {
        NodeView::Leaf { entries, next } => {
            lemma_leaf_put::<K>(m, txn, id, entries_put::<K>(entries, key, value), next);
        },
        NodeView::Internal { separators, children } => {
            let i = child_from::<K>(separators, key, 0);
            lemma_put_below::<K>(m, txn, children[i], key, value, (depth - 1) as nat);
            let (after, r) = put_below::<K>(m, txn, children[i], key, value, (depth - 1) as nat);
            match r->Ok_0 {
                None => {},
                Some(split) => {
                    let seps = separators.insert(i, split.separator_key);
                    let pages = children.insert(i + 1, split.right_page_id);
                    lemma_internal_put::<K>(after, txn, id, seps, pages);
                    lemma_trans(
                        m,
                        after,
                        internal_put::<K>(after, txn, id, seps, pages).0,
                        txn,
                    );
                },
            }
        },
    }
}

pub proof fn lemma_tree_put<K: TreeKey>(m: PagerModel, txn: u64, root: PageId, key: K::V, value: Seq<u8>)
    requires
        tree_put::<K>(m, txn, root, key, value).1 is Ok,
    ensures
        undoable(m, tree_put::<K>(m, txn, root, key, value).0, txn),
{
    lemma_put_below::<K>(m, txn, root, key, value, MAX_PAGES as nat);
    let (after, r) = put_below::<K>(m, txn, root, key, value, MAX_PAGES as nat);
    match r->Ok_0 {
        None => {},
        Some(split) => {
            let (a, ra) = after.allocated(txn, PageKind::Internal);
            let n = NodeView::Internal {
                separators: seq![split.separator_key],
                children: seq![root, split.right_page_id],
            };
            lemma_allocated(after, txn, PageKind::Internal);
            lemma_node_written::<K>(a, txn, ra->Ok_0, n);
            lemma_trans(m, after, a, txn);
            lemma_trans(m, a, node_written::<K>(a, txn, ra->Ok_0, n).0, txn);
        },
    }
}

pub proof fn lemma_removed_below<K: TreeKey>(m: PagerModel, txn: u64, id: PageId, key: K::V, depth: nat)
    requires
        removed_below::<K>(m, txn, id, key, depth).1 is Ok,
    ensures
        undoable(m, removed_below::<K>(m, txn, id, key, depth).0, txn),
    decreases depth,
{
    lemma_same(m, m.txns, txn);
    match node_at::<K>(m, id)->Ok_0 {
        NodeView::Leaf { entries, next } => {
            let at = place_from::<K>(entries, key, 0);
            if at < entries.len() && entries[at].key == key {
                lemma_node_written::<K>(
                    m,
                    txn,
                    id,
                    NodeView::Leaf { entries: entries.remove(at), next },
                );
            }
        },
        NodeView::Internal { separators, children } => {
            let i = child_from::<K>(separators, key, 0);
            lemma_removed_below::<K>(m, txn, children[i], key, (depth - 1) as nat);
        },
    }
}

proof fn lemma_tree_made<K: TreeKey>(m: PagerModel, txn: u64)
    requires
        tree_made::<K>(m, txn).1 is Ok,
    ensures
        undoable(m, tree_made::<K>(m, txn).0, txn),
{
    let (a, r) = m.allocated(txn, PageKind::Leaf);
    let n = NodeView::<K::V>::Leaf { entries: Seq::empty(), next: None };
    lemma_allocated(m, txn, PageKind::Leaf);
    lemma_node_written::<K>(a, txn, r->Ok_0, n);
    lemma_trans(m, a, node_written::<K>(a, txn, r->Ok_0, n).0, txn);
}

proof fn lemma_entry_added(m: PagerModel, txn: u64, root: PageId, key: Seq<u8>, id: RowId)
    requires
        entry_added(m, txn, root, key, id).1 is Ok,
    ensures
        undoable(m, entry_added(m, txn, root, key, id).0, txn),
{
    let before = match listed(m, root, key)->Ok_0 {
        Some(list) => list,
        None => Seq::empty(),
    };
    let bytes = json_bytes(ids_json(ids_with(before, id)));
    lemma_tree_put::<ByteKey>(m, txn, root, key, bytes);
}

proof fn lemma_entry_removed(m: PagerModel, txn: u64, root: PageId, key: Seq<u8>, id: RowId)
    requires
        entry_removed(m, txn, root, key, id).1 is Ok,
    ensures
        undoable(m, entry_removed(m, txn, root, key, id).0, txn),
{
    lemma_same(m, m.txns, txn);
    match listed(m, root, key)->Ok_0 {
        None => {},
        Some(ids) => {
            let left = ids_without(ids, id);
            if left.len() == 0 {
                lemma_removed_below::<ByteKey>(m, txn, root, key, MAX_PAGES as nat);
            } else {
                let bytes = json_bytes(ids_json(left));
                lemma_tree_put::<ByteKey>(m, txn, root, key, bytes);
            }
        },
    }
}

// ---------------------------------------------------------------------------
// Rows

proof fn lemma_index_entered(
    m: StorageModel,
    txn: TransactionId,
    table: Seq<char>,
    slot: SlotView,
    key: Seq<SqlValue>,
    id: RowId,
)
    requires
        m.index_entered(txn, table, slot, key, id).1 is Ok,
    ensures
        can_be_undone(m, m.index_entered(txn, table, slot, key, id).0, txn),
{
    let record = UndoView::IndexInsert { table, index: slot.name, row_id: id, key };
    let a = m.noted(txn, record).0;
    let p = entry_added(a.pager, txn.0, slot.root, key_bytes(key), id).0;
    lemma_same(m.pager, a.pager.txns, txn.0);
    lemma_entry_added(a.pager, txn.0, slot.root, key_bytes(key), id);
    lemma_trans(m.pager, a.pager, p, txn.0);
}

proof fn lemma_indexed_from(
    m: StorageModel,
    txn: TransactionId,
    table: Seq<char>,
    plan: PlanView,
    id: RowId,
    i: int,
)
    requires
        m.indexed_from(txn, table, plan, id, i).1 is Ok,
    ensures
        can_be_undone(m, m.indexed_from(txn, table, plan, id, i).0, txn),
    decreases plan.slots.len() - i,
{
    lemma_same(m.pager, m.pager.txns, txn.0);
    if 0 <= i < plan.slots.len() {
        let a = m.index_entered(txn, table, plan.slots[i], plan.keys[i], id).0;
        let b = a.indexed_from(txn, table, plan, id, i + 1).0;
        lemma_index_entered(m, txn, table, plan.slots[i], plan.keys[i], id);
        lemma_indexed_from(a, txn, table, plan, id, i + 1);
        lemma_trans(m.pager, a.pager, b.pager, txn.0);
    }
}

/// Inserting a row can be undone.
pub proof fn law_insertions_can_be_undone(
    m: StorageModel,
    txn: TransactionId,
    table: Seq<char>,
    row: Seq<SqlValue>,
    faults: FaultsView,
)
    requires
        m.inserted(txn, table, row, faults).1 is Ok,
    ensures
        can_be_undone(m, m.inserted(txn, table, row, faults).0, txn),
{
    let plan = m.insert_plan(txn, table, row, faults.values)->Ok_0;
    let a = m.conflicts_checked(txn, table, named_keys(plan.slots, plan.keys)).0;
    let b = a.snapshot_of(txn).0;
    let (c, r) = b.numbered(txn, table);
    let id = r->Ok_0;
    let d = c.noted(txn, UndoView::InsertRow { table, row_id: id }).0;
    lemma_same(m.pager, d.pager.txns, txn.0);
    assert(d.pager =~= m.pager.with_txns(d.pager.txns));
    let bytes = json_bytes(versions_json(seq![fresh(row, txn.0)]));
    lemma_tree_put::<u64>(d.pager, txn.0, plan.root, id.0, bytes);
    let e = d.row_put(txn, table, plan.root, id, bytes).0;
    lemma_trans(m.pager, d.pager, e.pager, txn.0);
    lemma_indexed_from(e, txn, table, plan, id, 0);
    lemma_trans(m.pager, e.pager, e.indexed_from(txn, table, plan, id, 0).0.pager, txn.0);
}

proof fn lemma_rewritten(
    m: StorageModel,
    txn: TransactionId,
    table: Seq<char>,
    root: PageId,
    id: RowId,
    bytes: Result<Option<Seq<u8>>, ErrorView>,
)
    requires
        m.rewritten(txn, table, root, id, bytes).1 is Ok,
    ensures
        can_be_undone(m, m.rewritten(txn, table, root, id, bytes).0, txn),
{
    lemma_same(m.pager, m.pager.txns, txn.0);
    match bytes {
        Ok(Some(b)) => {
            lemma_tree_put::<u64>(m.pager, txn.0, root, id.0, b);
        },
        _ => {},
    }
}

proof fn lemma_leaving_noted(
    m: StorageModel,
    txn: TransactionId,
    table: Seq<char>,
    keys: Seq<IndexKeyView>,
    id: RowId,
    i: int,
)
    requires
        m.leaving_noted(txn, table, keys, id, i).1 is Ok,
    ensures
        can_be_undone(m, m.leaving_noted(txn, table, keys, id, i).0, txn),
    decreases keys.len() - i,
{
    lemma_same(m.pager, m.pager.txns, txn.0);
    if 0 <= i < keys.len() {
        let record = UndoView::IndexDelete {
            table,
            index: keys[i].index,
            row_id: id,
            key: keys[i].key,
        };
        let a = m.noted(txn, record).0;
        lemma_same(m.pager, a.pager.txns, txn.0);
        lemma_leaving_noted(a, txn, table, keys, id, i + 1);
        let b = a.leaving_noted(txn, table, keys, id, i + 1).0;
        lemma_trans(m.pager, a.pager, b.pager, txn.0);
    }
}

/// Deleting a row can be undone.
pub proof fn law_deletions_can_be_undone(
    m: StorageModel,
    txn: TransactionId,
    table: Seq<char>,
    id: RowId,
)
    requires
        m.row_deleted(txn, table, id).1 is Ok,
    ensures
        can_be_undone(m, m.row_deleted(txn, table, id).0, txn),
{
    let a = m.snapshot_of(txn).0;
    lemma_same(m.pager, a.pager.txns, txn.0);
    match table_of(m.catalog, table) {
        Err(_) => {},
        Ok((schema, root)) => {
            let snapshot = m.snapshot_of(txn).1->Ok_0;
            match seen_at(a.pager, txn, snapshot, root, id) {
                Ok(Some(row)) => {
                    let list = slots(a.catalog, table)->Ok_0;
                    let keys = named_keys(list, row_keys(schema, list, row)->Ok_0);
                    let b = a.conflicts_checked(txn, table, keys).0;
                    let bytes = b.row_bytes(table, root, id)->Ok_0;
                    let record = UndoView::DeleteRow {
                        table,
                        row_id: id,
                        previous_bytes: bytes,
                    };
                    let c = b.noted(txn, record).0;
                    let d = c.leaving_noted(txn, table, keys, id, 0).0;
                    let new = deleted_bytes(bytes, txn.0, snapshot);
                    lemma_same(m.pager, c.pager.txns, txn.0);
                    assert(c.pager =~= m.pager.with_txns(c.pager.txns));
                    lemma_leaving_noted(c, txn, table, keys, id, 0);
                    lemma_rewritten(d, txn, table, root, id, new);
                    lemma_trans(m.pager, c.pager, d.pager, txn.0);
                    lemma_trans(
                        m.pager,
                        d.pager,
                        d.rewritten(txn, table, root, id, new).0.pager,
                        txn.0,
                    );
                },
                _ => {},
            }
        },
    }
}

proof fn lemma_changes_noted(
    m: StorageModel,
    txn: TransactionId,
    table: Seq<char>,
    change: ChangeView,
    id: RowId,
    i: int,
)
    requires
        m.changes_noted(txn, table, change, id, i).1 is Ok,
    ensures
        can_be_undone(m, m.changes_noted(txn, table, change, id, i).0, txn),
    decreases change.plan.slots.len() - i,
{
    lemma_same(m.pager, m.pager.txns, txn.0);
    if 0 <= i < change.plan.slots.len() {
        let a = m.change_noted(
            txn,
            table,
            change.plan.slots[i].name,
            change.old_keys[i],
            change.plan.keys[i],
            id,
        ).0;
        lemma_same(m.pager, a.pager.txns, txn.0);
        assert(a.pager =~= m.pager.with_txns(a.pager.txns));
        lemma_changes_noted(a, txn, table, change, id, i + 1);
        let b = a.changes_noted(txn, table, change, id, i + 1).0;
        lemma_trans(m.pager, a.pager, b.pager, txn.0);
    }
}

proof fn lemma_index_moved(
    m: StorageModel,
    txn: TransactionId,
    table: Seq<char>,
    slot: SlotView,
    old_key: Seq<SqlValue>,
    new_key: Seq<SqlValue>,
    id: RowId,
)
    requires
        m.index_moved(txn, table, slot, old_key, new_key, id).1 is Ok,
    ensures
        can_be_undone(m, m.index_moved(txn, table, slot, old_key, new_key, id).0, txn),
{
    lemma_same(m.pager, m.pager.txns, txn.0);
    if old_key != new_key {
        let (p, r) = entry_removed(m.pager, txn.0, slot.root, key_bytes(old_key), id);
        let q = entry_added(p, txn.0, r->Ok_0, key_bytes(new_key), id).0;
        lemma_entry_removed(m.pager, txn.0, slot.root, key_bytes(old_key), id);
        lemma_entry_added(p, txn.0, r->Ok_0, key_bytes(new_key), id);
        lemma_trans(m.pager, p, q, txn.0);
    }
}

proof fn lemma_moved_from(
    m: StorageModel,
    txn: TransactionId,
    table: Seq<char>,
    change: ChangeView,
    id: RowId,
    i: int,
)
    requires
        m.moved_from(txn, table, change, id, i).1 is Ok,
    ensures
        can_be_undone(m, m.moved_from(txn, table, change, id, i).0, txn),
    decreases change.plan.slots.len() - i,
{
    lemma_same(m.pager, m.pager.txns, txn.0);
    if 0 <= i < change.plan.slots.len() {
        let slot = change.plan.slots[i];
        let (old_key, new_key) = (change.old_keys[i], change.plan.keys[i]);
        let a = m.index_moved(txn, table, slot, old_key, new_key, id).0;
        lemma_index_moved(m, txn, table, slot, old_key, new_key, id);
        lemma_moved_from(a, txn, table, change, id, i + 1);
        let b = a.moved_from(txn, table, change, id, i + 1).0;
        lemma_trans(m.pager, a.pager, b.pager, txn.0);
    }
}

proof fn lemma_change_made(
    m: StorageModel,
    txn: TransactionId,
    table: Seq<char>,
    change: ChangeView,
    id: RowId,
    row: Seq<SqlValue>,
    snapshot: SnapshotView,
)
    requires
        m.change_made(txn, table, change, id, row, snapshot).1 is Ok,
    ensures
        can_be_undone(m, m.change_made(txn, table, change, id, row, snapshot).0, txn),
{
    let root = change.plan.root;
    let bytes = m.row_bytes(table, root, id)->Ok_0;
    let a = m.noted(txn, UndoView::DeleteRow { table, row_id: id, previous_bytes: bytes }).0;
    let b = a.changes_noted(txn, table, change, id, 0).0;
    let new = changed_bytes(bytes, row, txn.0, snapshot);
    let c = b.rewritten(txn, table, root, id, new).0;
    let d = c.moved_from(txn, table, change, id, 0).0;
    lemma_same(m.pager, a.pager.txns, txn.0);
    lemma_changes_noted(a, txn, table, change, id, 0);
    lemma_rewritten(b, txn, table, root, id, new);
    lemma_moved_from(c, txn, table, change, id, 0);
    lemma_trans(m.pager, a.pager, b.pager, txn.0);
    lemma_trans(m.pager, b.pager, c.pager, txn.0);
    lemma_trans(m.pager, c.pager, d.pager, txn.0);
}

/// Changing a row can be undone.
pub proof fn law_updates_can_be_undone(
    m: StorageModel,
    txn: TransactionId,
    table: Seq<char>,
    id: RowId,
    row: Seq<SqlValue>,
    faults: FaultsView,
)
    requires
        m.row_updated(txn, table, id, row, faults).1 is Ok,
    ensures
        can_be_undone(m, m.row_updated(txn, table, id, row, faults).0, txn),
{
    let (schema, root) = m.update_target(txn, table, row, faults.values)->Ok_0;
    let (a, r) = m.snapshot_of(txn);
    lemma_same(m.pager, a.pager.txns, txn.0);
    let snapshot = r->Ok_0;
    match seen_at(a.pager, txn, snapshot, root, id) {
        Ok(Some(before)) => {
            if before != row {
                let change = a.change_plan(table, schema, root, before, row)->Ok_0;
                let keys = touched_from(
                    change.plan.slots,
                    change.old_keys,
                    change.plan.keys,
                    0,
                    Seq::empty(),
                );
                let b = a.conflicts_checked(txn, table, keys).0;
                lemma_same(m.pager, b.pager.txns, txn.0);
                assert(b.pager =~= m.pager.with_txns(b.pager.txns));
                lemma_change_made(b, txn, table, change, id, row, snapshot);
                let c = b.change_made(txn, table, change, id, row, snapshot).0;
                lemma_trans(m.pager, b.pager, c.pager, txn.0);
            }
        },
        _ => {},
    }
}

// ---------------------------------------------------------------------------
// Tables and indexes

/// Making a table can be undone.
pub proof fn law_new_tables_can_be_undone(m: StorageModel, txn: TransactionId, schema: Schema)
    requires
        m.schema_made(txn, schema).1 is Ok,
    ensures
        can_be_undone(m, m.schema_made(txn, schema).0, txn),
{
    lemma_tree_made::<u64>(m.pager, txn.0);
}

proof fn lemma_rows_lengthened(
    m: PagerModel,
    txn: u64,
    root: PageId,
    entries: Seq<EntryView<u64>>,
    value: SqlValue,
    i: int,
)
    requires
        rows_lengthened(m, txn, root, entries, value, i).1 is Ok,
    ensures
        undoable(m, rows_lengthened(m, txn, root, entries, value, i).0, txn),
    decreases entries.len() - i,
{
    lemma_same(m, m.txns, txn);
    if 0 <= i < entries.len() {
        let row = row_of(entries[i].value)->Ok_0;
        let bytes = json_bytes(row_json(row.push(value)));
        let (a, r) = tree_put::<u64>(m, txn, root, entries[i].key, bytes);
        lemma_tree_put::<u64>(m, txn, root, entries[i].key, bytes);
        lemma_rows_lengthened(a, txn, r->Ok_0, entries, value, i + 1);
        let b = rows_lengthened(a, txn, r->Ok_0, entries, value, i + 1).0;
        lemma_trans(m, a, b, txn);
    }
}

/// Adding a column can be undone.
pub proof fn law_new_columns_can_be_undone(
    m: StorageModel,
    txn: TransactionId,
    table: Seq<char>,
    column: Seq<char>,
    schema: Schema,
    value: SqlValue,
    schema_fault: Option<ErrorView>,
    row_faults: Seq<Option<ErrorView>>,
)
    requires
        m.column_added(txn, table, column, schema, value, schema_fault, row_faults).1 is Ok,
    ensures
        can_be_undone(
            m,
            m.column_added(txn, table, column, schema, value, schema_fault, row_faults).0,
            txn,
        ),
{
    let (root, entries) = m.addition_target(txn, table, column)->Ok_0;
    lemma_rows_lengthened(m.pager, txn.0, root, entries, value, 0);
}

proof fn lemma_rows_listed(
    m: PagerModel,
    txn: u64,
    root: PageId,
    schema: Schema,
    index: IndexView,
    entries: Seq<EntryView<u64>>,
    i: int,
)
    requires
        rows_listed(m, txn, root, schema, index, entries, i).1 is Ok,
    ensures
        undoable(m, rows_listed(m, txn, root, schema, index, entries, i).0, txn),
    decreases entries.len() - i,
{
    lemma_same(m, m.txns, txn);
    if 0 <= i < entries.len() {
        let row = row_of(entries[i].value)->Ok_0;
        let key = projected(schema, index.columns, row)->Ok_0;
        let (a, r) = row_listed(m, txn, root, schema, index, entries[i]);
        lemma_entry_added(m, txn, root, key_bytes(key), RowId(entries[i].key));
        lemma_rows_listed(a, txn, r->Ok_0, schema, index, entries, i + 1);
        let b = rows_listed(a, txn, r->Ok_0, schema, index, entries, i + 1).0;
        lemma_trans(m, a, b, txn);
    }
}

/// Making an index can be undone.
pub proof fn law_new_indexes_can_be_undone(
    m: StorageModel,
    txn: TransactionId,
    table: Seq<char>,
    index: IndexView,
)
    requires
        m.index_made(txn, table, index).1 is Ok,
    ensures
        can_be_undone(m, m.index_made(txn, table, index).0, txn),
{
    let (schema, root) = table_of(m.catalog, table)->Ok_0;
    let entries = all_entries::<u64>(m.pager, root)->Ok_0;
    let (p, r) = tree_made::<ByteKey>(m.pager, txn.0);
    let q = rows_listed(p, txn.0, r->Ok_0, schema, index, entries, 0).0;
    lemma_tree_made::<ByteKey>(m.pager, txn.0);
    lemma_rows_listed(p, txn.0, r->Ok_0, schema, index, entries, 0);
    lemma_trans(m.pager, p, q, txn.0);
}

/// What changes no page can be undone.
pub proof fn law_changes_of_the_catalog_can_be_undone(
    m: StorageModel,
    txn: TransactionId,
    catalog: CatalogModel,
    txns: TxnModel,
)
    ensures
        can_be_undone(m, m.with_txns(txns).with_catalog(catalog), txn),
{
    lemma_same(m.pager, txns, txn.0);
}

/// What can be undone step by step can be undone.
pub proof fn law_steps_can_be_undone(
    a: StorageModel,
    b: StorageModel,
    c: StorageModel,
    txn: TransactionId,
)
    requires
        can_be_undone(a, b, txn),
        can_be_undone(b, c, txn),
    ensures
        can_be_undone(a, c, txn),
{
    lemma_trans(a.pager, b.pager, c.pager, txn.0);
}

// ---------------------------------------------------------------------------
// Rolling back

proof fn lemma_change_undone(m: PagerModel, c: CatalogModel, txn: u64, record: UndoView)
    requires
        change_undone(m, c, txn, record).1 is Ok,
    ensures
        undoable(m, change_undone(m, c, txn, record).0, txn),
{
    lemma_same(m, m.txns, txn);
    match record {
        UndoView::PageWrite { .. } => {},
        UndoView::InsertRow { table, row_id } => match table_of(c, table) {
            Err(_) => {},
            Ok((_, root)) => {
                lemma_removed_below::<u64>(m, txn, root, row_id.0, MAX_PAGES as nat);
            },
        },
        UndoView::DeleteRow { table, row_id, previous_bytes } => match table_of(c, table) {
            Err(_) => {},
            Ok((_, root)) => {
                lemma_tree_put::<u64>(m, txn, root, row_id.0, previous_bytes);
            },
        },
        UndoView::IndexInsert { table, index, row_id, key } => match index_of(c, table, index) {
            Err(_) => {},
            Ok(slot) => {
                lemma_entry_removed(m, txn, slot.root, key_bytes(key), row_id);
            },
        },
        UndoView::IndexDelete { table, index, row_id, key } => match index_of(c, table, index) {
            Err(_) => {},
            Ok(slot) => {
                lemma_entry_added(m, txn, slot.root, key_bytes(key), row_id);
            },
        },
    }
}

proof fn lemma_changes_undone(
    m: PagerModel,
    c: CatalogModel,
    txn: u64,
    records: Seq<UndoView>,
    i: int,
)
    requires
        changes_undone_from(m, c, txn, records, i).1 is Ok,
    ensures
        undoable(m, changes_undone_from(m, c, txn, records, i).0, txn),
    decreases records.len() - i,
{
    lemma_same(m, m.txns, txn);
    if 0 <= i < records.len() {
        let a = change_undone(m, c, txn, records[i]).0;
        lemma_change_undone(m, c, txn, records[i]);
        lemma_changes_undone(a, c, txn, records, i + 1);
        lemma_trans(m, a, changes_undone_from(a, c, txn, records, i + 1).0, txn);
    }
}

/// The engine once a transaction that was active is rolled back and the catalog is as it was
/// when the transaction began, before any garbage is purged.
pub open spec fn taken_back(m: StorageModel, txn: TransactionId) -> StorageModel {
    StorageModel {
        catalog: m.sessions[txn],
        sessions: m.sessions.remove(txn),
        ..m.active_rolled_back(txn).0
    }
}

pub proof fn lemma_begun(m: PagerModel, txn: u64)
    requires
        counted(m),
        m.begun_with(txn).1 is Ok,
    ensures
        counted(m.begun_with(txn).0),
        m.begun_with(txn).0.knows(txn),
        cached(m.begun_with(txn).0, txn),
        m.begun_with(txn).0.forgotten(txn).meta.page_count == m.meta.page_count,
        forall|x: PageId| #[trigger] m.begun_with(txn).0.forgotten(txn).read(x) == m.read(x),
{
    let b = m.begun_with(txn).0;
    let (s, t) = (m.txn_page_states, b.txn_page_states);
    assert forall|u: u64, p: PageId| #[trigger] wrote(t, u, p) implies wrote(s, u, p) by {}
    if m.meta.page_count != m.committed_page_count {
        let (u, p) = choose|u: u64, p: PageId| #[trigger]
            wrote(s, u, p) && m.meta.page_count == count_for(p);
        assert(wrote(t, u, p));
    }
    assert(t.remove(txn) =~= s);
    lemma_effective_count(s, m.committed_page_count, m.meta.page_count);
    assert forall|x: PageId| #[trigger] b.forgotten(txn).read(x) == m.read(x) by {
        assert(restored(b.page_cache, t[txn]) =~= m.page_cache);
    }
}

/// What a transaction did since it began, if it can be undone, can be committed too: its pages
/// are counted and cached.
pub proof fn law_what_can_be_undone_can_be_committed(
    m: StorageModel,
    level: IsolationLevel,
    n: StorageModel,
)
    requires
        counted(m.pager),
        m.began(level).1 is Ok,
        can_be_undone(m.began(level).0, n, m.began(level).1->Ok_0),
    ensures
        counted(n.pager),
        n.pager.knows(m.began(level).1->Ok_0.0),
        cached(n.pager, m.began(level).1->Ok_0.0),
{
    let (a, r) = m.began(level);
    let started = m.pager.with_txns(a.pager.txns);
    assert(a.pager == started.begun_with(r->Ok_0.0).0);
    lemma_begun(started, r->Ok_0.0);
    reveal(undoable);
}

/// A transaction that is rolled back leaves what the tables held when it began: whatever of the
/// above it did, all rows are there again, in the versions that they had. Garbage may be purged
/// after that; where none is, the engine is left so.
pub proof fn law_rollback_leaves_what_there_was(
    m: StorageModel,
    level: IsolationLevel,
    n: StorageModel,
)
    requires
        counted(m.pager),
        m.began(level).1 is Ok,
        can_be_undone(m.began(level).0, n, m.began(level).1->Ok_0),
        n.pager.txns.txns[m.began(level).1->Ok_0].status == TxnStatus::Active,
        n.rolled_back(m.began(level).1->Ok_0).1 is Ok,
    ensures
        n.rolled_back(m.began(level).1->Ok_0) == ({
            let (end, f) = taken_back(n, m.began(level).1->Ok_0).garbage_purged();
            (end, Ok::<_, ErrorView>(f))
        }),
        n.turned_back(m.began(level).1->Ok_0) == taken_back(n, m.began(level).1->Ok_0),
        counted(taken_back(n, m.began(level).1->Ok_0).pager),
        taken_back(n, m.began(level).1->Ok_0).pager.disk == m.pager.disk,
        taken_back(n, m.began(level).1->Ok_0).pager.committed_page_count
            == m.pager.committed_page_count,
        taken_back(n, m.began(level).1->Ok_0).pager.txn_page_states == m.pager.txn_page_states,
        taken_back(n, m.began(level).1->Ok_0).pager.meta.page_count == m.pager.meta.page_count,
        forall|x: PageId| #[trigger]
            taken_back(n, m.began(level).1->Ok_0).pager.read(x) == m.pager.read(x),
        forall|tables: Tables| #[trigger]
            rows_in(m, tables) ==> rows_in(taken_back(n, m.began(level).1->Ok_0), tables),
        forall|tables: Tables| #[trigger]
            rows_in(m, tables) && n.rolled_back(m.began(level).1->Ok_0).1->Ok_0.plans.len() == 0
                && n.rolled_back(m.began(level).1->Ok_0).1->Ok_0.fault is None ==> rows_in(
                n.rolled_back(m.began(level).1->Ok_0).0,
                tables,
            ),
{
    let (a, r) = m.began(level);
    let txn = r->Ok_0;
    let started = m.pager.with_txns(a.pager.txns);
    assert(a.pager == started.begun_with(txn.0).0);
    assert forall|x: PageId| #[trigger] started.read(x) == m.pager.read(x) by {}
    lemma_begun(started, txn.0);
    let b = n.writes_synced(txn).0;
    lemma_same(n.pager, b.pager.txns, txn.0);
    lemma_trans(a.pager, n.pager, b.pager, txn.0);
    let state = b.pager.txns.txns[txn];
    let taken = b.pager.with_txns(
        b.pager.txns.with_txn(txn, TxnView { undo_records: Seq::empty(), ..state }),
    );
    let records = state.undo_records.reverse();
    lemma_same(b.pager, taken.txns, txn.0);
    lemma_trans(a.pager, b.pager, taken, txn.0);
    lemma_changes_undone(taken, b.catalog, txn.0, records, 0);
    let c = changes_undone_from(taken, b.catalog, txn.0, records, 0).0;
    lemma_trans(a.pager, taken, c, txn.0);
    reveal(undoable);
    let back = taken_back(n, txn);
    assert forall|x: PageId| #[trigger] back.pager.read(x) == m.pager.read(x) by {
        assert(c.forgotten(txn.0).read(x) == a.pager.forgotten(txn.0).read(x));
    }
    assert(back.pager.meta.page_count == m.pager.meta.page_count);
    assert(back.pager.txn_page_states =~= m.pager.txn_page_states);
    lemma_rows_kept(m, back);
    assert forall|p: PageId| #[trigger] back.pager.page_cache.dom().contains(p) implies p.0
        < back.pager.meta.page_count by {
        assert(back.pager.read(p) is Ok);
        assert(m.pager.read(p) is Ok);
    }
    lemma_covers_exists(back.pager.txn_page_states, back.pager.committed_page_count);
    assert forall|u: u64, p: PageId| #[trigger]
        wrote(back.pager.txn_page_states, u, p) implies p.0 < back.pager.meta.page_count by {
        assert(wrote(a.pager.txn_page_states, u, p));
    }
    let (end, f) = back.garbage_purged();
    if f.plans.len() == 0 && f.fault is None {
        assert forall|x: PageId| #[trigger] end.pager.read(x) == m.pager.read(x) by {
            assert(back.pager.read(x) == m.pager.read(x));
        }
        lemma_rows_kept(m, end);
    }
}

// ---------------------------------------------------------------------------
// Counts

/// The pages of a pager that has just been opened are counted.
pub proof fn law_opened_pages_are_counted(file: Option<Seq<Seq<u8>>>, log: Option<Seq<u8>>)
    ensures
        opened(file, log, Map::empty()) matches Ok(p) ==> counted(p),
{
}

/// The pages of a pager stay counted when a transaction begins and when it is committed.
pub proof fn law_pages_stay_counted(m: PagerModel, txn: u64)
    requires
        counted(m),
    ensures
        counted(m.begun_with(txn).0),
        0 < m.meta.page_count && m.knows(txn) ==> counted(m.published(txn)) && m.published(
            txn,
        ).meta.page_count == m.meta.page_count,
{
    if m.begun_with(txn).1 is Ok {
        lemma_begun(m, txn);
    }
    if 0 < m.meta.page_count && m.knows(txn) {
        let s = m.txn_page_states;
        let alone = Map::<u64, Map<PageId, WriteView>>::empty().insert(txn, s[txn]);
        let rest = s.remove(txn);
        let count = m.meta_to_commit(txn).page_count;
        lemma_covers_exists(alone, m.committed_page_count);
        assert forall|u: u64, p: PageId| #[trigger] wrote(alone, u, p) implies wrote(
            s,
            u,
            p,
        ) by {}
        assert forall|u: u64, p: PageId| #[trigger] wrote(rest, u, p) implies wrote(
            s,
            u,
            p,
        ) by {}
        assert(covers(rest, count, m.meta.page_count)) by {
            if m.meta.page_count != count {
                let (u, p) = choose|u: u64, p: PageId| #[trigger]
                    wrote(s, u, p) && m.meta.page_count == count_for(p);
                if u == txn {
                    assert(wrote(alone, u, p));
                }
                assert(wrote(rest, u, p));
            }
        }
        lemma_effective_count(rest, count, m.meta.page_count);
        assert forall|p: PageId| #[trigger]
            m.published(txn).page_cache.dom().contains(p) implies p.0 < m.meta.page_count by {
            if s[txn].dom().contains(p) {
                assert(wrote(s, txn, p));
            }
        }
    }
}

} // verus!
