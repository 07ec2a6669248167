//! What searching an index of the paged engine finds.

use vstd::prelude::*;

use crate::common::error::ErrorView;
use crate::common::ordset::{lemma_sorted_exists, sorted};
use crate::common::ordmap::OrdKey;
use crate::common::schema::Schema;
use crate::common::value::{RowId, SqlValue, TransactionId};
use crate::v1::search_laws::grows;
use crate::v2::codec::{ids_of, key_of, projected};
use crate::v2::index_store::{is_wanted, Wanted};
use crate::v2::locks::{inside, BoundView, LockKindView, PredicateLockView};
use crate::v2::page::PageId;
use crate::v2::pager_model::PagerModel;
use crate::v2::storage_model::{
    key_bytes, listed, seen_at, with_key, with_key_from, SlotView, StorageModel,
};
use crate::v2::tree::{all_entries, child_from, first_leaf, leaf_for, leaves_from, MAX_PAGES};
use crate::v2::tree_node::{node_at, ByteKey, EntryView, NodeView};
use crate::v2::tx_types::SnapshotView;

verus! {

/// Whether a transaction sees a row with a key.
pub open spec fn shown(
    m: PagerModel,
    txn: TransactionId,
    snapshot: SnapshotView,
    schema: Schema,
    root: PageId,
    columns: Seq<Seq<char>>,
    id: RowId,
    key: Seq<SqlValue>,
) -> bool {
    seen_at(m, txn, snapshot, root, id) matches Ok(Some(row)) && projected(schema, columns, row)
        == Ok::<_, ErrorView>(key)
}

proof fn lemma_with_key_from(
    m: PagerModel,
    txn: TransactionId,
    snapshot: SnapshotView,
    schema: Schema,
    root: PageId,
    columns: Seq<Seq<char>>,
    key: Seq<SqlValue>,
    ids: Seq<RowId>,
    i: int,
    out: Seq<RowId>,
)
    requires
        0 <= i <= ids.len(),
    ensures
        with_key_from(m, txn, snapshot, schema, root, columns, key, ids, i, out) matches Ok(same)
            ==> forall|id: RowId| #[trigger]
            same.contains(id) <==> out.contains(id) || (ids.skip(i).contains(id) && shown(
                m,
                txn,
                snapshot,
                schema,
                root,
                columns,
                id,
                key,
            )),
    decreases ids.len() - i,
{
    if i < ids.len() {
        let next = if shown(m, txn, snapshot, schema, root, columns, ids[i], key) {
            out.push(ids[i])
        } else {
            out
        };
        lemma_with_key_from(m, txn, snapshot, schema, root, columns, key, ids, i + 1, next);
        match with_key_from(m, txn, snapshot, schema, root, columns, key, ids, i, out) {
            Ok(same) => {
                assert forall|id: RowId| #[trigger] same.contains(id) <==> out.contains(id) || (
                ids.skip(i).contains(id) && shown(
                    m,
                    txn,
                    snapshot,
                    schema,
                    root,
                    columns,
                    id,
                    key,
                )) by {
                    assert(ids.skip(i)[0] == ids[i]);
                    if ids.skip(i).contains(id) && id != ids[i] {
                        let k = choose|k: int| 0 <= k < ids.skip(i).len() && ids.skip(i)[k] == id;
                        assert(ids.skip(i + 1)[k - 1] == id);
                    }
                    if ids.skip(i + 1).contains(id) {
                        let rest = ids.skip(i + 1);
                        let k = choose|k: int| 0 <= k < rest.len() && rest[k] == id;
                        assert(ids.skip(i)[k + 1] == id);
                    }
                    if out.contains(id) {
                        let k = choose|k: int| 0 <= k < out.len() && out[k] == id;
                        assert(next[k] == id);
                    }
                    if next.contains(id) && !out.contains(id) {
                        let k = choose|k: int| 0 <= k < next.len() && next[k] == id;
                        assert(k == out.len());
                    }
                    if shown(m, txn, snapshot, schema, root, columns, ids[i], key) {
                        assert(next[out.len() as int] == ids[i]);
                    }
                }
            },
            Err(_) => {},
        }
    }
}

/// Of the rows that an index lists, those count that the transaction sees with the key, and no
/// others.
pub proof fn law_only_rows_seen_with_the_key_count(
    m: PagerModel,
    txn: TransactionId,
    snapshot: SnapshotView,
    schema: Schema,
    root: PageId,
    columns: Seq<Seq<char>>,
    key: Seq<SqlValue>,
    ids: Seq<RowId>,
)
    ensures
        with_key(m, txn, snapshot, schema, root, columns, key, ids) matches Ok(same) ==> forall|
            id: RowId,
        | #[trigger]
            same.contains(id) <==> ids.contains(id) && shown(
                m,
                txn,
                snapshot,
                schema,
                root,
                columns,
                id,
                key,
            ),
{
    lemma_with_key_from(m, txn, snapshot, schema, root, columns, key, ids, 0, Seq::empty());
    assert(ids.skip(0) =~= ids);
}

/// The snapshot that a transaction reads by stays while it does nothing else.
proof fn lemma_snapshot_again(m: StorageModel, txn: TransactionId)
    ensures
        m.snapshot_of(txn).0.snapshot_of(txn) == m.snapshot_of(txn),
        m.snapshot_of(txn).0.pager == m.pager.with_txns(m.snapshot_of(txn).0.pager.txns),
        m.snapshot_of(txn).0.catalog == m.catalog,
{
    let a = m.snapshot_of(txn).0;
    assert(a.pager.txns.active_set() =~= m.pager.txns.active_set());
    let b = a.snapshot_of(txn).0;
    assert(b.pager.txns.txns =~= a.pager.txns.txns);
    assert(b =~= a);
}

proof fn lemma_leaf_alike(a: PagerModel, b: PagerModel, id: PageId, key: u64, depth: nat)
    requires
        forall|x: PageId| #[trigger] b.read(x) == a.read(x),
    ensures
        leaf_for::<u64>(b, id, key, depth) == leaf_for::<u64>(a, id, key, depth),
    decreases depth,
{
    if depth > 0 {
        assert(b.read(id) == a.read(id));
        match node_at::<u64>(a, id) {
            Ok(NodeView::Internal { separators, children }) => {
                let i = child_from::<u64>(separators, key, 0);
                if i < children.len() {
                    lemma_leaf_alike(a, b, children[i], key, (depth - 1) as nat);
                }
            },
            _ => {},
        }
    }
}

/// Whether a transaction goes on in an engine as it would in another: it reads the same pages by
/// the same snapshot.
spec fn reads_alike(m: StorageModel, n: StorageModel, txn: TransactionId) -> bool {
    &&& forall|x: PageId| #[trigger] n.pager.read(x) == m.pager.read(x)
    &&& n.snapshot_of(txn).1 == m.snapshot_of(txn).1
}

proof fn lemma_shown_alike(
    m: StorageModel,
    n: StorageModel,
    txn: TransactionId,
    snapshot: SnapshotView,
    schema: Schema,
    root: PageId,
    columns: Seq<Seq<char>>,
    id: RowId,
    key: Seq<SqlValue>,
)
    requires
        reads_alike(m, n, txn),
    ensures
        shown(n.pager, txn, snapshot, schema, root, columns, id, key) == shown(
            m.pager,
            txn,
            snapshot,
            schema,
            root,
            columns,
            id,
            key,
        ),
{
    lemma_leaf_alike(m.pager, n.pager, root, id.0, MAX_PAGES as nat);
}

/// Whether an entry of an index lists a row under a key.
pub open spec fn lists(entry: EntryView<Seq<u8>>, id: RowId, key: Seq<SqlValue>) -> bool {
    &&& key_of(entry.key) == Ok::<_, ErrorView>(key)
    &&& ids_of(entry.value) matches Ok(ids) && ids.contains(id)
}

/// Whether a row is found among entries of an index from one on: an entry lists it under a key
/// that is wanted, and the transaction sees it with that key.
pub open spec fn found_from(
    m: StorageModel,
    txn: TransactionId,
    schema: Schema,
    root: PageId,
    columns: Seq<Seq<char>>,
    w: Wanted,
    entries: Seq<EntryView<Seq<u8>>>,
    i: int,
    id: RowId,
) -> bool {
    exists|j: int, key: Seq<SqlValue>|
        #![trigger lists(entries[j], id, key)]
        i <= j < entries.len() && lists(entries[j], id, key) && is_wanted(w, key) && shown(
            m.pager,
            txn,
            m.snapshot_of(txn).1->Ok_0,
            schema,
            root,
            columns,
            id,
            key,
        )
}

proof fn lemma_entry_gathered(
    m: StorageModel,
    n: StorageModel,
    txn: TransactionId,
    schema: Schema,
    root: PageId,
    columns: Seq<Seq<char>>,
    w: Wanted,
    entry: EntryView<Seq<u8>>,
)
    requires
        reads_alike(m, n, txn),
        n.entry_gathered(txn, schema, root, columns, w, entry).1 is Ok,
    ensures
        reads_alike(m, n.entry_gathered(txn, schema, root, columns, w, entry).0, txn),
        forall|id: RowId| #[trigger]
            n.entry_gathered(txn, schema, root, columns, w, entry).1->Ok_0.contains(id) <==> exists|
                key: Seq<SqlValue>,
            | #[trigger]
                lists(entry, id, key) && is_wanted(w, key) && shown(
                    m.pager,
                    txn,
                    m.snapshot_of(txn).1->Ok_0,
                    schema,
                    root,
                    columns,
                    id,
                    key,
                ),
{
    let (after, r) = n.entry_gathered(txn, schema, root, columns, w, entry);
    let got = r->Ok_0;
    let key = key_of(entry.key)->Ok_0;
    lemma_snapshot_again(n, txn);
    let b = n.snapshot_of(txn).0;
    assert forall|x: PageId| #[trigger] b.pager.read(x) == m.pager.read(x) by {
        assert(n.pager.read(x) == m.pager.read(x));
    }
    assert(reads_alike(m, b, txn));
    let snapshot = m.snapshot_of(txn).1->Ok_0;
    if is_wanted(w, key) && ids_of(entry.value) is Ok {
        let ids = ids_of(entry.value)->Ok_0;
        law_only_rows_seen_with_the_key_count(b.pager, txn, snapshot, schema, root, columns, key, ids);
    }
    assert forall|id: RowId| #[trigger] got.contains(id) <==> exists|k: Seq<SqlValue>| #[trigger]
        lists(entry, id, k) && is_wanted(w, k) && shown(
            m.pager,
            txn,
            snapshot,
            schema,
            root,
            columns,
            id,
            k,
        ) by {
        lemma_shown_alike(m, b, txn, snapshot, schema, root, columns, id, key);
        if got.contains(id) {
            assert(lists(entry, id, key));
        }
    }
}

proof fn lemma_gathered_from(
    m: StorageModel,
    n: StorageModel,
    txn: TransactionId,
    schema: Schema,
    root: PageId,
    columns: Seq<Seq<char>>,
    w: Wanted,
    entries: Seq<EntryView<Seq<u8>>>,
    i: int,
    out: Set<RowId>,
)
    requires
        0 <= i <= entries.len(),
        reads_alike(m, n, txn),
        out.finite(),
        n.gathered_from(txn, schema, root, columns, w, entries, i, out).1 is Ok,
    ensures
        n.gathered_from(txn, schema, root, columns, w, entries, i, out).1->Ok_0.finite(),
        forall|id: RowId| #[trigger]
            n.gathered_from(txn, schema, root, columns, w, entries, i, out).1->Ok_0.contains(id)
                <==> out.contains(id) || found_from(
                m,
                txn,
                schema,
                root,
                columns,
                w,
                entries,
                i,
                id,
            ),
    decreases entries.len() - i,
{
    let all = n.gathered_from(txn, schema, root, columns, w, entries, i, out).1->Ok_0;
    if i < entries.len() {
        let (a, r) = n.entry_gathered(txn, schema, root, columns, w, entries[i]);
        let ids = r->Ok_0;
        lemma_entry_gathered(m, n, txn, schema, root, columns, w, entries[i]);
        let next = out.union(ids.to_set());
        vstd::seq_lib::seq_to_set_is_finite(ids);
        lemma_gathered_from(m, a, txn, schema, root, columns, w, entries, i + 1, next);
        assert forall|id: RowId| #[trigger] all.contains(id) <==> out.contains(id) || found_from(
            m,
            txn,
            schema,
            root,
            columns,
            w,
            entries,
            i,
            id,
        ) by {
            assert(next.contains(id) == (out.contains(id) || ids.contains(id)));
            if found_from(m, txn, schema, root, columns, w, entries, i, id) {
                let (j, key) = choose|j: int, key: Seq<SqlValue>|
                    #![trigger lists(entries[j], id, key)]
                    i <= j < entries.len() && lists(entries[j], id, key) && is_wanted(w, key) && shown(
                        m.pager,
                        txn,
                        m.snapshot_of(txn).1->Ok_0,
                        schema,
                        root,
                        columns,
                        id,
                        key,
                    );
                if j > i {
                    assert(found_from(m, txn, schema, root, columns, w, entries, i + 1, id));
                }
            }
            if ids.contains(id) {
                let key = choose|key: Seq<SqlValue>| #[trigger]
                    lists(entries[i], id, key) && is_wanted(w, key) && shown(
                        m.pager,
                        txn,
                        m.snapshot_of(txn).1->Ok_0,
                        schema,
                        root,
                        columns,
                        id,
                        key,
                    );
                assert(lists(entries[i], id, key));
            }
        }
    }
}

/// A search of an index finds exactly the rows that it lists under a wanted key and that the
/// transaction sees with that key, each once and in the order of their numbers.
proof fn lemma_gathered(
    m: StorageModel,
    n: StorageModel,
    txn: TransactionId,
    schema: Schema,
    root: PageId,
    slot: SlotView,
    w: Wanted,
    entries: Seq<EntryView<Seq<u8>>>,
)
    requires
        reads_alike(m, n, txn),
        all_entries::<ByteKey>(n.pager, slot.root) == Ok::<_, ErrorView>(entries),
        n.gathered(txn, schema, root, slot, w).1 is Ok,
    ensures
        grows(n.gathered(txn, schema, root, slot, w).1->Ok_0),
        forall|id: RowId| #[trigger]
            n.gathered(txn, schema, root, slot, w).1->Ok_0.contains(id) <==> found_from(
                m,
                txn,
                schema,
                root,
                slot.meta.columns,
                w,
                entries,
                0,
                id,
            ),
{
    lemma_gathered_from(
        m,
        n,
        txn,
        schema,
        root,
        slot.meta.columns,
        w,
        entries,
        0,
        Set::empty(),
    );
    let all = n.gathered_from(
        txn,
        schema,
        root,
        slot.meta.columns,
        w,
        entries,
        0,
        Set::empty(),
    ).1->Ok_0;
    lemma_sorted_exists::<RowId>(all);
    let ids = sorted::<RowId>(all);
    assert forall|i: int, j: int|
        #![trigger ids[i], ids[j]]
        0 <= i < j < ids.len() implies ids[i].0 < ids[j].0 by {
        assert(<RowId as OrdKey>::before(ids[i], ids[j]));
    }
    assert forall|id: RowId| #[trigger] ids.contains(id) <==> all.contains(id) by {
        assert(ids.to_set().contains(id) == ids.contains(id));
    }
}

proof fn lemma_locked(m: StorageModel, txn: TransactionId, lock: PredicateLockView)
    ensures
        reads_alike(m, m.part_locked(lock).0, txn),
{
    let a = m.part_locked(lock).0;
    assert(a.pager.txns.active_set() =~= m.pager.txns.active_set());
}

/// The rows that an index lists, in an engine.
pub open spec fn index_entries(m: StorageModel, slot: SlotView) -> Seq<EntryView<Seq<u8>>> {
    all_entries::<ByteKey>(m.pager, slot.root)->Ok_0
}

/// A search for a prefix finds exactly the rows that the index lists under a key that begins with
/// its values, and that the transaction sees with that key; each once and in the order of their
/// numbers. Where the prefix is longer than a key, the search is refused.
pub proof fn law_prefixes_find_listed_rows(
    m: StorageModel,
    txn: TransactionId,
    table: Seq<char>,
    index: Seq<char>,
    prefix: Seq<SqlValue>,
    id: RowId,
)
    requires
        m.search_target(txn, table, index) is Ok,
    ensures
        prefix.len() > m.search_target(txn, table, index)->Ok_0.2.meta.columns.len()
            ==> m.prefix_scanned(txn, table, index, prefix).1 is Err,
        m.prefix_scanned(txn, table, index, prefix).1 matches Ok(ids) ==> {
            let (schema, root, slot) = m.search_target(txn, table, index)->Ok_0;
            &&& grows(ids)
            &&& ids.contains(id) <==> exists|j: int, key: Seq<SqlValue>|
                #![trigger lists(index_entries(m, slot)[j], id, key)]
                0 <= j < index_entries(m, slot).len() && lists(index_entries(m, slot)[j], id, key)
                    && prefix.len() <= key.len() && key.take(prefix.len() as int) == prefix && shown(
                    m.pager,
                    txn,
                    m.snapshot_of(txn).1->Ok_0,
                    schema,
                    root,
                    slot.meta.columns,
                    id,
                    key,
                )
        },
{
    let (schema, root, slot) = m.search_target(txn, table, index)->Ok_0;
    let lock = PredicateLockView {
        txn_id: txn,
        table,
        index: Some(index),
        kind: LockKindView::NextKey { prefix, lower: None, upper: None },
    };
    lemma_locked(m, txn, lock);
    let a = m.part_locked(lock).0;
    let w = Wanted { prefix, bounds: None };
    if m.prefix_scanned(txn, table, index, prefix).1 is Ok {
        lemma_entries_alike(m.pager, a.pager, slot.root);
        lemma_gathered(m, a, txn, schema, root, slot, w, index_entries(m, slot));
    }
}

/// A search for a range finds exactly the rows that the index lists under a key that begins with
/// the prefix and goes on with a value that both bounds let in, and that the transaction sees
/// with that key; each once and in the order of their numbers. Where the prefix leaves no value
/// to go on with, the search is refused.
pub proof fn law_ranges_find_listed_rows(
    m: StorageModel,
    txn: TransactionId,
    table: Seq<char>,
    index: Seq<char>,
    prefix: Seq<SqlValue>,
    lower: Option<BoundView>,
    upper: Option<BoundView>,
    id: RowId,
)
    requires
        m.search_target(txn, table, index) is Ok,
    ensures
        prefix.len() >= m.search_target(txn, table, index)->Ok_0.2.meta.columns.len()
            ==> m.range_scanned(txn, table, index, prefix, lower, upper).1 is Err,
        m.range_scanned(txn, table, index, prefix, lower, upper).1 matches Ok(ids) ==> {
            let (schema, root, slot) = m.search_target(txn, table, index)->Ok_0;
            &&& grows(ids)
            &&& ids.contains(id) <==> exists|j: int, key: Seq<SqlValue>|
                #![trigger lists(index_entries(m, slot)[j], id, key)]
                0 <= j < index_entries(m, slot).len() && lists(index_entries(m, slot)[j], id, key)
                    && prefix.len() < key.len() && key.take(prefix.len() as int) == prefix && inside(
                    key[prefix.len() as int],
                    lower,
                ) && inside(key[prefix.len() as int], upper) && shown(
                    m.pager,
                    txn,
                    m.snapshot_of(txn).1->Ok_0,
                    schema,
                    root,
                    slot.meta.columns,
                    id,
                    key,
                )
        },
{
    let (schema, root, slot) = m.search_target(txn, table, index)->Ok_0;
    let lock = PredicateLockView {
        txn_id: txn,
        table,
        index: Some(index),
        kind: LockKindView::NextKey { prefix, lower, upper },
    };
    lemma_locked(m, txn, lock);
    let a = m.part_locked(lock).0;
    let w = Wanted { prefix, bounds: Some((lower, upper)) };
    if m.range_scanned(txn, table, index, prefix, lower, upper).1 is Ok {
        lemma_entries_alike(m.pager, a.pager, slot.root);
        lemma_gathered(m, a, txn, schema, root, slot, w, index_entries(m, slot));
    }
}

/// Looking up a key finds exactly the rows that the index lists under it and that the transaction
/// sees with it. Where the key has too many or too few values, it is refused.
pub proof fn law_lookups_find_listed_rows(
    m: StorageModel,
    txn: TransactionId,
    table: Seq<char>,
    index: Seq<char>,
    key: Seq<SqlValue>,
    id: RowId,
)
    requires
        m.search_target(txn, table, index) is Ok,
    ensures
        key.len() != m.search_target(txn, table, index)->Ok_0.2.meta.columns.len() ==> m.looked_up(
            txn,
            table,
            index,
            key,
        ).1 is Err,
        m.looked_up(txn, table, index, key).1 matches Ok(ids) ==> {
            let (schema, root, slot) = m.search_target(txn, table, index)->Ok_0;
            ids.contains(id) <==> (listed(m.pager, slot.root, key_bytes(key)) matches Ok(Some(under))
                && under.contains(id) && shown(
                m.pager,
                txn,
                m.snapshot_of(txn).1->Ok_0,
                schema,
                root,
                slot.meta.columns,
                id,
                key,
            ))
        },
{
    let (schema, root, slot) = m.search_target(txn, table, index)->Ok_0;
    let lock = PredicateLockView {
        txn_id: txn,
        table,
        index: Some(index),
        kind: LockKindView::Record(key),
    };
    lemma_locked(m, txn, lock);
    let a = m.part_locked(lock).0;
    lemma_byte_leaf_alike(m.pager, a.pager, slot.root, key_bytes(key), MAX_PAGES as nat);
    lemma_snapshot_again(a, txn);
    let b = a.snapshot_of(txn).0;
    assert forall|x: PageId| #[trigger] b.pager.read(x) == m.pager.read(x) by {
        assert(a.pager.read(x) == m.pager.read(x));
    }
    assert(reads_alike(m, b, txn));
    let snapshot = m.snapshot_of(txn).1->Ok_0;
    match listed(a.pager, slot.root, key_bytes(key)) {
        Ok(Some(under)) => {
            law_only_rows_seen_with_the_key_count(
                b.pager,
                txn,
                snapshot,
                schema,
                root,
                slot.meta.columns,
                key,
                under,
            );
            lemma_shown_alike(m, b, txn, snapshot, schema, root, slot.meta.columns, id, key);
        },
        _ => {},
    }
}

proof fn lemma_first_leaf_alike(a: PagerModel, b: PagerModel, id: PageId, depth: nat)
    requires
        forall|x: PageId| #[trigger] b.read(x) == a.read(x),
    ensures
        first_leaf::<ByteKey>(b, id, depth) == first_leaf::<ByteKey>(a, id, depth),
    decreases depth,
{
    if depth > 0 {
        assert(b.read(id) == a.read(id));
        match node_at::<ByteKey>(a, id) {
            Ok(NodeView::Internal { separators, children }) => {
                if children.len() > 0 {
                    lemma_first_leaf_alike(a, b, children[0], (depth - 1) as nat);
                }
            },
            _ => {},
        }
    }
}

proof fn lemma_leaves_alike(
    a: PagerModel,
    b: PagerModel,
    at: Option<PageId>,
    left: nat,
    out: Seq<EntryView<Seq<u8>>>,
)
    requires
        forall|x: PageId| #[trigger] b.read(x) == a.read(x),
    ensures
        leaves_from::<ByteKey>(b, at, left, out) == leaves_from::<ByteKey>(a, at, left, out),
    decreases left,
{
    match at {
        Some(id) if left > 0 => {
            assert(b.read(id) == a.read(id));
            match node_at::<ByteKey>(a, id) {
                Ok(NodeView::Leaf { entries, next }) => {
                    lemma_leaves_alike(a, b, next, (left - 1) as nat, out + entries);
                },
                _ => {},
            }
        },
        _ => {},
    }
}

proof fn lemma_entries_alike(a: PagerModel, b: PagerModel, root: PageId)
    requires
        forall|x: PageId| #[trigger] b.read(x) == a.read(x),
    ensures
        all_entries::<ByteKey>(b, root) == all_entries::<ByteKey>(a, root),
{
    lemma_first_leaf_alike(a, b, root, MAX_PAGES as nat);
    match first_leaf::<ByteKey>(a, root, MAX_PAGES as nat) {
        Ok(id) => {
            lemma_leaves_alike(a, b, Some(id), MAX_PAGES as nat, Seq::empty());
        },
        _ => {},
    }
}

proof fn lemma_byte_leaf_alike(a: PagerModel, b: PagerModel, id: PageId, key: Seq<u8>, depth: nat)
    requires
        forall|x: PageId| #[trigger] b.read(x) == a.read(x),
    ensures
        leaf_for::<ByteKey>(b, id, key, depth) == leaf_for::<ByteKey>(a, id, key, depth),
    decreases depth,
{
    if depth > 0 {
        assert(b.read(id) == a.read(id));
        match node_at::<ByteKey>(a, id) {
            Ok(NodeView::Internal { separators, children }) => {
                let i = child_from::<ByteKey>(separators, key, 0);
                if i < children.len() {
                    lemma_byte_leaf_alike(a, b, children[i], key, (depth - 1) as nat);
                }
            },
            _ => {},
        }
    }
}

} // verus!
