//! What holds of the tables of the paged engine: which rows are refused, and what making,
//! dropping and changing a table or an index leaves of it and of the others.

use vstd::prelude::*;

use crate::common::error::ErrorView;
use crate::common::json::json_bytes;
use crate::common::ordset::{lemma_sorted_exists, sorted};
use crate::common::schema::{IndexMeta, Schema};
use crate::common::value::{RowId, SqlValue, TransactionId};
use crate::v2::catalog::{next_number, CatalogModel};
use crate::v2::codec::{changed_bytes, fresh, ids_json, projected, versions_json};
use crate::v2::index_laws::{law_only_rows_seen_with_the_key_count, shown};
use crate::v2::locks::IndexKeyView;
use crate::v2::page::PageId;
use crate::v2::pager_model::PagerModel;
use crate::v2::row_changes::{both_keys_from, touched_from, ChangeView};
use crate::v2::storage_model::{
    entry_added, entry_removed, ids_with, ids_without, index_of, indexes_of, key_bytes, keys_from,
    listed, named_keys, ordered, others, placed, rivals, roots_of, row_keys, seen_at, seen_rows,
    slots, slots_from, table_of, uniqueness, with_key, FaultsView, PlanView, SlotView, StorageModel,
};
use crate::v2::tree::{path_read, MAX_PAGES};
use crate::v2::tree_node::ByteKey;
use crate::v2::tree_shape::{lemma_tree_put, lemma_tree_removed, tree_became, Shape};
use crate::v2::tx_types::{SnapshotView, UndoView};

verus! {

/// Whether nothing of a table is another in two catalogs.
pub open spec fn same_table(a: CatalogModel, b: CatalogModel, table: Seq<char>) -> bool {
    &&& a.schemas.dom().contains(table) == b.schemas.dom().contains(table)
    &&& a.schemas.dom().contains(table) ==> a.schemas[table] == b.schemas[table]
    &&& a.table_roots.dom().contains(table) == b.table_roots.dom().contains(table)
    &&& a.table_roots.dom().contains(table) ==> a.table_roots[table] == b.table_roots[table]
    &&& a.next_row_ids.dom().contains(table) == b.next_row_ids.dom().contains(table)
    &&& a.next_row_ids.dom().contains(table) ==> a.next_row_ids[table] == b.next_row_ids[table]
    &&& indexes_of(a, table) == indexes_of(b, table)
    &&& roots_of(a, table) == roots_of(b, table)
}

/// Whether nothing is kept under a name.
pub open spec fn nothing_under(c: CatalogModel, table: Seq<char>) -> bool {
    &&& !c.schemas.dom().contains(table)
    &&& !c.table_roots.dom().contains(table)
    &&& !c.next_row_ids.dom().contains(table)
    &&& !c.indexes.dom().contains(table)
    &&& !c.index_roots.dom().contains(table)
}

/// Whether an engine has the catalog and the pages of another, whatever its transactions are.
pub open spec fn same_data(a: StorageModel, b: StorageModel) -> bool {
    &&& b.catalog == a.catalog
    &&& b.pager == a.pager.with_txns(b.pager.txns)
}

// ---------------------------------------------------------------------------
// Rows that are refused

/// A row whose values are at fault is not inserted, and no row is changed into it. The same holds
/// of a row with too many or too few values, of one for a table that is not there, and of a
/// transaction that is over. The engine stays as it was.
pub proof fn law_refused_rows_change_nothing(
    m: StorageModel,
    txn: TransactionId,
    table: Seq<char>,
    id: RowId,
    row: Seq<SqlValue>,
    faults: FaultsView,
)
    requires
        faults.values is Some || !m.catalog.schemas.dom().contains(table) || row.len()
            != m.catalog.schemas[table].columns@.len() || !m.pager.txns.is_active(txn),
    ensures
        m.inserted(txn, table, row, faults).1 is Err,
        m.inserted(txn, table, row, faults).0 == m,
        m.row_updated(txn, table, id, row, faults).1 is Err,
        m.row_updated(txn, table, id, row, faults).0 == m,
{
}

/// A row whose key is at fault is not inserted, and a row that is another is not changed into it.
/// No page and no table becomes another.
pub proof fn law_rows_with_faulty_keys_are_refused(
    m: StorageModel,
    txn: TransactionId,
    table: Seq<char>,
    id: RowId,
    row: Seq<SqlValue>,
    faults: FaultsView,
)
    requires
        faults.key is Some,
    ensures
        m.inserted(txn, table, row, faults).1 is Err,
        same_data(m, m.inserted(txn, table, row, faults).0),
        same_data(m, m.row_updated(txn, table, id, row, faults).0),
        m.row_updated(txn, table, id, row, faults).1 is Ok ==> {
            let at = m.snapshot_of(txn);
            let seen = seen_at(
                at.0.pager,
                txn,
                at.1->Ok_0,
                m.catalog.table_roots[table],
                id,
            );
            seen == Ok::<Option<Seq<SqlValue>>, ErrorView>(None) || seen == Ok::<_, ErrorView>(Some(row))
        },
{
}

/// Changing a row that the transaction does not see, or into what it is, changes neither a page
/// nor a table; nor does deleting a row that it does not see.
pub proof fn law_idle_changes_change_nothing(
    m: StorageModel,
    txn: TransactionId,
    table: Seq<char>,
    id: RowId,
    row: Seq<SqlValue>,
    faults: FaultsView,
)
    requires
        m.catalog.table_roots.dom().contains(table),
    ensures
        ({
            let at = m.snapshot_of(txn);
            let seen = seen_at(
                at.0.pager,
                txn,
                at.1->Ok_0,
                m.catalog.table_roots[table],
                id,
            );
            &&& seen == Ok::<Option<Seq<SqlValue>>, ErrorView>(None) ==> same_data(m, m.row_deleted(txn, table, id).0)
            &&& seen == Ok::<Option<Seq<SqlValue>>, ErrorView>(None) || seen == Ok::<_, ErrorView>(Some(row))
                ==> same_data(m, m.row_updated(txn, table, id, row, faults).0)
        }),
{
}

proof fn lemma_slots_from(
    c: CatalogModel,
    table: Seq<char>,
    names: Seq<Seq<char>>,
    i: int,
    out: Seq<SlotView>,
)
    requires
        0 <= i <= names.len(),
    ensures
        slots_from(c, table, names, i, out) matches Ok(list) ==> {
            &&& list.len() == out.len() + names.len() - i
            &&& forall|k: int| 0 <= k < out.len() ==> #[trigger] list[k] == out[k]
            &&& forall|k: int|
                out.len() <= k < list.len() ==> {
                    &&& (#[trigger] list[k]).name == names[k - out.len() + i]
                    &&& list[k].meta == indexes_of(c, table)[list[k].name]
                    &&& list[k].root == roots_of(c, table)[list[k].name]
                    &&& roots_of(c, table).dom().contains(list[k].name)
                }
        },
    decreases names.len() - i,
{
    if i < names.len() && roots_of(c, table).dom().contains(names[i]) {
        let next = out.push(
            SlotView {
                name: names[i],
                meta: indexes_of(c, table)[names[i]],
                root: roots_of(c, table)[names[i]],
            },
        );
        lemma_slots_from(c, table, names, i + 1, next);
        match slots_from(c, table, names, i, out) {
            Ok(list) => {
                assert forall|k: int| 0 <= k < out.len() implies #[trigger] list[k] == out[k] by {
                    assert(next[k] == out[k]);
                }
                assert(list[out.len() as int] == next[out.len() as int]);
            },
            Err(_) => {},
        }
    }
}

/// The indexes that a change of a table concerns are all indexes of the table, each with its
/// columns and its root.
pub proof fn law_all_indexes_are_kept_in_step(
    c: CatalogModel,
    table: Seq<char>,
    name: Seq<char>,
    slot: SlotView,
)
    requires
        indexes_of(c, table).dom().finite(),
    ensures
        slots(c, table) matches Ok(list) ==> (list.contains(slot) <==> (indexes_of(
            c,
            table,
        ).dom().contains(slot.name) && index_of(c, table, slot.name) == Ok::<_, ErrorView>(slot))),
        slots(c, table) is Ok && indexes_of(c, table).dom().contains(name) ==> index_of(
            c,
            table,
            name,
        ) is Ok,
{
    let names = sorted::<String>(indexes_of(c, table).dom());
    lemma_sorted_exists::<String>(indexes_of(c, table).dom());
    lemma_slots_from(c, table, names, 0, Seq::empty());
    match slots(c, table) {
        Ok(list) => {
            assert forall|n: Seq<char>| indexes_of(c, table).dom().contains(n) implies exists|k: int|
                0 <= k < list.len() && (#[trigger] list[k]).name == n by {
                assert(names.to_set().contains(n));
                let k = choose|k: int| 0 <= k < names.len() && names[k] == n;
                assert(list[k].name == n);
            }
            if list.contains(slot) {
                let k = choose|k: int| 0 <= k < list.len() && list[k] == slot;
                assert(names[k] == slot.name);
                assert(names.to_set().contains(slot.name));
            }
            if indexes_of(c, table).dom().contains(name) {
                let k = choose|k: int| 0 <= k < list.len() && (#[trigger] list[k]).name == name;
                assert(roots_of(c, table).dom().contains(name));
            }
            if indexes_of(c, table).dom().contains(slot.name) && index_of(c, table, slot.name)
                == Ok::<_, ErrorView>(slot) {
                let k = choose|k: int| 0 <= k < list.len() && (#[trigger] list[k]).name == slot.name;
                assert(list[k] == slot);
            }
        },
        Err(_) => {},
    }
}

proof fn lemma_keys_from(
    schema: Schema,
    list: Seq<SlotView>,
    row: Seq<SqlValue>,
    i: int,
    out: Seq<Seq<SqlValue>>,
)
    requires
        0 <= i <= list.len(),
        out.len() == i,
    ensures
        keys_from(schema, list, row, i, out) matches Ok(keys) ==> {
            &&& keys.len() == list.len()
            &&& forall|k: int| 0 <= k < i ==> #[trigger] keys[k] == out[k]
            &&& forall|k: int|
                i <= k < list.len() ==> projected(schema, list[k].meta.columns, row) == Ok::<
                    _,
                    ErrorView,
                >(#[trigger] keys[k])
        },
    decreases list.len() - i,
{
    if i < list.len() {
        match projected(schema, list[i].meta.columns, row) {
            Ok(key) => {
                let next = out.push(key);
                lemma_keys_from(schema, list, row, i + 1, next);
                match keys_from(schema, list, row, i, out) {
                    Ok(keys) => {
                        assert(keys[i] == next[i]);
                        assert forall|k: int| 0 <= k < i implies #[trigger] keys[k] == out[k] by {
                            assert(next[k] == out[k]);
                        }
                    },
                    Err(_) => {},
                }
            },
            Err(_) => {},
        }
    }
}

/// A row is entered into each index with the values that it has in the columns of the index.
pub proof fn law_rows_are_entered_with_their_own_keys(
    schema: Schema,
    list: Seq<SlotView>,
    row: Seq<SqlValue>,
    k: int,
)
    requires
        0 <= k < list.len(),
    ensures
        row_keys(schema, list, row) matches Ok(keys) ==> keys.len() == list.len() && projected(
            schema,
            list[k].meta.columns,
            row,
        ) == Ok::<_, ErrorView>(keys[k]),
{
    lemma_keys_from(schema, list, row, 0, Seq::empty());
}

proof fn lemma_both_keys_from(
    schema: Schema,
    list: Seq<SlotView>,
    before: Seq<SqlValue>,
    after: Seq<SqlValue>,
    i: int,
    old_keys: Seq<Seq<SqlValue>>,
    new_keys: Seq<Seq<SqlValue>>,
)
    requires
        0 <= i <= list.len(),
        old_keys.len() == i,
        new_keys.len() == i,
    ensures
        both_keys_from(schema, list, before, after, i, old_keys, new_keys) matches Ok(keys) ==> {
            &&& keys.0.len() == list.len()
            &&& keys.1.len() == list.len()
            &&& forall|k: int| 0 <= k < i ==> #[trigger] keys.0[k] == old_keys[k]
            &&& forall|k: int| 0 <= k < i ==> #[trigger] keys.1[k] == new_keys[k]
            &&& forall|k: int|
                i <= k < list.len() ==> projected(schema, list[k].meta.columns, before) == Ok::<
                    _,
                    ErrorView,
                >(#[trigger] keys.0[k])
            &&& forall|k: int|
                i <= k < list.len() ==> projected(schema, list[k].meta.columns, after) == Ok::<
                    _,
                    ErrorView,
                >(#[trigger] keys.1[k])
        },
    decreases list.len() - i,
{
    if i < list.len() {
        let a = projected(schema, list[i].meta.columns, before);
        let b = projected(schema, list[i].meta.columns, after);
        if a is Ok && b is Ok {
            let old_next = old_keys.push(a->Ok_0);
            let new_next = new_keys.push(b->Ok_0);
            lemma_both_keys_from(schema, list, before, after, i + 1, old_next, new_next);
            match both_keys_from(schema, list, before, after, i, old_keys, new_keys) {
                Ok(keys) => {
                    assert(keys.0[i] == old_next[i]);
                    assert(keys.1[i] == new_next[i]);
                    assert forall|k: int| 0 <= k < i implies #[trigger] keys.0[k] == old_keys[k] by {
                        assert(old_next[k] == old_keys[k]);
                    }
                    assert forall|k: int| 0 <= k < i implies #[trigger] keys.1[k] == new_keys[k] by {
                        assert(new_next[k] == new_keys[k]);
                    }
                },
                Err(_) => {},
            }
        }
    }
}

/// A row that changes leaves each index with the values that it had, and comes back with those
/// that it has.
pub proof fn law_rows_move_between_their_own_keys(
    m: StorageModel,
    table: Seq<char>,
    schema: Schema,
    root: PageId,
    before: Seq<SqlValue>,
    after: Seq<SqlValue>,
    k: int,
)
    ensures
        m.change_plan(table, schema, root, before, after) matches Ok(change) ==> {
            &&& change.plan.root == root
            &&& slots(m.catalog, table) == Ok::<_, ErrorView>(change.plan.slots)
            &&& 0 <= k < change.plan.slots.len() ==> {
                &&& projected(schema, change.plan.slots[k].meta.columns, before) == Ok::<
                    _,
                    ErrorView,
                >(change.old_keys[k])
                &&& projected(schema, change.plan.slots[k].meta.columns, after) == Ok::<
                    _,
                    ErrorView,
                >(change.plan.keys[k])
            }
        },
{
    match slots(m.catalog, table) {
        Ok(list) => {
            lemma_both_keys_from(schema, list, before, after, 0, Seq::empty(), Seq::empty());
        },
        Err(_) => {},
    }
}

/// Whether a row stands in the way of another with its key: an index that allows each key once
/// lists it, and the transaction sees it with the key.
pub open spec fn in_the_way(
    m: PagerModel,
    txn: TransactionId,
    snapshot: SnapshotView,
    plan: PlanView,
    k: int,
    other: RowId,
) -> bool {
    let slot = plan.slots[k];
    let key = plan.keys[k];
    &&& 0 <= k < plan.slots.len()
    &&& IndexMeta::key_is_unique(slot.meta, key)
    &&& listed(m, slot.root, key_bytes(key)) matches Ok(Some(ids)) && ids.contains(other)
    &&& shown(m, txn, snapshot, plan.schema, plan.root, slot.meta.columns, other, key)
}

proof fn lemma_not_unique(
    m: PagerModel,
    txn: TransactionId,
    snapshot: SnapshotView,
    plan: PlanView,
    own: Option<RowId>,
    k: int,
    other: RowId,
    i: int,
)
    requires
        0 <= i <= k,
        in_the_way(m, txn, snapshot, plan, k, other),
        own != Some(other),
    ensures
        uniqueness(m, txn, snapshot, plan, own, i) is Err,
    decreases k - i,
{
    if i < k {
        lemma_not_unique(m, txn, snapshot, plan, own, k, other, i + 1);
    } else {
        let slot = plan.slots[k];
        let key = plan.keys[k];
        let ids = listed(m, slot.root, key_bytes(key))->Ok_0->Some_0;
        law_only_rows_seen_with_the_key_count(
            m,
            txn,
            snapshot,
            plan.schema,
            plan.root,
            slot.meta.columns,
            key,
            ids,
        );
        match with_key(
            m,
            txn,
            snapshot,
            plan.schema,
            plan.root,
            slot.meta.columns,
            key,
            ids,
        ) {
            Ok(same) => {
                assert(same.contains(other));
                law_ids_leave_a_list(same, own, other);
                let rest = others(same, own);
                assert(rest.contains(other));
                assert(rest.len() > 0);
                assert(rivals(m, txn, snapshot, plan, slot, key, own) == Ok::<_, ErrorView>(
                    rest.len(),
                ));
            },
            Err(_) => {},
        }
    }
}

proof fn lemma_without(ids: Seq<RowId>, id: RowId)
    ensures
        forall|y: RowId| #[trigger] ids_without(ids, id).contains(y) <==> ids.contains(y) && y != id,
    decreases ids.len(),
{
    reveal(Seq::filter);
    let all = ids_without(ids, id);
    if ids.len() > 0 {
        let rest = ids.drop_last();
        let left = ids_without(rest, id);
        lemma_without(rest, id);
        assert forall|y: RowId| #[trigger] all.contains(y) <==> ids.contains(y) && y != id by {
            assert(ids[ids.len() - 1] == ids.last());
            if left.contains(y) {
                let k = choose|k: int| 0 <= k < left.len() && left[k] == y;
                assert(all[k] == y);
            }
            if rest.contains(y) {
                let k = choose|k: int| 0 <= k < rest.len() && rest[k] == y;
                assert(ids[k] == y);
            }
            if ids.contains(y) && y != ids.last() {
                let k = choose|k: int| 0 <= k < ids.len() && ids[k] == y;
                assert(rest[k] == y);
            }
            if ids.last() != id {
                assert(all[left.len() as int] == ids.last());
            }
            if all.contains(y) {
                let k = choose|k: int| 0 <= k < all.len() && all[k] == y;
                if k < left.len() {
                    assert(left[k] == y);
                }
            }
        }
    }
}

/// Leaving a row out of a list leaves all others in it, and no others.
pub proof fn law_ids_leave_a_list(ids: Seq<RowId>, own: Option<RowId>, x: RowId)
    ensures
        others(ids, own).contains(x) <==> ids.contains(x) && own != Some(x),
        own matches Some(id) ==> (ids_without(ids, id).contains(x) <==> ids.contains(x) && x != id),
{
    match own {
        Some(id) => {
            lemma_without(ids, id);
        },
        None => {},
    }
}

proof fn lemma_placed(ids: Seq<RowId>, id: RowId)
    ensures
        forall|x: RowId| #[trigger] placed(ids, id).contains(x) <==> ids.contains(x) || x == id,
    decreases ids.len(),
{
    let all = placed(ids, id);
    if ids.len() == 0 {
        assert(all[0] == id);
    } else if ids.last().0 <= id.0 {
        assert(all[ids.len() as int] == id);
        assert forall|x: RowId| ids.contains(x) implies all.contains(x) by {
            let k = choose|k: int| 0 <= k < ids.len() && ids[k] == x;
            assert(all[k] == x);
        }
    } else {
        let some = placed(ids.drop_last(), id);
        lemma_placed(ids.drop_last(), id);
        assert forall|x: RowId| #[trigger] all.contains(x) <==> ids.contains(x) || x == id by {
            assert(all[some.len() as int] == ids.last());
            if some.contains(x) {
                let k = choose|k: int| 0 <= k < some.len() && some[k] == x;
                assert(all[k] == x);
                if x != id {
                    assert(ids.drop_last().contains(x));
                    let j = choose|j: int| 0 <= j < ids.drop_last().len() && ids.drop_last()[j] == x;
                    assert(ids[j] == x);
                }
            }
            if all.contains(x) {
                let k = choose|k: int| 0 <= k < all.len() && all[k] == x;
                if k < some.len() {
                    assert(some[k] == x);
                } else {
                    assert(x == ids[ids.len() - 1]);
                }
            }
            if ids.contains(x) {
                let k = choose|k: int| 0 <= k < ids.len() && ids[k] == x;
                if k < ids.len() - 1 {
                    assert(ids.drop_last()[k] == x);
                }
            }
            assert(some.contains(id));
        }
    }
}

proof fn lemma_ordered(ids: Seq<RowId>)
    ensures
        forall|x: RowId| #[trigger] ordered(ids).contains(x) <==> ids.contains(x),
    decreases ids.len(),
{
    if ids.len() > 0 {
        lemma_ordered(ids.drop_last());
        lemma_placed(ordered(ids.drop_last()), ids.last());
        assert forall|x: RowId| #[trigger] ordered(ids).contains(x) <==> ids.contains(x) by {
            if ids.contains(x) {
                let k = choose|k: int| 0 <= k < ids.len() && ids[k] == x;
                if k < ids.len() - 1 {
                    assert(ids.drop_last()[k] == x);
                }
            }
            if ids.drop_last().contains(x) {
                let k = choose|k: int| 0 <= k < ids.drop_last().len() && ids.drop_last()[k] == x;
                assert(ids[k] == x);
            }
            assert(ids[ids.len() - 1] == ids.last());
        }
    }
}

/// Entering a row into a list leaves all others in it, and no others.
pub proof fn law_ids_enter_a_list(ids: Seq<RowId>, id: RowId, x: RowId)
    ensures
        ids_with(ids, id).contains(x) <==> ids.contains(x) || x == id,
{
    let more = ids.push(id);
    lemma_ordered(more);
    assert(more[ids.len() as int] == id);
    if ids.contains(x) {
        let k = choose|k: int| 0 <= k < ids.len() && ids[k] == x;
        assert(more[k] == x);
    }
    if more.contains(x) && x != id {
        let k = choose|k: int| 0 <= k < more.len() && more[k] == x;
        assert(ids[k] == x);
    }
}

/// A row with the key of another is refused by an index that allows each key once, where the
/// transaction sees the other: it is not inserted.
pub proof fn law_taken_keys_are_not_inserted(
    m: StorageModel,
    txn: TransactionId,
    table: Seq<char>,
    row: Seq<SqlValue>,
    faults: FaultsView,
    plan: PlanView,
    k: int,
    other: RowId,
)
    requires
        m.insert_plan(txn, table, row, faults.values) == Ok::<_, ErrorView>(plan),
        ({
            let checked = m.conflicts_checked(txn, table, named_keys(plan.slots, plan.keys)).0;
            in_the_way(
                checked.snapshot_of(txn).0.pager,
                txn,
                checked.snapshot_of(txn).1->Ok_0,
                plan,
                k,
                other,
            )
        }),
    ensures
        m.inserted(txn, table, row, faults).1 is Err,
        same_data(m, m.inserted(txn, table, row, faults).0),
{
    let checked = m.conflicts_checked(txn, table, named_keys(plan.slots, plan.keys)).0;
    let b = checked.snapshot_of(txn).0;
    lemma_not_unique(b.pager, txn, checked.snapshot_of(txn).1->Ok_0, plan, None, k, other, 0);
}

/// No row is changed into one with the key of another that the transaction sees, where an index
/// allows each key once. The row itself is not in its own way.
pub proof fn law_taken_keys_are_not_changed_to(
    m: StorageModel,
    txn: TransactionId,
    plan: PlanView,
    snapshot: SnapshotView,
    key_fault: Option<ErrorView>,
    id: RowId,
    k: int,
    other: RowId,
)
    requires
        in_the_way(m.pager, txn, snapshot, plan, k, other),
        other != id,
    ensures
        m.write_allowed(txn, plan, snapshot, key_fault, Some(id)) is Err,
{
    lemma_not_unique(m.pager, txn, snapshot, plan, Some(id), k, other, 0);
}

proof fn lemma_unique(
    m: PagerModel,
    txn: TransactionId,
    snapshot: SnapshotView,
    plan: PlanView,
    own: Option<RowId>,
    i: int,
)
    requires
        0 <= i,
        forall|k: int, other: RowId|
            #![trigger in_the_way(m, txn, snapshot, plan, k, other)]
            own != Some(other) ==> !in_the_way(m, txn, snapshot, plan, k, other),
        forall|k: int|
            0 <= k < plan.slots.len() ==> (#[trigger] rivals(
                m,
                txn,
                snapshot,
                plan,
                plan.slots[k],
                plan.keys[k],
                own,
            )) is Ok,
    ensures
        uniqueness(m, txn, snapshot, plan, own, i) is Ok,
    decreases plan.slots.len() - i,
{
    if i < plan.slots.len() {
        let slot = plan.slots[i];
        let key = plan.keys[i];
        let r = rivals(m, txn, snapshot, plan, slot, key, own);
        assert(r is Ok);
        if IndexMeta::key_is_unique(slot.meta, key) && r->Ok_0 > 0 {
            let ids = listed(m, slot.root, key_bytes(key))->Ok_0->Some_0;
            law_only_rows_seen_with_the_key_count(
                m,
                txn,
                snapshot,
                plan.schema,
                plan.root,
                slot.meta.columns,
                key,
                ids,
            );
            let same = with_key(
                m,
                txn,
                snapshot,
                plan.schema,
                plan.root,
                slot.meta.columns,
                key,
                ids,
            )->Ok_0;
            let rest = others(same, own);
            let x = rest[0];
            assert(rest.contains(x));
            law_ids_leave_a_list(same, own, x);
            assert(same.contains(x));
            assert(in_the_way(m, txn, snapshot, plan, i, x));
        }
        lemma_unique(m, txn, snapshot, plan, own, i + 1);
    }
}

/// A write is allowed where its key is not at fault and no row stands in its way, provided that
/// what is needed to tell can be read.
pub proof fn law_free_keys_are_allowed(
    m: StorageModel,
    txn: TransactionId,
    plan: PlanView,
    snapshot: SnapshotView,
    own: Option<RowId>,
)
    requires
        seen_rows(m.pager, plan.root, txn, snapshot, own) is Ok,
        forall|k: int, other: RowId|
            #![trigger in_the_way(m.pager, txn, snapshot, plan, k, other)]
            own != Some(other) ==> !in_the_way(m.pager, txn, snapshot, plan, k, other),
        forall|k: int|
            0 <= k < plan.slots.len() ==> (#[trigger] rivals(
                m.pager,
                txn,
                snapshot,
                plan,
                plan.slots[k],
                plan.keys[k],
                own,
            )) is Ok,
    ensures
        m.write_allowed(txn, plan, snapshot, None, own) is Ok,
{
    lemma_unique(m.pager, txn, snapshot, plan, own, 0);
}

/// Each row of a table gets a number that no row of it had before: one at least as large as the
/// next one kept, after which larger ones are kept.
pub proof fn law_numbers_grow(m: StorageModel, txn: TransactionId, table: Seq<char>)
    ensures
        m.numbered(txn, table).1 matches Ok(id) ==> {
            let after = m.numbered(txn, table).0;
            &&& id.0 >= 1
            &&& id.0 >= next_number(m.catalog.next_row_ids, table)
            &&& m.pager.txns.next_row_ids.dom().contains(table) ==> id.0
                >= m.pager.txns.next_row_ids[table]
            &&& id.0 < next_number(after.catalog.next_row_ids, table)
            &&& after.pager.txns.next_row_ids.dom().contains(table)
            &&& id.0 < after.pager.txns.next_row_ids[table]
        },
        m.numbered(txn, table).1 is Ok && next_number(m.catalog.next_row_ids, table) >= 1
            && !m.pager.txns.next_row_ids.dom().contains(table) ==> m.numbered(txn, table).1->Ok_0.0
            == next_number(m.catalog.next_row_ids, table),
{
}

// ---------------------------------------------------------------------------
// Entries of an index

/// Whether a tree can be read on the way to a key.
pub open spec fn readable(m: PagerModel, root: PageId, key: Seq<u8>) -> bool {
    forall|s: Shape<Seq<u8>>| #[trigger]
        s.is_tree::<ByteKey>(m, root) ==> path_read::<ByteKey>(
            m,
            s.nodes,
            root,
            key,
            MAX_PAGES as nat,
        )
}

/// Entering a row into an index lists it under its key, beside those that were listed there. All
/// other keys have what they had, and so have all pages of other trees.
pub proof fn law_index_entries_are_added(
    s: Shape<Seq<u8>>,
    m: PagerModel,
    txn: u64,
    root: PageId,
    key: Seq<u8>,
    id: RowId,
    x: RowId,
)
    ensures
        s.is_tree::<ByteKey>(m, root) && readable(m, root, key) && entry_added(
            m,
            txn,
            root,
            key,
            id,
        ).1 is Ok ==> {
            let (after, r) = entry_added(m, txn, root, key, id);
            exists|list: Seq<RowId>|
                {
                    &&& #[trigger] tree_became::<ByteKey>(
                        m,
                        s.nodes.dom(),
                        after,
                        r->Ok_0,
                        s.contents().insert(key, json_bytes(ids_json(list))),
                    )
                    &&& list.contains(id)
                    &&& list.contains(x) <==> x == id || (listed(m, root, key) matches Ok(
                        Some(before),
                    ) && before.contains(x))
                }
        },
{
    if s.is_tree::<ByteKey>(m, root) && readable(m, root, key) && entry_added(
        m,
        txn,
        root,
        key,
        id,
    ).1 is Ok {
        let before = match listed(m, root, key)->Ok_0 {
            Some(list) => list,
            None => Seq::empty(),
        };
        let list = ids_with(before, id);
        law_ids_enter_a_list(before, id, x);
        law_ids_enter_a_list(before, id, id);
        lemma_tree_put::<ByteKey>(s, m, txn, root, key, json_bytes(ids_json(list)));
        let (after, r) = entry_added(m, txn, root, key, id);
        assert(tree_became::<ByteKey>(
            m,
            s.nodes.dom(),
            after,
            r->Ok_0,
            s.contents().insert(key, json_bytes(ids_json(list))),
        ));
    }
}

/// Taking a row out of an index leaves the others under its key, and the key with them; where
/// there are none, the key goes too. All other keys have what they had, and so have all pages of
/// other trees.
pub proof fn law_index_entries_are_removed(
    s: Shape<Seq<u8>>,
    m: PagerModel,
    txn: u64,
    root: PageId,
    key: Seq<u8>,
    id: RowId,
    before: Seq<RowId>,
    x: RowId,
)
    ensures
        s.is_tree::<ByteKey>(m, root) && readable(m, root, key) && listed(m, root, key) == Ok::<
            _,
            ErrorView,
        >(Some(before)) && entry_removed(m, txn, root, key, id).1 is Ok ==> {
            let (after, r) = entry_removed(m, txn, root, key, id);
            if exists|y: RowId| y != id && #[trigger] before.contains(y) {
                exists|list: Seq<RowId>|
                    {
                        &&& #[trigger] tree_became::<ByteKey>(
                            m,
                            s.nodes.dom(),
                            after,
                            r->Ok_0,
                            s.contents().insert(key, json_bytes(ids_json(list))),
                        )
                        &&& list.contains(x) <==> x != id && before.contains(x)
                    }
            } else {
                tree_became::<ByteKey>(
                    m,
                    s.nodes.dom(),
                    after,
                    r->Ok_0,
                    s.contents().remove(key),
                )
            }
        },
{
    if s.is_tree::<ByteKey>(m, root) && readable(m, root, key) && listed(m, root, key) == Ok::<
        _,
        ErrorView,
    >(Some(before)) && entry_removed(m, txn, root, key, id).1 is Ok {
        let left = ids_without(before, id);
        let (after, r) = entry_removed(m, txn, root, key, id);
        law_ids_leave_a_list(before, Some(id), x);
        if left.len() > 0 {
            let y = left[0];
            assert(left.contains(y));
            law_ids_leave_a_list(before, Some(id), y);
            assert(y != id && before.contains(y));
            lemma_tree_put::<ByteKey>(s, m, txn, root, key, json_bytes(ids_json(left)));
            assert(tree_became::<ByteKey>(
                m,
                s.nodes.dom(),
                after,
                r->Ok_0,
                s.contents().insert(key, json_bytes(ids_json(left))),
            ));
        } else {
            assert forall|y: RowId| y != id implies !(#[trigger] before.contains(y)) by {
                law_ids_leave_a_list(before, Some(id), y);
            }
            lemma_tree_removed::<ByteKey>(s, m, txn, root, key);
        }
    }
}

// ---------------------------------------------------------------------------
// Other tables

proof fn lemma_indexed_beside(
    m: StorageModel,
    txn: TransactionId,
    table: Seq<char>,
    plan: PlanView,
    id: RowId,
    i: int,
    other: Seq<char>,
)
    requires
        other != table,
    ensures
        same_table(m.catalog, m.indexed_from(txn, table, plan, id, i).0.catalog, other),
        m.indexed_from(txn, table, plan, id, i).0.catalog.schemas == m.catalog.schemas,
        m.indexed_from(txn, table, plan, id, i).0.catalog.indexes == m.catalog.indexes,
    decreases plan.slots.len() - i,
{
    if 0 <= i < plan.slots.len() {
        let (a, r) = m.index_entered(txn, table, plan.slots[i], plan.keys[i], id);
        if r is Ok {
            lemma_indexed_beside(a, txn, table, plan, id, i + 1, other);
        }
    }
}

proof fn lemma_moved_beside(
    m: StorageModel,
    txn: TransactionId,
    table: Seq<char>,
    change: ChangeView,
    id: RowId,
    i: int,
    other: Seq<char>,
)
    requires
        other != table,
    ensures
        same_table(m.catalog, m.moved_from(txn, table, change, id, i).0.catalog, other),
        m.moved_from(txn, table, change, id, i).0.catalog.schemas == m.catalog.schemas,
        m.moved_from(txn, table, change, id, i).0.catalog.indexes == m.catalog.indexes,
        m.moved_from(txn, table, change, id, i).0.catalog.next_row_ids == m.catalog.next_row_ids,
    decreases change.plan.slots.len() - i,
{
    if 0 <= i < change.plan.slots.len() {
        let (a, r) = m.index_moved(
            txn,
            table,
            change.plan.slots[i],
            change.old_keys[i],
            change.plan.keys[i],
            id,
        );
        if r is Ok {
            lemma_moved_beside(a, txn, table, change, id, i + 1, other);
        }
    }
}

proof fn lemma_changes_noted(
    m: StorageModel,
    txn: TransactionId,
    table: Seq<char>,
    change: ChangeView,
    id: RowId,
    i: int,
)
    ensures
        m.changes_noted(txn, table, change, id, i).0.catalog == m.catalog,
    decreases change.plan.slots.len() - i,
{
    if 0 <= i < change.plan.slots.len() {
        let (a, r) = m.change_noted(
            txn,
            table,
            change.plan.slots[i].name,
            change.old_keys[i],
            change.plan.keys[i],
            id,
        );
        if r is Ok {
            lemma_changes_noted(a, txn, table, change, id, i + 1);
        }
    }
}

proof fn lemma_leaving_noted(
    m: StorageModel,
    txn: TransactionId,
    table: Seq<char>,
    keys: Seq<IndexKeyView>,
    id: RowId,
    i: int,
)
    ensures
        m.leaving_noted(txn, table, keys, id, i).0.catalog == m.catalog,
    decreases keys.len() - i,
{
    if 0 <= i < keys.len() {
        let (a, r) = m.noted(
            txn,
            UndoView::IndexDelete {
                table,
                index: keys[i].index,
                row_id: id,
                key: keys[i].key,
            },
        );
        if r is Ok {
            lemma_leaving_noted(a, txn, table, keys, id, i + 1);
        }
    }
}

proof fn lemma_insert_beside(
    m: StorageModel,
    txn: TransactionId,
    table: Seq<char>,
    row: Seq<SqlValue>,
    faults: FaultsView,
    other: Seq<char>,
)
    requires
        other != table,
    ensures
        same_table(m.catalog, m.inserted(txn, table, row, faults).0.catalog, other),
        m.inserted(txn, table, row, faults).0.catalog.schemas == m.catalog.schemas,
        m.inserted(txn, table, row, faults).0.catalog.indexes == m.catalog.indexes,
{
    match m.insert_plan(txn, table, row, faults.values) {
        Ok(plan) => {
            let a = m.conflicts_checked(txn, table, named_keys(plan.slots, plan.keys)).0;
            let b = a.snapshot_of(txn).0;
            let (c, rc) = b.numbered(txn, table);
            if rc is Ok {
                let id = rc->Ok_0;
                let d = c.noted(txn, UndoView::InsertRow { table, row_id: id }).0;
                let e = d.row_put(
                    txn,
                    table,
                    plan.root,
                    id,
                    json_bytes(versions_json(seq![fresh(row, txn.0)])),
                ).0;
                assert(same_table(m.catalog, e.catalog, other));
                lemma_indexed_beside(e, txn, table, plan, id, 0, other);
            }
        },
        Err(_) => {},
    }
}

proof fn lemma_update_beside(
    m: StorageModel,
    txn: TransactionId,
    table: Seq<char>,
    id: RowId,
    row: Seq<SqlValue>,
    faults: FaultsView,
    other: Seq<char>,
)
    requires
        other != table,
    ensures
        same_table(m.catalog, m.row_updated(txn, table, id, row, faults).0.catalog, other),
        m.row_updated(txn, table, id, row, faults).0.catalog.schemas == m.catalog.schemas,
        m.row_updated(txn, table, id, row, faults).0.catalog.indexes == m.catalog.indexes,
        m.row_updated(txn, table, id, row, faults).0.catalog.next_row_ids == m.catalog.next_row_ids,
{
    match m.update_target(txn, table, row, faults.values) {
        Ok((schema, root)) => {
            let (a, ra) = m.snapshot_of(txn);
            let snapshot = ra->Ok_0;
            match seen_at(a.pager, txn, snapshot, root, id) {
                Ok(Some(before)) if before != row => {
                    match a.change_plan(table, schema, root, before, row) {
                        Ok(change) => {
                            let b = a.conflicts_checked(
                                txn,
                                table,
                                touched_from(
                                    change.plan.slots,
                                    change.old_keys,
                                    change.plan.keys,
                                    0,
                                    Seq::empty(),
                                ),
                            ).0;
                            lemma_change_beside(b, txn, table, change, id, row, snapshot, other);
                        },
                        Err(_) => {},
                    }
                },
                _ => {},
            }
        },
        Err(_) => {},
    }
}

proof fn lemma_rewritten_beside(
    m: StorageModel,
    txn: TransactionId,
    table: Seq<char>,
    root: PageId,
    id: RowId,
    bytes: Result<Option<Seq<u8>>, ErrorView>,
    other: Seq<char>,
)
    requires
        other != table,
    ensures
        same_table(m.catalog, m.rewritten(txn, table, root, id, bytes).0.catalog, other),
        m.rewritten(txn, table, root, id, bytes).0.catalog.schemas == m.catalog.schemas,
        m.rewritten(txn, table, root, id, bytes).0.catalog.indexes == m.catalog.indexes,
        m.rewritten(txn, table, root, id, bytes).0.catalog.next_row_ids == m.catalog.next_row_ids,
{
}

proof fn lemma_same_table_twice(
    a: CatalogModel,
    b: CatalogModel,
    c: CatalogModel,
    table: Seq<char>,
)
    requires
        same_table(a, b, table),
        same_table(b, c, table),
    ensures
        same_table(a, c, table),
{
}

proof fn lemma_change_beside(
    m: StorageModel,
    txn: TransactionId,
    table: Seq<char>,
    change: ChangeView,
    id: RowId,
    row: Seq<SqlValue>,
    snapshot: SnapshotView,
    other: Seq<char>,
)
    requires
        other != table,
    ensures
        same_table(
            m.catalog,
            m.change_made(txn, table, change, id, row, snapshot).0.catalog,
            other,
        ),
        m.change_made(txn, table, change, id, row, snapshot).0.catalog.schemas == m.catalog.schemas,
        m.change_made(txn, table, change, id, row, snapshot).0.catalog.indexes == m.catalog.indexes,
        m.change_made(txn, table, change, id, row, snapshot).0.catalog.next_row_ids
            == m.catalog.next_row_ids,
{
    match m.row_bytes(table, change.plan.root, id) {
        Ok(bytes) => {
            let a = m.noted(
                txn,
                UndoView::DeleteRow { table, row_id: id, previous_bytes: bytes },
            ).0;
            lemma_changes_noted(a, txn, table, change, id, 0);
            let b = a.changes_noted(txn, table, change, id, 0).0;
            let new = changed_bytes(bytes, row, txn.0, snapshot);
            lemma_rewritten_beside(b, txn, table, change.plan.root, id, new, other);
            let c = b.rewritten(txn, table, change.plan.root, id, new).0;
            lemma_moved_beside(c, txn, table, change, id, 0, other);
            lemma_same_table_twice(
                m.catalog,
                c.catalog,
                c.moved_from(txn, table, change, id, 0).0.catalog,
                other,
            );
        },
        Err(_) => {},
    }
}

proof fn lemma_delete_beside(
    m: StorageModel,
    txn: TransactionId,
    table: Seq<char>,
    id: RowId,
    other: Seq<char>,
)
    requires
        other != table,
    ensures
        same_table(m.catalog, m.row_deleted(txn, table, id).0.catalog, other),
        m.row_deleted(txn, table, id).0.catalog.schemas == m.catalog.schemas,
        m.row_deleted(txn, table, id).0.catalog.indexes == m.catalog.indexes,
        m.row_deleted(txn, table, id).0.catalog.next_row_ids == m.catalog.next_row_ids,
{
    match table_of(m.catalog, table) {
        Ok((schema, root)) => {
            let (a, ra) = m.snapshot_of(txn);
            let snapshot = ra->Ok_0;
            match seen_at(a.pager, txn, snapshot, root, id) {
                Ok(Some(row)) => {
                    match slots(a.catalog, table) {
                        Ok(list) => {
                            match row_keys(schema, list, row) {
                                Ok(keys) => {
                                    let b = a.conflicts_checked(
                                        txn,
                                        table,
                                        named_keys(list, keys),
                                    ).0;
                                    match b.row_bytes(table, root, id) {
                                        Ok(bytes) => {
                                            let c = b.noted(
                                                txn,
                                                UndoView::DeleteRow {
                                                    table,
                                                    row_id: id,
                                                    previous_bytes: bytes,
                                                },
                                            ).0;
                                            lemma_leaving_noted(
                                                c,
                                                txn,
                                                table,
                                                named_keys(list, keys),
                                                id,
                                                0,
                                            );
                                        },
                                        Err(_) => {},
                                    }
                                },
                                Err(_) => {},
                            }
                        },
                        Err(_) => {},
                    }
                },
                _ => {},
            }
        },
        Err(_) => {},
    }
}

/// Inserting, changing or deleting a row keeps all other tables, and the columns and indexes of
/// its own.
pub proof fn law_rows_leave_other_tables(
    m: StorageModel,
    txn: TransactionId,
    table: Seq<char>,
    id: RowId,
    row: Seq<SqlValue>,
    faults: FaultsView,
    other: Seq<char>,
)
    requires
        other != table,
    ensures
        same_table(m.catalog, m.inserted(txn, table, row, faults).0.catalog, other),
        m.inserted(txn, table, row, faults).0.catalog.schemas == m.catalog.schemas,
        m.inserted(txn, table, row, faults).0.catalog.indexes == m.catalog.indexes,
        same_table(m.catalog, m.row_updated(txn, table, id, row, faults).0.catalog, other),
        m.row_updated(txn, table, id, row, faults).0.catalog.schemas == m.catalog.schemas,
        m.row_updated(txn, table, id, row, faults).0.catalog.indexes == m.catalog.indexes,
        m.row_updated(txn, table, id, row, faults).0.catalog.next_row_ids == m.catalog.next_row_ids,
        same_table(m.catalog, m.row_deleted(txn, table, id).0.catalog, other),
        m.row_deleted(txn, table, id).0.catalog.schemas == m.catalog.schemas,
        m.row_deleted(txn, table, id).0.catalog.indexes == m.catalog.indexes,
        m.row_deleted(txn, table, id).0.catalog.next_row_ids == m.catalog.next_row_ids,
{
    lemma_insert_beside(m, txn, table, row, faults, other);
    lemma_update_beside(m, txn, table, id, row, faults, other);
    lemma_delete_beside(m, txn, table, id, other);
}

} // verus!
