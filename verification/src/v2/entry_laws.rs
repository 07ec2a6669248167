//! What an index of the paged engine tells of the rows that are entered into it.

use vstd::prelude::*;

use crate::common::error::ErrorView;
use crate::common::json::json_bytes;
use crate::common::schema::{IndexMeta, IndexView, Schema};
use crate::common::value::{RowId, SqlValue, TransactionId};
use crate::v2::codec::{ids_json, ids_of, projected, row_of};
use crate::v2::index_store::{row_listed, rows_listed};
use crate::v2::page::PageId;
use crate::v2::pager_model::PagerModel;
use crate::v2::storage_model::{
    entry_added, entry_removed, ids_with, ids_without, key_bytes, listed, with_index_root, SlotView,
    StorageModel,
};
use crate::v2::table_laws::{law_ids_enter_a_list, law_ids_leave_a_list, readable};
use crate::v2::tree::tree_made;
use crate::v2::tree_node::{ByteKey, EntryView};
use crate::v2::tree_shape::{
    grown, lemma_found, lemma_tree_made, lemma_tree_put, lemma_tree_removed, lemma_tree_same,
    tree_became, tree_holds, Shape,
};
use crate::v2::tx_types::UndoView;

verus! {

/// Whether what was written can be read: the pages of trees on the way to any key, and lists of
/// rows.
pub open spec fn reads_back() -> bool {
    &&& forall|m: PagerModel, root: PageId, key: Seq<u8>| #[trigger] readable(m, root, key)
    &&& forall|list: Seq<RowId>| #[trigger]
        ids_of(json_bytes(ids_json(list))) == Ok::<_, ErrorView>(list)
}

/// Whether what an index holds tells of a row under a key.
pub open spec fn tells(contents: Map<Seq<u8>, Seq<u8>>, key: Seq<u8>, id: RowId) -> bool {
    contents.dom().contains(key) && (ids_of(contents[key]) matches Ok(list) && list.contains(id))
}

/// Whether the pages below a root are an index that holds something.
pub open spec fn index_holds(m: PagerModel, root: PageId, contents: Map<Seq<u8>, Seq<u8>>) -> bool {
    exists|pages: Set<PageId>| #[trigger] tree_holds::<ByteKey>(m, root, pages, contents)
}

proof fn lemma_became(
    m: PagerModel,
    pages: Set<PageId>,
    after: PagerModel,
    root: PageId,
    contents: Map<Seq<u8>, Seq<u8>>,
)
    requires
        tree_became::<ByteKey>(m, pages, after, root, contents),
    ensures
        index_holds(after, root, contents),
{
    let now = choose|now: Set<PageId>| #[trigger]
        grown(m, pages, after, now) && tree_holds::<ByteKey>(
            after,
            root,
            now,
            contents,
        );
    assert(tree_holds::<ByteKey>(after, root, now, contents));
}

/// Entering a row into an index leaves one that tells of it under its key, and otherwise of what
/// it told.
proof fn lemma_entered(
    m: PagerModel,
    txn: u64,
    root: PageId,
    key: Seq<u8>,
    id: RowId,
    c: Map<Seq<u8>, Seq<u8>>,
) -> (d: Map<Seq<u8>, Seq<u8>>)
    requires
        reads_back(),
        index_holds(m, root, c),
        entry_added(m, txn, root, key, id).1 is Ok,
    ensures
        index_holds(
            entry_added(m, txn, root, key, id).0,
            entry_added(m, txn, root, key, id).1->Ok_0,
            d,
        ),
        forall|k: Seq<u8>, x: RowId| #[trigger]
            tells(d, k, x) <==> tells(c, k, x) || (k == key && x == id),
{
    let pages = choose|pages: Set<PageId>| #[trigger] tree_holds::<ByteKey>(m, root, pages, c);
    let s = choose|s: Shape<Seq<u8>>| #[trigger]
        s.is_tree::<ByteKey>(m, root) && s.nodes.dom() == pages && s.contents() == c;
    assert(readable(m, root, key));
    lemma_found::<ByteKey>(s, m, root, key);
    let before = match listed(m, root, key)->Ok_0 {
        Some(list) => list,
        None => Seq::empty(),
    };
    let list = ids_with(before, id);
    let bytes = json_bytes(ids_json(list));
    assert(ids_of(bytes) == Ok::<_, ErrorView>(list));
    lemma_tree_put::<ByteKey>(s, m, txn, root, key, bytes);
    let d = c.insert(key, bytes);
    let (after, r) = entry_added(m, txn, root, key, id);
    lemma_became(m, pages, after, r->Ok_0, d);
    assert forall|k: Seq<u8>, x: RowId| #[trigger] tells(d, k, x) <==> tells(c, k, x) || (k == key
        && x == id) by {
        if k == key {
            law_ids_enter_a_list(before, id, x);
            assert(before.contains(x) == tells(c, k, x));
        }
    }
    d
}

/// Taking a row out of an index leaves one that does not tell of it under its key, and otherwise
/// tells of what it told.
proof fn lemma_taken_out(
    m: PagerModel,
    txn: u64,
    root: PageId,
    key: Seq<u8>,
    id: RowId,
    c: Map<Seq<u8>, Seq<u8>>,
) -> (d: Map<Seq<u8>, Seq<u8>>)
    requires
        reads_back(),
        index_holds(m, root, c),
        entry_removed(m, txn, root, key, id).1 is Ok,
    ensures
        index_holds(
            entry_removed(m, txn, root, key, id).0,
            entry_removed(m, txn, root, key, id).1->Ok_0,
            d,
        ),
        forall|k: Seq<u8>, x: RowId| #[trigger]
            tells(d, k, x) <==> tells(c, k, x) && !(k == key && x == id),
{
    let pages = choose|pages: Set<PageId>| #[trigger] tree_holds::<ByteKey>(m, root, pages, c);
    let s = choose|s: Shape<Seq<u8>>| #[trigger]
        s.is_tree::<ByteKey>(m, root) && s.nodes.dom() == pages && s.contents() == c;
    assert(readable(m, root, key));
    lemma_found::<ByteKey>(s, m, root, key);
    let (after, r) = entry_removed(m, txn, root, key, id);
    match listed(m, root, key)->Ok_0 {
        None => {
            assert(!c.dom().contains(key));
            c
        },
        Some(before) => {
            let left = ids_without(before, id);
            let bytes = json_bytes(ids_json(left));
            assert(ids_of(bytes) == Ok::<_, ErrorView>(left));
            let d = if left.len() == 0 {
                c.remove(key)
            } else {
                c.insert(key, bytes)
            };
            if left.len() == 0 {
                lemma_tree_removed::<ByteKey>(s, m, txn, root, key);
            } else {
                lemma_tree_put::<ByteKey>(s, m, txn, root, key, bytes);
            }
            lemma_became(m, pages, after, r->Ok_0, d);
            assert forall|k: Seq<u8>, x: RowId| #[trigger] tells(d, k, x) <==> tells(c, k, x) && !(k
                == key && x == id) by {
                if k == key {
                    law_ids_leave_a_list(before, Some(id), x);
                    assert(before.contains(x) == tells(c, k, x));
                    if left.len() == 0 {
                        assert(!left.contains(x));
                    }
                }
            }
            d
        },
    }
}

/// A row that is inserted is told of by each index under its key, beside what the index told.
pub proof fn law_indexes_tell_of_inserted_rows(
    m: StorageModel,
    txn: TransactionId,
    table: Seq<char>,
    slot: SlotView,
    key: Seq<SqlValue>,
    id: RowId,
    c: Map<Seq<u8>, Seq<u8>>,
)
    ensures
        reads_back() && index_holds(m.pager, slot.root, c) && m.index_entered(
            txn,
            table,
            slot,
            key,
            id,
        ).1 is Ok ==> {
            let after = m.index_entered(txn, table, slot, key, id).0;
            exists|root: PageId, d: Map<Seq<u8>, Seq<u8>>|
                {
                    &&& #[trigger] index_holds(after.pager, root, d)
                    &&& after.catalog == with_index_root(
                        m.catalog,
                        table,
                        slot.name,
                        slot.root,
                        root,
                    )
                    &&& forall|k: Seq<u8>, x: RowId| #[trigger]
                        tells(d, k, x) <==> tells(c, k, x) || (k == key_bytes(key) && x == id)
                }
        },
{
    if reads_back() && index_holds(m.pager, slot.root, c) && m.index_entered(
        txn,
        table,
        slot,
        key,
        id,
    ).1 is Ok {
        let after = m.index_entered(txn, table, slot, key, id).0;
        let a = m.noted(
            txn,
            UndoView::IndexInsert { table, index: slot.name, row_id: id, key },
        ).0;
        lemma_same_pages(m.pager, a.pager, slot.root, c);
        let d = lemma_entered(a.pager, txn.0, slot.root, key_bytes(key), id, c);
        let root = entry_added(a.pager, txn.0, slot.root, key_bytes(key), id).1->Ok_0;
        assert(index_holds(after.pager, root, d));
    }
}

proof fn lemma_same_pages(
    m: PagerModel,
    a: PagerModel,
    root: PageId,
    c: Map<Seq<u8>, Seq<u8>>,
)
    requires
        a == m.with_txns(a.txns),
        index_holds(m, root, c),
    ensures
        index_holds(a, root, c),
{
    let pages = choose|pages: Set<PageId>| #[trigger] tree_holds::<ByteKey>(m, root, pages, c);
    lemma_tree_same::<ByteKey>(m, a, root, pages, c);
}

/// A row that changes is told of under the key that it has now and no longer under the one that it
/// had, and the index tells otherwise of what it told.
pub proof fn law_indexes_tell_of_changed_rows(
    m: StorageModel,
    txn: TransactionId,
    table: Seq<char>,
    slot: SlotView,
    old_key: Seq<SqlValue>,
    new_key: Seq<SqlValue>,
    id: RowId,
    c: Map<Seq<u8>, Seq<u8>>,
)
    ensures
        old_key == new_key ==> m.index_moved(txn, table, slot, old_key, new_key, id) == (m, Ok::<
            (),
            ErrorView,
        >(())),
        reads_back() && index_holds(m.pager, slot.root, c) && old_key != new_key && m.index_moved(
            txn,
            table,
            slot,
            old_key,
            new_key,
            id,
        ).1 is Ok ==> {
            let after = m.index_moved(txn, table, slot, old_key, new_key, id).0;
            exists|root: PageId, d: Map<Seq<u8>, Seq<u8>>|
                {
                    &&& #[trigger] index_holds(after.pager, root, d)
                    &&& after.catalog == with_index_root(
                        m.catalog,
                        table,
                        slot.name,
                        slot.root,
                        root,
                    )
                    &&& forall|k: Seq<u8>, x: RowId| #[trigger]
                        tells(d, k, x) <==> (tells(c, k, x) && !(k == key_bytes(old_key) && x == id))
                            || (k == key_bytes(new_key) && x == id)
                }
        },
{
    if reads_back() && index_holds(m.pager, slot.root, c) && old_key != new_key && m.index_moved(
        txn,
        table,
        slot,
        old_key,
        new_key,
        id,
    ).1 is Ok {
        let after = m.index_moved(txn, table, slot, old_key, new_key, id).0;
        let (p, r) = entry_removed(m.pager, txn.0, slot.root, key_bytes(old_key), id);
        let middle = lemma_taken_out(m.pager, txn.0, slot.root, key_bytes(old_key), id, c);
        let d = lemma_entered(p, txn.0, r->Ok_0, key_bytes(new_key), id, middle);
        let root = entry_added(p, txn.0, r->Ok_0, key_bytes(new_key), id).1->Ok_0;
        assert(index_holds(after.pager, root, d));
        assert forall|k: Seq<u8>, x: RowId| #[trigger] tells(d, k, x) <==> (tells(c, k, x) && !(k
            == key_bytes(old_key) && x == id)) || (k == key_bytes(new_key) && x == id) by {
            assert(tells(middle, k, x) == (tells(c, k, x) && !(k == key_bytes(old_key) && x == id)));
        }
    }
}

/// Whether a row of a table has a key in an index.
pub open spec fn has_key(
    schema: Schema,
    index: IndexView,
    entry: EntryView<u64>,
    key: Seq<u8>,
    id: RowId,
) -> bool {
    &&& id.0 == entry.key
    &&& row_of(entry.value) matches Ok(row) && (projected(schema, index.columns, row) matches Ok(
        values,
    ) && key_bytes(values) == key)
}

proof fn lemma_rows_listed(
    m: PagerModel,
    txn: u64,
    root: PageId,
    schema: Schema,
    index: IndexView,
    entries: Seq<EntryView<u64>>,
    i: int,
    c: Map<Seq<u8>, Seq<u8>>,
) -> (d: Map<Seq<u8>, Seq<u8>>)
    requires
        0 <= i <= entries.len(),
        reads_back(),
        index_holds(m, root, c),
        rows_listed(m, txn, root, schema, index, entries, i).1 is Ok,
    ensures
        index_holds(
            rows_listed(m, txn, root, schema, index, entries, i).0,
            rows_listed(m, txn, root, schema, index, entries, i).1->Ok_0,
            d,
        ),
        forall|key: Seq<u8>, id: RowId| #[trigger]
            tells(d, key, id) <==> tells(c, key, id) || exists|k: int|
                i <= k < entries.len() && #[trigger] has_key(schema, index, entries[k], key, id),
    decreases entries.len() - i,
{
    if i < entries.len() {
        let (a, r) = row_listed(m, txn, root, schema, index, entries[i]);
        let row = row_of(entries[i].value)->Ok_0;
        let values = projected(schema, index.columns, row)->Ok_0;
        let next = lemma_entered(m, txn, root, key_bytes(values), RowId(entries[i].key), c);
        let d = lemma_rows_listed(a, txn, r->Ok_0, schema, index, entries, i + 1, next);
        assert forall|key: Seq<u8>, id: RowId| #[trigger] tells(d, key, id) <==> tells(c, key, id)
            || exists|k: int|
            i <= k < entries.len() && #[trigger] has_key(schema, index, entries[k], key, id) by {
            assert(tells(next, key, id) == (tells(c, key, id) || has_key(
                schema,
                index,
                entries[i],
                key,
                id,
            )));
            if exists|k: int|
                i <= k < entries.len() && #[trigger] has_key(schema, index, entries[k], key, id) {
                let k = choose|k: int|
                    i <= k < entries.len() && #[trigger] has_key(schema, index, entries[k], key, id);
                if k > i {
                    assert(i + 1 <= k < entries.len() && has_key(
                        schema,
                        index,
                        entries[k],
                        key,
                        id,
                    ));
                }
            }
        }
        d
    } else {
        c
    }
}

/// A new index tells of each row of its table under its key, and of nothing else.
pub proof fn law_new_indexes_tell_of_all_rows(
    m: PagerModel,
    txn: u64,
    schema: Schema,
    index: IndexView,
    entries: Seq<EntryView<u64>>,
)
    ensures
        reads_back() && 2 <= m.meta.page_count && tree_made::<ByteKey>(m, txn).1 is Ok
            && rows_listed(
            tree_made::<ByteKey>(m, txn).0,
            txn,
            tree_made::<ByteKey>(m, txn).1->Ok_0,
            schema,
            index,
            entries,
            0,
        ).1 is Ok ==> {
            let (after, end) = rows_listed(
                tree_made::<ByteKey>(m, txn).0,
                txn,
                tree_made::<ByteKey>(m, txn).1->Ok_0,
                schema,
                index,
                entries,
                0,
            );
            exists|d: Map<Seq<u8>, Seq<u8>>|
                {
                    &&& #[trigger] index_holds(after, end->Ok_0, d)
                    &&& forall|key: Seq<u8>, id: RowId| #[trigger]
                        tells(d, key, id) <==> exists|k: int|
                            0 <= k < entries.len() && #[trigger] has_key(
                                schema,
                                index,
                                entries[k],
                                key,
                                id,
                            )
                }
        },
{
    let (p, start) = tree_made::<ByteKey>(m, txn);
    if reads_back() && 2 <= m.meta.page_count && start is Ok && rows_listed(
        p,
        txn,
        start->Ok_0,
        schema,
        index,
        entries,
        0,
    ).1 is Ok {
        let none = Map::<Seq<u8>, Seq<u8>>::empty();
        lemma_tree_made::<ByteKey>(m, txn);
        lemma_became(m, Set::empty(), p, start->Ok_0, none);
        let d = lemma_rows_listed(p, txn, start->Ok_0, schema, index, entries, 0, none);
        assert(index_holds(
            rows_listed(p, txn, start->Ok_0, schema, index, entries, 0).0,
            rows_listed(p, txn, start->Ok_0, schema, index, entries, 0).1->Ok_0,
            d,
        ));
    }
}

/// A row whose key is listed already is refused by an index that allows each key once.
pub proof fn law_repeated_keys_refuse_an_index(
    m: PagerModel,
    txn: u64,
    root: PageId,
    schema: Schema,
    index: IndexView,
    entry: EntryView<u64>,
    row: Seq<SqlValue>,
    key: Seq<SqlValue>,
    ids: Seq<RowId>,
)
    ensures
        row_of(entry.value) == Ok::<_, ErrorView>(row) && projected(schema, index.columns, row) == Ok::<
            _,
            ErrorView,
        >(key) && IndexMeta::key_is_unique(index, key) && listed(m, root, key_bytes(key)) == Ok::<
            _,
            ErrorView,
        >(Some(ids)) && ids.len() > 0 ==> row_listed(m, txn, root, schema, index, entry).1 is Err
            && row_listed(m, txn, root, schema, index, entry).0 == m,
{
}

} // verus!
