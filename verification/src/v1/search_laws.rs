//! What searching an index of the first engine finds.

use vstd::prelude::*;

use crate::common::error::ErrorView;
use crate::common::ordmap::OrdKey;
use crate::common::ordset::{lemma_sorted_exists, sorted};
use crate::common::value::{RowId, SqlValue, TransactionId};
use crate::v1::laws::{in_step, rows_with_key};
use crate::v1::model::{below, EngineView};
use crate::v1::searches::{ids_under, ids_wanted};
use crate::v1::storage::row_list;
use crate::v2::codec::projected;
use crate::v2::index_store::{is_wanted, Wanted};
use crate::v2::locks::{inside, BoundView};
use crate::v2::storage_model::RowView;

verus! {

/// Whether the numbers of rows grow along a list, so that none stands there twice.
pub open spec fn grows(ids: Seq<RowId>) -> bool {
    forall|i: int, j: int|
        #![trigger ids[i], ids[j]]
        0 <= i < j < ids.len() ==> ids[i].0 < ids[j].0
}

/// Whether a row of a table is there and has a key in an index.
pub open spec fn has_key(
    m: EngineView,
    table: Seq<char>,
    index: Seq<char>,
    id: RowId,
    key: Seq<SqlValue>,
) -> bool {
    &&& below(m.state.rows, table).dom().contains(id)
    &&& projected(
        m.state.schemas[table],
        below(m.state.indexes, table)[index].meta.columns,
        below(m.state.rows, table)[id],
    ) == Ok::<_, ErrorView>(key)
}

proof fn lemma_sorted_rows(found: Set<RowId>, rows: Set<RowId>)
    requires
        rows.finite(),
        found.subset_of(rows),
    ensures
        grows(sorted::<RowId>(found)),
        forall|id: RowId| #[trigger] sorted::<RowId>(found).contains(id) <==> found.contains(id),
{
    vstd::set_lib::lemma_len_subset(found, rows);
    lemma_sorted_exists::<RowId>(found);
    let ids = sorted::<RowId>(found);
    assert forall|i: int, j: int|
        #![trigger ids[i], ids[j]]
        0 <= i < j < ids.len() implies ids[i].0 < ids[j].0 by {
        assert(<RowId as OrdKey>::before(ids[i], ids[j]));
    }
    assert forall|id: RowId| #[trigger] ids.contains(id) <==> found.contains(id) by {
        assert(ids.to_set().contains(id) == ids.contains(id));
    }
}

proof fn lemma_wanted(
    m: EngineView,
    txn: TransactionId,
    table: Seq<char>,
    index: Seq<char>,
    w: Wanted,
)
    requires
        in_step(m.state, table),
        m.index_for(txn, table, index) is Ok,
    ensures
        ids_wanted(below(m.state.indexes, table)[index], w).subset_of(
            below(m.state.rows, table).dom(),
        ),
        forall|id: RowId| #[trigger]
            ids_wanted(below(m.state.indexes, table)[index], w).contains(id) <==> exists|
                key: Seq<SqlValue>,
            | #[trigger]
                has_key(m, table, index, id, key) && is_wanted(w, key),
{
    let ix = below(m.state.indexes, table)[index];
    let rows = below(m.state.rows, table);
    assert(below(m.state.indexes, table).dom().contains(index));
    assert forall|id: RowId| #[trigger] ids_wanted(ix, w).contains(id) <==> exists|
        key: Seq<SqlValue>,
    | #[trigger]
        has_key(m, table, index, id, key) && is_wanted(w, key) by {
        if ids_wanted(ix, w).contains(id) {
            let key = choose|key: Seq<SqlValue>| #[trigger]
                ix.entries.dom().contains(key) && is_wanted(w, key)
                    && ix.entries[key].contains(id);
            assert(ids_under(ix, key) == rows_with_key(
                m.state.schemas[table],
                ix.meta.columns,
                rows,
                key,
            ));
            assert(ids_under(ix, key).contains(id));
            assert(has_key(m, table, index, id, key));
        }
        if exists|key: Seq<SqlValue>| #[trigger]
            has_key(m, table, index, id, key) && is_wanted(w, key) {
            let key = choose|key: Seq<SqlValue>| #[trigger]
                has_key(m, table, index, id, key) && is_wanted(w, key);
            assert(ids_under(ix, key) == rows_with_key(
                m.state.schemas[table],
                ix.meta.columns,
                rows,
                key,
            ));
            assert(ids_under(ix, key).contains(id));
            assert(ix.entries.dom().contains(key));
        }
    }
    assert forall|id: RowId| ids_wanted(ix, w).contains(id) implies rows.dom().contains(id) by {
        let key = choose|key: Seq<SqlValue>| #[trigger]
            has_key(m, table, index, id, key) && is_wanted(w, key);
    }
}

/// Looking up a key finds exactly the rows that have it, each once and in the order of their
/// numbers.
pub proof fn law_lookups_find_equal_keys(
    m: EngineView,
    txn: TransactionId,
    table: Seq<char>,
    index: Seq<char>,
    key: Seq<SqlValue>,
)
    requires
        in_step(m.state, table),
        m.index_for(txn, table, index) is Ok,
    ensures
        m.looked_up(txn, table, index, key) matches Ok(ids) && grows(ids) && forall|id: RowId|
            #[trigger] ids.contains(id) <==> has_key(m, table, index, id, key),
{
    let ix = below(m.state.indexes, table)[index];
    assert(below(m.state.indexes, table).dom().contains(index));
    let found = rows_with_key(
        m.state.schemas[table],
        ix.meta.columns,
        below(m.state.rows, table),
        key,
    );
    assert(ids_under(ix, key) == found);
    lemma_sorted_rows(found, below(m.state.rows, table).dom());
}

/// A search for a prefix finds exactly the rows whose key begins with its values, each once and
/// in the order of their numbers. It is refused where the prefix is longer than a key.
pub proof fn law_prefixes_find_keys_that_begin_with_them(
    m: EngineView,
    txn: TransactionId,
    table: Seq<char>,
    index: Seq<char>,
    prefix: Seq<SqlValue>,
)
    requires
        in_step(m.state, table),
        m.index_for(txn, table, index) is Ok,
    ensures
        m.with_prefix(txn, table, index, prefix) is Err <==> prefix.len() > below(
            m.state.indexes,
            table,
        )[index].meta.columns.len(),
        m.with_prefix(txn, table, index, prefix) matches Ok(ids) ==> grows(ids) && forall|id: RowId|
            #[trigger] ids.contains(id) <==> exists|key: Seq<SqlValue>| #[trigger]
                has_key(m, table, index, id, key) && prefix.len() <= key.len() && forall|i: int|
                    0 <= i < prefix.len() ==> key[i] == prefix[i],
{
    let w = Wanted { prefix, bounds: None };
    lemma_wanted(m, txn, table, index, w);
    let found = ids_wanted(below(m.state.indexes, table)[index], w);
    lemma_sorted_rows(found, below(m.state.rows, table).dom());
    assert forall|key: Seq<SqlValue>| #[trigger]
        is_wanted(w, key) == (prefix.len() <= key.len() && forall|i: int|
            0 <= i < prefix.len() ==> key[i] == prefix[i]) by {
        if is_wanted(w, key) {
            assert forall|i: int| 0 <= i < prefix.len() implies key[i] == prefix[i] by {
                assert(key.take(prefix.len() as int)[i] == prefix[i]);
            }
        }
        if prefix.len() <= key.len() && forall|i: int| 0 <= i < prefix.len() ==> key[i] == prefix[i] {
            assert(key.take(prefix.len() as int) =~= prefix);
        }
    }
    assert forall|id: RowId| #[trigger] sorted::<RowId>(found).contains(id) <==> exists|
        key: Seq<SqlValue>,
    | #[trigger]
        has_key(m, table, index, id, key) && prefix.len() <= key.len() && forall|i: int|
            0 <= i < prefix.len() ==> key[i] == prefix[i] by {
        if found.contains(id) {
            let key = choose|key: Seq<SqlValue>| #[trigger]
                has_key(m, table, index, id, key) && is_wanted(w, key);
            assert(has_key(m, table, index, id, key));
        }
        if exists|key: Seq<SqlValue>| #[trigger]
            has_key(m, table, index, id, key) && prefix.len() <= key.len() && forall|i: int|
                0 <= i < prefix.len() ==> key[i] == prefix[i] {
            let key = choose|key: Seq<SqlValue>| #[trigger]
                has_key(m, table, index, id, key) && prefix.len() <= key.len() && forall|i: int|
                    0 <= i < prefix.len() ==> key[i] == prefix[i];
            assert(is_wanted(w, key));
        }
    }
}

/// A search for a range finds exactly the rows whose key begins with the prefix and goes on with
/// a value that both bounds let in, each once and in the order of their numbers. It is refused
/// where the prefix leaves no value to go on with.
pub proof fn law_ranges_find_keys_inside_them(
    m: EngineView,
    txn: TransactionId,
    table: Seq<char>,
    index: Seq<char>,
    prefix: Seq<SqlValue>,
    lower: Option<BoundView>,
    upper: Option<BoundView>,
)
    requires
        in_step(m.state, table),
        m.index_for(txn, table, index) is Ok,
    ensures
        m.within(txn, table, index, prefix, lower, upper) is Err <==> prefix.len() >= below(
            m.state.indexes,
            table,
        )[index].meta.columns.len(),
        m.within(txn, table, index, prefix, lower, upper) matches Ok(ids) ==> grows(ids) && forall|
            id: RowId,
        | #[trigger]
            ids.contains(id) <==> exists|key: Seq<SqlValue>| #[trigger]
                has_key(m, table, index, id, key) && prefix.len() < key.len() && (forall|i: int|
                    0 <= i < prefix.len() ==> key[i] == prefix[i]) && inside(
                    key[prefix.len() as int],
                    lower,
                ) && inside(key[prefix.len() as int], upper),
{
    let w = Wanted { prefix, bounds: Some((lower, upper)) };
    lemma_wanted(m, txn, table, index, w);
    let found = ids_wanted(below(m.state.indexes, table)[index], w);
    lemma_sorted_rows(found, below(m.state.rows, table).dom());
    assert forall|key: Seq<SqlValue>| #[trigger]
        is_wanted(w, key) == (prefix.len() < key.len() && (forall|i: int|
            0 <= i < prefix.len() ==> key[i] == prefix[i]) && inside(key[prefix.len() as int], lower)
            && inside(key[prefix.len() as int], upper)) by {
        if is_wanted(w, key) {
            assert forall|i: int| 0 <= i < prefix.len() implies key[i] == prefix[i] by {
                assert(key.take(prefix.len() as int)[i] == prefix[i]);
            }
        }
        if prefix.len() < key.len() && forall|i: int| 0 <= i < prefix.len() ==> key[i] == prefix[i] {
            assert(key.take(prefix.len() as int) =~= prefix);
        }
    }
    assert forall|id: RowId| #[trigger] sorted::<RowId>(found).contains(id) <==> exists|
        key: Seq<SqlValue>,
    | #[trigger]
        has_key(m, table, index, id, key) && prefix.len() < key.len() && (forall|i: int|
            0 <= i < prefix.len() ==> key[i] == prefix[i]) && inside(key[prefix.len() as int], lower)
            && inside(key[prefix.len() as int], upper) by {
        if found.contains(id) {
            let key = choose|key: Seq<SqlValue>| #[trigger]
                has_key(m, table, index, id, key) && is_wanted(w, key);
            assert(has_key(m, table, index, id, key));
        }
        if exists|key: Seq<SqlValue>| #[trigger]
            has_key(m, table, index, id, key) && prefix.len() < key.len() && (forall|i: int|
                0 <= i < prefix.len() ==> key[i] == prefix[i]) && inside(
                key[prefix.len() as int],
                lower,
            ) && inside(key[prefix.len() as int], upper) {
            let key = choose|key: Seq<SqlValue>| #[trigger]
                has_key(m, table, index, id, key) && prefix.len() < key.len() && (forall|i: int|
                    0 <= i < prefix.len() ==> key[i] == prefix[i]) && inside(
                    key[prefix.len() as int],
                    lower,
                ) && inside(key[prefix.len() as int], upper);
            assert(is_wanted(w, key));
        }
    }
}

/// The list of the rows of a table has each of them once, in the order of their numbers, and no
/// others.
pub proof fn law_all_rows_are_listed(rows: Map<RowId, Seq<SqlValue>>, id: RowId, row: Seq<SqlValue>)
    requires
        rows.dom().finite(),
    ensures
        row_list(rows).contains(RowView { id, row }) <==> rows.dom().contains(id) && rows[id] == row,
        forall|a: int, b: int|
            #![trigger row_list(rows)[a], row_list(rows)[b]]
            0 <= a < b < row_list(rows).len() ==> row_list(rows)[a].id.0 < row_list(rows)[b].id.0,
{
    let ids = sorted::<RowId>(rows.dom());
    let list = row_list(rows);
    lemma_sorted_exists::<RowId>(rows.dom());
    assert forall|a: int, b: int|
        #![trigger list[a], list[b]]
        0 <= a < b < list.len() implies list[a].id.0 < list[b].id.0 by {
        assert(<RowId as OrdKey>::before(ids[a], ids[b]));
    }
    if rows.dom().contains(id) && rows[id] == row {
        assert(ids.to_set().contains(id));
        let k = choose|k: int| 0 <= k < ids.len() && ids[k] == id;
        assert(list[k] == RowView { id, row });
    }
    if list.contains(RowView { id, row }) {
        let k = choose|k: int| 0 <= k < list.len() && list[k] == RowView { id, row };
        assert(ids[k] == id);
        assert(ids.to_set().contains(id));
    }
}

} // verus!
