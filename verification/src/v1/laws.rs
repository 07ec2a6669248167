//! What holds of the engine as a whole: indexes list exactly the rows of their tables.

use vstd::prelude::*;

use crate::common::error::ErrorView;
use crate::common::ordmap::{ascending, OrdKey};
use crate::common::ordset::{lemma_sorted_exists, sorted};
use crate::common::schema::{IndexMeta, IndexView, Schema};
use crate::common::value::{RowId, SqlValue, TransactionId};
use crate::v1::model::{
    below, entry_with, entry_without, gathered, gathered_from, is_taken, row_indexed_from,
    row_unindexed_from, with_entries, EngineView, IndexStateView, StateView,
};
use crate::v1::searches::ids_under;
use crate::v2::catalog::next_number;
use crate::v2::codec::projected;
use crate::v2::storage_model::FaultsView;

verus! {

/// The rows with a key in an index.
pub open spec fn rows_with_key(
    schema: Schema,
    columns: Seq<Seq<char>>,
    rows: Map<RowId, Seq<SqlValue>>,
    key: Seq<SqlValue>,
) -> Set<RowId> {
    Set::new(
        |id: RowId|
            rows.dom().contains(id) && projected(schema, columns, rows[id]) == Ok::<_, ErrorView>(
                key,
            ),
    )
}

/// Whether an index lists each row under its key, and nothing else.
pub open spec fn lists_rows(
    schema: Schema,
    index: IndexStateView,
    rows: Map<RowId, Seq<SqlValue>>,
) -> bool {
    &&& forall|key: Seq<SqlValue>| #[trigger]
        ids_under(index, key) == rows_with_key(schema, index.meta.columns, rows, key)
    &&& forall|key: Seq<SqlValue>| #[trigger]
        index.entries.dom().contains(key) ==> index.entries[key] != Set::<RowId>::empty()
}

/// Whether the indexes of a table list its rows, whose numbers have all been handed out.
pub open spec fn in_step(s: StateView, table: Seq<char>) -> bool {
    &&& below(s.indexes, table).dom().finite()
    &&& below(s.rows, table).dom().finite()
    &&& forall|name: Seq<char>| #[trigger]
        below(s.indexes, table).dom().contains(name) ==> s.schemas.dom().contains(table)
            && lists_rows(s.schemas[table], below(s.indexes, table)[name], below(s.rows, table))
    &&& forall|id: RowId| #[trigger]
        below(s.rows, table).dom().contains(id) ==> id.0 < next_number(s.next_row_ids, table)
}

/// Whether no two rows of a table have the same key in an index that allows it only once.
pub open spec fn keys_apart(s: StateView, table: Seq<char>) -> bool {
    forall|name: Seq<char>, key: Seq<SqlValue>, a: RowId, b: RowId|
        #![trigger ids_under(below(s.indexes, table)[name], key).contains(a), ids_under(
            below(s.indexes, table)[name],
            key,
        ).contains(b)]
        below(s.indexes, table).dom().contains(name) && IndexMeta::key_is_unique(
            below(s.indexes, table)[name].meta,
            key,
        ) && ids_under(below(s.indexes, table)[name], key).contains(a) && ids_under(
            below(s.indexes, table)[name],
            key,
        ).contains(b) ==> a == b
}

pub proof fn lemma_names(names: Seq<Seq<char>>, dom: Set<Seq<char>>)
    requires
        dom.finite(),
        names == sorted::<String>(dom),
    ensures
        names.to_set() == dom,
        forall|i: int, j: int|
            #![trigger names[i], names[j]]
            0 <= i < j < names.len() ==> names[i] != names[j],
{
    lemma_sorted_exists::<String>(dom);
    assert forall|i: int, j: int|
        #![trigger names[i], names[j]]
        0 <= i < j < names.len() implies names[i] != names[j] by {
        <String as OrdKey>::before_irreflexive(names[i]);
        assert(<String as OrdKey>::before(names[i], names[j]));
    }
}

/// What putting a row into indexes does to each of them.
proof fn lemma_indexed(
    schema: Schema,
    by_name: Map<Seq<char>, IndexStateView>,
    names: Seq<Seq<char>>,
    id: RowId,
    row: Seq<SqlValue>,
    i: int,
)
    requires
        0 <= i <= names.len(),
        forall|a: int, b: int|
            #![trigger names[a], names[b]]
            0 <= a < b < names.len() ==> names[a] != names[b],
        forall|a: int| 0 <= a < names.len() ==> by_name.dom().contains(#[trigger] names[a]),
        row_indexed_from(schema, by_name, names, id, row, i).1 is Ok,
    ensures
        ({
            let after = row_indexed_from(schema, by_name, names, id, row, i).0;
            &&& after.dom() == by_name.dom()
            &&& forall|n: Seq<char>| #[trigger]
                by_name.dom().contains(n) && !names.skip(i).contains(n) ==> after[n] == by_name[n]
            &&& forall|j: int|
                i <= j < names.len() ==> {
                    let n = #[trigger] names[j];
                    let key = projected(schema, by_name[n].meta.columns, row);
                    &&& key is Ok
                    &&& !is_taken(by_name[n], key->Ok_0, None)
                    &&& after[n] == (IndexStateView {
                        meta: by_name[n].meta,
                        entries: entry_with(by_name[n].entries, key->Ok_0, id),
                    })
                }
        }),
    decreases names.len() - i,
{
    if i < names.len() {
        let index = by_name[names[i]];
        let key = projected(schema, index.meta.columns, row)->Ok_0;
        let next = with_entries(by_name, names[i], entry_with(index.entries, key, id));
        assert(next.dom() =~= by_name.dom());
        lemma_indexed(schema, next, names, id, row, i + 1);
        let after = row_indexed_from(schema, by_name, names, id, row, i).0;
        assert forall|n: Seq<char>| #[trigger]
            by_name.dom().contains(n) && !names.skip(i).contains(n) implies after[n]
            == by_name[n] by {
            if names.skip(i + 1).contains(n) {
                let k = choose|k: int|
                    0 <= k < names.skip(i + 1).len() && #[trigger] names.skip(i + 1)[k] == n;
                assert(names.skip(i)[k + 1] == n);
            }
            assert(names.skip(i)[0] == names[i]);
        }
        assert(!names.skip(i + 1).contains(names[i])) by {
            if names.skip(i + 1).contains(names[i]) {
                let k = choose|k: int|
                    0 <= k < names.skip(i + 1).len() && #[trigger] names.skip(i + 1)[k] == names[i];
                assert(names[i + 1 + k] == names[i]);
            }
        }
        assert(after[names[i]] == next[names[i]]);
        assert forall|j: int| i <= j < names.len() implies {
            let n = #[trigger] names[j];
            let key = projected(schema, by_name[n].meta.columns, row);
            &&& key is Ok
            &&& !is_taken(by_name[n], key->Ok_0, None)
            &&& after[n] == (IndexStateView {
                meta: by_name[n].meta,
                entries: entry_with(by_name[n].entries, key->Ok_0, id),
            })
        } by {
            if j > i {
                assert(names[i] != names[j]);
                assert(next[names[j]] == by_name[names[j]]);
            }
        }
    }
}

/// What taking a row out of indexes does to each of them.
proof fn lemma_unindexed(
    schema: Schema,
    by_name: Map<Seq<char>, IndexStateView>,
    names: Seq<Seq<char>>,
    id: RowId,
    row: Seq<SqlValue>,
    i: int,
)
    requires
        0 <= i <= names.len(),
        forall|a: int, b: int|
            #![trigger names[a], names[b]]
            0 <= a < b < names.len() ==> names[a] != names[b],
        forall|a: int| 0 <= a < names.len() ==> by_name.dom().contains(#[trigger] names[a]),
        row_unindexed_from(schema, by_name, names, id, row, i).1 is Ok,
    ensures
        ({
            let after = row_unindexed_from(schema, by_name, names, id, row, i).0;
            &&& after.dom() == by_name.dom()
            &&& forall|n: Seq<char>| #[trigger]
                by_name.dom().contains(n) && !names.skip(i).contains(n) ==> after[n] == by_name[n]
            &&& forall|j: int|
                i <= j < names.len() ==> {
                    let n = #[trigger] names[j];
                    let key = projected(schema, by_name[n].meta.columns, row);
                    &&& key is Ok
                    &&& after[n] == (IndexStateView {
                        meta: by_name[n].meta,
                        entries: entry_without(by_name[n].entries, key->Ok_0, id),
                    })
                }
        }),
    decreases names.len() - i,
{
    if i < names.len() {
        let index = by_name[names[i]];
        let key = projected(schema, index.meta.columns, row)->Ok_0;
        let next = with_entries(by_name, names[i], entry_without(index.entries, key, id));
        assert(next.dom() =~= by_name.dom());
        lemma_unindexed(schema, next, names, id, row, i + 1);
        let after = row_unindexed_from(schema, by_name, names, id, row, i).0;
        assert forall|n: Seq<char>| #[trigger]
            by_name.dom().contains(n) && !names.skip(i).contains(n) implies after[n]
            == by_name[n] by {
            if names.skip(i + 1).contains(n) {
                let k = choose|k: int|
                    0 <= k < names.skip(i + 1).len() && #[trigger] names.skip(i + 1)[k] == n;
                assert(names.skip(i)[k + 1] == n);
            }
            assert(names.skip(i)[0] == names[i]);
        }
        assert(!names.skip(i + 1).contains(names[i])) by {
            if names.skip(i + 1).contains(names[i]) {
                let k = choose|k: int|
                    0 <= k < names.skip(i + 1).len() && #[trigger] names.skip(i + 1)[k] == names[i];
                assert(names[i + 1 + k] == names[i]);
            }
        }
        assert(after[names[i]] == next[names[i]]);
        assert forall|j: int| i <= j < names.len() implies {
            let n = #[trigger] names[j];
            let key = projected(schema, by_name[n].meta.columns, row);
            &&& key is Ok
            &&& after[n] == (IndexStateView {
                meta: by_name[n].meta,
                entries: entry_without(by_name[n].entries, key->Ok_0, id),
            })
        } by {
            if j > i {
                assert(names[i] != names[j]);
                assert(next[names[j]] == by_name[names[j]]);
            }
        }
    }
}

/// An index lists a new row once it is put under its key.
proof fn lemma_entry_with(
    schema: Schema,
    index: IndexStateView,
    rows: Map<RowId, Seq<SqlValue>>,
    id: RowId,
    row: Seq<SqlValue>,
)
    requires
        lists_rows(schema, index, rows),
        !rows.dom().contains(id),
        projected(schema, index.meta.columns, row) is Ok,
    ensures
        lists_rows(
            schema,
            IndexStateView {
                meta: index.meta,
                entries: entry_with(
                    index.entries,
                    projected(schema, index.meta.columns, row)->Ok_0,
                    id,
                ),
            },
            rows.insert(id, row),
        ),
{
    let key = projected(schema, index.meta.columns, row)->Ok_0;
    let after = IndexStateView {
        meta: index.meta,
        entries: entry_with(index.entries, key, id),
    };
    let columns = index.meta.columns;
    assert forall|k: Seq<SqlValue>| #[trigger]
        ids_under(after, k) == rows_with_key(schema, columns, rows.insert(id, row), k) by {
        assert(ids_under(index, k) == rows_with_key(schema, columns, rows, k));
        assert(ids_under(after, k) =~= rows_with_key(schema, columns, rows.insert(id, row), k));
    }
    assert forall|k: Seq<SqlValue>| #[trigger] after.entries.dom().contains(k) implies after.entries[k]
        != Set::<RowId>::empty() by {
        if k == key {
            assert(after.entries[k].contains(id));
        } else {
            assert(index.entries.dom().contains(k));
        }
    }
}

/// An index does not list a row any more once it is taken from under its key.
proof fn lemma_entry_without(
    schema: Schema,
    index: IndexStateView,
    rows: Map<RowId, Seq<SqlValue>>,
    id: RowId,
)
    requires
        lists_rows(schema, index, rows),
        rows.dom().contains(id),
        projected(schema, index.meta.columns, rows[id]) is Ok,
    ensures
        lists_rows(
            schema,
            IndexStateView {
                meta: index.meta,
                entries: entry_without(
                    index.entries,
                    projected(schema, index.meta.columns, rows[id])->Ok_0,
                    id,
                ),
            },
            rows.remove(id),
        ),
{
    let columns = index.meta.columns;
    let key = projected(schema, columns, rows[id])->Ok_0;
    let after = IndexStateView {
        meta: index.meta,
        entries: entry_without(index.entries, key, id),
    };
    assert forall|k: Seq<SqlValue>| #[trigger]
        ids_under(after, k) == rows_with_key(schema, columns, rows.remove(id), k) by {
        assert(ids_under(index, k) == rows_with_key(schema, columns, rows, k));
        assert(ids_under(index, key) == rows_with_key(schema, columns, rows, key));
        assert(ids_under(index, key).contains(id));
        assert(ids_under(after, k) =~= rows_with_key(schema, columns, rows.remove(id), k));
    }
    assert forall|k: Seq<SqlValue>| #[trigger] after.entries.dom().contains(k) implies after.entries[k]
        != Set::<RowId>::empty() by {
        if k != key {
            assert(index.entries.dom().contains(k));
        }
    }
}

/// What holds of a table whose row has been put into its indexes.
proof fn lemma_row_indexed(s: StateView, table: Seq<char>, id: RowId, row: Seq<SqlValue>)
    requires
        in_step(s, table),
        !below(s.rows, table).dom().contains(id),
        id.0 < next_number(s.next_row_ids, table),
        s.with_row(table, id, row).row_indexed(table, id, row).1 is Ok,
    ensures
        in_step(s.with_row(table, id, row).row_indexed(table, id, row).0, table),
        keys_apart(s, table) ==> keys_apart(
            s.with_row(table, id, row).row_indexed(table, id, row).0,
            table,
        ),
{
    let a = s.with_row(table, id, row);
    let b = a.row_indexed(table, id, row).0;
    let rows = below(s.rows, table);
    assert(below(b.rows, table) == rows.insert(id, row));
    if s.indexes.dom().contains(table) {
        let by_name = s.indexes[table];
        let names = sorted::<String>(by_name.dom());
        lemma_names(names, by_name.dom());
        assert forall|k: int| 0 <= k < names.len() implies by_name.dom().contains(
            #[trigger] names[k],
        ) by {
            assert(names.to_set().contains(names[k]));
        }
        lemma_indexed(s.schemas[table], by_name, names, id, row, 0);
        assert forall|n: Seq<char>| #[trigger]
            below(b.indexes, table).dom().contains(n) implies lists_rows(
            b.schemas[table],
            below(b.indexes, table)[n],
            below(b.rows, table),
        ) by {
            assert(names.to_set().contains(n));
            let j = choose|j: int| 0 <= j < names.len() && names[j] == n;
            assert(below(s.indexes, table).dom().contains(n));
            lemma_entry_with(s.schemas[table], by_name[n], rows, id, row);
        }
        if keys_apart(s, table) {
            assert forall|n: Seq<char>, key: Seq<SqlValue>, x: RowId, y: RowId|
                #![trigger ids_under(below(b.indexes, table)[n], key).contains(x), ids_under(
                    below(b.indexes, table)[n],
                    key,
                ).contains(y)]
                below(b.indexes, table).dom().contains(n) && IndexMeta::key_is_unique(
                    below(b.indexes, table)[n].meta,
                    key,
                ) && ids_under(below(b.indexes, table)[n], key).contains(x) && ids_under(
                    below(b.indexes, table)[n],
                    key,
                ).contains(y) implies x == y by {
                assert(names.to_set().contains(n));
                let j = choose|j: int| 0 <= j < names.len() && names[j] == n;
                let own = projected(s.schemas[table], by_name[n].meta.columns, row)->Ok_0;
                if key == own {
                    assert(!is_taken(by_name[n], own, None));
                    assert forall|z: RowId| !ids_under(by_name[n], own).contains(z) by {
                        if ids_under(by_name[n], own).contains(z) {
                            assert(by_name[n].entries[own].contains(z));
                        }
                    }
                } else {
                    assert(ids_under(below(s.indexes, table)[n], key).contains(x));
                    assert(ids_under(below(s.indexes, table)[n], key).contains(y));
                }
            }
        }
    }
}

/// What holds of a table whose row has been taken out of its indexes.
proof fn lemma_row_unindexed(s: StateView, table: Seq<char>, id: RowId)
    requires
        in_step(s, table),
        below(s.rows, table).dom().contains(id),
        s.row_unindexed(table, id, below(s.rows, table)[id]).1 is Ok,
    ensures
        ({
            let b = s.row_unindexed(table, id, below(s.rows, table)[id]).0;
            in_step(
                StateView {
                    rows: s.rows.insert(table, below(s.rows, table).remove(id)),
                    ..b
                },
                table,
            )
        }),
        keys_apart(s, table) ==> keys_apart(
            s.row_unindexed(table, id, below(s.rows, table)[id]).0,
            table,
        ),
{
    let rows = below(s.rows, table);
    let a = s.row_unindexed(table, id, rows[id]).0;
    let b = StateView { rows: s.rows.insert(table, rows.remove(id)), ..a };
    assert(below(b.rows, table) == rows.remove(id));
    if s.indexes.dom().contains(table) {
        let by_name = s.indexes[table];
        let names = sorted::<String>(by_name.dom());
        lemma_names(names, by_name.dom());
        assert forall|k: int| 0 <= k < names.len() implies by_name.dom().contains(
            #[trigger] names[k],
        ) by {
            assert(names.to_set().contains(names[k]));
        }
        lemma_unindexed(s.schemas[table], by_name, names, id, rows[id], 0);
        assert forall|n: Seq<char>| #[trigger]
            below(b.indexes, table).dom().contains(n) implies lists_rows(
            b.schemas[table],
            below(b.indexes, table)[n],
            below(b.rows, table),
        ) by {
            assert(names.to_set().contains(n));
            let j = choose|j: int| 0 <= j < names.len() && names[j] == n;
            assert(below(s.indexes, table).dom().contains(n));
            lemma_entry_without(s.schemas[table], by_name[n], rows, id);
        }
        if keys_apart(s, table) {
            assert forall|n: Seq<char>, key: Seq<SqlValue>, x: RowId, y: RowId|
                #![trigger ids_under(below(a.indexes, table)[n], key).contains(x), ids_under(
                    below(a.indexes, table)[n],
                    key,
                ).contains(y)]
                below(a.indexes, table).dom().contains(n) && IndexMeta::key_is_unique(
                    below(a.indexes, table)[n].meta,
                    key,
                ) && ids_under(below(a.indexes, table)[n], key).contains(x) && ids_under(
                    below(a.indexes, table)[n],
                    key,
                ).contains(y) implies x == y by {
                assert(names.to_set().contains(n));
                let j = choose|j: int| 0 <= j < names.len() && names[j] == n;
                assert(ids_under(below(s.indexes, table)[n], key).contains(x));
                assert(ids_under(below(s.indexes, table)[n], key).contains(y));
            }
        }
    }
}

/// Inserting a row keeps the indexes of its table in step and unique keys apart, and the row
/// gets a number that no other row of the table has.
pub proof fn law_insert_keeps_indexes_in_step(
    s: StateView,
    table: Seq<char>,
    row: Seq<SqlValue>,
    faults: FaultsView,
)
    requires
        in_step(s, table),
        s.inserted(table, row, faults).1 is Ok,
    ensures
        ({
            let (after, id) = s.inserted(table, row, faults);
            &&& in_step(after, table)
            &&& !below(s.rows, table).dom().contains(id->Ok_0)
            &&& below(after.rows, table) == below(s.rows, table).insert(id->Ok_0, row)
            &&& keys_apart(s, table) ==> keys_apart(after, table)
        }),
{
    let id = next_number(s.next_row_ids, table);
    let numbered = StateView {
        next_row_ids: s.next_row_ids.insert(table, (id + 1) as u64),
        ..s
    };
    if below(s.rows, table).dom().contains(RowId(id)) {
        assert(RowId(id).0 < next_number(s.next_row_ids, table));
    }
    assert forall|other: RowId| #[trigger]
        below(numbered.rows, table).dom().contains(other) implies other.0 < next_number(
        numbered.next_row_ids,
        table,
    ) by {
        assert(below(s.rows, table).dom().contains(other));
    }
    assert forall|name: Seq<char>| #[trigger]
        below(numbered.indexes, table).dom().contains(name) implies numbered.schemas.dom().contains(
        table,
    ) && lists_rows(
        numbered.schemas[table],
        below(numbered.indexes, table)[name],
        below(numbered.rows, table),
    ) by {
        assert(below(s.indexes, table).dom().contains(name));
    }
    lemma_row_indexed(numbered, table, RowId(id), row);
}

/// Deleting a row keeps the indexes of its table in step and unique keys apart.
pub proof fn law_delete_keeps_indexes_in_step(s: StateView, table: Seq<char>, id: RowId)
    requires
        in_step(s, table),
        s.deleted(table, id).1 is Ok,
    ensures
        in_step(s.deleted(table, id).0, table),
        below(s.deleted(table, id).0.rows, table) =~= below(s.rows, table).remove(id),
        keys_apart(s, table) ==> keys_apart(s.deleted(table, id).0, table),
{
    let rows = below(s.rows, table);
    if rows.dom().contains(id) {
        lemma_row_unindexed(s, table, id);
        let a = s.row_unindexed(table, id, rows[id]).0;
        assert(s.deleted(table, id).0 =~= (StateView {
            rows: s.rows.insert(table, rows.remove(id)),
            ..a
        }));
    }
}

/// Giving a row other values keeps the indexes of its table in step and unique keys apart.
pub proof fn law_update_keeps_indexes_in_step(
    s: StateView,
    table: Seq<char>,
    id: RowId,
    row: Seq<SqlValue>,
    faults: FaultsView,
)
    requires
        in_step(s, table),
        s.updated(table, id, row, faults).1 is Ok,
    ensures
        in_step(s.updated(table, id, row, faults).0, table),
        below(s.rows, table).dom().contains(id) ==> below(
            s.updated(table, id, row, faults).0.rows,
            table,
        ) == below(s.rows, table).insert(id, row),
        keys_apart(s, table) ==> keys_apart(s.updated(table, id, row, faults).0, table),
{
    let rows = below(s.rows, table);
    if rows.dom().contains(id) && rows[id] == row {
        assert(rows.insert(id, row) =~= rows);
    }
    if rows.dom().contains(id) && rows[id] != row {
        let a = s.row_unindexed(table, id, rows[id]).0;
        lemma_row_unindexed(s, table, id);
        let gone = StateView { rows: s.rows.insert(table, rows.remove(id)), ..a };
        assert(below(gone.rows, table) == rows.remove(id));
        assert(rows.remove(id).insert(id, row) =~= rows.insert(id, row));
        assert(gone.with_row(table, id, row) =~= a.with_row(table, id, row));
        assert(next_number(gone.next_row_ids, table) == next_number(s.next_row_ids, table));
        lemma_row_indexed(gone, table, id, row);
    }
}

/// A new index lists the rows that are there, and keeps unique keys apart. The rows and the other
/// indexes stay as they are, and so do the other tables.
pub proof fn law_new_index_lists_rows(s: StateView, table: Seq<char>, index: IndexView)
    requires
        in_step(s, table),
        s.index_made(table, index).1 is Ok,
    ensures
        in_step(s.index_made(table, index).0, table),
        below(s.index_made(table, index).0.indexes, table).dom().contains(index.name),
        below(s.index_made(table, index).0.indexes, table)[index.name].meta == index,
        keys_apart(s, table) ==> keys_apart(s.index_made(table, index).0, table),
        forall|n: Seq<char>|
            n != index.name ==> #[trigger] below(s.index_made(table, index).0.indexes, table).dom().contains(
                n,
            ) == below(s.indexes, table).dom().contains(n) && below(
                s.index_made(table, index).0.indexes,
                table,
            )[n] == below(s.indexes, table)[n],
        s.index_made(table, index).0 == (StateView {
            indexes: s.index_made(table, index).0.indexes,
            ..s
        }),
        forall|t: Seq<char>|
            t != table ==> #[trigger] below(s.index_made(table, index).0.indexes, t) == below(
                s.indexes,
                t,
            ),
{
    let rows = below(s.rows, table);
    let schema = s.schemas[table];
    lemma_gathered_all(schema, index, true, rows);
    let made = IndexStateView { meta: index, entries: gathered(schema, index, true, rows).0 };
    let after = s.index_made(table, index).0;
    assert forall|n: Seq<char>| #[trigger]
        below(after.indexes, table).dom().contains(n) implies lists_rows(
        after.schemas[table],
        below(after.indexes, table)[n],
        below(after.rows, table),
    ) by {
        if n != index.name {
            assert(below(s.indexes, table).dom().contains(n));
        }
    }
    if keys_apart(s, table) {
        assert forall|n: Seq<char>, key: Seq<SqlValue>, x: RowId, y: RowId|
            #![trigger ids_under(below(after.indexes, table)[n], key).contains(x), ids_under(
                below(after.indexes, table)[n],
                key,
            ).contains(y)]
            below(after.indexes, table).dom().contains(n) && IndexMeta::key_is_unique(
                below(after.indexes, table)[n].meta,
                key,
            ) && ids_under(below(after.indexes, table)[n], key).contains(x) && ids_under(
                below(after.indexes, table)[n],
                key,
            ).contains(y) implies x == y by {
            if n == index.name {
                assert(below(after.indexes, table)[n] == made);
                assert(ids_under(made, key).contains(x) && ids_under(made, key).contains(y));
            } else {
                assert(ids_under(below(s.indexes, table)[n], key).contains(x));
                assert(ids_under(below(s.indexes, table)[n], key).contains(y));
            }
        }
    }
}

/// Whether an index has each key that it allows once under one row at most.
pub open spec fn apart(index: IndexStateView) -> bool {
    forall|key: Seq<SqlValue>, a: RowId, b: RowId|
        #![trigger ids_under(index, key).contains(a), ids_under(index, key).contains(b)]
        IndexMeta::key_is_unique(index.meta, key) && ids_under(index, key).contains(a) && ids_under(
            index,
            key,
        ).contains(b) ==> a == b
}

pub proof fn lemma_gathered(
    schema: Schema,
    index: IndexView,
    checked: bool,
    rows: Map<RowId, Seq<SqlValue>>,
    ids: Seq<RowId>,
    entries: Map<Seq<SqlValue>, Set<RowId>>,
    i: int,
)
    requires
        0 <= i <= ids.len(),
        ascending::<RowId>(ids),
        ids.to_set() == rows.dom(),
        lists_rows(
            schema,
            IndexStateView { meta: index, entries },
            rows.restrict(ids.take(i).to_set()),
        ),
        checked ==> apart(IndexStateView { meta: index, entries }),
        gathered_from(schema, index, checked, rows, ids, entries, i).1 is Ok,
    ensures
        lists_rows(
            schema,
            IndexStateView {
                meta: index,
                entries: gathered_from(schema, index, checked, rows, ids, entries, i).0,
            },
            rows.restrict(ids.take(ids.len() as int).to_set()),
        ),
        checked ==> apart(
            IndexStateView {
                meta: index,
                entries: gathered_from(schema, index, checked, rows, ids, entries, i).0,
            },
        ),
    decreases ids.len() - i,
{
    if i < ids.len() {
        let id = ids[i];
        let key = projected(schema, index.columns, rows[id])->Ok_0;
        let part = rows.restrict(ids.take(i).to_set());
        assert(ids.to_set().contains(id));
        assert(!ids.take(i).contains(id)) by {
            if ids.take(i).contains(id) {
                let k = choose|k: int| 0 <= k < i && #[trigger] ids.take(i)[k] == id;
                assert(<RowId as OrdKey>::before(ids[k], ids[i]));
            }
        }
        assert(!part.dom().contains(id));
        lemma_entry_with(
            schema,
            IndexStateView { meta: index, entries },
            part,
            id,
            rows[id],
        );
        assert(ids.take(i + 1).to_set() =~= ids.take(i).to_set().insert(id)) by {
            assert(ids.take(i + 1) =~= ids.take(i).push(id));
            assert forall|x: RowId| ids.take(i + 1).contains(x) == (ids.take(i).contains(x) || x
                == id) by {
                if ids.take(i).contains(x) {
                    let k = choose|k: int| 0 <= k < i && #[trigger] ids.take(i)[k] == x;
                    assert(ids.take(i + 1)[k] == x);
                }
                assert(ids.take(i + 1)[i] == id);
                if ids.take(i + 1).contains(x) && x != id {
                    let k = choose|k: int| 0 <= k < i + 1 && #[trigger] ids.take(i + 1)[k] == x;
                    assert(ids.take(i)[k] == x);
                }
            }
        }
        assert(rows.restrict(ids.take(i + 1).to_set()) =~= part.insert(id, rows[id]));
        if checked {
            let before = IndexStateView { meta: index, entries };
            let after = IndexStateView { meta: index, entries: entry_with(entries, key, id) };
            assert forall|k: Seq<SqlValue>, a: RowId, b: RowId|
                #![trigger ids_under(after, k).contains(a), ids_under(after, k).contains(b)]
                IndexMeta::key_is_unique(index, k) && ids_under(after, k).contains(a) && ids_under(
                    after,
                    k,
                ).contains(b) implies a == b by {
                if k == key {
                    assert(!is_taken(before, key, None));
                    assert forall|z: RowId| !ids_under(before, key).contains(z) by {
                        if ids_under(before, key).contains(z) {
                            assert(entries[key].contains(z));
                        }
                    }
                } else {
                    assert(ids_under(before, k).contains(a));
                    assert(ids_under(before, k).contains(b));
                }
            }
        }
        lemma_gathered(schema, index, checked, rows, ids, entry_with(entries, key, id), i + 1);
    }
}

/// An index that is gathered over rows lists them, and keeps unique keys apart where that is
/// checked.
pub proof fn lemma_gathered_all(
    schema: Schema,
    index: IndexView,
    checked: bool,
    rows: Map<RowId, Seq<SqlValue>>,
)
    requires
        rows.dom().finite(),
        gathered(schema, index, checked, rows).1 is Ok,
    ensures
        lists_rows(
            schema,
            IndexStateView { meta: index, entries: gathered(schema, index, checked, rows).0 },
            rows,
        ),
        checked ==> apart(
            IndexStateView { meta: index, entries: gathered(schema, index, checked, rows).0 },
        ),
{
    let ids = sorted::<RowId>(rows.dom());
    lemma_sorted_exists::<RowId>(rows.dom());
    let none = IndexStateView { meta: index, entries: Map::empty() };
    assert forall|k: Seq<SqlValue>| #[trigger]
        ids_under(none, k) == rows_with_key(
        schema,
        index.columns,
        Map::<RowId, Seq<SqlValue>>::empty(),
        k,
    ) by {
        assert(ids_under(none, k) =~= rows_with_key(
            schema,
            index.columns,
            Map::<RowId, Seq<SqlValue>>::empty(),
            k,
        ));
    }
    assert(rows.restrict(ids.take(0).to_set()) =~= Map::<RowId, Seq<SqlValue>>::empty());
    lemma_gathered(schema, index, checked, rows, ids, Map::empty(), 0);
    assert(ids.take(ids.len() as int) =~= ids);
    assert(rows.restrict(ids.to_set()) =~= rows);
}

/// Looking up a key finds exactly the rows that have it.
pub proof fn law_lookup_finds_the_rows_with_a_key(
    m: EngineView,
    txn: TransactionId,
    table: Seq<char>,
    index: Seq<char>,
    key: Seq<SqlValue>,
)
    requires
        in_step(m.state, table),
        m.index_for(txn, table, index) is Ok,
    ensures
        m.looked_up(txn, table, index, key) == Ok::<_, ErrorView>(
            sorted::<RowId>(
                rows_with_key(
                    m.state.schemas[table],
                    below(m.state.indexes, table)[index].meta.columns,
                    below(m.state.rows, table),
                    key,
                ),
            ),
        ),
{
    let ix = below(m.state.indexes, table)[index];
    assert(below(m.state.indexes, table).dom().contains(index));
    assert(ids_under(ix, key) == rows_with_key(
        m.state.schemas[table],
        ix.meta.columns,
        below(m.state.rows, table),
        key,
    ));
}

} // verus!
