//! Which rows the first engine accepts.

use vstd::prelude::*;

use crate::common::error::ErrorView;
use crate::common::ordset::sorted;
use crate::common::schema::{IndexMeta, Schema};
use crate::common::value::{RowId, SqlValue};
use crate::v1::laws::{in_step, lemma_names, lists_rows, rows_with_key};
use crate::v1::model::{
    below, entry_with, entry_without, is_taken, keys_free_from, row_indexed_from,
    row_unindexed_from, with_entries, IndexStateView, StateView,
};
use crate::v1::searches::ids_under;
use crate::v2::catalog::next_number;
use crate::v2::codec::projected;
use crate::v2::storage_model::FaultsView;

verus! {

/// Whether a row has a key in each index of a table.
pub open spec fn has_keys(s: StateView, table: Seq<char>, row: Seq<SqlValue>) -> bool {
    forall|name: Seq<char>| #[trigger]
        below(s.indexes, table).dom().contains(name) ==> projected(
            s.schemas[table],
            below(s.indexes, table)[name].meta.columns,
            row,
        ) is Ok
}

/// Whether two rows have the same key in an index that allows it only once.
pub open spec fn at_odds(
    s: StateView,
    table: Seq<char>,
    name: Seq<char>,
    row: Seq<SqlValue>,
    other: Seq<SqlValue>,
) -> bool {
    let meta = below(s.indexes, table)[name].meta;
    let key = projected(s.schemas[table], meta.columns, row);
    &&& below(s.indexes, table).dom().contains(name)
    &&& key is Ok
    &&& IndexMeta::key_is_unique(meta, key->Ok_0)
    &&& projected(s.schemas[table], meta.columns, other) == key
}

/// Whether a row is at odds with none of a table, but for one.
pub open spec fn fits_in(s: StateView, table: Seq<char>, row: Seq<SqlValue>, but: Option<RowId>) -> bool {
    forall|name: Seq<char>, id: RowId|
        #![trigger at_odds(s, table, name, row, below(s.rows, table)[id])]
        below(s.rows, table).dom().contains(id) && but != Some(id) ==> !at_odds(
            s,
            table,
            name,
            row,
            below(s.rows, table)[id],
        )
}

proof fn lemma_not_taken(
    s: StateView,
    table: Seq<char>,
    row: Seq<SqlValue>,
    but: Option<RowId>,
    name: Seq<char>,
)
    requires
        in_step(s, table),
        has_keys(s, table, row),
        fits_in(s, table, row, but),
        below(s.indexes, table).dom().contains(name),
    ensures
        ({
            let index = below(s.indexes, table)[name];
            let key = projected(s.schemas[table], index.meta.columns, row);
            key is Ok && !is_taken(index, key->Ok_0, but)
        }),
{
    let index = below(s.indexes, table)[name];
    let rows = below(s.rows, table);
    let key = projected(s.schemas[table], index.meta.columns, row)->Ok_0;
    assert(lists_rows(s.schemas[table], index, rows));
    if is_taken(index, key, but) {
        let id = choose|id: RowId| #[trigger] index.entries[key].contains(id) && but != Some(id);
        assert(ids_under(index, key).contains(id));
        assert(rows_with_key(s.schemas[table], index.meta.columns, rows, key).contains(id));
        assert(at_odds(s, table, name, row, rows[id]));
    }
}

proof fn lemma_keys_free(
    schema: Schema,
    by_name: Map<Seq<char>, IndexStateView>,
    names: Seq<Seq<char>>,
    row: Seq<SqlValue>,
    but: Option<RowId>,
    i: int,
)
    requires
        0 <= i <= names.len(),
        forall|k: int|
            0 <= k < names.len() ==> {
                let index = by_name[#[trigger] names[k]];
                let key = projected(schema, index.meta.columns, row);
                key is Ok && !is_taken(index, key->Ok_0, but)
            },
    ensures
        keys_free_from(schema, by_name, names, row, but, i) is Ok,
    decreases names.len() - i,
{
    if i < names.len() {
        assert(names[i] == names[i]);
        lemma_keys_free(schema, by_name, names, row, but, i + 1);
    }
}

proof fn lemma_entered(
    schema: Schema,
    by_name: Map<Seq<char>, IndexStateView>,
    names: Seq<Seq<char>>,
    id: RowId,
    row: Seq<SqlValue>,
    i: int,
)
    requires
        0 <= i <= names.len(),
        forall|a: int, b: int|
            #![trigger names[a], names[b]]
            0 <= a < b < names.len() ==> names[a] != names[b],
        forall|k: int|
            i <= k < names.len() ==> {
                let index = by_name[#[trigger] names[k]];
                let key = projected(schema, index.meta.columns, row);
                key is Ok && !is_taken(index, key->Ok_0, None)
            },
    ensures
        row_indexed_from(schema, by_name, names, id, row, i).1 is Ok,
    decreases names.len() - i,
{
    if i < names.len() {
        let index = by_name[names[i]];
        let key = projected(schema, index.meta.columns, row)->Ok_0;
        let next = with_entries(by_name, names[i], entry_with(index.entries, key, id));
        assert forall|k: int| i + 1 <= k < names.len() implies {
            let other = next[#[trigger] names[k]];
            let key = projected(schema, other.meta.columns, row);
            key is Ok && !is_taken(other, key->Ok_0, None)
        } by {
            assert(names[i] != names[k]);
            assert(next[names[k]] == by_name[names[k]]);
        }
        lemma_entered(schema, next, names, id, row, i + 1);
    }
}

proof fn lemma_left(
    schema: Schema,
    by_name: Map<Seq<char>, IndexStateView>,
    names: Seq<Seq<char>>,
    id: RowId,
    row: Seq<SqlValue>,
    i: int,
)
    requires
        0 <= i <= names.len(),
        forall|a: int, b: int|
            #![trigger names[a], names[b]]
            0 <= a < b < names.len() ==> names[a] != names[b],
        forall|k: int|
            i <= k < names.len() ==> projected(
                schema,
                by_name[#[trigger] names[k]].meta.columns,
                row,
            ) is Ok,
    ensures
        row_unindexed_from(schema, by_name, names, id, row, i).1 is Ok,
    decreases names.len() - i,
{
    if i < names.len() {
        let index = by_name[names[i]];
        let key = projected(schema, index.meta.columns, row)->Ok_0;
        let next = with_entries(by_name, names[i], entry_without(index.entries, key, id));
        assert forall|k: int| i + 1 <= k < names.len() implies projected(
            schema,
            next[#[trigger] names[k]].meta.columns,
            row,
        ) is Ok by {
            assert(names[i] != names[k]);
            assert(next[names[k]] == by_name[names[k]]);
        }
        lemma_left(schema, next, names, id, row, i + 1);
    }
}

proof fn lemma_all_free(
    s: StateView,
    table: Seq<char>,
    row: Seq<SqlValue>,
    but: Option<RowId>,
) -> (names: Seq<Seq<char>>)
    requires
        in_step(s, table),
        has_keys(s, table, row),
        fits_in(s, table, row, but),
    ensures
        names == sorted::<String>(below(s.indexes, table).dom()),
        forall|a: int, b: int|
            #![trigger names[a], names[b]]
            0 <= a < b < names.len() ==> names[a] != names[b],
        forall|k: int|
            0 <= k < names.len() ==> below(s.indexes, table).dom().contains(#[trigger] names[k]),
        forall|k: int|
            0 <= k < names.len() ==> {
                let index = below(s.indexes, table)[#[trigger] names[k]];
                let key = projected(s.schemas[table], index.meta.columns, row);
                key is Ok && !is_taken(index, key->Ok_0, but)
            },
{
    let names = sorted::<String>(below(s.indexes, table).dom());
    lemma_names(names, below(s.indexes, table).dom());
    assert forall|k: int| 0 <= k < names.len() implies below(s.indexes, table).dom().contains(
        #[trigger] names[k],
    ) by {
        assert(names.to_set().contains(names[k]));
    }
    assert forall|k: int| 0 <= k < names.len() implies {
        let index = below(s.indexes, table)[#[trigger] names[k]];
        let key = projected(s.schemas[table], index.meta.columns, row);
        key is Ok && !is_taken(index, key->Ok_0, but)
    } by {
        lemma_not_taken(s, table, row, but, names[k]);
    }
    names
}

/// A row without a fault that has a value for each column, has its keys and is at odds with no
/// other row is inserted. It gets the next number of the table, and the number behind it is the
/// next one.
pub proof fn law_rows_without_fault_are_inserted(s: StateView, table: Seq<char>, row: Seq<SqlValue>)
    requires
        in_step(s, table),
        s.schemas.dom().contains(table),
        row.len() == s.schemas[table].columns@.len(),
        next_number(s.next_row_ids, table) < u64::MAX,
        has_keys(s, table, row),
        fits_in(s, table, row, None),
    ensures
        ({
            let (after, r) = s.inserted(table, row, FaultsView { values: None, key: None });
            &&& r == Ok::<_, ErrorView>(RowId(next_number(s.next_row_ids, table)))
            &&& next_number(after.next_row_ids, table) == next_number(s.next_row_ids, table) + 1
        }),
{
    let names = lemma_all_free(s, table, row, None);
    let schema = s.schemas[table];
    let by_name = below(s.indexes, table);
    lemma_keys_free(schema, by_name, names, row, None, 0);
    let id = RowId(next_number(s.next_row_ids, table));
    lemma_entered(schema, by_name, names, id, row, 0);
}

/// A row that is there and has its keys is deleted.
pub proof fn law_rows_are_deleted(s: StateView, table: Seq<char>, id: RowId)
    requires
        in_step(s, table),
        s.schemas.dom().contains(table),
        below(s.rows, table).dom().contains(id),
        has_keys(s, table, below(s.rows, table)[id]),
    ensures
        s.deleted(table, id).1 is Ok,
        !below(s.deleted(table, id).0.rows, table).dom().contains(id),
{
    let names = sorted::<String>(below(s.indexes, table).dom());
    lemma_names(names, below(s.indexes, table).dom());
    assert forall|k: int| 0 <= k < names.len() implies projected(
        s.schemas[table],
        below(s.indexes, table)[#[trigger] names[k]].meta.columns,
        below(s.rows, table)[id],
    ) is Ok by {
        assert(names.to_set().contains(names[k]));
        assert(below(s.indexes, table).dom().contains(names[k]));
    }
    lemma_left(
        s.schemas[table],
        below(s.indexes, table),
        names,
        id,
        below(s.rows, table)[id],
        0,
    );
}

} // verus!
