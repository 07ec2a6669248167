//! What making, dropping and changing tables and indexes of the paged engine leaves of them and of
//! the others.

use vstd::prelude::*;

use crate::common::column_laws::{
    law_columns_are_found_by_name, law_keys_have_the_values_of_their_columns,
    law_renamed_columns_read_the_same, one_renamed, reads,
};
use crate::common::error::ErrorView;
use crate::common::schema::{IndexView, Schema};
use crate::common::value::{SqlValue, TransactionId};
use crate::v2::catalog::CatalogModel;
use crate::v2::codec::{projected, row_of};
use crate::v2::index_store::{columns_fault, index_fault};
use crate::v2::page::PageId;
use crate::v2::schema_store::{first_fault, longer_rows, renamed};
use crate::v2::storage_model::{index_of, indexes_of, roots_of, table_of, StorageModel};
use crate::v2::table_laws::{nothing_under, same_table};
use crate::v2::tree_node::EntryView;
use crate::v2::tree_shape::{lemma_tree_made, tree_became};

verus! {

/// Whether all is kept under the name of each table, and under no other name.
pub open spec fn whole(c: CatalogModel) -> bool {
    &&& c.table_roots.dom() == c.schemas.dom()
    &&& c.next_row_ids.dom() == c.schemas.dom()
    &&& c.indexes.dom().subset_of(c.schemas.dom())
    &&& c.index_roots.dom().subset_of(c.schemas.dom())
}

/// A new table has its columns, no rows and no indexes, and its rows are numbered from one. No
/// table is made in the place of another, and no other table becomes another.
pub proof fn law_new_tables_are_empty(m: StorageModel, txn: TransactionId, schema: Schema)
    requires
        whole(m.catalog),
    ensures
        m.catalog.schemas.dom().contains(schema.name@) || !m.pager.txns.is_active(txn)
            ==> m.schema_made(txn, schema).1 is Err && m.schema_made(txn, schema).0 == m,
        m.schema_made(txn, schema).1 is Ok ==> {
            let after = m.schema_made(txn, schema).0;
            let name = schema.name@;
            &&& after.catalog.schemas.dom() == m.catalog.schemas.dom().insert(name)
            &&& after.catalog.schemas[name] == schema
            &&& after.catalog.next_row_ids.dom().contains(name)
            &&& after.catalog.next_row_ids[name] == 1
            &&& indexes_of(after.catalog, name) == Map::<Seq<char>, IndexView>::empty()
            &&& roots_of(after.catalog, name) == Map::<Seq<char>, PageId>::empty()
            &&& whole(after.catalog)
            &&& 2 <= m.pager.meta.page_count ==> tree_became::<u64>(
                m.pager,
                Set::<PageId>::empty(),
                after.pager,
                after.catalog.table_roots[name],
                Map::<u64, Seq<u8>>::empty(),
            )
            &&& forall|other: Seq<char>|
                other != name ==> #[trigger] same_table(m.catalog, after.catalog, other)
        },
{
    if m.schema_made(txn, schema).1 is Ok {
        let after = m.schema_made(txn, schema).0;
        assert(after.catalog.table_roots.dom() =~= after.catalog.schemas.dom());
        assert(after.catalog.next_row_ids.dom() =~= after.catalog.schemas.dom());
        if 2 <= m.pager.meta.page_count {
            lemma_tree_made::<u64>(m.pager, txn.0);
        }
    }
}

/// A dropped table is gone with all its indexes, and its name is free: a table made under it
/// later has none of them, and its rows are numbered from one. A table that is not there is not
/// dropped. No page and no other table becomes another.
pub proof fn law_dropped_tables_are_gone(
    m: StorageModel,
    txn: TransactionId,
    name: Seq<char>,
    schema: Schema,
)
    requires
        whole(m.catalog),
    ensures
        m.schema_dropped(txn, name).1 is Ok <==> m.catalog.schemas.dom().contains(name)
            && m.pager.txns.is_active(txn),
        m.schema_dropped(txn, name).1 is Err ==> m.schema_dropped(txn, name).0 == m,
        m.schema_dropped(txn, name).1 is Ok ==> {
            let after = m.schema_dropped(txn, name).0;
            let again = after.schema_made(txn, schema);
            &&& nothing_under(after.catalog, name)
            &&& after.pager == m.pager
            &&& whole(after.catalog)
            &&& forall|other: Seq<char>|
                other != name ==> #[trigger] same_table(m.catalog, after.catalog, other)
            &&& schema.name@ == name && again.1 is Ok ==> {
                &&& again.0.catalog.next_row_ids[name] == 1
                &&& indexes_of(again.0.catalog, name) == Map::<Seq<char>, IndexView>::empty()
                &&& roots_of(again.0.catalog, name) == Map::<Seq<char>, PageId>::empty()
            }
        },
{
    if m.schema_dropped(txn, name).1 is Ok {
        let after = m.schema_dropped(txn, name).0;
        assert(after.catalog.table_roots.dom() =~= after.catalog.schemas.dom());
        assert(after.catalog.next_row_ids.dom() =~= after.catalog.schemas.dom());
        law_new_tables_are_empty(after, txn, schema);
    }
}

/// A renamed table keeps its rows, its indexes and the numbers of its rows under the new name,
/// and nothing is left under the old one. A table is not renamed to the name of another. No page
/// becomes another; of the other tables at most the columns do, where new ones are given.
pub proof fn law_renamed_tables_are_kept(
    m: StorageModel,
    txn: TransactionId,
    old_name: Seq<char>,
    schema: Schema,
    others: Map<Seq<char>, Schema>,
)
    requires
        whole(m.catalog),
        !others.dom().contains(schema.name@),
    ensures
        m.schema_renamed(txn, old_name, schema, others).1 is Ok <==> m.pager.txns.is_active(txn)
            && m.catalog.schemas.dom().contains(old_name) && !m.catalog.schemas.dom().contains(
            schema.name@,
        ),
        m.schema_renamed(txn, old_name, schema, others).1 is Err ==> m.schema_renamed(
            txn,
            old_name,
            schema,
            others,
        ).0 == m,
        m.schema_renamed(txn, old_name, schema, others).1 is Ok ==> {
            let after = m.schema_renamed(txn, old_name, schema, others).0;
            let new_name = schema.name@;
            &&& after.pager == m.pager
            &&& nothing_under(after.catalog, old_name)
            &&& whole(after.catalog)
            &&& table_of(after.catalog, new_name) == Ok::<_, ErrorView>(
                (schema, m.catalog.table_roots[old_name]),
            )
            &&& after.catalog.next_row_ids[new_name] == m.catalog.next_row_ids[old_name]
            &&& indexes_of(after.catalog, new_name) == indexes_of(m.catalog, old_name)
            &&& roots_of(after.catalog, new_name) == roots_of(m.catalog, old_name)
            &&& forall|other: Seq<char>|
                other != old_name && other != new_name && !others.dom().contains(other)
                    ==> #[trigger] same_table(m.catalog, after.catalog, other)
            &&& forall|other: Seq<char>|
                other != old_name && other != new_name && #[trigger] m.catalog.schemas.dom().contains(
                    other,
                ) ==> {
                    &&& after.catalog.schemas.dom().contains(other)
                    &&& others.dom().contains(other) ==> after.catalog.schemas[other]
                        == others[other]
                    &&& after.catalog.table_roots[other] == m.catalog.table_roots[other]
                    &&& after.catalog.next_row_ids[other] == m.catalog.next_row_ids[other]
                    &&& indexes_of(after.catalog, other) == indexes_of(m.catalog, other)
                    &&& roots_of(after.catalog, other) == roots_of(m.catalog, other)
                }
        },
{
    if m.schema_renamed(txn, old_name, schema, others).1 is Ok {
        let after = m.schema_renamed(txn, old_name, schema, others).0;
        assert(after.catalog.table_roots.dom() =~= after.catalog.schemas.dom());
        assert(after.catalog.next_row_ids.dom() =~= after.catalog.schemas.dom());
    }
}

/// New columns of a table are kept; its rows, its indexes and all other tables stay. A table that
/// is not there gets none.
pub proof fn law_replaced_tables_keep_their_rows(m: StorageModel, txn: TransactionId, schema: Schema)
    ensures
        m.schema_replaced(txn, schema).1 is Ok <==> m.pager.txns.is_active(txn)
            && m.catalog.schemas.dom().contains(schema.name@),
        m.schema_replaced(txn, schema).1 is Err ==> m.schema_replaced(txn, schema).0 == m,
        m.schema_replaced(txn, schema).1 is Ok ==> {
            let after = m.schema_replaced(txn, schema).0;
            &&& after.pager == m.pager
            &&& after.catalog.schemas.dom() == m.catalog.schemas.dom()
            &&& after.catalog.schemas[schema.name@] == schema
            &&& after.catalog.table_roots == m.catalog.table_roots
            &&& after.catalog.next_row_ids == m.catalog.next_row_ids
            &&& after.catalog.indexes == m.catalog.indexes
            &&& after.catalog.index_roots == m.catalog.index_roots
            &&& forall|other: Seq<char>|
                other != schema.name@ ==> #[trigger] same_table(m.catalog, after.catalog, other)
        },
{
}

// ---------------------------------------------------------------------------
// Columns

proof fn lemma_longer_rows(entries: Seq<EntryView<u64>>, value: SqlValue, i: int)
    requires
        0 <= i <= entries.len(),
        forall|k: int| i <= k < entries.len() ==> row_of((#[trigger] entries[k]).value) is Ok,
    ensures
        longer_rows(entries, value, i).len() == entries.len() - i,
        forall|k: int|
            0 <= k < entries.len() - i ==> #[trigger] longer_rows(entries, value, i)[k] == row_of(
                entries[k + i].value,
            )->Ok_0.push(value),
    decreases entries.len() - i,
{
    if i < entries.len() {
        lemma_longer_rows(entries, value, i + 1);
        let rest = longer_rows(entries, value, i + 1);
        let all = longer_rows(entries, value, i);
        assert forall|k: int| 0 <= k < entries.len() - i implies #[trigger] all[k] == row_of(
            entries[k + i].value,
        )->Ok_0.push(value) by {
            if k > 0 {
                assert(all[k] == rest[k - 1]);
            }
        }
    }
}

/// A row with one more column keeps its values and has the value of the new column behind them.
pub proof fn law_added_columns_hold_their_value(
    entries: Seq<EntryView<u64>>,
    value: SqlValue,
    k: int,
    j: int,
)
    requires
        forall|n: int| 0 <= n < entries.len() ==> row_of((#[trigger] entries[n]).value) is Ok,
        0 <= k < entries.len(),
        0 <= j < row_of(entries[k].value)->Ok_0.len(),
    ensures
        longer_rows(entries, value, 0).len() == entries.len(),
        longer_rows(entries, value, 0)[k].len() == row_of(entries[k].value)->Ok_0.len() + 1,
        longer_rows(entries, value, 0)[k][j] == row_of(entries[k].value)->Ok_0[j],
        longer_rows(entries, value, 0)[k].last() == value,
{
    lemma_longer_rows(entries, value, 0);
    assert(longer_rows(entries, value, 0)[k] == row_of(entries[k + 0].value)->Ok_0.push(value));
}

proof fn lemma_first_fault(
    entries: Seq<EntryView<u64>>,
    faults: Seq<Option<ErrorView>>,
    i: int,
)
    requires
        0 <= i <= entries.len(),
    ensures
        first_fault(entries, faults, i) is None <==> forall|k: int|
            i <= k < entries.len() ==> row_of((#[trigger] entries[k]).value) is Ok && (k
                < faults.len() ==> faults[k] is None),
    decreases entries.len() - i,
{
    if i < entries.len() {
        lemma_first_fault(entries, faults, i + 1);
        if row_of(entries[i].value) is Ok && !(i < faults.len() && faults[i] is Some) {
            assert forall|k: int|
                i <= k < entries.len() && first_fault(entries, faults, i) is None implies row_of(
                (#[trigger] entries[k]).value,
            ) is Ok && (k < faults.len() ==> faults[k] is None) by {}
        }
    }
}

/// A column is refused where the table has one of its name, where the columns would be at fault,
/// or a row would be; the engine then stays as it was. Where it is added, the table has the new
/// columns, its indexes stay, and so do all other tables.
pub proof fn law_added_columns_are_kept(
    m: StorageModel,
    txn: TransactionId,
    table: Seq<char>,
    column: Seq<char>,
    schema: Schema,
    value: SqlValue,
    schema_fault: Option<ErrorView>,
    row_faults: Seq<Option<ErrorView>>,
    k: int,
)
    ensures
        !m.pager.txns.is_active(txn) || !m.catalog.schemas.dom().contains(table)
            || m.catalog.schemas[table].position(column) is Some || schema_fault is Some
            ==> m.column_added(txn, table, column, schema, value, schema_fault, row_faults).1 is Err
            && m.column_added(txn, table, column, schema, value, schema_fault, row_faults).0 == m,
        m.addition_target(txn, table, column) matches Ok((_, entries)) && 0 <= k < entries.len() && k
            < row_faults.len() && row_faults[k] is Some ==> m.column_added(
            txn,
            table,
            column,
            schema,
            value,
            schema_fault,
            row_faults,
        ).1 is Err && m.column_added(
            txn,
            table,
            column,
            schema,
            value,
            schema_fault,
            row_faults,
        ).0 == m,
        m.column_added(txn, table, column, schema, value, schema_fault, row_faults).1 is Ok ==> {
            let after = m.column_added(
                txn,
                table,
                column,
                schema,
                value,
                schema_fault,
                row_faults,
            ).0;
            &&& after.catalog.schemas.dom() == m.catalog.schemas.dom()
            &&& after.catalog.schemas[table] == schema
            &&& after.catalog.indexes == m.catalog.indexes
            &&& after.catalog.index_roots == m.catalog.index_roots
            &&& after.catalog.next_row_ids == m.catalog.next_row_ids
            &&& forall|other: Seq<char>|
                other != table ==> #[trigger] same_table(m.catalog, after.catalog, other)
        },
{
    match m.addition_target(txn, table, column) {
        Ok((root, entries)) => {
            lemma_first_fault(entries, row_faults, 0);
            if 0 <= k < entries.len() && k < row_faults.len() && row_faults[k] is Some {
                assert(entries[k] == entries[k]);
                assert(first_fault(entries, row_faults, 0) is Some);
            }
            let after = m.column_added(
                txn,
                table,
                column,
                schema,
                value,
                schema_fault,
                row_faults,
            );
            if after.1 is Ok {
                assert(after.0.catalog.schemas.dom() =~= m.catalog.schemas.dom());
            }
        },
        Err(_) => {},
    }
}

/// A renamed column keeps its values, and so do the keys of all indexes. A column that is not
/// there is not renamed, nor one to the name of another. No page becomes another, and of the
/// other tables at most the columns do, where new ones are given.
pub proof fn law_renamed_columns_keep_their_values(
    m: StorageModel,
    txn: TransactionId,
    table: Seq<char>,
    old_name: Seq<char>,
    new_name: Seq<char>,
    schema: Schema,
    schema_fault: Option<ErrorView>,
    others: Map<Seq<char>, Schema>,
    index: Seq<char>,
    row: Seq<SqlValue>,
    key: Seq<SqlValue>,
)
    requires
        m.catalog.schemas.dom().contains(table) ==> one_renamed(
            m.catalog.schemas[table],
            schema,
            old_name,
            new_name,
        ),
    ensures
        m.column_renamed(txn, table, old_name, new_name, schema, schema_fault, others).1 is Ok
            <==> m.pager.txns.is_active(txn) && table_of(m.catalog, table) is Ok
            && m.catalog.schemas[table].position(old_name) is Some
            && m.catalog.schemas[table].position(new_name) is None && schema_fault is None,
        m.column_renamed(txn, table, old_name, new_name, schema, schema_fault, others).1 is Err
            ==> m.column_renamed(txn, table, old_name, new_name, schema, schema_fault, others).0
            == m,
        m.column_renamed(txn, table, old_name, new_name, schema, schema_fault, others).1 is Ok ==> {
            let after = m.column_renamed(
                txn,
                table,
                old_name,
                new_name,
                schema,
                schema_fault,
                others,
            ).0;
            &&& after.pager == m.pager
            &&& after.catalog.table_roots == m.catalog.table_roots
            &&& after.catalog.next_row_ids == m.catalog.next_row_ids
            &&& after.catalog.index_roots == m.catalog.index_roots
            &&& after.catalog.schemas.dom() == m.catalog.schemas.dom()
            &&& after.catalog.schemas[table] == schema
            &&& forall|other: Seq<char>|
                other != table && !others.dom().contains(other) ==> #[trigger] same_table(
                    m.catalog,
                    after.catalog,
                    other,
                )
            &&& indexes_of(after.catalog, table).dom() == indexes_of(m.catalog, table).dom()
            &&& indexes_of(m.catalog, table).dom().contains(index) && !indexes_of(
                m.catalog,
                table,
            )[index].columns.contains(new_name) ==> {
                let before = indexes_of(m.catalog, table)[index];
                let now = indexes_of(after.catalog, table)[index];
                &&& now.name == before.name
                &&& now.unique == before.unique
                &&& projected(schema, now.columns, row) == Ok::<_, ErrorView>(key) <==> projected(
                    m.catalog.schemas[table],
                    before.columns,
                    row,
                ) == Ok::<_, ErrorView>(key)
            }
        },
{
    if m.column_renamed(txn, table, old_name, new_name, schema, schema_fault, others).1 is Ok {
        let after = m.column_renamed(
            txn,
            table,
            old_name,
            new_name,
            schema,
            schema_fault,
            others,
        ).0;
        let from = m.catalog.schemas[table];
        assert(after.catalog.schemas.dom() =~= m.catalog.schemas.dom());
        assert(indexes_of(after.catalog, table).dom() =~= indexes_of(m.catalog, table).dom());
        assert forall|other: Seq<char>|
            other != table && !others.dom().contains(other) implies #[trigger] same_table(
            m.catalog,
            after.catalog,
            other,
        ) by {}
        if indexes_of(m.catalog, table).dom().contains(index) && !indexes_of(
            m.catalog,
            table,
        )[index].columns.contains(new_name) {
            let before = indexes_of(m.catalog, table)[index];
            let now = indexes_of(after.catalog, table)[index];
            assert(now.columns == renamed(before.columns, old_name, new_name));
            law_keys_have_the_values_of_their_columns(from, before.columns, row, key);
            law_keys_have_the_values_of_their_columns(schema, now.columns, row, key);
            assert(now.columns.len() == before.columns.len());
            assert forall|j: int| 0 <= j < before.columns.len() implies reads(
                schema,
                row,
                now.columns[j],
                #[trigger] key[j],
            ) == reads(from, row, before.columns[j], key[j]) by {
                assert(before.columns.contains(before.columns[j]));
                law_renamed_columns_read_the_same(
                    from,
                    schema,
                    old_name,
                    new_name,
                    row,
                    before.columns[j],
                    key[j],
                );
            }
        }
    }
}

// ---------------------------------------------------------------------------
// Indexes

proof fn lemma_columns_fault(schema: Schema, columns: Seq<Seq<char>>, i: int)
    requires
        0 <= i <= columns.len(),
    ensures
        columns_fault(schema, columns, i) is None <==> forall|k: int|
            i <= k < columns.len() ==> schema.position(#[trigger] columns[k]) is Some
                && !columns.take(k).contains(columns[k]),
    decreases columns.len() - i,
{
    if i < columns.len() {
        lemma_columns_fault(schema, columns, i + 1);
    }
}

/// An index needs a column. Each of its columns is one of the table, and none comes twice.
pub proof fn law_indexes_have_columns_of_their_table(
    schema: Schema,
    by_name: Map<Seq<char>, IndexView>,
    index: IndexView,
)
    ensures
        index_fault(schema, by_name, index) is None <==> {
            &&& index.columns.len() > 0
            &&& !by_name.dom().contains(index.name)
            &&& forall|k: int|
                0 <= k < index.columns.len() ==> exists|j: int|
                    0 <= j < schema.columns@.len() && (#[trigger] schema.columns@[j]).name@
                        == #[trigger] index.columns[k]
            &&& forall|i: int, k: int|
                #![trigger index.columns[i], index.columns[k]]
                0 <= i < k < index.columns.len() ==> index.columns[i] != index.columns[k]
        },
{
    let columns = index.columns;
    lemma_columns_fault(schema, columns, 0);
    assert forall|k: int| 0 <= k < columns.len() implies ((schema.position(#[trigger] columns[k])
        is Some) <==> exists|j: int|
        0 <= j < schema.columns@.len() && (#[trigger] schema.columns@[j]).name@ == columns[k]) by {
        law_columns_are_found_by_name(schema, columns[k], 0);
        match schema.position(columns[k]) {
            Some(j) => {
                law_columns_are_found_by_name(schema, columns[k], j);
                assert(schema.columns@[j].name@ == columns[k]);
            },
            None => {},
        }
    }
    if columns_fault(schema, columns, 0) is None {
        assert forall|i: int, k: int|
            #![trigger columns[i], columns[k]]
            0 <= i < k < columns.len() implies columns[i] != columns[k] by {
            assert(columns.take(k)[i] == columns[i]);
        }
    }
    if forall|i: int, k: int|
        #![trigger columns[i], columns[k]]
        0 <= i < k < columns.len() ==> columns[i] != columns[k] {
        assert forall|k: int| 0 <= k < columns.len() implies !columns.take(k).contains(
            #[trigger] columns[k],
        ) by {
            if columns.take(k).contains(columns[k]) {
                let i = choose|i: int| 0 <= i < columns.take(k).len() && columns.take(k)[i] == columns[k];
                assert(columns[i] == columns[k]);
            }
        }
    }
}

/// An index is refused where it is at fault, or where there is no table; the engine then stays as
/// it was. Where it is made, it has its columns, and all other indexes and tables stay.
pub proof fn law_new_indexes_are_kept(
    m: StorageModel,
    txn: TransactionId,
    table: Seq<char>,
    index: IndexView,
    other: Seq<char>,
)
    ensures
        !m.pager.txns.is_active(txn) || !m.catalog.schemas.dom().contains(table) || index_fault(
            m.catalog.schemas[table],
            indexes_of(m.catalog, table),
            index,
        ) is Some ==> m.index_made(txn, table, index).1 is Err && m.index_made(txn, table, index).0
            == m,
        m.index_made(txn, table, index).0.catalog.schemas == m.catalog.schemas,
        m.index_made(txn, table, index).0.catalog.table_roots == m.catalog.table_roots,
        m.index_made(txn, table, index).0.catalog.next_row_ids == m.catalog.next_row_ids,
        m.index_made(txn, table, index).1 is Err ==> m.index_made(txn, table, index).0.catalog
            == m.catalog,
        m.index_made(txn, table, index).1 is Ok ==> {
            let after = m.index_made(txn, table, index).0;
            &&& index_of(after.catalog, table, index.name) matches Ok(slot) && slot.name == index.name
                && slot.meta == index
            &&& other != index.name ==> index_of(after.catalog, table, other) == index_of(
                m.catalog,
                table,
                other,
            )
            &&& forall|t: Seq<char>|
                t != table ==> #[trigger] same_table(m.catalog, after.catalog, t)
        },
{
}

/// A dropped index is gone; all other indexes, all tables and all pages stay. An index that is not
/// there is not dropped.
pub proof fn law_dropped_indexes_are_gone(
    m: StorageModel,
    txn: TransactionId,
    table: Seq<char>,
    index: Seq<char>,
    other: Seq<char>,
)
    ensures
        m.index_dropped(txn, table, index).1 is Ok <==> m.pager.txns.is_active(txn) && indexes_of(
            m.catalog,
            table,
        ).dom().contains(index),
        m.index_dropped(txn, table, index).1 is Err ==> m.index_dropped(txn, table, index).0 == m,
        m.index_dropped(txn, table, index).1 is Ok ==> {
            let after = m.index_dropped(txn, table, index).0;
            &&& after.pager == m.pager
            &&& after.catalog.schemas == m.catalog.schemas
            &&& after.catalog.table_roots == m.catalog.table_roots
            &&& after.catalog.next_row_ids == m.catalog.next_row_ids
            &&& !indexes_of(after.catalog, table).dom().contains(index)
            &&& !roots_of(after.catalog, table).dom().contains(index)
            &&& other != index ==> index_of(after.catalog, table, other) == index_of(
                m.catalog,
                table,
                other,
            )
            &&& forall|t: Seq<char>|
                t != table ==> #[trigger] same_table(m.catalog, after.catalog, t)
        },
{
}

} // verus!
