//! What holds of the tables of the first engine: which rows are refused, and what making,
//! dropping and changing a table leaves of it and of the others.

use vstd::prelude::*;

use crate::common::column_laws::{
    law_columns_are_found_by_name, law_longer_rows_read_the_same, law_renamed_columns_read_the_same,
    law_shorter_rows_read_the_same, lemma_same_keys, names_apart, one_less, one_more, one_renamed,
    reads, same_names,
};
use crate::common::error::ErrorView;
use crate::common::ordset::sorted;
use crate::common::schema::{IndexMeta, IndexView, Schema};
use crate::common::value::{RowId, SqlValue, TransactionId};
use crate::v1::laws::{
    in_step, keys_apart, lemma_gathered_all, lemma_names, lists_rows, rows_with_key,
};
use crate::v1::model::{
    below, gathered, is_taken, keys_free_from, rebuilt_from, with_entries, EngineView,
    IndexStateView, StateView,
};
use crate::v1::schemas::first_of;
use crate::v1::searches::ids_under;
use crate::v2::catalog::next_number;
use crate::v2::codec::projected;
use crate::v2::storage_model::FaultsView;

verus! {

/// Whether nothing of a table is another in two states.
pub open spec fn same_table(a: StateView, b: StateView, table: Seq<char>) -> bool {
    &&& a.schemas.dom().contains(table) == b.schemas.dom().contains(table)
    &&& a.schemas.dom().contains(table) ==> a.schemas[table] == b.schemas[table]
    &&& a.rows.dom().contains(table) == b.rows.dom().contains(table)
    &&& a.rows.dom().contains(table) ==> a.rows[table] == b.rows[table]
    &&& a.indexes.dom().contains(table) == b.indexes.dom().contains(table)
    &&& a.indexes.dom().contains(table) ==> a.indexes[table] == b.indexes[table]
    &&& a.next_row_ids.dom().contains(table) == b.next_row_ids.dom().contains(table)
    &&& a.next_row_ids.dom().contains(table) ==> a.next_row_ids[table] == b.next_row_ids[table]
}

/// Whether nothing is kept under a name.
pub open spec fn nothing_under(s: StateView, table: Seq<char>) -> bool {
    &&& !s.schemas.dom().contains(table)
    &&& !s.rows.dom().contains(table)
    &&& !s.indexes.dom().contains(table)
    &&& !s.next_row_ids.dom().contains(table)
}

/// Whether all is kept under the name of each table, and under no other name.
pub open spec fn whole(s: StateView) -> bool {
    &&& s.rows.dom() == s.schemas.dom()
    &&& s.indexes.dom() == s.schemas.dom()
    &&& s.next_row_ids.dom() == s.schemas.dom()
}

// ---------------------------------------------------------------------------
// Rows that are refused

/// A row whose values or key are at fault is not inserted, and no row is changed into it. The
/// same holds of a row with too many or too few values, and of one for a table that is not there.
/// The state stays as it was.
pub proof fn law_refused_rows_change_nothing(
    s: StateView,
    table: Seq<char>,
    id: RowId,
    row: Seq<SqlValue>,
    faults: FaultsView,
)
    requires
        faults.values is Some || faults.key is Some || !s.schemas.dom().contains(table) || row.len()
            != s.schemas[table].columns@.len(),
    ensures
        s.inserted(table, row, faults).1 is Err,
        s.inserted(table, row, faults).0 == s,
        s.updated(table, id, row, faults).0 == s,
        below(s.rows, table).dom().contains(id) && below(s.rows, table)[id] != row ==> s.updated(
            table,
            id,
            row,
            faults,
        ).1 is Err,
        !s.schemas.dom().contains(table) || row.len() != s.schemas[table].columns@.len()
            ==> s.updated(table, id, row, faults).1 is Err,
{
}

/// Changing a row that is not there, or into what it is, changes nothing; nor does deleting a row
/// that is not there.
pub proof fn law_idle_changes_change_nothing(
    s: StateView,
    table: Seq<char>,
    id: RowId,
    row: Seq<SqlValue>,
    faults: FaultsView,
)
    ensures
        !below(s.rows, table).dom().contains(id) ==> s.deleted(table, id) == (s, Ok::<(), ErrorView>(
            (),
        )),
        !below(s.rows, table).dom().contains(id) || below(s.rows, table)[id] == row ==> s.updated(
            table,
            id,
            row,
            faults,
        ).0 == s,
{
}

/// A row with the key of another is refused by an index that allows each key once: it is neither
/// inserted, nor is a row changed into it.
pub proof fn law_taken_keys_are_refused(
    s: StateView,
    table: Seq<char>,
    name: Seq<char>,
    id: RowId,
    other: RowId,
    row: Seq<SqlValue>,
    key: Seq<SqlValue>,
    faults: FaultsView,
)
    requires
        in_step(s, table),
        below(s.indexes, table).dom().contains(name),
        IndexMeta::key_is_unique(below(s.indexes, table)[name].meta, key),
        projected(s.schemas[table], below(s.indexes, table)[name].meta.columns, row) == Ok::<
            _,
            ErrorView,
        >(key),
        below(s.rows, table).dom().contains(other),
        projected(
            s.schemas[table],
            below(s.indexes, table)[name].meta.columns,
            below(s.rows, table)[other],
        ) == Ok::<_, ErrorView>(key),
    ensures
        s.inserted(table, row, faults).1 is Err,
        s.inserted(table, row, faults).0 == s,
        below(s.rows, table).dom().contains(id) && id != other && below(s.rows, table)[id] != row ==> {
            &&& s.updated(table, id, row, faults).1 is Err
            &&& s.updated(table, id, row, faults).0 == s
        },
{
    let by_name = below(s.indexes, table);
    let index = by_name[name];
    let names = sorted::<String>(by_name.dom());
    lemma_names(names, by_name.dom());
    assert(names.to_set().contains(name));
    let at = choose|j: int| 0 <= j < names.len() && names[j] == name;
    assert(ids_under(index, key) == rows_with_key(
        s.schemas[table],
        index.meta.columns,
        below(s.rows, table),
        key,
    ));
    assert(ids_under(index, key).contains(other));
    assert(index.entries[key].contains(other));
    assert(is_taken(index, key, None));
    if id != other {
        assert(is_taken(index, key, Some(id)));
        lemma_not_free(s.schemas[table], by_name, names, row, Some(id), at, 0);
    }
    lemma_not_free(s.schemas[table], by_name, names, row, None, at, 0);
}

proof fn lemma_not_free(
    schema: Schema,
    by_name: Map<Seq<char>, IndexStateView>,
    names: Seq<Seq<char>>,
    row: Seq<SqlValue>,
    but: Option<RowId>,
    at: int,
    i: int,
)
    requires
        0 <= i <= at < names.len(),
        projected(schema, by_name[names[at]].meta.columns, row) is Ok,
        is_taken(
            by_name[names[at]],
            projected(schema, by_name[names[at]].meta.columns, row)->Ok_0,
            but,
        ),
    ensures
        keys_free_from(schema, by_name, names, row, but, i) is Err,
    decreases at - i,
{
    if i < at {
        lemma_not_free(schema, by_name, names, row, but, at, i + 1);
    }
}

/// Inserting, changing and deleting a row of a table leaves all other tables as they are, and the
/// definition of the table. A new row gets the number that is next, and the one after it is next
/// then; changing and deleting leave the next number as it is.
pub proof fn law_other_tables_stay(
    s: StateView,
    table: Seq<char>,
    id: RowId,
    row: Seq<SqlValue>,
    faults: FaultsView,
    other: Seq<char>,
)
    ensures
        other != table ==> same_table(s, s.inserted(table, row, faults).0, other),
        other != table ==> same_table(s, s.updated(table, id, row, faults).0, other),
        other != table ==> same_table(s, s.deleted(table, id).0, other),
        s.inserted(table, row, faults).0.schemas == s.schemas,
        s.updated(table, id, row, faults).0.schemas == s.schemas,
        s.deleted(table, id).0.schemas == s.schemas,
        s.updated(table, id, row, faults).0.next_row_ids == s.next_row_ids,
        s.deleted(table, id).0.next_row_ids == s.next_row_ids,
        s.inserted(table, row, faults).1 matches Ok(new) ==> new.0 == next_number(
            s.next_row_ids,
            table,
        ) && next_number(s.inserted(table, row, faults).0.next_row_ids, table) == new.0 + 1,
{
}

// ---------------------------------------------------------------------------
// Tables

/// A new table has no rows and no indexes, and its rows are numbered from one. It is refused
/// exactly if there is a table of its name, and nothing changes then.
pub proof fn law_new_tables_are_empty(s: StateView, schema: Schema)
    requires
        whole(s),
    ensures
        s.schema_made(schema).1 is Err <==> s.schemas.dom().contains(schema.name@),
        s.schema_made(schema).1 is Err ==> s.schema_made(schema).0 == s,
        s.schema_made(schema).1 is Ok ==> {
            let after = s.schema_made(schema).0;
            &&& after.schemas.dom().contains(schema.name@)
            &&& after.schemas[schema.name@] == schema
            &&& after.rows.dom().contains(schema.name@)
            &&& after.rows[schema.name@].dom().is_empty()
            &&& after.indexes.dom().contains(schema.name@)
            &&& after.indexes[schema.name@].dom().is_empty()
            &&& after.next_row_ids.dom().contains(schema.name@)
            &&& after.next_row_ids[schema.name@] == 1
            &&& whole(after)
            &&& in_step(after, schema.name@)
            &&& keys_apart(after, schema.name@)
            &&& forall|other: Seq<char>| other != schema.name@ ==> #[trigger] same_table(s, after, other)
        },
{
    let after = s.schema_made(schema).0;
    if s.schema_made(schema).1 is Ok {
        assert(after.rows.dom() =~= after.schemas.dom());
        assert(after.indexes.dom() =~= after.schemas.dom());
        assert(after.next_row_ids.dom() =~= after.schemas.dom());
        assert(below(after.rows, schema.name@) =~= Map::empty());
        assert(below(after.indexes, schema.name@) =~= Map::empty());
    }
}

/// Nothing is left of a table that is dropped: neither its definition nor its rows, its indexes
/// or its next number. All other tables stay. A table made of its name is empty, and one that is
/// dropped right after it was made leaves the state as it was.
pub proof fn law_dropped_tables_are_gone(s: StateView, name: Seq<char>, schema: Schema)
    requires
        whole(s),
    ensures
        s.schema_dropped(name).1 is Ok <==> s.schemas.dom().contains(name),
        s.schema_dropped(name).1 is Err ==> s.schema_dropped(name).0 == s,
        s.schema_dropped(name).1 is Ok ==> {
            let after = s.schema_dropped(name).0;
            &&& nothing_under(after, name)
            &&& whole(after)
            &&& forall|other: Seq<char>| other != name ==> #[trigger] same_table(s, after, other)
            &&& schema.name@ == name ==> {
                let (again, r) = after.schema_made(schema);
                &&& r is Ok
                &&& again.schemas[name] == schema
                &&& again.rows[name].dom().is_empty()
                &&& again.indexes[name].dom().is_empty()
                &&& again.next_row_ids[name] == 1
            }
        },
        s.schema_made(schema).1 is Ok ==> s.schema_made(schema).0.schema_dropped(schema.name@) == (
            s,
            Ok::<(), ErrorView>(()),
        ),
{
    let after = s.schema_dropped(name).0;
    if s.schema_dropped(name).1 is Ok {
        assert(after.rows.dom() =~= after.schemas.dom());
        assert(after.indexes.dom() =~= after.schemas.dom());
        assert(after.next_row_ids.dom() =~= after.schemas.dom());
        if schema.name@ == name {
            law_new_tables_are_empty(after, schema);
        }
    }
    if s.schema_made(schema).1 is Ok {
        let made = s.schema_made(schema).0;
        let gone = made.schema_dropped(schema.name@).0;
        assert(gone.schemas =~= s.schemas);
        assert(gone.rows =~= s.rows);
        assert(gone.indexes =~= s.indexes);
        assert(gone.next_row_ids =~= s.next_row_ids);
    }
}

/// A table that is renamed keeps its rows, its indexes and its next number under the new name, in
/// step and with unique keys apart where they were, and nothing is left under the old one. It is
/// refused exactly if there is no table of the old name or one of the new name. Other tables keep
/// all but a definition that is written anew.
pub proof fn law_renamed_tables_are_kept(
    s: StateView,
    old_name: Seq<char>,
    schema: Schema,
    others: Map<Seq<char>, Schema>,
)
    requires
        whole(s),
        s.schemas.dom().contains(old_name) ==> same_names(s.schemas[old_name], schema),
        !others.dom().contains(schema.name@),
    ensures
        s.schema_renamed(old_name, schema, others).1 is Ok <==> s.schemas.dom().contains(old_name)
            && !s.schemas.dom().contains(schema.name@),
        s.schema_renamed(old_name, schema, others).1 is Err ==> s.schema_renamed(
            old_name,
            schema,
            others,
        ).0 == s,
        s.schema_renamed(old_name, schema, others).1 is Ok ==> {
            let after = s.schema_renamed(old_name, schema, others).0;
            let new_name = schema.name@;
            &&& nothing_under(after, old_name)
            &&& after.schemas.dom().contains(new_name) && after.schemas[new_name] == schema
            &&& after.rows.dom().contains(new_name) && after.rows[new_name] == s.rows[old_name]
            &&& after.indexes.dom().contains(new_name) && after.indexes[new_name]
                == s.indexes[old_name]
            &&& after.next_row_ids.dom().contains(new_name) && after.next_row_ids[new_name]
                == s.next_row_ids[old_name]
            &&& whole(after)
            &&& in_step(s, old_name) ==> in_step(after, new_name)
            &&& keys_apart(s, old_name) ==> keys_apart(after, new_name)
            &&& forall|other: Seq<char>|
                other != old_name && other != new_name && !others.dom().contains(other)
                    ==> #[trigger] same_table(s, after, other)
            &&& forall|other: Seq<char>|
                other != old_name && other != new_name && #[trigger] s.rows.dom().contains(other)
                    ==> after.rows[other] == s.rows[other] && after.indexes[other]
                    == s.indexes[other] && after.next_row_ids[other] == s.next_row_ids[other]
        },
{
    if s.schema_renamed(old_name, schema, others).1 is Ok {
        let after = s.schema_renamed(old_name, schema, others).0;
        let new_name = schema.name@;
        assert(after.rows.dom() =~= after.schemas.dom());
        assert(after.indexes.dom() =~= after.schemas.dom());
        assert(after.next_row_ids.dom() =~= after.schemas.dom());
        if in_step(s, old_name) {
            assert forall|name: Seq<char>| #[trigger]
                below(after.indexes, new_name).dom().contains(name) implies lists_rows(
                after.schemas[new_name],
                below(after.indexes, new_name)[name],
                below(after.rows, new_name),
            ) by {
                assert(below(s.indexes, old_name).dom().contains(name));
                lemma_listed_alike(
                    s.schemas[old_name],
                    schema,
                    below(s.indexes, old_name)[name],
                    below(s.rows, old_name),
                );
            }
            assert forall|id: RowId| #[trigger]
                below(after.rows, new_name).dom().contains(id) implies id.0 < next_number(
                after.next_row_ids,
                new_name,
            ) by {
                assert(below(s.rows, old_name).dom().contains(id));
            }
        }
        if keys_apart(s, old_name) {
            assert(below(after.indexes, new_name) == below(s.indexes, old_name));
        }
    }
}

proof fn lemma_listed_alike(
    a: Schema,
    b: Schema,
    index: IndexStateView,
    rows: Map<RowId, Seq<SqlValue>>,
)
    requires
        same_names(a, b),
        lists_rows(a, index, rows),
    ensures
        lists_rows(b, index, rows),
{
    assert forall|key: Seq<SqlValue>| #[trigger]
        ids_under(index, key) == rows_with_key(b, index.meta.columns, rows, key) by {
        assert(ids_under(index, key) == rows_with_key(a, index.meta.columns, rows, key));
        assert forall|id: RowId| rows.dom().contains(id) implies (projected(
            a,
            index.meta.columns,
            rows[id],
        ) == Ok::<_, ErrorView>(key)) == (projected(b, index.meta.columns, rows[id]) == Ok::<
            _,
            ErrorView,
        >(key)) by {
            lemma_same_keys(a, b, index.meta.columns, rows[id], key);
        }
        assert(rows_with_key(a, index.meta.columns, rows, key) =~= rows_with_key(
            b,
            index.meta.columns,
            rows,
            key,
        ));
    }
}

// ---------------------------------------------------------------------------
// Columns

/// Whether all rows of a table have a value for each of its columns.
pub open spec fn rows_fill(s: StateView, table: Seq<char>) -> bool {
    forall|id: RowId| #[trigger]
        below(s.rows, table).dom().contains(id) ==> below(s.rows, table)[id].len()
            == s.schemas[table].columns@.len()
}

proof fn lemma_first_of(faults: Seq<Option<ErrorView>>, total: nat, i: int)
    requires
        0 <= i,
    ensures
        first_of(faults, total, i) is None <==> forall|j: int|
            i <= j < total && j < faults.len() ==> (#[trigger] faults[j]) is None,
    decreases total - i,
{
    if i < total {
        lemma_first_of(faults, total, i + 1);
    }
}

/// A column is added exactly if the table is there and has none of that name, and neither its
/// definition nor a row is at fault; otherwise nothing changes. Each row then has the given value
/// under the new column, and under every other column what it had. The next number, the indexes
/// and all other tables stay.
pub proof fn law_added_columns_hold_their_value(
    s: StateView,
    table: Seq<char>,
    column: Seq<char>,
    schema: Schema,
    value: SqlValue,
    schema_fault: Option<ErrorView>,
    row_faults: Seq<Option<ErrorView>>,
    id: RowId,
    name: Seq<char>,
    v: SqlValue,
)
    requires
        whole(s),
        rows_fill(s, table),
        s.schemas.dom().contains(table) ==> one_more(s.schemas[table], schema, column),
    ensures
        s.column_added(table, column, schema, value, schema_fault, row_faults).1 is Ok <==> {
            &&& s.schemas.dom().contains(table)
            &&& forall|j: int|
                0 <= j < s.schemas[table].columns@.len() ==> (
                #[trigger] s.schemas[table].columns@[j]).name@ != column
            &&& schema_fault is None
            &&& forall|j: int|
                0 <= j < below(s.rows, table).dom().len() && j < row_faults.len() ==> (
                #[trigger] row_faults[j]) is None
        },
        s.column_added(table, column, schema, value, schema_fault, row_faults).1 is Err
            ==> s.column_added(table, column, schema, value, schema_fault, row_faults).0 == s,
        s.column_added(table, column, schema, value, schema_fault, row_faults).1 is Ok ==> {
            let after = s.column_added(table, column, schema, value, schema_fault, row_faults).0;
            &&& after.schemas == s.schemas.insert(table, schema)
            &&& after.indexes == s.indexes
            &&& after.next_row_ids == s.next_row_ids
            &&& whole(after)
            &&& rows_fill(after, table)
            &&& below(after.rows, table).dom() == below(s.rows, table).dom()
            &&& below(s.rows, table).dom().contains(id) ==> {
                &&& reads(schema, below(after.rows, table)[id], column, value)
                &&& name != column ==> (reads(schema, below(after.rows, table)[id], name, v) <==> reads(
                    s.schemas[table],
                    below(s.rows, table)[id],
                    name,
                    v,
                ))
            }
            &&& forall|other: Seq<char>| other != table ==> #[trigger] same_table(s, after, other)
        },
{
    lemma_first_of(row_faults, below(s.rows, table).dom().len(), 0);
    if s.schemas.dom().contains(table) {
        law_columns_are_found_by_name(s.schemas[table], column, 0);
    }
    if s.column_added(table, column, schema, value, schema_fault, row_faults).1 is Ok {
        let after = s.column_added(table, column, schema, value, schema_fault, row_faults).0;
        assert(after.rows.dom() =~= after.schemas.dom());
        assert(after.indexes.dom() =~= after.schemas.dom());
        assert(after.next_row_ids.dom() =~= after.schemas.dom());
        assert(below(after.rows, table).dom() =~= below(s.rows, table).dom());
        assert forall|k: RowId| #[trigger] below(after.rows, table).dom().contains(k) implies below(
            after.rows,
            table,
        )[k].len() == after.schemas[table].columns@.len() by {
            assert(below(s.rows, table).dom().contains(k));
        }
        if below(s.rows, table).dom().contains(id) {
            let row = below(s.rows, table)[id];
            let longer = below(after.rows, table)[id];
            assert(longer.take(row.len() as int) =~= row);
            law_longer_rows_read_the_same(
                s.schemas[table],
                schema,
                column,
                row,
                longer,
                value,
                name,
                v,
            );
        }
    }
}

/// A column is renamed exactly if it is there, there is none of the new name, and the definition
/// is not at fault; otherwise nothing changes. Each row then has under the new name what it had
/// under the old one, and under every other column what it had; indexes over the column are over
/// the new name. The rows, the next numbers and all other tables stay, but for definitions that
/// are written anew.
pub proof fn law_renamed_columns_keep_their_values(
    s: StateView,
    table: Seq<char>,
    old_name: Seq<char>,
    new_name: Seq<char>,
    schema: Schema,
    schema_fault: Option<ErrorView>,
    others: Map<Seq<char>, Schema>,
    id: RowId,
    name: Seq<char>,
    v: SqlValue,
)
    requires
        whole(s),
        s.schemas.dom().contains(table) ==> one_renamed(
            s.schemas[table],
            schema,
            old_name,
            new_name,
        ),
    ensures
        s.column_renamed(table, old_name, new_name, schema, schema_fault, others).1 is Ok <==> {
            &&& s.schemas.dom().contains(table)
            &&& s.schemas[table].position(old_name) is Some
            &&& s.schemas[table].position(new_name) is None
            &&& schema_fault is None
        },
        s.column_renamed(table, old_name, new_name, schema, schema_fault, others).1 is Err
            ==> s.column_renamed(table, old_name, new_name, schema, schema_fault, others).0 == s,
        s.column_renamed(table, old_name, new_name, schema, schema_fault, others).1 is Ok ==> {
            let after = s.column_renamed(
                table,
                old_name,
                new_name,
                schema,
                schema_fault,
                others,
            ).0;
            &&& after.rows == s.rows
            &&& after.next_row_ids == s.next_row_ids
            &&& after.schemas.dom() == s.schemas.dom()
            &&& after.schemas[table] == schema
            &&& whole(after)
            &&& below(s.rows, table).dom().contains(id) ==> {
                let row = below(s.rows, table)[id];
                &&& reads(schema, row, new_name, v) <==> reads(s.schemas[table], row, old_name, v)
                &&& name != old_name && name != new_name ==> (reads(schema, row, name, v) <==> reads(
                    s.schemas[table],
                    row,
                    name,
                    v,
                ))
            }
            &&& below(after.indexes, table).dom() == below(s.indexes, table).dom()
            &&& forall|n: Seq<char>| #[trigger]
                below(s.indexes, table).dom().contains(n) ==> {
                    let (x, y) = (below(s.indexes, table)[n], below(after.indexes, table)[n]);
                    &&& y.entries == x.entries
                    &&& y.meta.name == x.meta.name
                    &&& y.meta.unique == x.meta.unique
                    &&& y.meta.columns.len() == x.meta.columns.len()
                    &&& forall|j: int|
                        0 <= j < x.meta.columns.len() ==> #[trigger] y.meta.columns[j] == (
                        if x.meta.columns[j] == old_name {
                            new_name
                        } else {
                            x.meta.columns[j]
                        })
                }
            &&& forall|other: Seq<char>|
                other != table && !others.dom().contains(other) ==> #[trigger] same_table(
                    s,
                    after,
                    other,
                )
        },
{
    if s.column_renamed(table, old_name, new_name, schema, schema_fault, others).1 is Ok {
        let after = s.column_renamed(table, old_name, new_name, schema, schema_fault, others).0;
        assert(after.schemas.dom() =~= s.schemas.dom());
        assert(after.indexes.dom() =~= s.indexes.dom());
        if below(s.rows, table).dom().contains(id) {
            law_renamed_columns_read_the_same(
                s.schemas[table],
                schema,
                old_name,
                new_name,
                below(s.rows, table)[id],
                name,
                v,
            );
        }
        assert(below(after.indexes, table).dom() =~= below(s.indexes, table).dom());
    }
}

/// A column is not dropped if the table is not there or something is at fault, and nothing
/// changes then. Once it is dropped, each row has under every other column what it had, and each
/// index lists the rows under what they have under its columns. The next numbers and all other
/// tables stay.
pub proof fn law_dropped_columns_leave_the_others(
    s: StateView,
    table: Seq<char>,
    schema: Schema,
    position: int,
    fault: Option<ErrorView>,
    id: RowId,
    name: Seq<char>,
    v: SqlValue,
)
    requires
        whole(s),
        rows_fill(s, table),
        in_step(s, table),
        s.schemas.dom().contains(table) ==> one_less(s.schemas[table], schema, position)
            && names_apart(s.schemas[table]),
    ensures
        !s.schemas.dom().contains(table) || fault is Some ==> s.column_dropped(
            table,
            schema,
            position,
            fault,
        ).1 is Err && s.column_dropped(table, schema, position, fault).0 == s,
        s.column_dropped(table, schema, position, fault).1 is Ok ==> {
            let after = s.column_dropped(table, schema, position, fault).0;
            &&& after.schemas == s.schemas.insert(table, schema)
            &&& after.next_row_ids == s.next_row_ids
            &&& whole(after)
            &&& rows_fill(after, table)
            &&& below(after.rows, table).dom() == below(s.rows, table).dom()
            &&& below(s.rows, table).dom().contains(id) && name
                != s.schemas[table].columns@[position].name@ ==> (reads(
                schema,
                below(after.rows, table)[id],
                name,
                v,
            ) <==> reads(s.schemas[table], below(s.rows, table)[id], name, v))
            &&& below(after.indexes, table).dom() == below(s.indexes, table).dom()
            &&& forall|n: Seq<char>| #[trigger]
                below(s.indexes, table).dom().contains(n) ==> below(after.indexes, table)[n].meta
                    == below(s.indexes, table)[n].meta
            &&& in_step(after, table)
            &&& forall|other: Seq<char>| other != table ==> #[trigger] same_table(s, after, other)
        },
{
    if s.column_dropped(table, schema, position, fault).1 is Ok {
        let after = s.column_dropped(table, schema, position, fault).0;
        let rows = below(after.rows, table);
        assert(after.rows.dom() =~= after.schemas.dom());
        assert(after.indexes.dom() =~= after.schemas.dom());
        assert(after.next_row_ids.dom() =~= after.schemas.dom());
        assert(rows.dom() =~= below(s.rows, table).dom());
        assert forall|k: RowId| #[trigger] rows.dom().contains(k) implies rows[k].len()
            == after.schemas[table].columns@.len() by {
            assert(below(s.rows, table).dom().contains(k));
        }
        if below(s.rows, table).dom().contains(id) && name
            != s.schemas[table].columns@[position].name@ {
            law_shorter_rows_read_the_same(
                s.schemas[table],
                schema,
                position,
                below(s.rows, table)[id],
                name,
                v,
            );
        }
        let by_name = s.indexes[table];
        let names = sorted::<String>(by_name.dom());
        lemma_names(names, by_name.dom());
        assert forall|k: int| 0 <= k < names.len() implies by_name.dom().contains(
            #[trigger] names[k],
        ) by {
            assert(names.to_set().contains(names[k]));
        }
        lemma_rebuilt(schema, by_name, names, rows, 0);
        assert forall|n: Seq<char>| #[trigger]
            below(after.indexes, table).dom().contains(n) implies lists_rows(
            after.schemas[table],
            below(after.indexes, table)[n],
            rows,
        ) by {
            assert(names.to_set().contains(n));
            let j = choose|j: int| 0 <= j < names.len() && names[j] == n;
            assert(lists_rows(schema, below(after.indexes, table)[names[j]], rows));
        }
        assert forall|k: RowId| #[trigger] rows.dom().contains(k) implies k.0 < next_number(
            after.next_row_ids,
            table,
        ) by {
            assert(below(s.rows, table).dom().contains(k));
        }
    }
}

proof fn lemma_rebuilt(
    schema: Schema,
    by_name: Map<Seq<char>, IndexStateView>,
    names: Seq<Seq<char>>,
    rows: Map<RowId, Seq<SqlValue>>,
    i: int,
)
    requires
        0 <= i <= names.len(),
        rows.dom().finite(),
        forall|a: int, b: int|
            #![trigger names[a], names[b]]
            0 <= a < b < names.len() ==> names[a] != names[b],
        forall|a: int| 0 <= a < names.len() ==> by_name.dom().contains(#[trigger] names[a]),
        forall|a: int| 0 <= a < i ==> lists_rows(schema, by_name[#[trigger] names[a]], rows),
        rebuilt_from(schema, by_name, names, rows, i).1 is Ok,
    ensures
        ({
            let after = rebuilt_from(schema, by_name, names, rows, i).0;
            &&& after.dom() == by_name.dom()
            &&& forall|n: Seq<char>| #[trigger]
                by_name.dom().contains(n) ==> after[n].meta == by_name[n].meta
            &&& forall|a: int|
                0 <= a < names.len() ==> lists_rows(schema, after[#[trigger] names[a]], rows)
        }),
    decreases names.len() - i,
{
    if i < names.len() {
        let (entries, r) = gathered(schema, by_name[names[i]].meta, false, rows);
        let next = with_entries(by_name, names[i], entries);
        lemma_gathered_all(schema, by_name[names[i]].meta, false, rows);
        assert(next.dom() =~= by_name.dom());
        assert forall|a: int| 0 <= a < i + 1 implies lists_rows(
            schema,
            next[#[trigger] names[a]],
            rows,
        ) by {
            if a < i {
                assert(names[a] != names[i]);
            }
        }
        lemma_rebuilt(schema, next, names, rows, i + 1);
    }
}

// ---------------------------------------------------------------------------
// Indexes

/// An index is refused where there is one of its name, where it has no columns or where the table
/// is not there, and where two rows have the same key and it allows each once; nothing changes
/// then.
pub proof fn law_refused_indexes_change_nothing(s: StateView, table: Seq<char>, index: IndexView)
    ensures
        s.index_made(table, index).1 is Err ==> s.index_made(table, index).0 == s,
        !s.schemas.dom().contains(table) || index.columns.len() == 0 || below(
            s.indexes,
            table,
        ).dom().contains(index.name) ==> s.index_made(table, index).1 is Err,
{
}

/// A unique index is refused over rows of which two have the same key without a null in it.
pub proof fn law_repeated_keys_refuse_an_index(
    s: StateView,
    table: Seq<char>,
    index: IndexView,
    a: RowId,
    b: RowId,
    key: Seq<SqlValue>,
)
    requires
        in_step(s, table),
        IndexMeta::key_is_unique(index, key),
        a != b,
        below(s.rows, table).dom().contains(a),
        below(s.rows, table).dom().contains(b),
        projected(s.schemas[table], index.columns, below(s.rows, table)[a]) == Ok::<_, ErrorView>(key),
        projected(s.schemas[table], index.columns, below(s.rows, table)[b]) == Ok::<_, ErrorView>(key),
    ensures
        s.index_made(table, index).1 is Err,
{
    if s.index_made(table, index).1 is Ok {
        let rows = below(s.rows, table);
        lemma_gathered_all(s.schemas[table], index, true, rows);
        let made = IndexStateView {
            meta: index,
            entries: gathered(s.schemas[table], index, true, rows).0,
        };
        assert(ids_under(made, key) == rows_with_key(s.schemas[table], index.columns, rows, key));
        assert(ids_under(made, key).contains(a) && ids_under(made, key).contains(b));
    }
}

/// An index that is dropped is gone. The other indexes stay, and so do the rows and the other
/// tables. It is refused exactly if it is not there, and nothing changes then.
pub proof fn law_dropped_indexes_are_gone(s: StateView, table: Seq<char>, index: Seq<char>)
    ensures
        s.index_dropped(table, index).1 is Ok <==> below(s.indexes, table).dom().contains(index),
        s.index_dropped(table, index).1 is Err ==> s.index_dropped(table, index).0 == s,
        s.index_dropped(table, index).1 is Ok ==> {
            let after = s.index_dropped(table, index).0;
            &&& !below(after.indexes, table).dom().contains(index)
            &&& forall|n: Seq<char>|
                n != index ==> #[trigger] below(after.indexes, table).dom().contains(n) == below(
                    s.indexes,
                    table,
                ).dom().contains(n) && below(after.indexes, table)[n] == below(s.indexes, table)[n]
            &&& after.schemas == s.schemas
            &&& after.rows == s.rows
            &&& after.next_row_ids == s.next_row_ids
            &&& in_step(s, table) ==> in_step(after, table)
            &&& keys_apart(s, table) ==> keys_apart(after, table)
            &&& forall|other: Seq<char>| other != table ==> #[trigger] same_table(s, after, other)
        },
{
    if s.index_dropped(table, index).1 is Ok {
        let after = s.index_dropped(table, index).0;
        if in_step(s, table) {
            assert forall|n: Seq<char>| #[trigger]
                below(after.indexes, table).dom().contains(n) implies lists_rows(
                after.schemas[table],
                below(after.indexes, table)[n],
                below(after.rows, table),
            ) by {
                assert(below(s.indexes, table).dom().contains(n));
            }
        }
        if keys_apart(s, table) {
            assert forall|n: Seq<char>, key: Seq<SqlValue>, x: RowId, y: RowId|
                #![trigger ids_under(below(after.indexes, table)[n], key).contains(x), ids_under(
                    below(after.indexes, table)[n],
                    key,
                ).contains(y)]
                below(after.indexes, table).dom().contains(n) && IndexMeta::key_is_unique(
                    below(after.indexes, table)[n].meta,
                    key,
                ) && ids_under(below(after.indexes, table)[n], key).contains(x) && ids_under(
                    below(after.indexes, table)[n],
                    key,
                ).contains(y) implies x == y by {
                assert(ids_under(below(s.indexes, table)[n], key).contains(x));
                assert(ids_under(below(s.indexes, table)[n], key).contains(y));
            }
        }
    }
}

/// A table that is not there gets no new columns. One that is keeps its rows, its indexes and its
/// next number, and all other tables stay.
pub proof fn law_replaced_tables_keep_their_rows(s: StateView, schema: Schema, other: Seq<char>)
    ensures
        s.schema_replaced(schema).1 is Ok <==> s.schemas.dom().contains(schema.name@),
        s.schema_replaced(schema).1 is Err ==> s.schema_replaced(schema).0 == s,
        s.schema_replaced(schema).1 is Ok ==> {
            let after = s.schema_replaced(schema).0;
            &&& after.schemas.dom() == s.schemas.dom()
            &&& after.schemas[schema.name@] == schema
            &&& after.rows == s.rows
            &&& after.indexes == s.indexes
            &&& after.next_row_ids == s.next_row_ids
            &&& other != schema.name@ ==> same_table(s, after, other)
        },
{
}

/// A change that the transaction under way asks for is made, and its outcome is that of the
/// change.
pub proof fn law_own_changes_are_made(
    m: EngineView,
    txn: TransactionId,
    step: (StateView, Result<(), ErrorView>),
)
    requires
        m.active_txn matches Some(a) && a.id == txn,
    ensures
        m.changed(txn, step).0.state == step.0,
        m.changed(txn, step).1 == step.1,
        m.changed(txn, step).0.active_txn == m.active_txn,
{
}

} // verus!
