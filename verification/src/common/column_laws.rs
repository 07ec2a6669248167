//! What a row holds under the name of a column, and which values make up its key in an index.

use vstd::prelude::*;

use crate::common::error::ErrorView;
use crate::common::schema::{column_from, IndexMeta, IndexView, Schema};
use crate::common::value::SqlValue;
use crate::v2::codec::{projected, projected_from};

verus! {

/// Whether a column is the first of its name.
pub open spec fn stands_at(schema: Schema, name: Seq<char>, k: int) -> bool {
    &&& 0 <= k < schema.columns@.len()
    &&& schema.columns@[k].name@ == name
    &&& forall|j: int| 0 <= j < k ==> (#[trigger] schema.columns@[j]).name@ != name
}

/// Whether a row has a value under the name of a column.
pub open spec fn reads(schema: Schema, row: Seq<SqlValue>, name: Seq<char>, v: SqlValue) -> bool {
    exists|k: int| #[trigger] stands_at(schema, name, k) && k < row.len() && row[k] == v
}

spec fn unread(schema: Schema, row: Seq<SqlValue>, name: Seq<char>) -> bool {
    forall|v: SqlValue| !#[trigger] reads(schema, row, name, v)
}

proof fn lemma_column_from(schema: Schema, name: Seq<char>, i: int)
    requires
        0 <= i <= schema.columns@.len(),
        forall|j: int| 0 <= j < i ==> (#[trigger] schema.columns@[j]).name@ != name,
    ensures
        match column_from(schema.columns@, name, i) {
            Some(k) => stands_at(schema, name, k),
            None => forall|j: int|
                0 <= j < schema.columns@.len() ==> (#[trigger] schema.columns@[j]).name@ != name,
        },
    decreases schema.columns@.len() - i,
{
    if i < schema.columns@.len() && schema.columns@[i].name@ != name {
        lemma_column_from(schema, name, i + 1);
    }
}

/// A column is found by its name, at the first place where it stands, and only if it stands
/// somewhere.
pub proof fn law_columns_are_found_by_name(schema: Schema, name: Seq<char>, k: int)
    ensures
        schema.position(name) == Some(k) <==> stands_at(schema, name, k),
        schema.position(name) is None <==> forall|j: int|
            0 <= j < schema.columns@.len() ==> (#[trigger] schema.columns@[j]).name@ != name,
{
    lemma_column_from(schema, name, 0);
    match schema.position(name) {
        Some(i) => {
            if stands_at(schema, name, k) && i != k {
                if i < k {
                    assert(schema.columns@[i].name@ == name);
                } else {
                    assert(schema.columns@[k].name@ == name);
                }
            }
        },
        None => {
            if stands_at(schema, name, k) {
                assert(schema.columns@[k].name@ == name);
            }
        },
    }
}

proof fn lemma_projected_from(
    schema: Schema,
    columns: Seq<Seq<char>>,
    row: Seq<SqlValue>,
    i: int,
    out: Seq<SqlValue>,
)
    requires
        0 <= i <= columns.len(),
        out.len() == i,
        forall|j: int| 0 <= j < i ==> reads(schema, row, columns[j], #[trigger] out[j]),
    ensures
        match projected_from(schema, columns, row, i, out) {
            Ok(key) => key.len() == columns.len() && forall|j: int|
                0 <= j < columns.len() ==> reads(schema, row, columns[j], #[trigger] key[j]),
            Err(_) => exists|j: int|
                i <= j < columns.len() && #[trigger] unread(schema, row, columns[j]),
        },
    decreases columns.len() - i,
{
    if i < columns.len() {
        match schema.position(columns[i]) {
            None => {
                law_columns_are_found_by_name(schema, columns[i], 0);
                assert(unread(schema, row, columns[i])) by {
                    assert forall|v: SqlValue| !#[trigger] reads(schema, row, columns[i], v) by {
                    if reads(schema, row, columns[i], v) {
                        let k = choose|k: int| #[trigger]
                            stands_at(schema, columns[i], k) && k < row.len() && row[k] == v;
                        law_columns_are_found_by_name(schema, columns[i], k);
                    }
                    }
                }
            },
            Some(k) => {
                law_columns_are_found_by_name(schema, columns[i], k);
                if k < row.len() {
                    assert(reads(schema, row, columns[i], row[k]));
                    lemma_projected_from(schema, columns, row, i + 1, out.push(row[k]));
                } else {
                    assert forall|v: SqlValue| !#[trigger] reads(schema, row, columns[i], v) by {
                        if reads(schema, row, columns[i], v) {
                            let n = choose|n: int| #[trigger]
                                stands_at(schema, columns[i], n) && n < row.len() && row[n] == v;
                            law_columns_are_found_by_name(schema, columns[i], n);
                        }
                    }
                    assert(unread(schema, row, columns[i]));
                }
            },
        }
    }
}

/// A row has one value at most under the name of a column.
pub proof fn law_columns_are_read_unambiguously(
    schema: Schema,
    row: Seq<SqlValue>,
    name: Seq<char>,
    v: SqlValue,
    w: SqlValue,
)
    requires
        reads(schema, row, name, v),
        reads(schema, row, name, w),
    ensures
        v == w,
{
    let k = choose|k: int| #[trigger] stands_at(schema, name, k) && k < row.len() && row[k] == v;
    let n = choose|n: int| #[trigger] stands_at(schema, name, n) && n < row.len() && row[n] == w;
    law_columns_are_found_by_name(schema, name, k);
    law_columns_are_found_by_name(schema, name, n);
}

/// The key of a row in an index has the values that the row has under the names of the columns of
/// the index, in their order. There is a key exactly if there is such a value for each column.
pub proof fn law_keys_have_the_values_of_their_columns(
    schema: Schema,
    columns: Seq<Seq<char>>,
    row: Seq<SqlValue>,
    key: Seq<SqlValue>,
)
    ensures
        projected(schema, columns, row) == Ok::<_, ErrorView>(key) <==> (key.len() == columns.len()
            && forall|j: int|
            0 <= j < columns.len() ==> reads(schema, row, columns[j], #[trigger] key[j])),
{
    lemma_projected_from(schema, columns, row, 0, Seq::empty());
    if key.len() == columns.len() && forall|j: int|
        0 <= j < columns.len() ==> reads(schema, row, columns[j], #[trigger] key[j]) {
        match projected(schema, columns, row) {
            Ok(own) => {
                assert forall|j: int| 0 <= j < columns.len() implies own[j] == key[j] by {
                    law_columns_are_read_unambiguously(schema, row, columns[j], own[j], key[j]);
                }
                assert(own =~= key);
            },
            Err(_) => {
                let j = choose|j: int|
                    0 <= j < columns.len() && #[trigger] unread(schema, row, columns[j]);
                assert(reads(schema, row, columns[j], key[j]));
            },
        }
    }
}

/// A key must be the only one of its kind exactly if its index is unique and none of its values
/// is null.
pub proof fn law_null_keys_may_come_twice(index: IndexView, key: Seq<SqlValue>)
    ensures
        IndexMeta::key_is_unique(index, key) <==> index.unique && forall|j: int|
            0 <= j < key.len() ==> !(#[trigger] key[j] is Null),
{
    if key.contains(SqlValue::Null) {
        let j = choose|j: int| 0 <= j < key.len() && key[j] == SqlValue::Null;
        assert(key[j] is Null);
    }
    if exists|j: int| 0 <= j < key.len() && #[trigger] key[j] is Null {
        let j = choose|j: int| 0 <= j < key.len() && #[trigger] key[j] is Null;
        assert(key[j] == SqlValue::Null);
        assert(key.contains(SqlValue::Null));
    }
}

// ---------------------------------------------------------------------------
// Changed tables

/// Whether two tables have columns of the same names, in the same order.
pub open spec fn same_names(a: Schema, b: Schema) -> bool {
    &&& a.columns@.len() == b.columns@.len()
    &&& forall|j: int| 0 <= j < a.columns@.len() ==> (#[trigger] a.columns@[j]).name@
        == b.columns@[j].name@
}

/// Whether a table has the columns of another and one more behind them.
pub open spec fn one_more(before: Schema, after: Schema, name: Seq<char>) -> bool {
    &&& after.columns@.len() == before.columns@.len() + 1
    &&& forall|j: int| 0 <= j < before.columns@.len() ==> (#[trigger] after.columns@[j]).name@
        == before.columns@[j].name@
    &&& after.columns@[before.columns@.len() as int].name@ == name
}

/// Whether a table has the columns of another but for one.
pub open spec fn one_less(before: Schema, after: Schema, at: int) -> bool {
    &&& 0 <= at < before.columns@.len()
    &&& after.columns@.len() == before.columns@.len() - 1
    &&& forall|j: int| 0 <= j < at ==> (#[trigger] after.columns@[j]).name@
        == before.columns@[j].name@
    &&& forall|j: int| at <= j < after.columns@.len() ==> (#[trigger] after.columns@[j]).name@
        == before.columns@[j + 1].name@
}

/// Whether a table has the columns of another, of which one has another name.
pub open spec fn one_renamed(before: Schema, after: Schema, old_name: Seq<char>, new_name: Seq<char>) -> bool {
    &&& after.columns@.len() == before.columns@.len()
    &&& forall|j: int| 0 <= j < before.columns@.len() ==> (#[trigger] after.columns@[j]).name@ == (
    if before.columns@[j].name@ == old_name {
        new_name
    } else {
        before.columns@[j].name@
    })
}

/// Whether no two columns of a table have the same name.
pub open spec fn names_apart(schema: Schema) -> bool {
    forall|i: int, j: int|
        #![trigger schema.columns@[i], schema.columns@[j]]
        0 <= i < j < schema.columns@.len() ==> schema.columns@[i].name@ != schema.columns@[j].name@
}

/// Rows read alike in tables with the same column names.
pub proof fn lemma_same_names(a: Schema, b: Schema, row: Seq<SqlValue>, name: Seq<char>, v: SqlValue)
    requires
        same_names(a, b),
    ensures
        reads(a, row, name, v) == reads(b, row, name, v),
{
    assert forall|k: int| stands_at(a, name, k) == stands_at(b, name, k) by {
        if stands_at(a, name, k) {
            assert(b.columns@[k].name@ == a.columns@[k].name@);
            assert forall|j: int| 0 <= j < k implies (#[trigger] b.columns@[j]).name@ != name by {
                assert(a.columns@[j].name@ != name);
            }
        }
        if stands_at(b, name, k) {
            assert(a.columns@[k].name@ == name);
            assert forall|j: int| 0 <= j < k implies (#[trigger] a.columns@[j]).name@ != name by {
                assert(b.columns@[j].name@ != name);
            }
        }
    }
}

/// Keys are the same in tables with the same column names.
pub proof fn lemma_same_keys(
    a: Schema,
    b: Schema,
    columns: Seq<Seq<char>>,
    row: Seq<SqlValue>,
    key: Seq<SqlValue>,
)
    requires
        same_names(a, b),
    ensures
        (projected(a, columns, row) == Ok::<_, ErrorView>(key)) == (projected(b, columns, row) == Ok::<
            _,
            ErrorView,
        >(key)),
{
    law_keys_have_the_values_of_their_columns(a, columns, row, key);
    law_keys_have_the_values_of_their_columns(b, columns, row, key);
    if key.len() == columns.len() {
        assert forall|j: int| 0 <= j < columns.len() implies reads(a, row, columns[j], #[trigger] key[j])
            == reads(b, row, columns[j], key[j]) by {
            lemma_same_names(a, b, row, columns[j], key[j]);
        }
    }
}

/// A row with one more value reads under the new column what was added, and under every other
/// column what it read.
pub proof fn law_longer_rows_read_the_same(
    before: Schema,
    after: Schema,
    column: Seq<char>,
    row: Seq<SqlValue>,
    longer: Seq<SqlValue>,
    value: SqlValue,
    name: Seq<char>,
    v: SqlValue,
)
    requires
        one_more(before, after, column),
        before.position(column) is None,
        row.len() == before.columns@.len(),
        longer.len() == row.len() + 1,
        longer.take(row.len() as int) == row,
        longer[row.len() as int] == value,
    ensures
        reads(after, longer, column, value),
        name != column ==> (reads(after, longer, name, v) <==> reads(before, row, name, v)),
{
    law_columns_are_found_by_name(before, column, 0);
    let n = before.columns@.len() as int;
    assert(stands_at(after, column, n)) by {
        assert forall|j: int| 0 <= j < n implies (#[trigger] after.columns@[j]).name@ != column by {
            assert(before.columns@[j].name@ != column);
        }
    }
    if name != column {
        assert forall|k: int| stands_at(after, name, k) == stands_at(before, name, k) by {
            if stands_at(after, name, k) {
                assert forall|j: int| 0 <= j < k implies (#[trigger] before.columns@[j]).name@
                    != name by {
                    assert(after.columns@[j].name@ != name);
                }
            }
            if stands_at(before, name, k) {
                assert(after.columns@[k].name@ == name);
                assert forall|j: int| 0 <= j < k implies (#[trigger] after.columns@[j]).name@
                    != name by {
                    assert(before.columns@[j].name@ != name);
                }
            }
        }
        assert forall|k: int| 0 <= k < row.len() implies longer[k] == row[k] by {
            assert(longer.take(row.len() as int)[k] == row[k]);
        }
        if reads(before, row, name, v) {
            let k = choose|k: int| #[trigger]
                stands_at(before, name, k) && k < row.len() && row[k] == v;
            assert(stands_at(after, name, k));
        }
        if reads(after, longer, name, v) {
            let k = choose|k: int| #[trigger]
                stands_at(after, name, k) && k < longer.len() && longer[k] == v;
            assert(stands_at(before, name, k));
        }
    }
}

/// A row without the value of a column reads under every other column what it read.
pub proof fn law_shorter_rows_read_the_same(
    before: Schema,
    after: Schema,
    at: int,
    row: Seq<SqlValue>,
    name: Seq<char>,
    v: SqlValue,
)
    requires
        one_less(before, after, at),
        names_apart(before),
        row.len() == before.columns@.len(),
        name != before.columns@[at].name@,
    ensures
        reads(after, row.remove(at), name, v) <==> reads(before, row, name, v),
{
    let less = row.remove(at);
    if reads(before, row, name, v) {
        let k = choose|k: int| #[trigger] stands_at(before, name, k) && k < row.len() && row[k] == v;
        let n = if k < at {
            k
        } else {
            k - 1
        };
        assert(after.columns@[n].name@ == name);
        assert forall|j: int| 0 <= j < n implies (#[trigger] after.columns@[j]).name@ != name by {
            let i = if j < at {
                j
            } else {
                j + 1
            };
            assert(before.columns@[i].name@ != name);
        }
        assert(stands_at(after, name, n));
        assert(less[n] == v);
    }
    if reads(after, less, name, v) {
        let k = choose|k: int| #[trigger] stands_at(after, name, k) && k < less.len() && less[k] == v;
        let n = if k < at {
            k
        } else {
            k + 1
        };
        assert(before.columns@[n].name@ == name);
        assert forall|j: int| 0 <= j < n implies (#[trigger] before.columns@[j]).name@ != name by {
            let _ = before.columns@[n];
        }
        assert(stands_at(before, name, n));
        assert(row[n] == v);
    }
}

/// A row reads under the new name of a column what it read under the old one, and under every
/// other column what it read.
pub proof fn law_renamed_columns_read_the_same(
    before: Schema,
    after: Schema,
    old_name: Seq<char>,
    new_name: Seq<char>,
    row: Seq<SqlValue>,
    name: Seq<char>,
    v: SqlValue,
)
    requires
        one_renamed(before, after, old_name, new_name),
        before.position(new_name) is None,
    ensures
        reads(after, row, new_name, v) <==> reads(before, row, old_name, v),
        name != old_name && name != new_name ==> (reads(after, row, name, v) <==> reads(
            before,
            row,
            name,
            v,
        )),
{
    law_columns_are_found_by_name(before, new_name, 0);
    assert forall|k: int| stands_at(after, new_name, k) == stands_at(before, old_name, k) by {
        if stands_at(after, new_name, k) {
            assert(before.columns@[k].name@ != new_name);
            assert forall|j: int| 0 <= j < k implies (#[trigger] before.columns@[j]).name@
                != old_name by {
                assert(after.columns@[j].name@ != new_name);
            }
        }
        if stands_at(before, old_name, k) {
            assert(after.columns@[k].name@ == new_name);
            assert forall|j: int| 0 <= j < k implies (#[trigger] after.columns@[j]).name@
                != new_name by {
                assert(before.columns@[j].name@ != old_name);
            }
        }
    }
    if name != old_name && name != new_name {
        assert forall|k: int| stands_at(after, name, k) == stands_at(before, name, k) by {
            if stands_at(after, name, k) {
                assert(before.columns@[k].name@ == name);
                assert forall|j: int| 0 <= j < k implies (#[trigger] before.columns@[j]).name@
                    != name by {
                    assert(after.columns@[j].name@ != name);
                }
            }
            if stands_at(before, name, k) {
                assert(after.columns@[k].name@ == name);
                assert forall|j: int| 0 <= j < k implies (#[trigger] after.columns@[j]).name@
                    != name by {
                    assert(before.columns@[j].name@ != name);
                }
            }
        }
    }
}

} // verus!
