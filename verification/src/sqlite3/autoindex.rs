//! The indexes that a file has for its constraints without writing them down.

use vstd::prelude::*;

use crate::common::error::{result_view, storage, DbError, DbResult, ErrorView};
use crate::common::ordmap::OrdMap;
use crate::common::schema::{copy_names, ColumnDef, IndexMeta, IndexView, Schema, UniqueConstraint};
use crate::common::text::{char_vec, same_text, text_of};
use crate::sqlite3::schema_rows::{SchemaRow, SchemaRowView};
use crate::sqlite3::strings::{occurs_at, stands_at, text_usize, usize_of};

verus! {

/// How the name of such an index starts.
pub open spec fn auto_prefix() -> Seq<char> {
    "sqlite_autoindex_"@
}

/// Whether a name starts with another.
pub open spec fn starts_with(name: Seq<char>, start: Seq<char>) -> bool {
    occurs_at(name, start, 0)
}

/// Whether a name starts with another.
pub fn has_start(name: &str, start: &str) -> (r: bool)
    ensures
        r == starts_with(name@, start@),
{
    stands_at(&char_vec(name), &char_vec(start), 0)
}

/// The last position of a character below a bound.
pub open spec fn last_before(s: Seq<char>, c: char, n: int) -> Option<int>
    decreases n,
{
    if n <= 0 || n > s.len() {
        None
    } else if s[n - 1] == c {
        Some(n - 1)
    } else {
        last_before(s, c, n - 1)
    }
}

/// The ordinal in the name of an index for a constraint of a table.
pub open spec fn auto_ordinal(name: Seq<char>, table: Seq<char>) -> Option<usize> {
    if !starts_with(name, auto_prefix()) {
        None
    } else {
        let rest = name.skip(auto_prefix().len() as int);
        match last_before(rest, '_', rest.len() as int) {
            None => None,
            Some(k) => if rest.take(k) == table {
                usize_of(rest.skip(k + 1))
            } else {
                None
            },
        }
    }
}

/// The ordinal in the name of an index for a constraint of a table.
pub fn parse_autoindex_name(index_name: &str, table_name: &str) -> (r: Option<usize>)
    ensures
        r == auto_ordinal(index_name@, table_name@),
{
    let name = char_vec(index_name);
    let start = char_vec("sqlite_autoindex_");
    if !stands_at(&name, &start, 0) {
        return None;
    }
    let from: usize = start.len();
    let ghost rest = name@.skip(from as int);
    let mut n: usize = name.len();
    while n > from && name[n - 1] != '_'
        invariant
            from <= n <= name@.len(),
            rest == name@.skip(from as int),
            last_before(rest, '_', n - from) == last_before(rest, '_', rest.len() as int),
        decreases n,
    {
        assert(rest[n - from - 1] == name@[n - 1]);
        n = n - 1;
    }
    if n <= from {
        return None;
    }
    assert(rest[n - from - 1] == name@[n - 1]);
    let owner = text_of(&name, from, n - 1);
    assert(owner@ =~= rest.take(n - from - 1));
    if !same_text(owner.as_str(), table_name) {
        return None;
    }
    let digits = text_of(&name, n, name.len());
    assert(digits@ =~= rest.skip(n - from));
    text_usize(digits.as_str())
}

/// The greatest ordinal for each table, once a row is seen.
pub open spec fn ordinal_seen(m: Map<Seq<char>, usize>, row: SchemaRowView) -> Map<
    Seq<char>,
    usize,
> {
    if row.entry_type != "index"@ {
        m
    } else {
        match auto_ordinal(row.name, row.table_name) {
            None => m,
            Some(ordinal) => {
                let before: usize = if m.dom().contains(row.table_name) {
                    m[row.table_name]
                } else {
                    0
                };
                m.insert(
                    row.table_name,
                    if ordinal > before {
                        ordinal
                    } else {
                        before
                    },
                )
            },
        }
    }
}

/// The greatest ordinal for each table, in rows from one on.
pub open spec fn ordinals_from(rows: Seq<SchemaRowView>, i: int, m: Map<Seq<char>, usize>) -> Map<
    Seq<char>,
    usize,
>
    decreases rows.len() - i,
{
    if i < 0 || i >= rows.len() {
        m
    } else {
        ordinals_from(rows, i + 1, ordinal_seen(m, rows[i]))
    }
}

fn see_ordinal(m: &mut OrdMap<String, usize>, row: &SchemaRow)
    ensures
        final(m)@ == ordinal_seen(old(m)@, row@),
{
    if !same_text(row.entry_type.as_str(), "index") {
        return;
    }
    match parse_autoindex_name(row.name.as_str(), row.table_name.as_str()) {
        None => {},
        Some(ordinal) => {
            let before: usize = match m.get(&row.table_name) {
                Some(n) => *n,
                None => 0,
            };
            m.insert(
                row.table_name.clone(),
                if ordinal > before {
                    ordinal
                } else {
                    before
                },
            );
        },
    }
}

/// The greatest ordinal for each table.
pub fn max_autoindex_ordinals(rows: &Vec<SchemaRow>) -> (r: OrdMap<String, usize>)
    ensures
        r@ == ordinals_from(rows.deep_view(), 0, Map::empty()),
{
    let mut m: OrdMap<String, usize> = OrdMap::new();
    let mut i: usize = 0;
    while i < rows.len()
        invariant
            i <= rows@.len(),
            ordinals_from(rows.deep_view(), i as int, m@) == ordinals_from(
                rows.deep_view(),
                0,
                Map::empty(),
            ),
        decreases rows@.len() - i,
    {
        see_ordinal(&mut m, &rows[i]);
        assert(rows.deep_view()[i as int] == rows@[i as int]@);
        i = i + 1;
    }
    m
}

/// The names of the columns that are marked unique, or as part of the primary key.
pub open spec fn marked_from(
    columns: Seq<ColumnDef>,
    unique: bool,
    i: int,
    out: Seq<Seq<char>>,
) -> Seq<Seq<char>>
    decreases columns.len() - i,
{
    if i < 0 || i >= columns.len() {
        out
    } else if if unique {
        columns[i].unique
    } else {
        columns[i].primary_key
    } {
        marked_from(columns, unique, i + 1, out.push(columns[i].name@))
    } else {
        marked_from(columns, unique, i + 1, out)
    }
}

/// The names of the columns that are marked unique, or as part of the primary key.
pub open spec fn marked(columns: Seq<ColumnDef>, unique: bool) -> Seq<Seq<char>> {
    marked_from(columns, unique, 0, Seq::empty())
}

fn marked_names(columns: &Vec<ColumnDef>, unique: bool) -> (r: Vec<String>)
    ensures
        r.deep_view() == marked(columns@, unique),
        r@.len() <= columns@.len(),
{
    let mut out: Vec<String> = Vec::new();
    assert(out.deep_view() =~= Seq::<Seq<char>>::empty());
    let mut i: usize = 0;
    while i < columns.len()
        invariant
            i <= columns@.len(),
            out@.len() <= i,
            marked_from(columns@, unique, i as int, out.deep_view()) == marked(columns@, unique),
        decreases columns@.len() - i,
    {
        let chosen = if unique {
            columns[i].unique
        } else {
            columns[i].primary_key
        };
        if chosen {
            let ghost before = out.deep_view();
            out.push(columns[i].name.clone());
            assert(out.deep_view() =~= before.push(columns@[i as int].name@));
        }
        i = i + 1;
    }
    out
}

/// The first ordinal that stands for a unique constraint: those for the primary key come
/// before. Where the ordinals do not reach that far, it is the greatest number there is.
pub open spec fn unique_start(uniques: int, highest: Option<usize>) -> int {
    match highest {
        Some(most) => if uniques > 0 && most >= uniques {
            most - uniques + 1
        } else {
            usize::MAX as int
        },
        None => usize::MAX as int,
    }
}

/// The columns of the index with an ordinal.
pub open spec fn auto_columns(schema: Schema, name: Seq<char>, ordinal: usize, highest: Option<
    usize,
>) -> Result<Seq<Seq<char>>, ErrorView> {
    let inline = marked(schema.columns@, true);
    let others = schema.unique_constraints@;
    let uniques = inline.len() + others.len();
    let start = unique_start(uniques as int, highest);
    if ordinal >= start && uniques > 0 {
        let k = ordinal - start;
        if k < inline.len() {
            Ok(seq![inline[k]])
        } else if k - inline.len() < others.len() {
            Ok(others[k - inline.len()].columns.deep_view())
        } else {
            Err(
                storage(
                    "sqlite autoindex "@ + name
                        + " could not be matched to table UNIQUE constraint"@,
                ),
            )
        }
    } else {
        let key = marked(schema.columns@, false);
        if key.len() == 0 {
            Err(
                storage(
                    "sqlite autoindex "@ + name
                        + " could not be matched to UNIQUE or PRIMARY KEY columns"@,
                ),
            )
        } else {
            Ok(key)
        }
    }
}

fn fail_autoindex(name: &str, end: &str) -> (r: DbError)
    ensures
        r@ == storage("sqlite autoindex "@ + name@ + end@),
{
    let mut message = "sqlite autoindex ".to_owned();
    message.append(name);
    message.append(end);
    DbError::storage(message.as_str())
}

/// The model of names.
pub open spec fn names_result(r: DbResult<Vec<String>>) -> Result<Seq<Seq<char>>, ErrorView> {
    match r {
        Ok(v) => Ok(v.deep_view()),
        Err(e) => Err(e@),
    }
}

fn autoindex_columns(schema: &Schema, name: &str, ordinal: usize, highest: Option<usize>) -> (r:
    DbResult<Vec<String>>)
    ensures
        names_result(r) == auto_columns(*schema, name@, ordinal, highest),
{
    let inline = marked_names(&schema.columns, true);
    let others: &Vec<UniqueConstraint> = &schema.unique_constraints;
    let inline_count: u128 = inline.len() as u128;
    let uniques: u128 = inline_count + others.len() as u128;
    let start: u128 = match highest {
        Some(most) => if uniques > 0 && most as u128 >= uniques {
            most as u128 - uniques + 1
        } else {
            usize::MAX as u128
        },
        None => usize::MAX as u128,
    };
    if ordinal as u128 >= start && uniques > 0 {
        let k: u128 = ordinal as u128 - start;
        if k < inline_count {
            let mut columns: Vec<String> = Vec::new();
            columns.push(inline[k as usize].clone());
            assert(columns.deep_view() =~= seq![inline.deep_view()[k as int]]);
            return Ok(columns);
        }
        let at: u128 = k - inline_count;
        if at < others.len() as u128 {
            return Ok(copy_names(&others[at as usize].columns));
        }
        return Err(fail_autoindex(name, " could not be matched to table UNIQUE constraint"));
    }
    let key = marked_names(&schema.columns, false);
    if key.len() == 0 {
        return Err(
            fail_autoindex(name, " could not be matched to UNIQUE or PRIMARY KEY columns"),
        );
    }
    Ok(key)
}

/// The index for a constraint of a table, told from its name alone.
pub open spec fn auto_index(
    schemas: Map<Seq<char>, Schema>,
    name: Seq<char>,
    table: Seq<char>,
    highest: Option<usize>,
) -> Result<IndexView, ErrorView> {
    if !schemas.dom().contains(table) {
        Err(storage("sqlite autoindex "@ + name + (" referenced unknown table "@ + table)))
    } else {
        match auto_ordinal(name, table) {
            None => Err(storage("unsupported sqlite autoindex name "@ + name)),
            Some(ordinal) => match auto_columns(schemas[table], name, ordinal, highest) {
                Err(e) => Err(e),
                Ok(columns) => Ok(
                    IndexView {
                        name,
                        columns,
                        decorated_columns: None,
                        unique: true,
                        predicate: None,
                    },
                ),
            },
        }
    }
}

/// The index for a constraint of a table, told from its name alone.
pub fn parse_autoindex(
    schemas: &OrdMap<String, Schema>,
    index_name: &str,
    table_name: &String,
    max_ordinal: Option<usize>,
) -> (r: DbResult<IndexMeta>)
    ensures
        result_view(r) == auto_index(schemas@, index_name@, table_name@, max_ordinal),
{
    let schema = match schemas.get(table_name) {
        Some(s) => s,
        None => {
            let mut end = " referenced unknown table ".to_owned();
            end.append(table_name.as_str());
            return Err(fail_autoindex(index_name, end.as_str()));
        },
    };
    let ordinal: usize = match parse_autoindex_name(index_name, table_name.as_str()) {
        Some(n) => n,
        None => {
            let mut message = "unsupported sqlite autoindex name ".to_owned();
            message.append(index_name);
            return Err(DbError::storage(message.as_str()));
        },
    };
    let columns = autoindex_columns(schema, index_name, ordinal, max_ordinal)?;
    Ok(
        IndexMeta {
            name: index_name.to_owned(),
            columns,
            decorated_columns: None,
            unique: true,
            predicate: None,
        },
    )
}

} // verus!
