//! Tables, their columns and constraints, and indexes.

use vstd::prelude::*;

use crate::common::checks::CheckConstraint;
use crate::common::ordmap::Duplicate;
use crate::common::text::same_text;
use crate::common::value::{DbValue, SqlValue};

verus! {

/// The type of a column.
#[derive(Debug, Clone, Copy, PartialEq, Eq, Structural)]
pub enum ColumnType {
    Boolean,
    Integer,
    Numeric,
    Real,
    Text,
    Any,
    Blob,
}

impl ColumnType {
    /// The name of the type in SQL.
    pub open spec fn sql_name(self) -> Seq<char> {
        match self {
            ColumnType::Boolean => "BOOLEAN"@,
            ColumnType::Integer => "INTEGER"@,
            ColumnType::Numeric => "NUMERIC"@,
            ColumnType::Real => "REAL"@,
            ColumnType::Text => "TEXT"@,
            ColumnType::Any => "ANY"@,
            ColumnType::Blob => "BLOB"@,
        }
    }

    /// The name of the type in SQL.
    pub fn name(&self) -> (r: &'static str)
        ensures
            r@ == self.sql_name(),
    {
        match self {
            ColumnType::Boolean => "BOOLEAN",
            ColumnType::Integer => "INTEGER",
            ColumnType::Numeric => "NUMERIC",
            ColumnType::Real => "REAL",
            ColumnType::Text => "TEXT",
            ColumnType::Any => "ANY",
            ColumnType::Blob => "BLOB",
        }
    }
}

/// The direction in which a key is ordered.
#[derive(Debug, Clone, Copy, PartialEq, Eq, Structural)]
pub enum SortOrder {
    Asc,
    Desc,
}

/// The value that a column has where none is given.
#[derive(Debug)]
pub enum ColumnDefault {
    Literal(DbValue),
    CurrentTimestamp,
    CurrentDate,
    CurrentTime,
}

/// A reference from columns of one table to those of another.
#[derive(Debug)]
pub struct ForeignKey {
    pub constraint_name: Option<String>,
    pub columns: Vec<String>,
    pub ref_table: String,
    /// The columns referred to; where none are named, the primary key.
    pub ref_columns: Vec<String>,
    pub match_clause: Option<String>,
    pub on_delete: Option<String>,
    pub on_update: Option<String>,
    pub deferrable: Option<bool>,
    pub initially_deferred: Option<bool>,
}

/// The columns that tell the rows of a table apart.
#[derive(Debug)]
pub struct PrimaryKeyConstraint {
    pub constraint_name: Option<String>,
    pub columns: Vec<String>,
    /// Each column as the definition writes it, with its collation and direction, where it
    /// says more than the names.
    pub decorated_columns: Option<Vec<String>>,
    pub conflict_clause: Option<String>,
}

/// Columns in which no two rows agree.
#[derive(Debug)]
pub struct UniqueConstraint {
    pub constraint_name: Option<String>,
    pub columns: Vec<String>,
    /// Each column as the definition writes it, with its collation and direction, where it
    /// says more than the names.
    pub decorated_columns: Option<Vec<String>>,
    pub conflict_clause: Option<String>,
}

/// Columns as the definition writes them.
pub open spec fn written_columns(columns: Vec<String>, decorated: Option<Vec<String>>) -> Seq<
    String,
> {
    match decorated {
        Some(written) => written@,
        None => columns@,
    }
}

/// Columns as the definition writes them.
pub fn rendered_columns<'a>(columns: &'a Vec<String>, decorated: &'a Option<Vec<String>>) -> (r:
    &'a Vec<String>)
    ensures
        r@ == written_columns(*columns, *decorated),
{
    match decorated {
        Some(written) => written,
        None => columns,
    }
}

/// Copies names.
pub fn copy_names(names: &Vec<String>) -> (r: Vec<String>)
    ensures
        r.deep_view() == names.deep_view(),
{
    let mut out: Vec<String> = Vec::new();
    let mut i: usize = 0;
    while i < names.len()
        invariant
            i <= names@.len(),
            out.deep_view() =~= names.deep_view().take(i as int),
        decreases names@.len() - i,
    {
        let ghost before = out.deep_view();
        out.push(names[i].clone());
        assert(out.deep_view() =~= before.push(names@[i as int]@));
        i = i + 1;
    }
    out
}

/// A place in the order in which the constraints of a table were written.
#[derive(Debug, Clone, Copy, PartialEq, Eq, Structural)]
pub enum TableConstraintOrder {
    Check(usize),
    ForeignKey(usize),
    PrimaryKey,
    Unique(usize),
}

/// A column.
#[derive(Debug)]
pub struct ColumnDef {
    pub name: String,
    pub column_type: ColumnType,
    /// The type as the definition writes it; empty where it names none.
    pub declared_type: String,
    pub collation: Option<String>,
    pub nullable: bool,
    pub primary_key: bool,
    pub primary_key_constraint_name: Option<String>,
    pub primary_key_conflict_clause: Option<String>,
    pub primary_key_sort_order: Option<SortOrder>,
    pub autoincrement: bool,
    pub unique: bool,
    pub unique_constraint_name: Option<String>,
    pub unique_conflict_clause: Option<String>,
    pub not_null_constraint_name: Option<String>,
    pub not_null_conflict_clause: Option<String>,
    pub default_value: Option<ColumnDefault>,
    pub generated_expr: Option<String>,
    pub generated_always_explicit: bool,
    pub generated_stored: bool,
    pub generated_storage_explicit: bool,
    pub checks: Vec<CheckConstraint>,
    pub foreign_key: Option<ForeignKey>,
}

impl ColumnDef {
    /// A column with a name and a type that may be a primary key, and nothing else said of
    /// it.
    pub open spec fn is_plain(&self, name: Seq<char>, column_type: ColumnType, primary_key: bool) -> bool {
        &&& self.name@ == name
        &&& self.column_type == column_type
        &&& self.declared_type@ == column_type.sql_name()
        &&& self.collation is None
        &&& self.nullable == !primary_key
        &&& self.primary_key == primary_key
        &&& self.primary_key_constraint_name is None
        &&& self.primary_key_conflict_clause is None
        &&& self.primary_key_sort_order is None
        &&& !self.autoincrement
        &&& !self.unique
        &&& self.unique_constraint_name is None
        &&& self.unique_conflict_clause is None
        &&& self.not_null_constraint_name is None
        &&& self.not_null_conflict_clause is None
        &&& self.default_value is None
        &&& self.generated_expr is None
        &&& !self.generated_always_explicit
        &&& !self.generated_stored
        &&& !self.generated_storage_explicit
        &&& self.checks@.len() == 0
        &&& self.foreign_key is None
    }

    /// Makes a column that is the primary key of its table.
    pub fn primary_key(name: &str, column_type: ColumnType) -> (r: ColumnDef)
        ensures
            r.is_plain(name@, column_type, true),
    {
        let mut column = ColumnDef::new(name, column_type);
        column.primary_key = true;
        column.nullable = false;
        column
    }

    /// Makes a column of which only the name and the type are known.
    pub fn new(name: &str, column_type: ColumnType) -> (r: ColumnDef)
        ensures
            r.is_plain(name@, column_type, false),
    {
        ColumnDef {
            name: name.to_owned(),
            column_type,
            declared_type: column_type.name().to_owned(),
            collation: None,
            nullable: true,
            primary_key: false,
            primary_key_constraint_name: None,
            primary_key_conflict_clause: None,
            primary_key_sort_order: None,
            autoincrement: false,
            unique: false,
            unique_constraint_name: None,
            unique_conflict_clause: None,
            not_null_constraint_name: None,
            not_null_conflict_clause: None,
            default_value: None,
            generated_expr: None,
            generated_always_explicit: false,
            generated_stored: false,
            generated_storage_explicit: false,
            checks: Vec::new(),
            foreign_key: None,
        }
    }
}

/// A table or a view.
#[derive(Debug)]
pub struct Schema {
    pub name: String,
    pub columns: Vec<ColumnDef>,
    pub primary_key_constraint: Option<PrimaryKeyConstraint>,
    pub checks: Vec<CheckConstraint>,
    pub unique_constraints: Vec<UniqueConstraint>,
    pub foreign_keys: Vec<ForeignKey>,
    pub table_constraint_order: Vec<TableConstraintOrder>,
    pub strict: bool,
    pub without_rowid: bool,
    pub view: bool,
    pub create_sql: Option<String>,
}

/// The position of the first column with a name, from a position on.
pub open spec fn column_from(columns: Seq<ColumnDef>, name: Seq<char>, i: int) -> Option<int>
    decreases columns.len() - i,
{
    if i < 0 || i >= columns.len() {
        None
    } else if columns[i].name@ == name {
        Some(i)
    } else {
        column_from(columns, name, i + 1)
    }
}

impl Schema {
    /// Makes a table of which only the name and the columns are known.
    pub fn new(name: &str, columns: Vec<ColumnDef>) -> (r: Schema)
        ensures
            r.name@ == name@,
            r.columns@ == columns@,
            r.primary_key_constraint is None,
            r.checks@.len() == 0,
            r.unique_constraints@.len() == 0,
            r.foreign_keys@.len() == 0,
            r.table_constraint_order@.len() == 0,
            !r.strict,
            !r.without_rowid,
            !r.view,
            r.create_sql is None,
    {
        Schema {
            name: name.to_owned(),
            columns,
            primary_key_constraint: None,
            checks: Vec::new(),
            unique_constraints: Vec::new(),
            foreign_keys: Vec::new(),
            table_constraint_order: Vec::new(),
            strict: false,
            without_rowid: false,
            view: false,
            create_sql: None,
        }
    }

    /// The position of a column.
    pub open spec fn position(&self, name: Seq<char>) -> Option<int> {
        column_from(self.columns@, name, 0)
    }

    /// The position of a column, if there is one of that name.
    pub fn column_index(&self, name: &str) -> (r: Option<usize>)
        ensures
            match r {
                Some(i) => self.position(name@) == Some(i as int) && i < self.columns@.len(),
                None => self.position(name@) is None,
            },
    {
        let mut i: usize = 0;
        while i < self.columns.len()
            invariant
                i <= self.columns@.len(),
                column_from(self.columns@, name@, i as int) == self.position(name@),
            decreases self.columns@.len() - i,
        {
            if same_text(self.columns[i].name.as_str(), name) {
                return Some(i);
            }
            i = i + 1;
        }
        None
    }

    /// Whether this is a view.
    pub fn is_view(&self) -> (r: bool)
        ensures
            r == self.view,
    {
        self.view
    }
}

/// A schema is its own model.
impl DeepView for Schema {
    type V = Schema;

    open spec fn deep_view(&self) -> Schema {
        *self
    }
}

/// An index of a table.
#[derive(Debug)]
pub struct IndexMeta {
    pub name: String,
    /// The terms of the key: names of columns, or expressions.
    pub columns: Vec<String>,
    /// Each term as the definition writes it, with its collation and direction, where it
    /// says more than the names.
    pub decorated_columns: Option<Vec<String>>,
    pub unique: bool,
    /// The condition on the rows that a partial index holds.
    pub predicate: Option<String>,
}

impl IndexMeta {
    /// Whether a row with a key must be the only one: the index is unique, and the key has no
    /// null in it.
    pub open spec fn key_is_unique(index: IndexView, key: Seq<SqlValue>) -> bool {
        index.unique && !key.contains(SqlValue::Null)
    }

    /// Whether a row with a key must be the only one.
    pub fn enforces_unique_key(&self, key: &[DbValue]) -> (r: bool)
        ensures
            r == IndexMeta::key_is_unique(self@, key.deep_view()),
    {
        if !self.unique {
            return false;
        }
        let mut i: usize = 0;
        while i < key.len()
            invariant
                i <= key@.len(),
                forall|k: int| 0 <= k < i ==> #[trigger] key.deep_view()[k] != SqlValue::Null,
            decreases key@.len() - i,
        {
            assert(key.deep_view()[i as int] == key@[i as int]@);
            match &key[i] {
                DbValue::Null => {
                    return false;
                },
                _ => {},
            }
            i = i + 1;
        }
        true
    }
}

impl Duplicate for IndexMeta {
    fn duplicate(&self) -> (r: IndexMeta) {
        IndexMeta {
            name: self.name.clone(),
            columns: copy_names(&self.columns),
            decorated_columns: match &self.decorated_columns {
                Some(written) => Some(copy_names(written)),
                None => None,
            },
            unique: self.unique,
            predicate: match &self.predicate {
                Some(text) => Some(text.clone()),
                None => None,
            },
        }
    }
}

/// The model of an index.
pub struct IndexView {
    pub name: Seq<char>,
    pub columns: Seq<Seq<char>>,
    pub decorated_columns: Option<Seq<Seq<char>>>,
    pub unique: bool,
    pub predicate: Option<Seq<char>>,
}

impl View for IndexMeta {
    type V = IndexView;

    open spec fn view(&self) -> IndexView {
        IndexView {
            name: self.name@,
            columns: self.columns.deep_view(),
            decorated_columns: match self.decorated_columns {
                Some(v) => Some(v.deep_view()),
                None => None,
            },
            unique: self.unique,
            predicate: match self.predicate {
                Some(t) => Some(t@),
                None => None,
            },
        }
    }
}

impl DeepView for IndexMeta {
    type V = IndexView;

    open spec fn deep_view(&self) -> IndexView {
        self@
    }
}

} // verus!
