//! Definitions of tables and indexes as SQL: columns, constraints and whole statements.

use vstd::prelude::*;

use crate::common::checks::CheckConstraint;
use crate::common::schema::{
    rendered_columns, written_columns, ColumnDef, ColumnDefault, ForeignKey, IndexMeta,
    PrimaryKeyConstraint, Schema, SortOrder, TableConstraintOrder, UniqueConstraint,
};
use crate::common::text::same_text;
use crate::sqlite3::reals::{Eval, Facts, RealFacts, StopView};
use crate::sqlite3::render::{
    cat, check_text, pushed, render_check_expr, render_literal, value_literal, word, word_if,
    Written,
};

verus! {

/// A word with a text that may be given.
pub open spec fn clause(start: Seq<char>, t: Option<String>) -> Seq<char> {
    match t {
        Some(x) => start + x@,
        None => Seq::empty(),
    }
}

fn push_clause(out: &mut String, start: &str, t: &Option<String>)
    ensures
        final(out)@ == old(out)@ + clause(start@, *t),
{
    match t {
        Some(x) => {
            out.append(start);
            out.append(x.as_str());
            assert(out@ =~= old(out)@ + clause(start@, *t));
        },
        None => {
            assert(out@ =~= old(out)@ + clause(start@, *t));
        },
    }
}

/// The name of a constraint in front of it.
pub open spec fn constraint_start(name: Option<String>) -> Seq<char> {
    match name {
        Some(x) => "CONSTRAINT "@ + x@ + " "@,
        None => Seq::empty(),
    }
}

fn push_constraint_start(out: &mut String, name: &Option<String>)
    ensures
        final(out)@ == old(out)@ + constraint_start(*name),
{
    match name {
        Some(x) => {
            out.append("CONSTRAINT ");
            out.append(x.as_str());
            out.append(" ");
            assert(out@ =~= old(out)@ + constraint_start(*name));
        },
        None => {
            assert(out@ =~= old(out)@ + constraint_start(*name));
        },
    }
}

/// Texts from a position on with commas between them.
pub open spec fn commas_from(items: Seq<String>, i: int, out: Seq<char>) -> Seq<char>
    decreases items.len() - i,
{
    if i < 0 || i >= items.len() {
        out
    } else {
        commas_from(
            items,
            i + 1,
            if i == 0 {
                out + items[i]@
            } else {
                out + ", "@ + items[i]@
            },
        )
    }
}

/// Texts with commas between them.
pub open spec fn commas(items: Seq<String>) -> Seq<char> {
    commas_from(items, 0, Seq::empty())
}

/// Writes texts with commas between them.
pub fn push_commas(out: &mut String, items: &Vec<String>)
    ensures
        final(out)@ == old(out)@ + commas(items@),
{
    let ghost start = out@;
    let ghost mut written: Seq<char> = Seq::empty();
    let mut i: usize = 0;
    assert(out@ =~= start + written);
    while i < items.len()
        invariant
            i <= items@.len(),
            out@ == start + written,
            commas_from(items@, i as int, written) == commas(items@),
        decreases items@.len() - i,
    {
        if i > 0 {
            out.append(", ");
        }
        out.append(items[i].as_str());
        proof {
            let next = if i == 0 {
                written + items@[i as int]@
            } else {
                written + ", "@ + items@[i as int]@
            };
            assert(out@ =~= start + next);
            written = next;
        }
        i = i + 1;
    }
}

// ---------------------------------------------------------------------------
// Constraints

/// Whether a constraint waits for the end of the transaction.
pub open spec fn deferral_text(deferrable: Option<bool>, deferred: Option<bool>) -> Seq<char> {
    (match deferrable {
        Some(b) => if b {
            " DEFERRABLE"@
        } else {
            " NOT DEFERRABLE"@
        },
        None => Seq::empty(),
    }) + match deferred {
        Some(b) => if b {
            " INITIALLY DEFERRED"@
        } else {
            " INITIALLY IMMEDIATE"@
        },
        None => Seq::empty(),
    }
}

/// What follows the columns that a foreign key refers to.
pub open spec fn foreign_key_clauses(key: ForeignKey) -> Seq<char> {
    clause(" MATCH "@, key.match_clause) + clause(" ON DELETE "@, key.on_delete) + clause(
        " ON UPDATE "@,
        key.on_update,
    ) + deferral_text(key.deferrable, key.initially_deferred)
}

fn append_foreign_key_clauses(out: &mut String, key: &ForeignKey)
    ensures
        final(out)@ == old(out)@ + foreign_key_clauses(*key),
{
    push_clause(out, " MATCH ", &key.match_clause);
    push_clause(out, " ON DELETE ", &key.on_delete);
    push_clause(out, " ON UPDATE ", &key.on_update);
    match key.deferrable {
        Some(b) => {
            if b {
                out.append(" DEFERRABLE");
            } else {
                out.append(" NOT DEFERRABLE");
            }
        },
        None => {},
    }
    match key.initially_deferred {
        Some(b) => {
            if b {
                out.append(" INITIALLY DEFERRED");
            } else {
                out.append(" INITIALLY IMMEDIATE");
            }
        },
        None => {},
    }
    assert(out@ =~= old(out)@ + foreign_key_clauses(*key));
}

/// What a foreign key refers to.
pub open spec fn reference_text(key: ForeignKey) -> Seq<char> {
    "REFERENCES "@ + key.ref_table@ + (if key.ref_columns@.len() == 0 {
        Seq::empty()
    } else {
        "("@ + commas(key.ref_columns@) + ")"@
    }) + foreign_key_clauses(key)
}

fn push_reference(out: &mut String, key: &ForeignKey)
    ensures
        final(out)@ == old(out)@ + reference_text(*key),
{
    out.append("REFERENCES ");
    out.append(key.ref_table.as_str());
    if key.ref_columns.len() > 0 {
        out.append("(");
        push_commas(out, &key.ref_columns);
        out.append(")");
    }
    append_foreign_key_clauses(out, key);
    assert(out@ =~= old(out)@ + reference_text(*key));
}

/// A foreign key as a constraint of a table.
pub open spec fn foreign_key_text(key: ForeignKey) -> Seq<char> {
    constraint_start(key.constraint_name) + "FOREIGN KEY ("@ + commas(key.columns@) + ") "@
        + reference_text(key)
}

fn render_foreign_key(out: &mut String, key: &ForeignKey)
    ensures
        final(out)@ == old(out)@ + foreign_key_text(*key),
{
    push_constraint_start(out, &key.constraint_name);
    out.append("FOREIGN KEY (");
    push_commas(out, &key.columns);
    out.append(") ");
    push_reference(out, key);
    assert(out@ =~= old(out)@ + foreign_key_text(*key));
}

/// A foreign key as a constraint of a column.
pub open spec fn inline_foreign_key(key: ForeignKey) -> Seq<char> {
    constraint_start(key.constraint_name) + reference_text(key)
}

fn render_inline_foreign_key(out: &mut String, key: &ForeignKey)
    ensures
        final(out)@ == old(out)@ + inline_foreign_key(*key),
{
    push_constraint_start(out, &key.constraint_name);
    push_reference(out, key);
    assert(out@ =~= old(out)@ + inline_foreign_key(*key));
}

/// A condition as a constraint.
pub open spec fn check_constraint_text(f: Facts, check: CheckConstraint) -> Written {
    cat(
        cat(
            word(
                (if check.explicit_name {
                    "CONSTRAINT "@ + check.name@ + " "@
                } else {
                    Seq::empty()
                }) + "CHECK ("@,
            ),
            check_text(f, check.expr),
        ),
        word(")"@),
    )
}

fn render_check_constraint(facts: &RealFacts, out: &mut String, check: &CheckConstraint) -> (r:
    Eval<()>)
    ensures
        pushed(r, old(out)@, final(out)@, check_constraint_text(facts@, *check)),
{
    if check.explicit_name {
        out.append("CONSTRAINT ");
        out.append(check.name.as_str());
        out.append(" ");
    }
    out.append("CHECK (");
    render_check_expr(facts, out, &check.expr)?;
    out.append(")");
    assert(out@ =~= old(out)@ + check_constraint_text(facts@, *check)->Ok_0);
    Ok(())
}

/// A primary key as a constraint of a table.
pub open spec fn primary_key_text(key: PrimaryKeyConstraint) -> Seq<char> {
    constraint_start(key.constraint_name) + "PRIMARY KEY("@ + commas(
        written_columns(key.columns, key.decorated_columns),
    ) + ")"@
        + clause(" ON CONFLICT "@, key.conflict_clause)
}

fn render_primary_key_constraint(out: &mut String, key: &PrimaryKeyConstraint)
    ensures
        final(out)@ == old(out)@ + primary_key_text(*key),
{
    push_constraint_start(out, &key.constraint_name);
    out.append("PRIMARY KEY(");
    push_commas(out, rendered_columns(&key.columns, &key.decorated_columns));
    out.append(")");
    push_clause(out, " ON CONFLICT ", &key.conflict_clause);
    assert(out@ =~= old(out)@ + primary_key_text(*key));
}

/// A unique key as a constraint of a table.
pub open spec fn unique_text(key: UniqueConstraint) -> Seq<char> {
    constraint_start(key.constraint_name) + "UNIQUE("@ + commas(
        written_columns(key.columns, key.decorated_columns),
    ) + ")"@
        + clause(" ON CONFLICT "@, key.conflict_clause)
}

fn render_unique_constraint(out: &mut String, key: &UniqueConstraint)
    ensures
        final(out)@ == old(out)@ + unique_text(*key),
{
    push_constraint_start(out, &key.constraint_name);
    out.append("UNIQUE(");
    push_commas(out, rendered_columns(&key.columns, &key.decorated_columns));
    out.append(")");
    push_clause(out, " ON CONFLICT ", &key.conflict_clause);
    assert(out@ =~= old(out)@ + unique_text(*key));
}

// ---------------------------------------------------------------------------
// Columns

/// A default value.
pub open spec fn default_text(f: Facts, d: ColumnDefault) -> Written {
    match d {
        ColumnDefault::Literal(v) => value_literal(f, v@),
        ColumnDefault::CurrentTimestamp => word("CURRENT_TIMESTAMP"@),
        ColumnDefault::CurrentDate => word("CURRENT_DATE"@),
        ColumnDefault::CurrentTime => word("CURRENT_TIME"@),
    }
}

fn render_column_default(facts: &RealFacts, out: &mut String, d: &ColumnDefault) -> (r: Eval<()>)
    ensures
        pushed(r, old(out)@, final(out)@, default_text(facts@, *d)),
{
    match d {
        ColumnDefault::Literal(v) => render_literal(facts, out, v),
        ColumnDefault::CurrentTimestamp => {
            out.append("CURRENT_TIMESTAMP");
            Ok(())
        },
        ColumnDefault::CurrentDate => {
            out.append("CURRENT_DATE");
            Ok(())
        },
        ColumnDefault::CurrentTime => {
            out.append("CURRENT_TIME");
            Ok(())
        },
    }
}

/// Whether a text is among others from a position on.
pub open spec fn named_from(items: Seq<String>, name: Seq<char>, i: int) -> bool
    decreases items.len() - i,
{
    if i < 0 || i >= items.len() {
        false
    } else {
        items[i]@ == name || named_from(items, name, i + 1)
    }
}

/// Whether a text is among others.
pub fn is_named(items: &Vec<String>, name: &str) -> (r: bool)
    ensures
        r == named_from(items@, name@, 0),
{
    let mut i: usize = 0;
    while i < items.len()
        invariant
            i <= items@.len(),
            named_from(items@, name@, i as int) == named_from(items@, name@, 0),
        decreases items@.len() - i,
    {
        if same_text(items[i].as_str(), name) {
            return true;
        }
        i = i + 1;
    }
    false
}

/// Whether the primary key of a table names a column.
pub open spec fn in_primary_key(schema: Schema, name: Seq<char>) -> bool {
    match schema.primary_key_constraint {
        Some(key) => named_from(key.columns@, name, 0),
        None => false,
    }
}

fn names_column(schema: &Schema, name: &str) -> (r: bool)
    ensures
        r == in_primary_key(*schema, name@),
{
    match &schema.primary_key_constraint {
        Some(key) => is_named(&key.columns, name),
        None => false,
    }
}

/// A column and its type.
pub open spec fn column_start(column: ColumnDef) -> Seq<char> {
    column.name@ + (if column.declared_type@.len() == 0 {
        Seq::empty()
    } else {
        " "@ + column.declared_type@
    }) + clause(" COLLATE "@, column.collation)
}

/// That a column is the primary key.
pub open spec fn column_key_text(schema: Schema, column: ColumnDef) -> Seq<char> {
    if column.primary_key && !in_primary_key(schema, column.name@) {
        clause(" CONSTRAINT "@, column.primary_key_constraint_name) + " PRIMARY KEY"@ + clause(
            " ON CONFLICT "@,
            column.primary_key_conflict_clause,
        ) + (match column.primary_key_sort_order {
            Some(SortOrder::Asc) => " ASC"@,
            Some(SortOrder::Desc) => " DESC"@,
            None => Seq::empty(),
        }) + word_if(column.autoincrement, " AUTOINCREMENT"@)
    } else {
        Seq::empty()
    }
}

/// That a column is unique, and that it is never null.
pub open spec fn column_limits(column: ColumnDef) -> Seq<char> {
    (if column.unique {
        clause(" CONSTRAINT "@, column.unique_constraint_name) + " UNIQUE"@ + clause(
            " ON CONFLICT "@,
            column.unique_conflict_clause,
        )
    } else {
        Seq::empty()
    }) + (if !column.nullable && !column.primary_key {
        clause(" CONSTRAINT "@, column.not_null_constraint_name) + " NOT NULL"@ + clause(
            " ON CONFLICT "@,
            column.not_null_conflict_clause,
        )
    } else {
        Seq::empty()
    })
}

/// The default of a column.
pub open spec fn column_default_text(f: Facts, d: Option<ColumnDefault>) -> Written {
    match d {
        Some(x) => cat(word(" DEFAULT "@), default_text(f, x)),
        None => word(Seq::empty()),
    }
}

/// How a column is computed.
pub open spec fn generated_text(column: ColumnDef) -> Seq<char> {
    match column.generated_expr {
        Some(e) => (if column.generated_always_explicit {
            " GENERATED ALWAYS AS ("@
        } else {
            " AS ("@
        }) + e@ + ")"@ + (if column.generated_stored {
            " STORED"@
        } else {
            word_if(column.generated_storage_explicit, " VIRTUAL"@)
        }),
        None => Seq::empty(),
    }
}

/// Conditions from a position on, each behind a space.
pub open spec fn checks_from(f: Facts, checks: Seq<CheckConstraint>, i: int, out: Seq<char>) -> Written
    decreases checks.len() - i,
{
    if i < 0 || i >= checks.len() {
        Ok(out)
    } else {
        match check_constraint_text(f, checks[i]) {
            Err(s) => Err(s),
            Ok(t) => checks_from(f, checks, i + 1, out + " "@ + t),
        }
    }
}

/// The foreign key of a column.
pub open spec fn column_reference(key: Option<ForeignKey>) -> Seq<char> {
    match key {
        Some(k) => " "@ + inline_foreign_key(k),
        None => Seq::empty(),
    }
}

/// A column with its type, keys and default.
pub open spec fn column_front(f: Facts, schema: Schema, column: ColumnDef) -> Written {
    cat(
        word(column_start(column) + column_key_text(schema, column) + column_limits(column)),
        column_default_text(f, column.default_value),
    )
}

/// How a column is computed, its conditions and what it refers to.
pub open spec fn column_back(f: Facts, column: ColumnDef) -> Written {
    cat(
        cat(word(generated_text(column)), checks_from(f, column.checks@, 0, Seq::empty())),
        word(column_reference(column.foreign_key)),
    )
}

/// A column as a part of the definition of a table.
pub open spec fn column_text(f: Facts, schema: Schema, column: ColumnDef) -> Written {
    cat(column_front(f, schema, column), column_back(f, column))
}

fn push_column_start(out: &mut String, column: &ColumnDef)
    ensures
        final(out)@ == old(out)@ + column_start(*column),
{
    out.append(column.name.as_str());
    if crate::common::text::char_vec(column.declared_type.as_str()).len() > 0 {
        out.append(" ");
        out.append(column.declared_type.as_str());
    }
    push_clause(out, " COLLATE ", &column.collation);
    assert(out@ =~= old(out)@ + column_start(*column));
}

fn push_column_key(out: &mut String, schema: &Schema, column: &ColumnDef)
    ensures
        final(out)@ == old(out)@ + column_key_text(*schema, *column),
{
    if column.primary_key && !names_column(schema, column.name.as_str()) {
        push_clause(out, " CONSTRAINT ", &column.primary_key_constraint_name);
        out.append(" PRIMARY KEY");
        push_clause(out, " ON CONFLICT ", &column.primary_key_conflict_clause);
        match column.primary_key_sort_order {
            Some(SortOrder::Asc) => {
                out.append(" ASC");
            },
            Some(SortOrder::Desc) => {
                out.append(" DESC");
            },
            None => {},
        }
        if column.autoincrement {
            out.append(" AUTOINCREMENT");
        }
    }
    assert(out@ =~= old(out)@ + column_key_text(*schema, *column));
}

fn push_column_limits(out: &mut String, column: &ColumnDef)
    ensures
        final(out)@ == old(out)@ + column_limits(*column),
{
    if column.unique {
        push_clause(out, " CONSTRAINT ", &column.unique_constraint_name);
        out.append(" UNIQUE");
        push_clause(out, " ON CONFLICT ", &column.unique_conflict_clause);
    }
    if !column.nullable && !column.primary_key {
        push_clause(out, " CONSTRAINT ", &column.not_null_constraint_name);
        out.append(" NOT NULL");
        push_clause(out, " ON CONFLICT ", &column.not_null_conflict_clause);
    }
    assert(out@ =~= old(out)@ + column_limits(*column));
}

fn push_default(facts: &RealFacts, out: &mut String, d: &Option<ColumnDefault>) -> (r: Eval<()>)
    ensures
        pushed(r, old(out)@, final(out)@, column_default_text(facts@, *d)),
{
    match d {
        Some(x) => {
            out.append(" DEFAULT ");
            render_column_default(facts, out, x)?;
            assert(out@ =~= old(out)@ + column_default_text(facts@, *d)->Ok_0);
        },
        None => {
            assert(out@ =~= old(out)@ + column_default_text(facts@, *d)->Ok_0);
        },
    }
    Ok(())
}

fn push_generated(out: &mut String, column: &ColumnDef)
    ensures
        final(out)@ == old(out)@ + generated_text(*column),
{
    match &column.generated_expr {
        Some(e) => {
            if column.generated_always_explicit {
                out.append(" GENERATED ALWAYS AS (");
            } else {
                out.append(" AS (");
            }
            out.append(e.as_str());
            out.append(")");
            if column.generated_stored {
                out.append(" STORED");
            } else if column.generated_storage_explicit {
                out.append(" VIRTUAL");
            }
        },
        None => {},
    }
    assert(out@ =~= old(out)@ + generated_text(*column));
}

fn push_checks(facts: &RealFacts, out: &mut String, checks: &Vec<CheckConstraint>) -> (r: Eval<()>)
    ensures
        pushed(r, old(out)@, final(out)@, checks_from(facts@, checks@, 0, Seq::empty())),
{
    let ghost start = out@;
    let ghost mut written: Seq<char> = Seq::empty();
    let mut i: usize = 0;
    assert(out@ =~= start + written);
    while i < checks.len()
        invariant
            i <= checks@.len(),
            out@ == start + written,
            checks_from(facts@, checks@, i as int, written) == checks_from(
                facts@,
                checks@,
                0,
                Seq::empty(),
            ),
        decreases checks@.len() - i,
    {
        out.append(" ");
        render_check_constraint(facts, out, &checks[i])?;
        proof {
            let t = check_constraint_text(facts@, checks@[i as int])->Ok_0;
            assert(out@ =~= start + (written + " "@ + t));
            written = written + " "@ + t;
        }
        i = i + 1;
    }
    Ok(())
}

fn push_column_front(facts: &RealFacts, out: &mut String, schema: &Schema, column: &ColumnDef) -> (r:
    Eval<()>)
    ensures
        pushed(r, old(out)@, final(out)@, column_front(facts@, *schema, *column)),
{
    let ghost a = column_start(*column);
    let ghost b = column_key_text(*schema, *column);
    let ghost c = column_limits(*column);
    push_column_start(out, column);
    push_column_key(out, schema, column);
    push_column_limits(out, column);
    assert(out@ =~= old(out)@ + (a + b + c));
    push_default(facts, out, &column.default_value)?;
    let ghost d = column_default_text(facts@, column.default_value)->Ok_0;
    assert(out@ =~= old(out)@ + (a + b + c + d));
    Ok(())
}

fn push_column_back(facts: &RealFacts, out: &mut String, column: &ColumnDef) -> (r: Eval<()>)
    ensures
        pushed(r, old(out)@, final(out)@, column_back(facts@, *column)),
{
    let ghost a = generated_text(*column);
    push_generated(out, column);
    push_checks(facts, out, &column.checks)?;
    let ghost b = checks_from(facts@, column.checks@, 0, Seq::empty())->Ok_0;
    let ghost middle = out@;
    match &column.foreign_key {
        Some(k) => {
            out.append(" ");
            render_inline_foreign_key(out, k);
        },
        None => {},
    }
    let ghost c = column_reference(column.foreign_key);
    assert(out@ =~= middle + c);
    assert(out@ =~= old(out)@ + (a + b + c));
    Ok(())
}

/// Writes a column as a part of the definition of a table.
pub fn render_column_def(facts: &RealFacts, out: &mut String, schema: &Schema, column: &ColumnDef) -> (r:
    Eval<()>)
    ensures
        pushed(r, old(out)@, final(out)@, column_text(facts@, *schema, *column)),
{
    push_column_front(facts, out, schema, column)?;
    let ghost a = column_front(facts@, *schema, *column)->Ok_0;
    push_column_back(facts, out, column)?;
    let ghost b = column_back(facts@, *column)->Ok_0;
    assert(out@ =~= old(out)@ + (a + b));
    Ok(())
}

// ---------------------------------------------------------------------------
// Statements

/// The columns of a table from a position on.
pub open spec fn columns_from(f: Facts, schema: Schema, i: int, out: Seq<Seq<char>>) -> Result<
    Seq<Seq<char>>,
    StopView,
>
    decreases schema.columns@.len() - i,
{
    if i < 0 || i >= schema.columns@.len() {
        Ok(out)
    } else {
        match column_text(f, schema, schema.columns@[i]) {
            Err(s) => Err(s),
            Ok(t) => columns_from(f, schema, i + 1, out.push(t)),
        }
    }
}

/// The constraint at a place in the order in which they were written, if there is one.
pub open spec fn ordered_constraint(f: Facts, schema: Schema, o: TableConstraintOrder) -> Option<
    Written,
> {
    match o {
        TableConstraintOrder::Check(i) => if i < schema.checks@.len() {
            Some(check_constraint_text(f, schema.checks@[i as int]))
        } else {
            None
        },
        TableConstraintOrder::ForeignKey(i) => if i < schema.foreign_keys@.len() {
            Some(word(foreign_key_text(schema.foreign_keys@[i as int])))
        } else {
            None
        },
        TableConstraintOrder::PrimaryKey => match schema.primary_key_constraint {
            Some(key) => Some(word(primary_key_text(key))),
            None => None,
        },
        TableConstraintOrder::Unique(i) => if i < schema.unique_constraints@.len() {
            Some(word(unique_text(schema.unique_constraints@[i as int])))
        } else {
            None
        },
    }
}

/// Constraints in a given order, from a place on.
pub open spec fn constraints_from(
    f: Facts,
    schema: Schema,
    order: Seq<TableConstraintOrder>,
    i: int,
    out: Seq<Seq<char>>,
) -> Result<Seq<Seq<char>>, StopView>
    decreases order.len() - i,
{
    if i < 0 || i >= order.len() {
        Ok(out)
    } else {
        match ordered_constraint(f, schema, order[i]) {
            None => constraints_from(f, schema, order, i + 1, out),
            Some(Err(s)) => Err(s),
            Some(Ok(t)) => constraints_from(f, schema, order, i + 1, out.push(t)),
        }
    }
}

/// The order of constraints where none was kept: the primary key, the conditions, the unique
/// keys, the foreign keys.
pub open spec fn default_order(schema: Schema) -> Seq<TableConstraintOrder> {
    seq![TableConstraintOrder::PrimaryKey] + Seq::new(
        schema.checks@.len(),
        |i: int| TableConstraintOrder::Check(i as usize),
    ) + Seq::new(
        schema.unique_constraints@.len(),
        |i: int| TableConstraintOrder::Unique(i as usize),
    ) + Seq::new(
        schema.foreign_keys@.len(),
        |i: int| TableConstraintOrder::ForeignKey(i as usize),
    )
}

/// The order of the constraints of a table.
pub open spec fn constraint_order(schema: Schema) -> Seq<TableConstraintOrder> {
    if schema.table_constraint_order@.len() == 0 {
        default_order(schema)
    } else {
        schema.table_constraint_order@
    }
}

/// Texts from a position on with commas between them.
pub open spec fn parts_from(items: Seq<Seq<char>>, i: int, out: Seq<char>) -> Seq<char>
    decreases items.len() - i,
{
    if i < 0 || i >= items.len() {
        out
    } else {
        parts_from(
            items,
            i + 1,
            if i == 0 {
                out + items[i]
            } else {
                out + ", "@ + items[i]
            },
        )
    }
}

/// The parts of the definition of a table.
pub open spec fn definitions(f: Facts, schema: Schema) -> Result<Seq<Seq<char>>, StopView> {
    match columns_from(f, schema, 0, Seq::empty()) {
        Err(s) => Err(s),
        Ok(columns) => constraints_from(f, schema, constraint_order(schema), 0, columns),
    }
}

/// The statement that makes a table.
pub open spec fn create_table_text(f: Facts, schema: Schema) -> Written {
    match definitions(f, schema) {
        Err(s) => Err(s),
        Ok(parts) => Ok(
            "CREATE TABLE "@ + schema.name@ + " ("@ + parts_from(parts, 0, Seq::empty()) + ")"@
                + word_if(schema.strict, " STRICT"@) + word_if(
                schema.without_rowid,
                " WITHOUT ROWID"@,
            ),
        ),
    }
}

/// The model of parts of a definition.
pub open spec fn parts_view(r: Eval<Vec<String>>) -> Result<Seq<Seq<char>>, StopView> {
    match r {
        Ok(v) => Ok(v.deep_view()),
        Err(s) => Err(s@),
    }
}

fn render_columns(facts: &RealFacts, schema: &Schema) -> (r: Eval<Vec<String>>)
    ensures
        parts_view(r) == columns_from(facts@, *schema, 0, Seq::empty()),
{
    let mut parts: Vec<String> = Vec::new();
    let mut i: usize = 0;
    assert(parts.deep_view() =~= Seq::<Seq<char>>::empty());
    while i < schema.columns.len()
        invariant
            i <= schema.columns@.len(),
            columns_from(facts@, *schema, i as int, parts.deep_view()) == columns_from(
                facts@,
                *schema,
                0,
                Seq::empty(),
            ),
        decreases schema.columns@.len() - i,
    {
        let mut out = String::new();
        render_column_def(facts, &mut out, schema, &schema.columns[i])?;
        assert(out@ =~= column_text(facts@, *schema, schema.columns@[i as int])->Ok_0);
        let ghost before = parts.deep_view();
        parts.push(out);
        assert(parts.deep_view() =~= before.push(out@));
        i = i + 1;
    }
    Ok(parts)
}

/// The model of a constraint that may be missing.
pub open spec fn constraint_view(r: Option<Eval<String>>) -> Option<Written> {
    match r {
        None => None,
        Some(Ok(t)) => Some(Ok(t@)),
        Some(Err(s)) => Some(Err(s@)),
    }
}

fn render_constraint(facts: &RealFacts, schema: &Schema, o: TableConstraintOrder) -> (r: Option<
    Eval<String>,
>)
    ensures
        constraint_view(r) == ordered_constraint(facts@, *schema, o),
{
    let mut out = String::new();
    match o {
        TableConstraintOrder::Check(i) => {
            if i >= schema.checks.len() {
                return None;
            }
            match render_check_constraint(facts, &mut out, &schema.checks[i]) {
                Ok(_) => {
                    assert(out@ =~= check_constraint_text(facts@, schema.checks@[i as int])->Ok_0);
                },
                Err(s) => {
                    return Some(Err(s));
                },
            }
        },
        TableConstraintOrder::ForeignKey(i) => {
            if i >= schema.foreign_keys.len() {
                return None;
            }
            render_foreign_key(&mut out, &schema.foreign_keys[i]);
            assert(out@ =~= foreign_key_text(schema.foreign_keys@[i as int]));
        },
        TableConstraintOrder::PrimaryKey => match &schema.primary_key_constraint {
            Some(key) => {
                render_primary_key_constraint(&mut out, key);
                assert(out@ =~= primary_key_text(*key));
            },
            None => {
                return None;
            },
        },
        TableConstraintOrder::Unique(i) => {
            if i >= schema.unique_constraints.len() {
                return None;
            }
            render_unique_constraint(&mut out, &schema.unique_constraints[i]);
            assert(out@ =~= unique_text(schema.unique_constraints@[i as int]));
        },
    }
    Some(Ok(out))
}

fn usual_order(schema: &Schema) -> (r: Vec<TableConstraintOrder>)
    ensures
        r@ == default_order(*schema),
{
    let mut r: Vec<TableConstraintOrder> = Vec::new();
    r.push(TableConstraintOrder::PrimaryKey);
    let mut i: usize = 0;
    while i < schema.checks.len()
        invariant
            i <= schema.checks@.len(),
            r@ =~= seq![TableConstraintOrder::PrimaryKey] + Seq::new(
                i as nat,
                |k: int| TableConstraintOrder::Check(k as usize),
            ),
        decreases schema.checks@.len() - i,
    {
        r.push(TableConstraintOrder::Check(i));
        i = i + 1;
    }
    let ghost checked = r@;
    let mut j: usize = 0;
    while j < schema.unique_constraints.len()
        invariant
            j <= schema.unique_constraints@.len(),
            r@ =~= checked + Seq::new(j as nat, |k: int| TableConstraintOrder::Unique(k as usize)),
        decreases schema.unique_constraints@.len() - j,
    {
        r.push(TableConstraintOrder::Unique(j));
        j = j + 1;
    }
    let ghost unique = r@;
    let mut n: usize = 0;
    while n < schema.foreign_keys.len()
        invariant
            n <= schema.foreign_keys@.len(),
            r@ =~= unique + Seq::new(
                n as nat,
                |k: int| TableConstraintOrder::ForeignKey(k as usize),
            ),
        decreases schema.foreign_keys@.len() - n,
    {
        r.push(TableConstraintOrder::ForeignKey(n));
        n = n + 1;
    }
    assert(r@ =~= default_order(*schema));
    r
}

fn render_in_order(
    facts: &RealFacts,
    schema: &Schema,
    order: &Vec<TableConstraintOrder>,
    columns: Vec<String>,
) -> (r: Eval<Vec<String>>)
    ensures
        parts_view(r) == constraints_from(facts@, *schema, order@, 0, columns.deep_view()),
{
    let mut parts = columns;
    let mut i: usize = 0;
    while i < order.len()
        invariant
            i <= order@.len(),
            constraints_from(facts@, *schema, order@, i as int, parts.deep_view())
                == constraints_from(facts@, *schema, order@, 0, columns.deep_view()),
        decreases order@.len() - i,
    {
        match render_constraint(facts, schema, order[i]) {
            None => {},
            Some(Err(s)) => {
                return Err(s);
            },
            Some(Ok(t)) => {
                let ghost before = parts.deep_view();
                parts.push(t);
                assert(parts.deep_view() =~= before.push(t@));
            },
        }
        i = i + 1;
    }
    Ok(parts)
}

fn render_definitions(facts: &RealFacts, schema: &Schema) -> (r: Eval<Vec<String>>)
    ensures
        parts_view(r) == definitions(facts@, *schema),
{
    let columns = render_columns(facts, schema)?;
    if schema.table_constraint_order.len() == 0 {
        let order = usual_order(schema);
        render_in_order(facts, schema, &order, columns)
    } else {
        render_in_order(facts, schema, &schema.table_constraint_order, columns)
    }
}

proof fn lemma_commas_are_parts(items: Vec<String>, i: int, out: Seq<char>)
    ensures
        commas_from(items@, i, out) == parts_from(items.deep_view(), i, out),
    decreases items@.len() - i,
{
    if 0 <= i < items@.len() {
        assert(items.deep_view()[i] == items@[i]@);
        lemma_commas_are_parts(
            items,
            i + 1,
            if i == 0 {
                out + items@[i]@
            } else {
                out + ", "@ + items@[i]@
            },
        );
    }
}

/// Writes the statement that makes a table.
pub fn render_create_table(facts: &RealFacts, schema: &Schema) -> (r: Eval<String>)
    ensures
        crate::sqlite3::reals::stop_view(r) == create_table_text(facts@, *schema),
{
    let parts = render_definitions(facts, schema)?;
    let mut out = "CREATE TABLE ".to_owned();
    out.append(schema.name.as_str());
    out.append(" (");
    push_commas(&mut out, &parts);
    out.append(")");
    if schema.strict {
        out.append(" STRICT");
    }
    if schema.without_rowid {
        out.append(" WITHOUT ROWID");
    }
    proof {
        lemma_commas_are_parts(parts, 0, Seq::empty());
    }
    assert(out@ =~= create_table_text(facts@, *schema)->Ok_0);
    Ok(out)
}

/// The statement that makes an index.
pub open spec fn create_index_text(table: Seq<char>, index: IndexMeta) -> Seq<char> {
    "CREATE"@ + word_if(index.unique, " UNIQUE"@) + " INDEX "@ + index.name@ + " ON "@ + table
        + " ("@ + commas(
        written_columns(index.columns, index.decorated_columns),
    ) + ")"@ + clause(" WHERE "@, index.predicate)
}

/// Writes the statement that makes an index.
pub fn render_create_index(table: &str, index: &IndexMeta) -> (r: String)
    ensures
        r@ == create_index_text(table@, *index),
{
    let mut out = "CREATE".to_owned();
    if index.unique {
        out.append(" UNIQUE");
    }
    out.append(" INDEX ");
    out.append(index.name.as_str());
    out.append(" ON ");
    out.append(table);
    out.append(" (");
    push_commas(&mut out, rendered_columns(&index.columns, &index.decorated_columns));
    out.append(")");
    push_clause(&mut out, " WHERE ", &index.predicate);
    assert(out@ =~= create_index_text(table@, *index));
    out
}

} // verus!
