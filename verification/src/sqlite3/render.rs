//! Values and conditions as SQL.

use vstd::prelude::*;

use crate::common::checks::{CheckExpr, CheckOp, TrimSide};
use crate::common::text::{i64_text, int_text};
use crate::common::value::{CompareOp, DbValue, SqlValue};
use crate::sqlite3::reals::{text_answer, Eval, Facts, RealFacts, RealOp, StopView};
use crate::sqlite3::strings::{hex_of, hex_text, quote_text, quoted};

verus! {

/// A text, or why it cannot be written yet.
pub type Written = Result<Seq<char>, StopView>;

/// Two texts behind each other.
pub open spec fn cat(a: Written, b: Written) -> Written {
    match a {
        Err(s) => Err(s),
        Ok(x) => match b {
            Err(s) => Err(s),
            Ok(y) => Ok(x + y),
        },
    }
}

/// A text that is known.
pub open spec fn word(t: Seq<char>) -> Written {
    Ok(t)
}

/// Whether a text was written behind what was there.
pub open spec fn pushed(r: Eval<()>, before: Seq<char>, after: Seq<char>, t: Written) -> bool {
    match r {
        Ok(_) => t is Ok && after == before + t->Ok_0,
        Err(s) => t == Err::<Seq<char>, _>(s@),
    }
}

// ---------------------------------------------------------------------------
// Literals

/// How a value is written in a definition.
pub open spec fn value_literal(f: Facts, v: SqlValue) -> Written {
    match v {
        SqlValue::Null => Ok("NULL"@),
        SqlValue::Boolean(b) => Ok(
            if b {
                "true"@
            } else {
                "false"@
            },
        ),
        SqlValue::Integer(i) => Ok(int_text(i as int)),
        SqlValue::Real(bits) => text_answer(f, RealOp::Show, bits, 0),
        SqlValue::Blob(b) => Ok("X'"@ + hex_text(b) + "'"@),
        SqlValue::Text(t) => Ok(quoted(t)),
    }
}

/// Writes a value as in a definition.
pub fn render_literal(facts: &RealFacts, out: &mut String, v: &DbValue) -> (r: Eval<()>)
    ensures
        pushed(r, old(out)@, final(out)@, value_literal(facts@, v@)),
{
    match v {
        DbValue::Null => {
            out.append("NULL");
        },
        DbValue::Boolean(b) => {
            if *b {
                out.append("true");
            } else {
                out.append("false");
            }
        },
        DbValue::Integer(i) => {
            out.append(i64_text(*i).as_str());
        },
        DbValue::Real(bits) => {
            let t = facts.text_result(RealOp::Show, *bits, 0)?;
            out.append(t.as_str());
        },
        DbValue::Blob(b) => {
            out.append("X'");
            out.append(hex_of(b.as_slice()).as_str());
            out.append("'");
            assert(out@ =~= old(out)@ + ("X'"@ + hex_text(b@) + "'"@));
        },
        DbValue::Text(t) => {
            out.append(quote_text(t.as_str()).as_str());
        },
    }
    Ok(())
}

/// A text as a literal.
pub open spec fn text_literal(f: Facts, t: Seq<char>) -> Written {
    value_literal(f, SqlValue::Text(t))
}

/// Values from a position on, each behind a comma.
pub open spec fn arguments_from(f: Facts, values: Seq<SqlValue>, i: int, out: Seq<char>) -> Written
    decreases values.len() - i,
{
    if i < 0 || i >= values.len() {
        Ok(out)
    } else {
        match value_literal(f, values[i]) {
            Err(s) => Err(s),
            Ok(t) => arguments_from(f, values, i + 1, out + ", "@ + t),
        }
    }
}

fn render_arguments(facts: &RealFacts, out: &mut String, values: &Vec<DbValue>) -> (r: Eval<()>)
    ensures
        pushed(
            r,
            old(out)@,
            final(out)@,
            arguments_from(facts@, values.deep_view(), 0, Seq::empty()),
        ),
{
    let ghost a = values.deep_view();
    let ghost start = out@;
    let ghost mut written: Seq<char> = Seq::empty();
    let mut i: usize = 0;
    assert(out@ =~= start + written);
    while i < values.len()
        invariant
            a == values.deep_view(),
            i <= values@.len(),
            out@ == start + written,
            arguments_from(facts@, a, i as int, written) == arguments_from(
                facts@,
                a,
                0,
                Seq::empty(),
            ),
        decreases values@.len() - i,
    {
        assert(a[i as int] == values@[i as int]@);
        out.append(", ");
        render_literal(facts, out, &values[i])?;
        proof {
            let t = value_literal(facts@, a[i as int])->Ok_0;
            assert(out@ =~= start + (written + ", "@ + t));
            written = written + ", "@ + t;
        }
        i = i + 1;
    }
    Ok(())
}

/// Values from a position on with commas between them.
pub open spec fn list_from(f: Facts, values: Seq<SqlValue>, i: int, out: Seq<char>) -> Written
    decreases values.len() - i,
{
    if i < 0 || i >= values.len() {
        Ok(out)
    } else {
        match value_literal(f, values[i]) {
            Err(s) => Err(s),
            Ok(t) => list_from(
                f,
                values,
                i + 1,
                if i == 0 {
                    out + t
                } else {
                    out + ", "@ + t
                },
            ),
        }
    }
}

fn render_list(facts: &RealFacts, out: &mut String, values: &Vec<DbValue>) -> (r: Eval<()>)
    ensures
        pushed(r, old(out)@, final(out)@, list_from(facts@, values.deep_view(), 0, Seq::empty())),
{
    let ghost a = values.deep_view();
    let ghost start = out@;
    let ghost mut written: Seq<char> = Seq::empty();
    let mut i: usize = 0;
    assert(out@ =~= start + written);
    while i < values.len()
        invariant
            a == values.deep_view(),
            i <= values@.len(),
            out@ == start + written,
            list_from(facts@, a, i as int, written) == list_from(facts@, a, 0, Seq::empty()),
        decreases values@.len() - i,
    {
        assert(a[i as int] == values@[i as int]@);
        if i > 0 {
            out.append(", ");
        }
        render_literal(facts, out, &values[i])?;
        proof {
            let t = value_literal(facts@, a[i as int])->Ok_0;
            let next = if i == 0 {
                written + t
            } else {
                written + ", "@ + t
            };
            assert(out@ =~= start + next);
            written = next;
        }
        i = i + 1;
    }
    Ok(())
}

// ---------------------------------------------------------------------------
// Conditions

/// A comparison.
pub open spec fn op_text(op: CheckOp) -> Seq<char> {
    match op {
        CompareOp::Eq => "="@,
        CompareOp::Ne => "!="@,
        CompareOp::Gt => ">"@,
        CompareOp::Gte => ">="@,
        CompareOp::Lt => "<"@,
        CompareOp::Lte => "<="@,
    }
}

fn render_check_op(op: CheckOp) -> (r: &'static str)
    ensures
        r@ == op_text(op),
{
    match op {
        CompareOp::Eq => "=",
        CompareOp::Ne => "!=",
        CompareOp::Gt => ">",
        CompareOp::Gte => ">=",
        CompareOp::Lt => "<",
        CompareOp::Lte => "<=",
    }
}

/// A word, or nothing.
pub open spec fn word_if(b: bool, t: Seq<char>) -> Seq<char> {
    if b {
        t
    } else {
        Seq::empty()
    }
}

/// A comparison with a value, behind what is compared.
pub open spec fn compare_tail(f: Facts, op: CheckOp, v: SqlValue) -> Written {
    cat(word(" "@ + op_text(op) + " "@), value_literal(f, v))
}

fn render_tail(facts: &RealFacts, out: &mut String, op: CheckOp, v: &DbValue) -> (r: Eval<()>)
    ensures
        pushed(r, old(out)@, final(out)@, compare_tail(facts@, op, v@)),
{
    out.append(" ");
    out.append(render_check_op(op));
    out.append(" ");
    render_literal(facts, out, v)?;
    assert(out@ =~= old(out)@ + compare_tail(facts@, op, v@)->Ok_0);
    Ok(())
}

/// What a comparison is made of: a text in front of it, the operator and the value.
pub open spec fn compare_text(f: Facts, head: Seq<char>, op: CheckOp, v: SqlValue) -> Written {
    cat(word(head), compare_tail(f, op, v))
}

fn render_compare(facts: &RealFacts, out: &mut String, head: &str, op: CheckOp, v: &DbValue) -> (r:
    Eval<()>)
    ensures
        pushed(r, old(out)@, final(out)@, compare_text(facts@, head@, op, v@)),
{
    out.append(head);
    render_tail(facts, out, op, v)?;
    assert(out@ =~= old(out)@ + compare_text(facts@, head@, op, v@)->Ok_0);
    Ok(())
}

/// A function of a column.
pub open spec fn call_head(name: Seq<char>, column: Seq<char>) -> Seq<char> {
    name + "("@ + column + ")"@
}

fn render_call(facts: &RealFacts, out: &mut String, name: &str, column: &str, op: CheckOp, v: &DbValue) -> (r:
    Eval<()>)
    ensures
        pushed(
            r,
            old(out)@,
            final(out)@,
            compare_text(facts@, call_head(name@, column@), op, v@),
        ),
{
    let mut head = name.to_owned();
    head.append("(");
    head.append(column);
    head.append(")");
    assert(head@ =~= call_head(name@, column@));
    render_compare(facts, out, head.as_str(), op, v)
}

/// A function of a column and of values.
pub open spec fn args_head(f: Facts, name: Seq<char>, column: Seq<char>, args: Seq<SqlValue>) -> Written {
    cat(cat(word(name + "("@ + column), arguments_from(f, args, 0, Seq::empty())), word(")"@))
}

fn render_args_head(facts: &RealFacts, out: &mut String, name: &str, column: &str, args: &Vec<DbValue>) -> (r:
    Eval<()>)
    ensures
        pushed(r, old(out)@, final(out)@, args_head(facts@, name@, column@, args.deep_view())),
{
    out.append(name);
    out.append("(");
    out.append(column);
    render_arguments(facts, out, args)?;
    out.append(")");
    assert(out@ =~= old(out)@ + args_head(facts@, name@, column@, args.deep_view())->Ok_0);
    Ok(())
}

/// A comparison of a function of a column and of values.
pub open spec fn args_compare(
    f: Facts,
    name: Seq<char>,
    column: Seq<char>,
    args: Seq<SqlValue>,
    op: CheckOp,
    v: SqlValue,
) -> Written {
    cat(args_head(f, name, column, args), compare_tail(f, op, v))
}

fn render_args_compare(
    facts: &RealFacts,
    out: &mut String,
    name: &str,
    column: &str,
    args: &Vec<DbValue>,
    op: CheckOp,
    v: &DbValue,
) -> (r: Eval<()>)
    ensures
        pushed(
            r,
            old(out)@,
            final(out)@,
            args_compare(facts@, name@, column@, args.deep_view(), op, v@),
        ),
{
    render_args_head(facts, out, name, column, args)?;
    render_tail(facts, out, op, v)?;
    assert(out@ =~= old(out)@ + args_compare(
        facts@,
        name@,
        column@,
        args.deep_view(),
        op,
        v@,
    )->Ok_0);
    Ok(())
}

/// A comparison of a function of a column and of values with the column itself.
pub open spec fn args_self(
    f: Facts,
    name: Seq<char>,
    column: Seq<char>,
    args: Seq<SqlValue>,
    op: CheckOp,
) -> Written {
    cat(args_head(f, name, column, args), word(" "@ + op_text(op) + " "@ + column))
}

fn render_args_self(
    facts: &RealFacts,
    out: &mut String,
    name: &str,
    column: &str,
    args: &Vec<DbValue>,
    op: CheckOp,
) -> (r: Eval<()>)
    ensures
        pushed(
            r,
            old(out)@,
            final(out)@,
            args_self(facts@, name@, column@, args.deep_view(), op),
        ),
{
    render_args_head(facts, out, name, column, args)?;
    out.append(" ");
    out.append(render_check_op(op));
    out.append(" ");
    out.append(column);
    assert(out@ =~= old(out)@ + args_self(facts@, name@, column@, args.deep_view(), op)->Ok_0);
    Ok(())
}

/// A comparison of the result of an operator between a column and a value.
pub open spec fn operator_compare(
    f: Facts,
    column: Seq<char>,
    sign: Seq<char>,
    operand: SqlValue,
    op: CheckOp,
    v: SqlValue,
) -> Written {
    cat(
        cat(cat(word("("@ + column + " "@ + sign + " "@), value_literal(f, operand)), word(")"@)),
        compare_tail(f, op, v),
    )
}

fn render_operator(
    facts: &RealFacts,
    out: &mut String,
    column: &str,
    sign: &str,
    operand: &DbValue,
    op: CheckOp,
    v: &DbValue,
) -> (r: Eval<()>)
    ensures
        pushed(
            r,
            old(out)@,
            final(out)@,
            operator_compare(facts@, column@, sign@, operand@, op, v@),
        ),
{
    out.append("(");
    out.append(column);
    out.append(" ");
    out.append(sign);
    out.append(" ");
    render_literal(facts, out, operand)?;
    out.append(")");
    render_tail(facts, out, op, v)?;
    assert(out@ =~= old(out)@ + operator_compare(facts@, column@, sign@, operand@, op, v@)->Ok_0);
    Ok(())
}

/// A text pattern behind a word such as `LIKE`.
pub open spec fn pattern_test(
    f: Facts,
    column: Seq<char>,
    negated: bool,
    name: Seq<char>,
    pattern: Seq<char>,
) -> Written {
    cat(
        word(column + " "@ + word_if(negated, "NOT "@) + name + " "@),
        text_literal(f, pattern),
    )
}

fn render_pattern(
    facts: &RealFacts,
    out: &mut String,
    column: &str,
    negated: bool,
    name: &str,
    pattern: &str,
)
    ensures
        pattern_test(facts@, column@, negated, name@, pattern@) is Ok,
        final(out)@ == old(out)@ + pattern_test(
            facts@,
            column@,
            negated,
            name@,
            pattern@,
        )->Ok_0,
{
    out.append(column);
    out.append(" ");
    if negated {
        out.append("NOT ");
    }
    out.append(name);
    out.append(" ");
    out.append(quote_text(pattern).as_str());
    assert(out@ =~= old(out)@ + pattern_test(facts@, column@, negated, name@, pattern@)->Ok_0);
}

/// A number that may be given, behind a comma.
pub open spec fn optional_number(n: Option<i64>) -> Seq<char> {
    match n {
        Some(i) => ", "@ + int_text(i as int),
        None => Seq::empty(),
    }
}

/// The start of `round` of a column.
pub open spec fn round_head(column: Seq<char>, precision: Option<i64>) -> Seq<char> {
    "round("@ + column + optional_number(precision) + ")"@
}

fn numbered_head(start: &str, column: &str, number: Option<i64>) -> (r: String)
    ensures
        r@ == start@ + column@ + optional_number(number) + ")"@,
{
    let mut head = start.to_owned();
    head.append(column);
    match number {
        Some(i) => {
            head.append(", ");
            head.append(i64_text(i).as_str());
        },
        None => {},
    }
    head.append(")");
    assert(head@ =~= start@ + column@ + optional_number(number) + ")"@);
    head
}

/// The start of `substr` of a column.
pub open spec fn substr_head(column: Seq<char>, start: i64, length: Option<i64>) -> Seq<char> {
    "substr("@ + (column + ", "@ + int_text(start as int)) + optional_number(length) + ")"@
}

fn substr_text(column: &str, start: i64, length: Option<i64>) -> (r: String)
    ensures
        r@ == substr_head(column@, start, length),
{
    let mut inner = column.to_owned();
    inner.append(", ");
    inner.append(i64_text(start).as_str());
    numbered_head("substr(", inner.as_str(), length)
}

/// The name of a function that trims.
pub open spec fn trim_name(side: TrimSide) -> Seq<char> {
    match side {
        TrimSide::Both => "trim"@,
        TrimSide::Start => "ltrim"@,
        TrimSide::End => "rtrim"@,
    }
}

fn name_of_trim(side: TrimSide) -> (r: &'static str)
    ensures
        r@ == trim_name(side),
{
    match side {
        TrimSide::Both => "trim",
        TrimSide::Start => "ltrim",
        TrimSide::End => "rtrim",
    }
}

/// The arguments that a text that may be given makes.
pub open spec fn optional_text(t: Option<String>) -> Seq<SqlValue> {
    match t {
        Some(x) => seq![SqlValue::Text(x@)],
        None => Seq::empty(),
    }
}

fn texts_of(t: &Option<String>) -> (r: Vec<DbValue>)
    ensures
        r.deep_view() == optional_text(*t),
{
    let mut r: Vec<DbValue> = Vec::new();
    match t {
        Some(x) => {
            r.push(DbValue::Text(x.clone()));
        },
        None => {},
    }
    assert(r.deep_view() =~= optional_text(*t));
    r
}

fn one_value(v: &DbValue) -> (r: Vec<DbValue>)
    ensures
        r.deep_view() == seq![v@],
{
    let mut r: Vec<DbValue> = Vec::new();
    r.push(v.copy());
    assert(r.deep_view() =~= seq![v@]);
    r
}

fn two_texts(a: &str, b: &str) -> (r: Vec<DbValue>)
    ensures
        r.deep_view() == seq![SqlValue::Text(a@), SqlValue::Text(b@)],
{
    let mut r: Vec<DbValue> = Vec::new();
    r.push(DbValue::Text(a.to_owned()));
    r.push(DbValue::Text(b.to_owned()));
    assert(r.deep_view() =~= seq![SqlValue::Text(a@), SqlValue::Text(b@)]);
    r
}

/// The value of a separator that may be null.
pub open spec fn separator_value(t: Option<String>) -> SqlValue {
    match t {
        Some(x) => SqlValue::Text(x@),
        None => SqlValue::Null,
    }
}

/// A comparison of `concat_ws`.
pub open spec fn concat_ws_compare(
    f: Facts,
    column: Seq<char>,
    separator: SqlValue,
    suffix: Seq<SqlValue>,
    op: CheckOp,
    v: SqlValue,
) -> Written {
    cat(
        cat(
            cat(
                cat(cat(word("concat_ws("@), value_literal(f, separator)), word(", "@ + column)),
                arguments_from(f, suffix, 0, Seq::empty()),
            ),
            word(")"@),
        ),
        compare_tail(f, op, v),
    )
}

fn render_concat_ws(
    facts: &RealFacts,
    out: &mut String,
    column: &str,
    separator: &Option<String>,
    suffix: &Vec<DbValue>,
    op: CheckOp,
    v: &DbValue,
) -> (r: Eval<()>)
    ensures
        pushed(
            r,
            old(out)@,
            final(out)@,
            concat_ws_compare(
                facts@,
                column@,
                separator_value(*separator),
                suffix.deep_view(),
                op,
                v@,
            ),
        ),
{
    out.append("concat_ws(");
    match separator {
        Some(t) => {
            out.append(quote_text(t.as_str()).as_str());
        },
        None => {
            out.append("NULL");
        },
    }
    out.append(", ");
    out.append(column);
    render_arguments(facts, out, suffix)?;
    out.append(")");
    render_tail(facts, out, op, v)?;
    assert(out@ =~= old(out)@ + concat_ws_compare(
        facts@,
        column@,
        separator_value(*separator),
        suffix.deep_view(),
        op,
        v@,
    )->Ok_0);
    Ok(())
}

/// A comparison of a function of a value and of a column.
pub open spec fn swapped_compare(
    f: Facts,
    name: Seq<char>,
    argument: SqlValue,
    column: Seq<char>,
    op: CheckOp,
    v: SqlValue,
) -> Written {
    cat(
        cat(cat(word(name + "("@), value_literal(f, argument)), word(", "@ + column + ")"@)),
        compare_tail(f, op, v),
    )
}

fn render_swapped(
    facts: &RealFacts,
    out: &mut String,
    name: &str,
    argument: &DbValue,
    column: &str,
    op: CheckOp,
    v: &DbValue,
) -> (r: Eval<()>)
    ensures
        pushed(
            r,
            old(out)@,
            final(out)@,
            swapped_compare(facts@, name@, argument@, column@, op, v@),
        ),
{
    out.append(name);
    out.append("(");
    render_literal(facts, out, argument)?;
    out.append(", ");
    out.append(column);
    out.append(")");
    render_tail(facts, out, op, v)?;
    assert(out@ =~= old(out)@ + swapped_compare(facts@, name@, argument@, column@, op, v@)->Ok_0);
    Ok(())
}

/// A test that a column lies between two values.
pub open spec fn between_text(
    f: Facts,
    column: Seq<char>,
    low: SqlValue,
    high: SqlValue,
    negated: bool,
) -> Written {
    cat(
        cat(
            cat(
                word(column + " "@ + word_if(negated, "NOT "@) + "BETWEEN "@),
                value_literal(f, low),
            ),
            word(" AND "@),
        ),
        value_literal(f, high),
    )
}

fn render_between(
    facts: &RealFacts,
    out: &mut String,
    column: &str,
    low: &DbValue,
    high: &DbValue,
    negated: bool,
) -> (r: Eval<()>)
    ensures
        pushed(r, old(out)@, final(out)@, between_text(facts@, column@, low@, high@, negated)),
{
    out.append(column);
    out.append(" ");
    if negated {
        out.append("NOT ");
    }
    out.append("BETWEEN ");
    render_literal(facts, out, low)?;
    out.append(" AND ");
    render_literal(facts, out, high)?;
    assert(out@ =~= old(out)@ + between_text(facts@, column@, low@, high@, negated)->Ok_0);
    Ok(())
}

/// A test that a column is one of some values.
pub open spec fn in_text(f: Facts, column: Seq<char>, values: Seq<SqlValue>, negated: bool) -> Written {
    cat(
        cat(
            word(column + " "@ + word_if(negated, "NOT "@) + "IN ("@),
            list_from(f, values, 0, Seq::empty()),
        ),
        word(")"@),
    )
}

fn render_in(facts: &RealFacts, out: &mut String, column: &str, values: &Vec<DbValue>, negated: bool) -> (r:
    Eval<()>)
    ensures
        pushed(r, old(out)@, final(out)@, in_text(facts@, column@, values.deep_view(), negated)),
{
    out.append(column);
    out.append(" ");
    if negated {
        out.append("NOT ");
    }
    out.append("IN (");
    render_list(facts, out, values)?;
    out.append(")");
    assert(out@ =~= old(out)@ + in_text(facts@, column@, values.deep_view(), negated)->Ok_0);
    Ok(())
}

/// A test that ends in `NULL`.
pub open spec fn null_test(head: Seq<char>, negated: bool) -> Seq<char> {
    head + " IS "@ + word_if(negated, "NOT "@) + "NULL"@
}

fn render_null_test(out: &mut String, head: &str, negated: bool)
    ensures
        final(out)@ == old(out)@ + null_test(head@, negated),
{
    out.append(head);
    out.append(" IS ");
    if negated {
        out.append("NOT ");
    }
    out.append("NULL");
    assert(out@ =~= old(out)@ + null_test(head@, negated));
}

/// A test that a column and a value are not both null.
pub open spec fn null_if_text(f: Facts, column: Seq<char>, v: SqlValue, negated: bool) -> Written {
    cat(
        cat(word("nullif("@ + column + ", "@), value_literal(f, v)),
        word(null_test(")"@, negated)),
    )
}

fn render_null_if(facts: &RealFacts, out: &mut String, column: &str, v: &DbValue, negated: bool) -> (r:
    Eval<()>)
    ensures
        pushed(r, old(out)@, final(out)@, null_if_text(facts@, column@, v@, negated)),
{
    out.append("nullif(");
    out.append(column);
    out.append(", ");
    render_literal(facts, out, v)?;
    render_null_test(out, ")", negated);
    assert(out@ =~= old(out)@ + null_if_text(facts@, column@, v@, negated)->Ok_0);
    Ok(())
}

/// A test that a column is distinct from a value.
pub open spec fn distinct_text(f: Facts, column: Seq<char>, v: SqlValue, negated: bool) -> Written {
    cat(
        word(column + " IS "@ + word_if(!negated, "NOT "@) + "DISTINCT FROM "@),
        value_literal(f, v),
    )
}

fn render_distinct(facts: &RealFacts, out: &mut String, column: &str, v: &DbValue, negated: bool) -> (r:
    Eval<()>)
    ensures
        pushed(r, old(out)@, final(out)@, distinct_text(facts@, column@, v@, negated)),
{
    out.append(column);
    out.append(" IS ");
    if !negated {
        out.append("NOT ");
    }
    out.append("DISTINCT FROM ");
    render_literal(facts, out, v)?;
    assert(out@ =~= old(out)@ + distinct_text(facts@, column@, v@, negated)->Ok_0);
    Ok(())
}

/// A test that a column is true or false.
pub open spec fn is_bool_text(column: Seq<char>, value: bool, negated: bool) -> Seq<char> {
    column + " IS "@ + word_if(negated, "NOT "@) + if value {
        "TRUE"@
    } else {
        "FALSE"@
    }
}

fn render_is_bool(out: &mut String, column: &str, value: bool, negated: bool)
    ensures
        final(out)@ == old(out)@ + is_bool_text(column@, value, negated),
{
    out.append(column);
    out.append(" IS ");
    if negated {
        out.append("NOT ");
    }
    if value {
        out.append("TRUE");
    } else {
        out.append("FALSE");
    }
    assert(out@ =~= old(out)@ + is_bool_text(column@, value, negated));
}

/// A `LIKE` with its escape character.
pub open spec fn like_text(
    f: Facts,
    column: Seq<char>,
    pattern: Seq<char>,
    escape: Option<String>,
    negated: bool,
) -> Written {
    cat(
        pattern_test(f, column, negated, "LIKE"@, pattern),
        match escape {
            Some(t) => cat(word(" ESCAPE "@), text_literal(f, t@)),
            None => word(Seq::empty()),
        },
    )
}

fn render_like(
    facts: &RealFacts,
    out: &mut String,
    column: &str,
    pattern: &str,
    escape: &Option<String>,
    negated: bool,
) -> (r: Eval<()>)
    ensures
        pushed(r, old(out)@, final(out)@, like_text(facts@, column@, pattern@, *escape, negated)),
{
    render_pattern(facts, out, column, negated, "LIKE", pattern);
    match escape {
        Some(t) => {
            out.append(" ESCAPE ");
            out.append(quote_text(t.as_str()).as_str());
        },
        None => {},
    }
    assert(out@ =~= old(out)@ + like_text(facts@, column@, pattern@, *escape, negated)->Ok_0);
    Ok(())
}

/// A test of `json_valid`, with a comparison or without.
pub open spec fn json_valid_text(
    f: Facts,
    column: Seq<char>,
    flags: Option<i64>,
    compare: Option<(CheckOp, DbValue)>,
) -> Written {
    cat(
        word("json_valid("@ + column + optional_number(flags) + ")"@),
        match compare {
            Some((op, v)) => compare_tail(f, op, v@),
            None => word(Seq::empty()),
        },
    )
}

fn render_json_valid(
    facts: &RealFacts,
    out: &mut String,
    column: &str,
    flags: Option<i64>,
    compare: &Option<(CheckOp, DbValue)>,
) -> (r: Eval<()>)
    ensures
        pushed(r, old(out)@, final(out)@, json_valid_text(facts@, column@, flags, *compare)),
{
    let head = numbered_head("json_valid(", column, flags);
    out.append(head.as_str());
    match compare {
        Some((op, v)) => {
            render_tail(facts, out, *op, v)?;
        },
        None => {},
    }
    assert(out@ =~= old(out)@ + json_valid_text(facts@, column@, flags, *compare)->Ok_0);
    Ok(())
}

/// A condition as SQL.
pub open spec fn check_text(f: Facts, e: CheckExpr) -> Written
    decreases e,
{
    match e {
        CheckExpr::Compare { column, op, value } => compare_text(f, column@, op, value@),
        CheckExpr::IsNull { column, negated } => word(null_test(column@, negated)),
        CheckExpr::Glob { column, pattern, negated } => pattern_test(
            f,
            column@,
            negated,
            "GLOB"@,
            pattern@,
        ),
        CheckExpr::Regexp { column, pattern, negated } => pattern_test(
            f,
            column@,
            negated,
            "REGEXP"@,
            pattern@,
        ),
        CheckExpr::Like { column, pattern, escape, negated } => like_text(
            f,
            column@,
            pattern@,
            escape,
            negated,
        ),
        CheckExpr::InList { column, values, negated } => in_text(
            f,
            column@,
            values.deep_view(),
            negated,
        ),
        CheckExpr::Between { column, low, high, negated } => between_text(
            f,
            column@,
            low@,
            high@,
            negated,
        ),
        CheckExpr::IsBool { column, value, negated } => word(
            is_bool_text(column@, value, negated),
        ),
        CheckExpr::Truthy { column } => word(column@),
        CheckExpr::IsDistinct { column, value, negated } => distinct_text(
            f,
            column@,
            value@,
            negated,
        ),
        CheckExpr::LengthCompare { column, op, value } => compare_text(
            f,
            call_head("length"@, column@),
            op,
            value@,
        ),
        CheckExpr::OctetLengthCompare { column, op, value } => compare_text(
            f,
            call_head("octet_length"@, column@),
            op,
            value@,
        ),
        CheckExpr::UnicodeCompare { column, op, value } => compare_text(
            f,
            call_head("unicode"@, column@),
            op,
            value@,
        ),
        CheckExpr::UnicodeIsNull { column, negated } => word(
            null_test(call_head("unicode"@, column@), negated),
        ),
        CheckExpr::SignCompare { column, op, value } => compare_text(
            f,
            call_head("sign"@, column@),
            op,
            value@,
        ),
        CheckExpr::HexCompare { column, op, value } => compare_text(
            f,
            call_head("hex"@, column@),
            op,
            value@,
        ),
        CheckExpr::QuoteCompare { column, op, value } => compare_text(
            f,
            call_head("quote"@, column@),
            op,
            value@,
        ),
        CheckExpr::NullIfIsNull { column, value, negated } => null_if_text(
            f,
            column@,
            value@,
            negated,
        ),
        CheckExpr::ReplaceCompare { column, pattern, replacement, op, value } => args_compare(
            f,
            "replace"@,
            column@,
            seq![SqlValue::Text(pattern@), SqlValue::Text(replacement@)],
            op,
            value@,
        ),
        CheckExpr::ReplaceColumnCompare { column, pattern, replacement, op } => args_self(
            f,
            "replace"@,
            column@,
            seq![SqlValue::Text(pattern@), SqlValue::Text(replacement@)],
            op,
        ),
        CheckExpr::RoundCompare { column, precision, op, value } => compare_text(
            f,
            round_head(column@, precision),
            op,
            value@,
        ),
        CheckExpr::RoundingCompare { column, func, op, value } => compare_text(
            f,
            call_head(func@, column@),
            op,
            value@,
        ),
        CheckExpr::CastCompare { column, target_type, op, value } => compare_text(
            f,
            "CAST("@ + column@ + " AS "@ + target_type.sql_name() + ")"@,
            op,
            value@,
        ),
        CheckExpr::MinMaxColumnCompare { column, limit, min, op } => args_self(
            f,
            if min {
                "min"@
            } else {
                "max"@
            },
            column@,
            seq![limit@],
            op,
        ),
        CheckExpr::ConcatCompare { column, suffix, op, value } => args_compare(
            f,
            "concat"@,
            column@,
            suffix.deep_view(),
            op,
            value@,
        ),
        CheckExpr::ConcatWsCompare { column, separator, suffix, op, value } => concat_ws_compare(
            f,
            column@,
            separator_value(separator),
            suffix.deep_view(),
            op,
            value@,
        ),
        CheckExpr::JsonValidCompare { column, flags, compare } => json_valid_text(
            f,
            column@,
            flags,
            compare,
        ),
        CheckExpr::AbsCompare { column, op, value } => compare_text(
            f,
            call_head("abs"@, column@),
            op,
            value@,
        ),
        CheckExpr::UnaryMathCompare { column, func, op, value } => compare_text(
            f,
            call_head(func@, column@),
            op,
            value@,
        ),
        CheckExpr::BinaryMathCompare { column, func, argument, column_is_second, op, value } => if column_is_second {
            swapped_compare(f, func@, argument@, column@, op, value@)
        } else {
            args_compare(f, func@, column@, seq![argument@], op, value@)
        },
        CheckExpr::ArithmeticCompare { column, addend, op, value } => operator_compare(
            f,
            column@,
            "+"@,
            addend@,
            op,
            value@,
        ),
        CheckExpr::MultiplyCompare { column, factor, op, value } => operator_compare(
            f,
            column@,
            "*"@,
            factor@,
            op,
            value@,
        ),
        CheckExpr::DivideCompare { column, divisor, op, value } => operator_compare(
            f,
            column@,
            "/"@,
            divisor@,
            op,
            value@,
        ),
        CheckExpr::ModuloCompare { column, divisor, op, value, function_form } => if function_form {
            args_compare(f, "mod"@, column@, seq![divisor@], op, value@)
        } else {
            operator_compare(f, column@, "%"@, divisor@, op, value@)
        },
        CheckExpr::TypeOfCompare { column, op, value } => compare_text(
            f,
            call_head("typeof"@, column@),
            op,
            value@,
        ),
        CheckExpr::NoCaseCompare { column, collation, op, value } => compare_text(
            f,
            column@ + " COLLATE "@ + collation@,
            op,
            value@,
        ),
        CheckExpr::CaseFoldCompare { column, upper, op, value } => compare_text(
            f,
            call_head(
                if upper {
                    "upper"@
                } else {
                    "lower"@
                },
                column@,
            ),
            op,
            value@,
        ),
        CheckExpr::TrimCompare { column, side, characters, op, value } => args_compare(
            f,
            trim_name(side),
            column@,
            optional_text(characters),
            op,
            value@,
        ),
        CheckExpr::CoalesceCompare { column, fallbacks, op, value } => args_compare(
            f,
            "coalesce"@,
            column@,
            fallbacks.deep_view(),
            op,
            value@,
        ),
        CheckExpr::InstrCompare { column, needle, op, value } => args_compare(
            f,
            "instr"@,
            column@,
            seq![needle@],
            op,
            value@,
        ),
        CheckExpr::SubstrCompare { column, start, length, op, value } => compare_text(
            f,
            substr_head(column@, start, length),
            op,
            value@,
        ),
        CheckExpr::And(left, right) => cat(
            cat(cat(cat(word("("@), check_text(f, *left)), word(") AND ("@)), check_text(f, *right)),
            word(")"@),
        ),
        CheckExpr::Or(left, right) => cat(
            cat(cat(cat(word("("@), check_text(f, *left)), word(") OR ("@)), check_text(f, *right)),
            word(")"@),
        ),
        CheckExpr::Not(inner) => cat(
            cat(word("NOT ("@), check_text(f, *inner)),
            word(")"@),
        ),
    }
}

/// Writes a condition as SQL.
#[verifier::rlimit(60)]
pub fn render_check_expr(facts: &RealFacts, out: &mut String, e: &CheckExpr) -> (r: Eval<()>)
    ensures
        pushed(r, old(out)@, final(out)@, check_text(facts@, *e)),
    decreases e,
{
    match e {
        CheckExpr::Compare { column, op, value } => render_compare(
            facts,
            out,
            column.as_str(),
            *op,
            value,
        ),
        CheckExpr::IsNull { column, negated } => {
            render_null_test(out, column.as_str(), *negated);
            Ok(())
        },
        CheckExpr::Glob { column, pattern, negated } => {
            render_pattern(facts, out, column.as_str(), *negated, "GLOB", pattern.as_str());
            Ok(())
        },
        CheckExpr::Regexp { column, pattern, negated } => {
            render_pattern(facts, out, column.as_str(), *negated, "REGEXP", pattern.as_str());
            Ok(())
        },
        CheckExpr::Like { column, pattern, escape, negated } => render_like(
            facts,
            out,
            column.as_str(),
            pattern.as_str(),
            escape,
            *negated,
        ),
        CheckExpr::InList { column, values, negated } => render_in(
            facts,
            out,
            column.as_str(),
            values,
            *negated,
        ),
        CheckExpr::Between { column, low, high, negated } => render_between(
            facts,
            out,
            column.as_str(),
            low,
            high,
            *negated,
        ),
        CheckExpr::IsBool { column, value, negated } => {
            render_is_bool(out, column.as_str(), *value, *negated);
            Ok(())
        },
        CheckExpr::Truthy { column } => {
            out.append(column.as_str());
            Ok(())
        },
        CheckExpr::IsDistinct { column, value, negated } => render_distinct(
            facts,
            out,
            column.as_str(),
            value,
            *negated,
        ),
        CheckExpr::LengthCompare { column, op, value } => render_call(
            facts,
            out,
            "length",
            column.as_str(),
            *op,
            value,
        ),
        CheckExpr::OctetLengthCompare { column, op, value } => render_call(
            facts,
            out,
            "octet_length",
            column.as_str(),
            *op,
            value,
        ),
        CheckExpr::UnicodeCompare { column, op, value } => render_call(
            facts,
            out,
            "unicode",
            column.as_str(),
            *op,
            value,
        ),
        CheckExpr::UnicodeIsNull { column, negated } => {
            let mut head = "unicode".to_owned();
            head.append("(");
            head.append(column.as_str());
            head.append(")");
            render_null_test(out, head.as_str(), *negated);
            Ok(())
        },
        CheckExpr::SignCompare { column, op, value } => render_call(
            facts,
            out,
            "sign",
            column.as_str(),
            *op,
            value,
        ),
        CheckExpr::HexCompare { column, op, value } => render_call(
            facts,
            out,
            "hex",
            column.as_str(),
            *op,
            value,
        ),
        CheckExpr::QuoteCompare { column, op, value } => render_call(
            facts,
            out,
            "quote",
            column.as_str(),
            *op,
            value,
        ),
        CheckExpr::NullIfIsNull { column, value, negated } => render_null_if(
            facts,
            out,
            column.as_str(),
            value,
            *negated,
        ),
        CheckExpr::ReplaceCompare { column, pattern, replacement, op, value } => {
            let args = two_texts(pattern.as_str(), replacement.as_str());
            render_args_compare(facts, out, "replace", column.as_str(), &args, *op, value)
        },
        CheckExpr::ReplaceColumnCompare { column, pattern, replacement, op } => {
            let args = two_texts(pattern.as_str(), replacement.as_str());
            render_args_self(facts, out, "replace", column.as_str(), &args, *op)
        },
        CheckExpr::RoundCompare { column, precision, op, value } => {
            let head = numbered_head("round(", column.as_str(), *precision);
            render_compare(facts, out, head.as_str(), *op, value)
        },
        CheckExpr::RoundingCompare { column, func, op, value } => render_call(
            facts,
            out,
            func.as_str(),
            column.as_str(),
            *op,
            value,
        ),
        CheckExpr::CastCompare { column, target_type, op, value } => {
            let mut head = "CAST(".to_owned();
            head.append(column.as_str());
            head.append(" AS ");
            head.append(target_type.name());
            head.append(")");
            render_compare(facts, out, head.as_str(), *op, value)
        },
        CheckExpr::MinMaxColumnCompare { column, limit, min, op } => {
            let args = one_value(limit);
            if *min {
                render_args_self(facts, out, "min", column.as_str(), &args, *op)
            } else {
                render_args_self(facts, out, "max", column.as_str(), &args, *op)
            }
        },
        CheckExpr::ConcatCompare { column, suffix, op, value } => render_args_compare(
            facts,
            out,
            "concat",
            column.as_str(),
            suffix,
            *op,
            value,
        ),
        CheckExpr::ConcatWsCompare { column, separator, suffix, op, value } => render_concat_ws(
            facts,
            out,
            column.as_str(),
            separator,
            suffix,
            *op,
            value,
        ),
        CheckExpr::JsonValidCompare { column, flags, compare } => render_json_valid(
            facts,
            out,
            column.as_str(),
            *flags,
            compare,
        ),
        CheckExpr::AbsCompare { column, op, value } => render_call(
            facts,
            out,
            "abs",
            column.as_str(),
            *op,
            value,
        ),
        CheckExpr::UnaryMathCompare { column, func, op, value } => render_call(
            facts,
            out,
            func.as_str(),
            column.as_str(),
            *op,
            value,
        ),
        CheckExpr::BinaryMathCompare { column, func, argument, column_is_second, op, value } => {
            if *column_is_second {
                render_swapped(facts, out, func.as_str(), argument, column.as_str(), *op, value)
            } else {
                let args = one_value(argument);
                render_args_compare(
                    facts,
                    out,
                    func.as_str(),
                    column.as_str(),
                    &args,
                    *op,
                    value,
                )
            }
        },
        CheckExpr::ArithmeticCompare { column, addend, op, value } => render_operator(
            facts,
            out,
            column.as_str(),
            "+",
            addend,
            *op,
            value,
        ),
        CheckExpr::MultiplyCompare { column, factor, op, value } => render_operator(
            facts,
            out,
            column.as_str(),
            "*",
            factor,
            *op,
            value,
        ),
        CheckExpr::DivideCompare { column, divisor, op, value } => render_operator(
            facts,
            out,
            column.as_str(),
            "/",
            divisor,
            *op,
            value,
        ),
        CheckExpr::ModuloCompare { column, divisor, op, value, function_form } => {
            if *function_form {
                let args = one_value(divisor);
                render_args_compare(facts, out, "mod", column.as_str(), &args, *op, value)
            } else {
                render_operator(facts, out, column.as_str(), "%", divisor, *op, value)
            }
        },
        CheckExpr::TypeOfCompare { column, op, value } => render_call(
            facts,
            out,
            "typeof",
            column.as_str(),
            *op,
            value,
        ),
        CheckExpr::NoCaseCompare { column, collation, op, value } => {
            let mut head = column.clone();
            head.append(" COLLATE ");
            head.append(collation.as_str());
            render_compare(facts, out, head.as_str(), *op, value)
        },
        CheckExpr::CaseFoldCompare { column, upper, op, value } => {
            if *upper {
                render_call(facts, out, "upper", column.as_str(), *op, value)
            } else {
                render_call(facts, out, "lower", column.as_str(), *op, value)
            }
        },
        CheckExpr::TrimCompare { column, side, characters, op, value } => {
            let args = texts_of(characters);
            render_args_compare(
                facts,
                out,
                name_of_trim(*side),
                column.as_str(),
                &args,
                *op,
                value,
            )
        },
        CheckExpr::CoalesceCompare { column, fallbacks, op, value } => render_args_compare(
            facts,
            out,
            "coalesce",
            column.as_str(),
            fallbacks,
            *op,
            value,
        ),
        CheckExpr::InstrCompare { column, needle, op, value } => {
            let args = one_value(needle);
            render_args_compare(facts, out, "instr", column.as_str(), &args, *op, value)
        },
        CheckExpr::SubstrCompare { column, start, length, op, value } => {
            let head = substr_text(column.as_str(), *start, *length);
            render_compare(facts, out, head.as_str(), *op, value)
        },
        CheckExpr::And(left, right) => {
            out.append("(");
            render_check_expr(facts, out, left)?;
            out.append(") AND (");
            render_check_expr(facts, out, right)?;
            out.append(")");
            assert(out@ =~= old(out)@ + check_text(facts@, *e)->Ok_0);
            Ok(())
        },
        CheckExpr::Or(left, right) => {
            out.append("(");
            render_check_expr(facts, out, left)?;
            out.append(") OR (");
            render_check_expr(facts, out, right)?;
            out.append(")");
            assert(out@ =~= old(out)@ + check_text(facts@, *e)->Ok_0);
            Ok(())
        },
        CheckExpr::Not(inner) => {
            out.append("NOT (");
            render_check_expr(facts, out, inner)?;
            out.append(")");
            assert(out@ =~= old(out)@ + check_text(facts@, *e)->Ok_0);
            Ok(())
        },
    }
}

} // verus!
