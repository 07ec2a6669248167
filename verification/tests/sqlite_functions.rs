use rustsql::common::schema::{ColumnDef, ColumnType, Schema};
use rustsql::common::value::DbValue as Value;
use rustsql::sqlite3::expr::ScalarExpr;
use rustsql::sqlite3::functions::{evaluate_scalar_function, ScalarFunc};
use rustsql::sqlite3::index_expr::{
    evaluate_constant_expr, evaluate_index_term, evaluate_scalar_expr_with_like_mode,
    validate_index_term,
};
use rustsql::sqlite3::patterns::{matches_glob_pattern, matches_like_pattern};
use rustsql::sqlite3::reals::{Question, RealAnswer, RealFacts, RealOp, Stop};

fn text(s: &str) -> Value {
    Value::Text(s.to_string())
}

fn answer(q: &Question) -> RealAnswer {
    let a = f64::from_bits(q.a);
    let b = f64::from_bits(q.b);
    match q.op {
        RealOp::FromInt => RealAnswer::Real((q.a as i64 as f64).to_bits()),
        RealOp::ToInt => RealAnswer::Int(a as i64),
        RealOp::Parse => match q.text.parse::<f64>() {
            Ok(x) => RealAnswer::Real(x.to_bits()),
            Err(_) => RealAnswer::Nothing,
        },
        RealOp::Show => RealAnswer::Text(a.to_string()),
        RealOp::Fixed => RealAnswer::Text(format!("{:.*}", q.b as usize, a)),
        RealOp::Scientific => RealAnswer::Text(format!("{:.*e}", q.b as usize, a)),
        RealOp::Add => RealAnswer::Real((a + b).to_bits()),
        RealOp::Multiply => RealAnswer::Real((a * b).to_bits()),
        RealOp::Divide => RealAnswer::Real((a / b).to_bits()),
        RealOp::Sqrt => RealAnswer::Real(a.sqrt().to_bits()),
        RealOp::Truncate => RealAnswer::Real(a.trunc().to_bits()),
        RealOp::Floor => RealAnswer::Real(a.floor().to_bits()),
        RealOp::Log10 => RealAnswer::Real(a.log10().to_bits()),
        RealOp::JulianDay => {
            let millis = q.b as i64;
            let seconds = (millis.div_euclid(1000)) as f64 + millis.rem_euclid(1000) as f64 / 1000.0;
            RealAnswer::Real(((q.a as i64) as f64 - 0.5 + seconds / 86_400.0).to_bits())
        }
        RealOp::ModifierMillis => match q.text.parse::<f64>() {
            Ok(x) if x.is_finite() => RealAnswer::Int((x * q.a as f64).round() as i64),
            _ => RealAnswer::Nothing,
        },
        _ => panic!("no answer to {:?}", q.op),
    }
}

fn settle<T>(mut run: impl FnMut(&RealFacts) -> Result<T, Stop>) -> Result<T, String> {
    let mut facts = RealFacts::new();
    loop {
        match run(&facts) {
            Ok(v) => return Ok(v),
            Err(Stop::Fail(e)) => return Err(e.message()),
            Err(Stop::Ask(q)) => {
                let reply = answer(&q);
                facts.learn(q, reply);
            }
        }
    }
}

fn call(func: ScalarFunc, args: &[Value]) -> Result<Value, String> {
    settle(|facts| evaluate_scalar_function(facts, func, args, false))
}

fn same(a: &Value, b: &Value) -> bool {
    a.same(b)
}

fn gives(func: ScalarFunc, args: &[Value], want: Value) {
    let got = call(func, args).unwrap();
    assert!(same(&got, &want), "{func:?} gave {got:?}, not {want:?}");
}

#[test]
fn text_functions_give_sqlite_results() {
    gives(ScalarFunc::Upper, &[text("straße")], text("STRAßE"));
    gives(ScalarFunc::Lower, &[text("ABC")], text("abc"));
    gives(ScalarFunc::Length, &[text("héllo")], Value::Integer(5));
    gives(ScalarFunc::OctetLength, &[text("héllo")], Value::Integer(6));
    gives(
        ScalarFunc::Substr,
        &[text("hello"), Value::Integer(2), Value::Integer(3)],
        text("ell"),
    );
    gives(ScalarFunc::Substr, &[text("hello"), Value::Integer(-2)], text("lo"));
    gives(ScalarFunc::Instr, &[text("hello"), text("l")], Value::Integer(3));
    gives(ScalarFunc::Replace, &[text("aXbX"), text("X"), text("--")], text("a--b--"));
    gives(ScalarFunc::Trim, &[text("  a  ")], text("a"));
    gives(ScalarFunc::LTrim, &[text("xxa"), text("x")], text("a"));
    gives(ScalarFunc::Hex, &[Value::Blob(vec![1, 255])], text("01FF"));
    gives(ScalarFunc::Unhex, &[text("01ff")], Value::Blob(vec![1, 255]));
    gives(ScalarFunc::Unicode, &[text("A")], Value::Integer(65));
    gives(ScalarFunc::Char, &[Value::Integer(72), Value::Integer(105)], text("Hi"));
    gives(ScalarFunc::Quote, &[text("it's")], text("'it''s'"));
    gives(ScalarFunc::Concat, &[text("a"), Value::Null, Value::Integer(3)], text("a3"));
    gives(ScalarFunc::ConcatWs, &[text("-"), text("a"), Value::Null, text("b")], text("a-b"));
}

#[test]
fn number_functions_give_sqlite_results() {
    gives(ScalarFunc::Abs, &[Value::Integer(-4)], Value::Integer(4));
    gives(ScalarFunc::Sign, &[Value::Integer(-4)], Value::Integer(-1));
    gives(ScalarFunc::Sqrt, &[Value::Integer(9)], Value::Real(3.0_f64.to_bits()));
    gives(ScalarFunc::Sqrt, &[Value::Integer(-1)], Value::Null);
    gives(ScalarFunc::Pi, &[], Value::Real(std::f64::consts::PI.to_bits()));
    gives(ScalarFunc::TypeOf, &[Value::Real(1.5_f64.to_bits())], text("real"));
    gives(ScalarFunc::Coalesce, &[Value::Null, Value::Integer(2)], Value::Integer(2));
    gives(ScalarFunc::NullIf, &[Value::Integer(2), Value::Integer(2)], Value::Null);
    gives(ScalarFunc::IfNull, &[Value::Null, text("x")], text("x"));
    gives(
        ScalarFunc::MaxScalar,
        &[Value::Integer(2), Value::Integer(7), Value::Integer(5)],
        Value::Integer(7),
    );
    gives(ScalarFunc::ZeroBlob, &[Value::Integer(3)], Value::Blob(vec![0, 0, 0]));
}

#[test]
fn printf_formats() {
    gives(
        ScalarFunc::Printf,
        &[text("%d|%5d|%-5d|%05d"), Value::Integer(7), Value::Integer(7), Value::Integer(7), Value::Integer(7)],
        text("7|    7|7    |00007"),
    );
    gives(ScalarFunc::Printf, &[text("%x %X %o"), Value::Integer(255), Value::Integer(255), Value::Integer(8)], text("ff FF 10"));
    gives(ScalarFunc::Printf, &[text("%s=%q"), text("a"), text("it's")], text("a=it''s"));
    gives(ScalarFunc::Printf, &[text("%.2f"), Value::Real(2.5_f64.to_bits())], text("2.50"));
    gives(ScalarFunc::Printf, &[text("%,d"), Value::Integer(1234567)], text("1,234,567"));
    gives(ScalarFunc::Printf, &[text("100%%")], text("100%"));
}

#[test]
fn dates_are_computed() {
    gives(ScalarFunc::Date, &[text("2024-02-29 13:14:15")], text("2024-02-29"));
    gives(ScalarFunc::Time, &[text("2024-02-29 13:14:15")], text("13:14:15"));
    gives(
        ScalarFunc::DateTime,
        &[text("2024-01-31"), text("+1 month")],
        text("2024-03-02 00:00:00"),
    );
    gives(ScalarFunc::Date, &[text("2024-03-01"), text("-1 day")], text("2024-02-29"));
    gives(ScalarFunc::Date, &[text("2024-05-17"), text("start of month")], text("2024-05-01"));
    gives(ScalarFunc::UnixEpoch, &[text("1970-01-02")], Value::Integer(86_400));
    gives(
        ScalarFunc::JulianDay,
        &[text("2000-01-01 12:00:00")],
        Value::Real(2_451_545.0_f64.to_bits()),
    );
    gives(ScalarFunc::Strftime, &[text("%Y/%m/%d"), text("2024-02-29")], text("2024/02/29"));
    gives(ScalarFunc::Date, &[text("no date")], Value::Null);
}

#[test]
fn json_functions_give_sqlite_results() {
    gives(ScalarFunc::Json, &[text(" { \"a\" : [1, 2.5 , null] } ")], text("{\"a\":[1,2.5,null]}"));
    gives(ScalarFunc::Json, &[text("{a:1}")], text("{\"a\":1}"));
    gives(ScalarFunc::JsonExtract, &[text("{\"a\":[1,\"x\"]}"), text("$.a[1]")], text("x"));
    gives(ScalarFunc::JsonType, &[text("{\"a\":[1]}"), text("$.a")], text("array"));
    gives(ScalarFunc::JsonArrayLength, &[text("[1,2,3]")], Value::Integer(3));
    gives(ScalarFunc::JsonValid, &[text("{\"a\":1}")], Value::Integer(1));
    gives(ScalarFunc::JsonValid, &[text("{a")], Value::Integer(0));
    gives(
        ScalarFunc::JsonSet,
        &[text("{\"a\":1}"), text("$.b"), Value::Integer(2)],
        text("{\"a\":1,\"b\":2}"),
    );
    gives(ScalarFunc::JsonRemove, &[text("{\"a\":1,\"b\":2}"), text("$.a")], text("{\"b\":2}"));
    gives(
        ScalarFunc::JsonPatch,
        &[text("{\"a\":1,\"b\":2}"), text("{\"a\":null,\"c\":3}")],
        text("{\"b\":2,\"c\":3}"),
    );
    gives(ScalarFunc::JsonQuote, &[text("a\"b\n")], text("\"a\\\"b\\n\""));
    gives(
        ScalarFunc::JsonObject,
        &[text("k"), Value::Integer(1)],
        text("{\"k\":1}"),
    );
}

#[test]
fn patterns_match() {
    assert!(matches_like_pattern("Hello", "h_llo", None, false).unwrap());
    assert!(!matches_like_pattern("Hello", "h_llo", None, true).unwrap());
    assert!(matches_like_pattern("100%", "100\\%", Some("\\"), false).unwrap());
    assert!(matches_like_pattern("abc", "%c", None, false).unwrap());
    assert!(matches_glob_pattern("abc", "a[b-d]?"));
    assert!(!matches_glob_pattern("abc", "A*"));
}

#[test]
fn wrong_argument_counts_are_told() {
    assert_eq!(
        call(ScalarFunc::Abs, &[]).unwrap_err(),
        "ABS expects 1 argument but got 0"
    );
}

#[test]
fn expressions_read_columns_of_a_row() {
    let schema = Schema::new(
        "t",
        vec![ColumnDef::new("a", ColumnType::Integer), ColumnDef::new("b", ColumnType::Text)],
    );
    let row = vec![Value::Integer(4), text("x")];
    let expr = ScalarExpr::Function {
        func: ScalarFunc::Concat,
        args: vec![ScalarExpr::Column("b".to_string()), ScalarExpr::Column("a".to_string())],
    };
    let got = settle(|f| evaluate_scalar_expr_with_like_mode(f, &schema, &row, &expr, false)).unwrap();
    assert!(same(&got, &text("x4")));
    let got = settle(|f| evaluate_index_term(f, &schema, &row, "b || a", &expr)).unwrap();
    assert!(same(&got, &text("x4")));
    assert!(validate_index_term(&schema, "b || a", &expr).is_ok());

    let missing = ScalarExpr::Column("z".to_string());
    let error = validate_index_term(&schema, "z + 0", &missing).unwrap_err();
    assert_eq!(error.message(), "unknown column z on table t");
    let query = ScalarExpr::Subquery { query: "SELECT 1".to_string() };
    assert!(validate_index_term(&schema, "(SELECT 1)", &query).is_err());
}

#[test]
fn constants_do_not_need_a_row() {
    let constant = ScalarExpr::UnaryMinus(Box::new(ScalarExpr::Literal(Value::Integer(4))));
    let got = settle(|f| evaluate_constant_expr(f, &constant)).unwrap();
    assert!(same(&got.unwrap(), &Value::Integer(-4)));
    let column = ScalarExpr::Column("a".to_string());
    assert!(settle(|f| evaluate_constant_expr(f, &column)).unwrap().is_none());
}
