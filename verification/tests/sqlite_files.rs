use rustsql::common::error::DbResult;
use rustsql::common::schema::{ColumnDef, ColumnType, IndexMeta, Schema};
use rustsql::common::value::{same_values, DbValue as Value, RowId};
use rustsql::sqlite3::entries::{WritableIndex, WritableTable};
use rustsql::sqlite3::expr::ScalarExpr;
use rustsql::sqlite3::page::BtreePageHeader;
use rustsql::sqlite3::pager::Pager;
use rustsql::sqlite3::reals::{RealFacts, Stop};
use rustsql::sqlite3::record::{decode_record, encode_record};
use rustsql::sqlite3::render_schema::{render_create_index, render_create_table};
use rustsql::sqlite3::schema::{load_catalog, Reading};
use rustsql::sqlite3::schema_rows::{decode_table_record, read_schema_rows};
use rustsql::sqlite3::varint::{decode_varint, encode_varint};
use rustsql::sqlite3::writer::{write_database, WritableDatabase};
use rustsql::sqlite3::autoindex::parse_autoindex_name;

fn text(s: &str) -> Value {
    Value::Text(s.to_string())
}

fn users() -> Schema {
    Schema::new(
        "users",
        vec![
            ColumnDef::primary_key("id", ColumnType::Integer),
            ColumnDef::new("name", ColumnType::Text),
        ],
    )
}

fn name_index() -> IndexMeta {
    IndexMeta {
        name: "idx_name".to_string(),
        columns: vec!["name".to_string()],
        decorated_columns: None,
        unique: true,
        predicate: None,
    }
}

fn database(rows: Vec<(RowId, Vec<Value>)>) -> WritableDatabase {
    WritableDatabase {
        tables: vec![("users".to_string(), WritableTable { schema: users(), rows })],
        indexes: vec![(
            "users".to_string(),
            vec![(
                "idx_name".to_string(),
                WritableIndex {
                    meta: name_index(),
                    terms: vec![ScalarExpr::Column("name".to_string())],
                    members: None,
                },
            )],
        )],
        extra_schema_objects: Vec::new(),
        sqlite_sequence: Vec::new(),
        sqlite_sequence_exists: false,
        user_version: 3,
        application_id: 0,
        schema_version: 1,
    }
}

fn failure<T>(r: DbResult<T>) -> String {
    match r {
        Ok(_) => panic!("no failure"),
        Err(e) => e.message(),
    }
}

#[test]
fn varints_are_read_back() {
    for value in [0, 127, 128, 16_383, 16_384, u32::MAX as u64, 1 << 55, 1 << 56, u64::MAX] {
        let bytes = encode_varint(value);
        assert_eq!(decode_varint(&bytes).unwrap(), (value, bytes.len()));
    }
    assert_eq!(encode_varint(128), vec![0x81, 0x00]);
    assert_eq!(encode_varint(u64::MAX), vec![0xff; 9]);
}

#[test]
fn varints_must_be_whole_and_short() {
    assert!(decode_varint(&[0x81]).is_err());
    assert!(decode_varint(&[0x80, 0x01]).is_err());
}

#[test]
fn records_are_read_back() {
    let row = vec![
        Value::Null,
        Value::Integer(0),
        Value::Integer(1),
        Value::Integer(-129),
        Value::Integer(i64::MIN),
        Value::Real(1.5_f64.to_bits()),
        Value::Blob(vec![9, 8]),
        text("héllo"),
    ];
    let bytes = encode_record(&row).unwrap();
    let read = decode_record(&bytes).unwrap();
    assert!(same_values(&read[..1], &row[..1]));
    assert!(same_values(&read[1..3], &[Value::Boolean(false), Value::Boolean(true)]));
    assert!(same_values(&read[3..], &row[3..]));
    assert_eq!(encode_record(&[Value::Integer(0), text("a")]).unwrap(), vec![3, 8, 15, b'a']);
}

#[test]
fn broken_records_are_refused() {
    assert!(decode_record(&[]).is_err());
    assert!(decode_record(&[2]).is_err());
    assert!(decode_record(&[2, 10]).is_err());
}

#[test]
fn tables_and_indexes_are_rendered() {
    let facts = RealFacts::new();
    let sql = match render_create_table(&facts, &users()) {
        Ok(sql) => sql,
        Err(_) => panic!("no text"),
    };
    assert!(sql.starts_with("CREATE TABLE users ("), "{sql}");
    assert!(sql.contains("id INTEGER PRIMARY KEY"), "{sql}");
    assert!(sql.contains("name TEXT"), "{sql}");
    assert_eq!(
        render_create_index("users", &name_index()),
        "CREATE UNIQUE INDEX idx_name ON users (name)"
    );
}

#[test]
fn a_written_database_is_read_back() {
    let rows: Vec<(RowId, Vec<Value>)> = (1..=300)
        .map(|i| (RowId(i), vec![Value::Integer(i as i64), text(&format!("name-{i:04}"))]))
        .collect();
    let facts = RealFacts::new();
    let bytes = match write_database(&facts, &database(rows)) {
        Ok(bytes) => bytes,
        Err(Stop::Fail(e)) => panic!("{}", e.message()),
        Err(Stop::Ask(q)) => panic!("{:?}", q.op),
    };
    assert_eq!(&bytes[..16], b"SQLite format 3\0");
    assert_eq!(bytes.len() % 4096, 0);

    let pager = Pager::open(bytes).unwrap();
    assert_eq!(pager.header().page_size, 4096);
    let rows = read_schema_rows(&pager).unwrap();
    assert_eq!(rows.len(), 2);
    assert_eq!(rows[0].entry_type, "table");
    assert_eq!(rows[0].name, "users");
    assert_eq!(rows[1].entry_type, "index");
    assert_eq!(rows[1].name, "idx_name");
    assert_eq!(rows[1].table_name, "users");

    let root = pager.read_page(rows[0].root_page).unwrap();
    let header = BtreePageHeader::decode(&root, false).unwrap();
    assert!(header.cell_count > 0);

    let readings =
        vec![Reading::Table(users()), Reading::Index(name_index(), "users".to_string())];
    let catalog = load_catalog(&pager, readings).unwrap();
    assert_eq!(catalog.table_root_page("users"), Some(rows[0].root_page));
    assert_eq!(catalog.index_root_page("users", "idx_name"), Some(rows[1].root_page));
    assert_eq!(catalog.sqlite_sequence_root_page(), None);
}

#[test]
fn files_that_are_no_databases_are_refused() {
    assert!(Pager::open(vec![0; 50]).is_err());
    let mut bytes = vec![0_u8; 4096];
    bytes[..16].copy_from_slice(b"SQLite format 3\0");
    bytes[16] = 0x10;
    bytes[17] = 0x00;
    bytes.pop();
    assert_eq!(
        failure(Pager::open(bytes)),
        "sqlite file is shorter than declared sqlite page size"
    );
}

#[test]
fn names_of_automatic_indexes_have_a_number() {
    assert_eq!(parse_autoindex_name("sqlite_autoindex_users_2", "users"), Some(2));
    assert_eq!(parse_autoindex_name("sqlite_autoindex_users_x", "users"), None);
    assert_eq!(parse_autoindex_name("idx_users_2", "users"), None);
}

#[test]
fn rows_of_tables_are_read_with_their_integers() {
    let row = vec![Value::Integer(0), Value::Integer(1), text("a")];
    let bytes = encode_record(&row).unwrap();
    let read = decode_table_record(&bytes).unwrap();
    assert!(same_values(&read, &row));
}
