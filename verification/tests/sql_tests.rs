use rdbms::binary64::{double_bits_eq, int_to_double_bits};
use rdbms::catalog::ColumnDef;
use rdbms::sql::{decode_row, encode_row, execute, Projection, SqlSession};
use rdbms::sqlparse::{parse_statement, tokenize, Selection, Statement, Token};
use rdbms::tx::{open_transactional_store, TransactionalStore};
use rdbms::types::{ColumnInfo, DbError, DbResult, ExecResult, Value};
use rdbms::vfs::{MemVfs, MemVfsFile};

/// The double that each number token with a `.` stands for.
fn doubles_for(tokens: &[Token]) -> Vec<Option<u64>> {
    tokens
        .iter()
        .map(|token| match token {
            Token::Number(text) if text.contains('.') => text.parse::<f64>().ok().map(f64::to_bits),
            _ => None,
        })
        .collect()
}

fn parse_sql(sql: &str) -> DbResult<Statement> {
    let tokens = tokenize(sql)?;
    parse_statement(&tokens, &doubles_for(&tokens))
}

fn run(store: &mut TransactionalStore<MemVfsFile>, sql: &str) -> DbResult<ExecResult> {
    let tokens = tokenize(sql)?;
    execute(store, &tokens, &doubles_for(&tokens), &[])
}

fn new_store(name: &str) -> DbResult<TransactionalStore<MemVfsFile>> {
    open_transactional_store(&MemVfs, &format!("{name}.dbonrs"), &format!("{name}.wal"))
}

#[test]
fn parses_create_insert_and_select() -> DbResult<()> {
    let create = parse_sql("CREATE TABLE users (id INT, name TEXT);")?;
    assert_eq!(
        create,
        Statement::CreateTable {
            name: "users".to_string(),
            columns: vec![ColumnDef::new("id", "INT"), ColumnDef::new("name", "TEXT")],
        }
    );

    let insert = parse_sql("insert into users values (1, 'Ada');")?;
    assert_eq!(
        insert,
        Statement::Insert {
            table: "users".to_string(),
            values: vec![Value::Integer(1), Value::Text("Ada".to_string())],
        }
    );

    let select = parse_sql("select name from users where id = 1")?;
    assert_eq!(
        select,
        Statement::Select {
            projection: Projection::Columns(vec!["name".to_string()]),
            table: "users".to_string(),
            selection: Some(Selection {
                column: "id".to_string(),
                value: Value::Integer(1),
            }),
        }
    );

    let create_index = parse_sql("CREATE INDEX users_id_idx ON users(id)")?;
    assert_eq!(
        create_index,
        Statement::CreateIndex {
            name: "users_id_idx".to_string(),
            table: "users".to_string(),
            column: "id".to_string(),
        }
    );
    Ok(())
}

#[test]
fn encodes_and_decodes_sql_rows() -> DbResult<()> {
    let values = vec![
        Value::Integer(42),
        Value::Text("hello".to_string()),
        Value::Null,
        Value::Double(1.5f64.to_bits()),
    ];
    let bytes = encode_row(&values)?;
    assert_eq!(decode_row(&bytes)?, values);
    Ok(())
}

#[test]
fn executes_create_insert_select_and_where() -> DbResult<()> {
    let mut store = new_store("select_where")?;

    run(&mut store, "CREATE TABLE users (id INT, name TEXT, score DOUBLE)")?;
    run(&mut store, "INSERT INTO users VALUES (1, 'Ada', 9.5)")?;
    run(&mut store, "INSERT INTO users VALUES (2, 'Linus', 7)")?;
    run(&mut store, "CREATE INDEX users_id_idx ON users(id)")?;
    run(&mut store, "INSERT INTO users VALUES (3, 'Grace', 8.25)")?;

    let result = run(&mut store, "SELECT name, score FROM users WHERE id = 2")?;
    assert_eq!(
        result,
        ExecResult::Query {
            columns: vec![
                ColumnInfo {
                    name: "name".to_string(),
                    sql_type: "TEXT".to_string(),
                },
                ColumnInfo {
                    name: "score".to_string(),
                    sql_type: "DOUBLE".to_string(),
                },
            ],
            rows: vec![vec![Value::Text("Linus".to_string()), Value::Double(7.0f64.to_bits())]],
        }
    );

    let result = run(&mut store, "SELECT name FROM users WHERE id = 3")?;
    assert_eq!(
        result,
        ExecResult::Query {
            columns: vec![ColumnInfo {
                name: "name".to_string(),
                sql_type: "TEXT".to_string(),
            }],
            rows: vec![vec![Value::Text("Grace".to_string())]],
        }
    );
    Ok(())
}

#[test]
fn rejects_insert_with_wrong_value_count() -> DbResult<()> {
    let mut store = new_store("wrong_count")?;
    run(&mut store, "CREATE TABLE users (id INT, name TEXT)")?;
    let error = run(&mut store, "INSERT INTO users VALUES (1)")
        .err()
        .ok_or(DbError::InternalInvariant("expected INSERT error"))?;
    assert!(matches!(error, DbError::User(_)));
    Ok(())
}

#[test]
fn tokenizer_reads_quotes_numbers_and_refuses_stray_characters() -> DbResult<()> {
    let tokens = tokenize("SELECT 'it''s', -12, 3.5 ;")?;
    assert_eq!(
        tokens,
        vec![
            Token::Ident("SELECT".to_string()),
            Token::Str("it's".to_string()),
            Token::Comma,
            Token::Number("-12".to_string()),
            Token::Comma,
            Token::Number("3.5".to_string()),
            Token::Semicolon,
            Token::Eof,
        ]
    );
    assert!(matches!(tokenize("SELECT #"), Err(DbError::User(_))));
    assert!(matches!(tokenize("SELECT 'open"), Err(DbError::User(_))));
    assert!(matches!(tokenize("SELECT - 1"), Err(DbError::User(_))));
    Ok(())
}

#[test]
fn parser_refuses_malformed_statements() {
    for sql in [
        "DROP TABLE users",
        "CREATE VIEW v",
        "CREATE TABLE t (id BLOB)",
        "SELECT FROM users",
        "INSERT INTO users VALUES (1",
        "SELECT * FROM users extra",
        "INSERT INTO users VALUES (99999999999999999999)",
    ] {
        assert!(matches!(parse_sql(sql), Err(DbError::User(_))), "{sql}");
    }
}

#[test]
fn parser_reads_star_null_and_extreme_integers() -> DbResult<()> {
    assert_eq!(
        parse_sql("select * from T;;")?,
        Statement::Select { projection: Projection::All, table: "t".to_string(), selection: None }
    );
    assert_eq!(
        parse_sql("INSERT INTO t VALUES (null, -9223372036854775808, 9223372036854775807)")?,
        Statement::Insert {
            table: "t".to_string(),
            values: vec![Value::Null, Value::Integer(i64::MIN), Value::Integer(i64::MAX)],
        }
    );
    assert_eq!(
        parse_sql("INSERT INTO t VALUES ()")?,
        Statement::Insert { table: "t".to_string(), values: vec![] }
    );
    let tokens = tokenize("INSERT INTO t VALUES (1.5)")?;
    assert!(matches!(parse_statement(&tokens, &[]), Err(DbError::User(_))));
    Ok(())
}

#[test]
fn integers_convert_to_the_nearest_double() {
    for v in [
        0i64, 1, -1, 7, 42, -42, 1 << 52, (1 << 53) + 1, (1 << 53) + 3, -(1 << 53) - 1,
        i64::MAX, i64::MIN, i64::MAX - 511, i64::MAX - 512, 123_456_789_012_345_678,
    ] {
        assert_eq!(int_to_double_bits(v), (v as f64).to_bits(), "{v}");
    }
}

#[test]
fn double_equality_follows_ieee() {
    let nan = f64::NAN.to_bits();
    assert!(!double_bits_eq(nan, nan));
    assert!(double_bits_eq(0.0f64.to_bits(), (-0.0f64).to_bits()));
    assert!(double_bits_eq(1.5f64.to_bits(), 1.5f64.to_bits()));
    assert!(!double_bits_eq(1.5f64.to_bits(), 2.5f64.to_bits()));
}

#[test]
fn where_compares_integers_with_doubles_and_unknown_names_fail() -> DbResult<()> {
    let mut store = new_store("mixed")?;
    run(&mut store, "CREATE TABLE m (k INT, d DOUBLE)")?;
    run(&mut store, "INSERT INTO m VALUES (1, 2)")?;
    run(&mut store, "INSERT INTO m VALUES (2, 2.5)")?;
    let result = run(&mut store, "SELECT k FROM m WHERE d = 2")?;
    assert_eq!(
        result,
        ExecResult::Query {
            columns: vec![ColumnInfo { name: "k".to_string(), sql_type: "INT".to_string() }],
            rows: vec![vec![Value::Integer(1)]],
        }
    );
    assert!(matches!(run(&mut store, "SELECT * FROM nowhere"), Err(DbError::User(_))));
    assert!(matches!(run(&mut store, "SELECT nope FROM m"), Err(DbError::User(_))));
    assert!(matches!(run(&mut store, "SELECT k FROM m WHERE nope = 1"), Err(DbError::User(_))));
    assert!(matches!(run(&mut store, "INSERT INTO m VALUES ('x', 1)"), Err(DbError::User(_))));
    assert!(matches!(run(&mut store, "CREATE INDEX m_d ON m(d)"), Err(DbError::User(_))));
    let tokens = tokenize("SELECT * FROM m")?;
    assert!(matches!(execute(&mut store, &tokens, &[], &[Value::Null]), Err(DbError::User(_))));
    Ok(())
}

#[test]
fn session_runs_statements_on_its_store() -> DbResult<()> {
    let mut session = SqlSession::new(new_store("session")?);
    let tokens = tokenize("CREATE TABLE s (v TEXT)")?;
    assert_eq!(
        session.execute(&tokens, &doubles_for(&tokens), &[])?,
        ExecResult::StatementComplete { rows_affected: 0 }
    );
    let tokens = tokenize("INSERT INTO s VALUES ('x')")?;
    assert_eq!(
        session.execute(&tokens, &doubles_for(&tokens), &[])?,
        ExecResult::StatementComplete { rows_affected: 1 }
    );
    assert!(session.store().catalog().relation_by_name("s").is_some());
    let store = session.into_store();
    assert!(store.catalog().relation_by_name("s").is_some());
    Ok(())
}

#[test]
fn load_extension_records_stdlib_and_calls_its_functions() -> DbResult<()> {
    let mut store = new_store("load_extension")?;
    assert!(matches!(run(&mut store, "SELECT upper('ada')"), Err(DbError::User(_))));
    assert!(matches!(run(&mut store, "LOAD EXTENSION nothing"), Err(DbError::Extension(_))));
    assert_eq!(
        run(&mut store, "LOAD EXTENSION stdlib;")?,
        ExecResult::StatementComplete { rows_affected: 0 }
    );
    assert!(store.catalog().extension_by_name("stdlib").is_some());
    let result = run(&mut store, "SELECT upper('ada')")?;
    match result {
        ExecResult::Query { columns, rows } => {
            assert_eq!(columns.len(), 1);
            assert_eq!(columns[0].name, "upper");
            assert_eq!(columns[0].sql_type, "TEXT");
            assert_eq!(rows, vec![vec![Value::Text("ADA".to_string())]]);
        }
        other => panic!("unexpected result {other:?}"),
    }
    let result = run(&mut store, "select LENGTH('abc')")?;
    match result {
        ExecResult::Query { columns, rows } => {
            assert_eq!(columns[0].name, "length");
            assert_eq!(columns[0].sql_type, "INT");
            assert_eq!(rows, vec![vec![Value::Integer(3)]]);
        }
        other => panic!("unexpected result {other:?}"),
    }
    assert!(matches!(run(&mut store, "SELECT lower('a', 'b')"), Err(DbError::User(_))));
    assert!(matches!(run(&mut store, "SELECT nosuch(1)"), Err(DbError::User(_))));
    Ok(())
}
