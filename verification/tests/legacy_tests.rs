use rdbms::legacy::{create_distribute, get_query_type, sql_distribute, Database, QueryType, SqlResult};

#[test]
fn create_queries_are_answered_as_unrecognised() {
    let mut db = Database::new();
    assert!(matches!(get_query_type("CREATE DB shop"), QueryType::ERROR));
    match sql_distribute(&mut db, "CREATE DB shop") {
        SqlResult::Error(e) => assert_eq!(e.message, "Ошибка распознования запроса"),
        _ => panic!("expected an error answer"),
    }
    assert!(db.sql_execute("CREATE TABLE t").is_ok());
    match sql_distribute(&mut db, "DELETE a b") {
        SqlResult::Error(e) => assert_eq!(e.message, "Некорректный DELETE запрос"),
        _ => panic!("expected an error answer"),
    }
}

#[test]
fn create_arguments_are_dispatched_directly() {
    assert!(matches!(create_distribute("DBRAM", "x", None), SqlResult::DB(_)));
    assert!(matches!(create_distribute("DB", "x", None), SqlResult::DB(_)));
    match create_distribute("TABLE", "t", None) {
        SqlResult::Error(e) => assert_eq!(e.message, "создание таблицы без БД"),
        _ => panic!("expected an error answer"),
    }
}
