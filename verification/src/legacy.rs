//! The first in-memory database model and its query dispatcher, kept for the
//! file-format experiments that predate the storage engine.
//!
//! The query classifier knows `SELECT`, `SHOW`, `USE`, `DROP`, `DELETE` and
//! `INSERT`; anything else, `CREATE` queries included, is answered as an
//! unrecognised query. `DELETE` with the wrong number of parts is answered as
//! malformed; the other known kinds are unfinished and are excluded by the
//! preconditions of the dispatcher. `create_distribute` answers `CREATE`
//! arguments when called directly.

use vstd::prelude::*;

verus! {

/// Column data type.
#[derive(Clone, Copy, Debug, PartialEq, Eq, Structural)]
pub enum DataType {
    Text,
    Integer,
    Double,
}

/// Cell value. A double is carried as its IEEE-754 bit pattern.
#[derive(Clone, Debug, PartialEq)]
pub enum Value {
    Text(String),
    Integer(i64),
    Double(u64),
}

/// Column description.
#[derive(Clone, Debug)]
pub struct Column {
    pub name: String,
    pub data_type: DataType,
}

/// One row.
#[derive(Clone, Debug)]
pub struct Row {
    pub values: Vec<Value>,
}

/// A table and its rows.
#[derive(Clone, Debug)]
pub struct Table {
    pub name: String,
    pub columns: Vec<Column>,
    pub rows: Vec<Row>,
}

impl Table {
    /// A table with the given columns and no rows.
    pub fn new(name: String, fields: Vec<Column>) -> (t: Self)
        ensures
            t.name == name,
            t.columns == fields,
            t.rows@ == Seq::<Row>::empty(),
    {
        Table { name, columns: fields, rows: Vec::new() }
    }
}

/// The whole in-memory database.
#[derive(Clone, Debug)]
pub struct Database {
    pub tables: Vec<Table>,
}

impl Database {
    /// An empty database.
    pub fn new() -> (d: Self)
        ensures
            d.tables@ == Seq::<Table>::empty(),
    {
        Database { tables: Vec::new() }
    }

    /// Append a table with the given columns.
    pub fn new_table(&mut self, name: String, fields: Vec<Column>)
        ensures
            final(self).tables@.len() == old(self).tables@.len() + 1,
            final(self).tables@.subrange(0, old(self).tables@.len() as int) == old(self).tables@,
            final(self).tables@.last().name == name,
            final(self).tables@.last().columns == fields,
            final(self).tables@.last().rows@.len() == 0,
    {
        let table = Table::new(name, fields);
        self.tables.push(table);
        assert(self.tables@.subrange(0, old(self).tables@.len() as int) =~= old(self).tables@);
    }

    /// Run a query; the answer of the dispatcher is not reported back.
    pub fn sql_execute(&mut self, query: &str) -> (r: Result<(), String>)
        requires
            query_handled(query@),
        ensures
            r is Ok,
            final(self).tables@ == old(self).tables@,
    {
        let _answer = sql_distribute(self, query);
        Ok(())
    }
}

/// Error answer of the dispatcher.
#[derive(Clone, Debug)]
pub struct RDBMS_E {
    pub message: String,
}

/// Answer of the dispatcher.
pub enum SqlResult {
    DB(Database),
    Rows(Vec<Row>),
    Columns(Vec<Column>),
    Table(Table),
    Error(RDBMS_E),
}

/// Query kind recognised from the leading keyword.
#[derive(Clone, Copy, Debug, PartialEq, Eq, Structural)]
pub enum QueryType {
    SELECT,
    SHOW,
    CREATE,
    USE,
    DROP,
    DELETE,
    INSERT,
    ERROR,
}

pub open spec fn has_prefix(s: Seq<char>, p: Seq<char>) -> bool {
    p.len() <= s.len() && s.subrange(0, p.len() as int) == p
}

/// The kind of a query: the first of the keywords it starts with, in the
/// order SELECT, SHOW, USE, DROP, DELETE, INSERT.
pub open spec fn query_kind(q: Seq<char>) -> QueryType {
    if has_prefix(q, "SELECT"@) {
        QueryType::SELECT
    } else if has_prefix(q, "SHOW"@) {
        QueryType::SHOW
    } else if has_prefix(q, "USE"@) {
        QueryType::USE
    } else if has_prefix(q, "DROP"@) {
        QueryType::DROP
    } else if has_prefix(q, "DELETE"@) {
        QueryType::DELETE
    } else if has_prefix(q, "INSERT"@) {
        QueryType::INSERT
    } else {
        QueryType::ERROR
    }
}

/// Number of spaces in `s`.
pub open spec fn space_count(s: Seq<char>) -> nat
    decreases s.len(),
{
    if s.len() == 0 {
        0
    } else {
        space_count(s.drop_last()) + if s.last() == ' ' { 1nat } else { 0nat }
    }
}

pub proof fn lemma_space_count_bound(s: Seq<char>)
    ensures
        space_count(s) <= s.len(),
    decreases s.len(),
{
    if s.len() > 0 {
        lemma_space_count_bound(s.drop_last());
    }
}

/// Number of pieces when `s` is split at each space and an empty last piece
/// is dropped.
pub open spec fn part_count(s: Seq<char>) -> nat {
    if s.len() == 0 || s.last() == ' ' {
        space_count(s)
    } else {
        space_count(s) + 1
    }
}

/// The queries the dispatcher answers without reaching an unfinished branch.
pub open spec fn query_handled(q: Seq<char>) -> bool {
    query_kind(q) == QueryType::ERROR || (query_kind(q) == QueryType::DELETE && part_count(q) != 2)
}

fn str_has_prefix(s: &str, p: &str) -> (r: bool)
    ensures
        r == has_prefix(s@, p@),
{
    let n = s.unicode_len();
    let m = p.unicode_len();
    if m > n {
        return false;
    }
    let mut i: usize = 0;
    while i < m
        invariant
            i <= m,
            m <= n,
            n == s@.len(),
            m == p@.len(),
            forall|j: int| 0 <= j < i ==> s@[j] == p@[j],
        decreases m - i,
    {
        if s.get_char(i) != p.get_char(i) {
            assert(s@.subrange(0, m as int)[i as int] != p@[i as int]);
            return false;
        }
        i = i + 1;
    }
    assert(s@.subrange(0, m as int) =~= p@);
    true
}

/// Classify a query by its leading keyword.
pub fn get_query_type(query: &str) -> (r: QueryType)
    ensures
        r == query_kind(query@),
{
    if str_has_prefix(query, "SELECT") {
        QueryType::SELECT
    } else if str_has_prefix(query, "SHOW") {
        QueryType::SHOW
    } else if str_has_prefix(query, "USE") {
        QueryType::USE
    } else if str_has_prefix(query, "DROP") {
        QueryType::DROP
    } else if str_has_prefix(query, "DELETE") {
        QueryType::DELETE
    } else if str_has_prefix(query, "INSERT") {
        QueryType::INSERT
    } else {
        QueryType::ERROR
    }
}

fn count_parts(s: &str) -> (r: usize)
    ensures
        r == part_count(s@),
{
    let n = s.unicode_len();
    let mut spaces: usize = 0;
    let mut i: usize = 0;
    while i < n
        invariant
            i <= n,
            n == s@.len(),
            spaces == space_count(s@.subrange(0, i as int)),
            spaces <= i,
        decreases n - i,
    {
        assert(s@.subrange(0, i + 1).drop_last() =~= s@.subrange(0, i as int));
        if s.get_char(i) == ' ' {
            spaces = spaces + 1;
        }
        i = i + 1;
    }
    assert(s@.subrange(0, n as int) =~= s@);
    if n == 0 || s.get_char(n - 1) == ' ' {
        spaces
    } else {
        proof {
            lemma_space_count_bound(s@.drop_last());
        }
        spaces + 1
    }
}

fn error_answer(message: &str) -> (r: SqlResult)
    ensures
        r matches SqlResult::Error(e) && e.message@ == message@,
{
    SqlResult::Error(RDBMS_E { message: message.to_string() })
}

/// Dispatch a query by its kind.
pub fn sql_distribute(db: &mut Database, query: &str) -> (r: SqlResult)
    requires
        query_handled(query@),
    ensures
        query_kind(query@) == QueryType::ERROR ==> (r matches SqlResult::Error(e) && e.message@ == "Ошибка распознования запроса"@),
        query_kind(query@) == QueryType::DELETE ==> (r matches SqlResult::Error(e) && e.message@ == "Некорректный DELETE запрос"@),
        final(db).tables@ == old(db).tables@,
{
    match get_query_type(query) {
        QueryType::DELETE => {
            let parts = count_parts(query);
            assert(parts != 2);
            error_answer("Некорректный DELETE запрос")
        },
        _ => error_answer("Ошибка распознования запроса"),
    }
}

/// Create an in-memory database.
pub fn create_database(name: &str) -> (r: SqlResult)
    ensures
        r matches SqlResult::DB(d) && d.tables@.len() == 0,
{
    SqlResult::DB(Database::new())
}

/// Add an empty table named `name` to a database.
pub fn create_table(name: String, current_db: Database) -> (r: SqlResult)
    ensures
        r matches SqlResult::DB(d) && d.tables@.len() == current_db.tables@.len() + 1
            && d.tables@.last().name == name && d.tables@.last().columns@.len() == 0,
{
    let mut db = current_db;
    let fields: Vec<Column> = Vec::new();
    db.new_table(name, fields);
    SqlResult::DB(db)
}

/// Dispatch `CREATE <arg> <name>`: `DBRAM` and `DB` create a database, `TABLE`
/// is refused (outside a selected database), anything else is an error.
pub fn create_distribute(arg: &str, name: &str, db: Option<Database>) -> (r: SqlResult)
    ensures
        arg@ == "DBRAM"@ || arg@ == "DB"@ ==> (r matches SqlResult::DB(d) && d.tables@.len() == 0),
        arg@ == "TABLE"@ && db is Some ==> (r matches SqlResult::Error(e) && e.message@ == "создание таблицы вне выбранной БД"@),
        arg@ == "TABLE"@ && db is None ==> (r matches SqlResult::Error(e) && e.message@ == "создание таблицы без БД"@),
        !(arg@ == "DBRAM"@ || arg@ == "DB"@ || arg@ == "TABLE"@) ==> (r matches SqlResult::Error(e)
            && e.message@ == "некорректный аргумент запроса"@),
{
    proof {
        reveal_strlit("DBRAM");
        reveal_strlit("TABLE");
        reveal_strlit("DB");
        assert("DB"@.len() == 2 && "TABLE"@.len() == 5 && "DBRAM"@.len() == 5);
        assert("DBRAM"@[0] == 'D' && "TABLE"@[0] == 'T');
        assert("DB"@ != "TABLE"@);
        assert("DBRAM"@ != "TABLE"@);
    }
    if crate::codec::str_eq(arg, "DBRAM") {
        create_database(name)
    } else if crate::codec::str_eq(arg, "TABLE") {
        match db {
            Some(_d) => error_answer("создание таблицы вне выбранной БД"),
            None => error_answer("создание таблицы без БД"),
        }
    } else if crate::codec::str_eq(arg, "DB") {
        create_database(name)
    } else {
        error_answer("некорректный аргумент запроса")
    }
}

} // verus!
