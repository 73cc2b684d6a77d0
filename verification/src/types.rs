//! Shared identifiers, errors and value types.

use vstd::prelude::*;
use vstd::string::StringExecFns;

verus! {

/// Physical page identifier.
#[derive(Clone, Copy, Debug, PartialEq, Eq, Structural, PartialOrd, Ord, Hash)]
pub struct PageId(pub u64);

/// Relation identifier from the system catalog.
#[derive(Clone, Copy, Debug, PartialEq, Eq, Structural, PartialOrd, Ord, Hash)]
pub struct RelationId(pub u64);

/// Transaction identifier.
#[derive(Clone, Copy, Debug, PartialEq, Eq, Structural, PartialOrd, Ord, Hash)]
pub struct TxId(pub u64);

/// Log sequence number.
#[derive(Clone, Copy, Debug, PartialEq, Eq, Structural, PartialOrd, Ord, Hash)]
pub struct Lsn(pub u64);

/// Slot inside a slotted page.
#[derive(Clone, Copy, Debug, PartialEq, Eq, Structural, PartialOrd, Ord, Hash)]
pub struct SlotId(pub u16);

/// Physical row address for heap tables.
#[derive(Clone, Copy, Debug, PartialEq, Eq, Structural, PartialOrd, Ord, Hash)]
pub struct RowId {
    /// Page containing the row payload.
    pub page_id: PageId,
    /// Slot inside the page.
    pub slot_id: SlotId,
}

/// `std::io::Error`, carried opaque inside `DbError::Io`.
#[verifier::external_type_specification]
#[verifier::external_body]
pub struct ExIoError(std::io::Error);

/// Typed error boundary for the storage engine.
#[derive(Debug)]
pub enum DbError {
    /// User-visible mistake: bad SQL, missing object, constraint violation.
    User(String),
    /// Retryable state: busy writer, lock timeout, conflict.
    Retryable(String),
    /// I/O error converted at a subsystem boundary.
    Io(std::io::Error),
    /// Physical corruption or invalid on-disk bytes.
    Corruption(String),
    /// Internal invariant violation.
    InternalInvariant(&'static str),
    /// Extension boundary failure.
    Extension(String),
}

/// Project-wide result type.
pub type DbResult<T> = Result<T, DbError>;

/// `<std::io::Error as Display>::fmt`, through `to_string`: the error's text.
/// Nothing is claimed of the text.
#[verifier::external_body]
fn io_error_text(error: &std::io::Error) -> String {
    error.to_string()
}

/// The prefix that `describe` puts before an error's message.
pub open spec fn error_prefix(e: DbError) -> Seq<char> {
    match e {
        DbError::User(_) => "user error: "@,
        DbError::Retryable(_) => "retryable error: "@,
        DbError::Io(_) => "io error: "@,
        DbError::Corruption(_) => "corruption: "@,
        DbError::InternalInvariant(_) => "internal invariant violation: "@,
        DbError::Extension(_) => "extension error: "@,
    }
}

impl DbError {
    /// The error as text: a prefix naming the kind, then the message.
    pub fn describe(&self) -> (r: String)
        ensures
            r@.len() >= error_prefix(*self).len(),
            r@.subrange(0, error_prefix(*self).len() as int) == error_prefix(*self),
            match self {
                DbError::User(m) => r@ == error_prefix(*self) + m@,
                DbError::Retryable(m) => r@ == error_prefix(*self) + m@,
                DbError::Corruption(m) => r@ == error_prefix(*self) + m@,
                DbError::InternalInvariant(m) => r@ == error_prefix(*self) + m@,
                DbError::Extension(m) => r@ == error_prefix(*self) + m@,
                DbError::Io(_) => true,
            },
    {
        let mut out = match self {
            DbError::User(_) => String::from_str("user error: "),
            DbError::Retryable(_) => String::from_str("retryable error: "),
            DbError::Io(_) => String::from_str("io error: "),
            DbError::Corruption(_) => String::from_str("corruption: "),
            DbError::InternalInvariant(_) => String::from_str("internal invariant violation: "),
            DbError::Extension(_) => String::from_str("extension error: "),
        };
        let ghost prefix = out@;
        match self {
            DbError::User(m) => out.append(m.as_str()),
            DbError::Retryable(m) => out.append(m.as_str()),
            DbError::Io(e) => {
                let text = io_error_text(e);
                out.append(text.as_str());
            },
            DbError::Corruption(m) => out.append(m.as_str()),
            DbError::InternalInvariant(m) => out.append(m),
            DbError::Extension(m) => out.append(m.as_str()),
        }
        assert(out@.subrange(0, prefix.len() as int) =~= prefix);
        out
    }
}

/// Build a user error from a message.
pub fn user_error(message: &str) -> (e: DbError)
    ensures
        e matches DbError::User(m) && m@ == message@,
{
    DbError::User(message.to_string())
}

/// Build a corruption error from a message.
pub fn corruption(message: &str) -> (e: DbError)
    ensures
        e matches DbError::Corruption(m) && m@ == message@,
{
    DbError::Corruption(message.to_string())
}

/// SQL value. A double is carried as its IEEE-754 binary64 bit pattern.
#[derive(Clone, Debug, PartialEq)]
pub enum Value {
    /// SQL NULL.
    Null,
    /// UTF-8 text.
    Text(String),
    /// Signed integer.
    Integer(i64),
    /// IEEE-754 double, as its bit pattern.
    Double(u64),
}

/// Public column description.
#[derive(Clone, Debug, PartialEq, Eq)]
pub struct ColumnInfo {
    /// Column name.
    pub name: String,
    /// Type name as exposed to the SQL-facing layer.
    pub sql_type: String,
}

/// Result of SQL-facing execution.
#[derive(Clone, Debug, PartialEq)]
pub enum ExecResult {
    /// Statement completed without returning rows.
    StatementComplete { rows_affected: u64 },
    /// Query produced a materialized result.
    Query { columns: Vec<ColumnInfo>, rows: Vec<Vec<Value>> },
    /// Explain output for future planner work.
    Explain { plan: String },
}

} // verus!
