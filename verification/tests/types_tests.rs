use rdbms::types::{corruption, user_error, DbError};

#[test]
fn errors_describe_their_kind_and_message() {
    assert_eq!(user_error("bad sql").describe(), "user error: bad sql");
    assert_eq!(corruption("torn page").describe(), "corruption: torn page");
    assert_eq!(DbError::Retryable("busy".to_string()).describe(), "retryable error: busy");
    assert_eq!(
        DbError::InternalInvariant("lost").describe(),
        "internal invariant violation: lost"
    );
    assert_eq!(DbError::Extension("nope".to_string()).describe(), "extension error: nope");
    let io = DbError::Io(std::io::Error::new(std::io::ErrorKind::Other, "disk"));
    assert_eq!(io.describe(), "io error: disk");
}
