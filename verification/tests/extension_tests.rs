use rdbms::ext_abi::RDBMS_EXT_ABI_VERSION;
use rdbms::extension::{builtin_extension_names, normalize_name, ExtensionRegistry};
use rdbms::types::{DbError, DbResult, Value};

#[test]
fn loads_stdlib_and_calls_scalar_functions() -> DbResult<()> {
    let mut registry = ExtensionRegistry::new();
    let descriptor = registry.load_static("stdlib")?;

    assert_eq!(descriptor.abi_version, RDBMS_EXT_ABI_VERSION);
    assert!(registry.is_loaded("STDLIB"));
    assert_eq!(
        registry.call_scalar("upper", &[Value::Text("ada".to_string())])?,
        Value::Text("ADA".to_string())
    );
    assert_eq!(
        registry.call_scalar("length", &[Value::Text("abc".to_string())])?,
        Value::Integer(3)
    );
    Ok(())
}

#[test]
fn rejects_unknown_function() -> DbResult<()> {
    let registry = ExtensionRegistry::new();
    let error = registry
        .call_scalar("missing", &[])
        .err()
        .ok_or(DbError::InternalInvariant("missing function was accepted"))?;
    assert!(matches!(error, DbError::User(_)));
    Ok(())
}

#[test]
fn names_are_matched_without_ascii_case() -> DbResult<()> {
    assert_eq!(normalize_name("StdLib"), "stdlib".to_string());
    assert!(builtin_extension_names().contains(&"stdlib"));
    let mut registry = ExtensionRegistry::new();
    registry.load_static("STDLIB")?;
    assert_eq!(
        registry.call_scalar("LOWER", &[Value::Text("MiXeD".to_string())])?,
        Value::Text("mixed".to_string())
    );
    Ok(())
}

#[test]
fn unknown_static_extension_is_an_extension_error() {
    let mut registry = ExtensionRegistry::new();
    let error = registry.load_static("no_such_extension").err();
    assert!(matches!(error, Some(DbError::Extension(_))));
    assert!(!registry.is_loaded("no_such_extension"));
}

#[test]
fn abs_clears_the_sign_of_a_double_and_wrong_arity_is_refused() -> DbResult<()> {
    let mut registry = ExtensionRegistry::new();
    registry.load_static("stdlib")?;
    let minus = (-2.5f64).to_bits();
    assert_eq!(
        registry.call_scalar("abs", &[Value::Double(minus)])?,
        Value::Double(2.5f64.to_bits())
    );
    assert_eq!(registry.call_scalar("abs", &[Value::Integer(-4)])?, Value::Integer(4));
    assert!(registry.call_scalar("upper", &[]).is_err());
    Ok(())
}

#[test]
fn repeated_and_refused_loads_keep_the_functions() -> DbResult<()> {
    let mut registry = ExtensionRegistry::new();
    registry.load_static("stdlib")?;
    registry.load_static("STDLIB")?;
    assert!(registry.load_static("nope").is_err());
    assert_eq!(
        registry.call_scalar("upper", &[Value::Text("ada".to_string())])?,
        Value::Text("ADA".to_string())
    );
    assert_eq!(registry.call_scalar("length", &[Value::Text("abc".to_string())])?, Value::Integer(3));
    assert!(matches!(registry.call_scalar("upper", &[]), Err(DbError::User(_))));
    Ok(())
}
