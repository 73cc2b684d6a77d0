use rdbms::android::{android_port_stage, android_smoke_abi_version, android_smoke_banner, smoke_add};

#[test]
fn rust_smoke_reports_stage_and_abi() {
    assert_eq!(android_port_stage(), 10);
    assert_eq!(android_smoke_abi_version(), 1);
    assert!(android_smoke_banner().contains("rdbms-android-stage-10"));
}

#[test]
fn smoke_add_saturates_instead_of_overflowing() {
    assert_eq!(smoke_add(20, 22), 42);
    assert_eq!(smoke_add(i32::MAX, 1), i32::MAX);
    assert_eq!(smoke_add(i32::MIN, -1), i32::MIN);
}
