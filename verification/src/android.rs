//! Plain-call side of the Android smoke boundary.

use vstd::prelude::*;

verus! {

/// Platform milestone exported by the Android smoke layer.
pub const ANDROID_PORT_STAGE: i32 = 10;

/// ABI version for the Android smoke boundary.
pub const ANDROID_SMOKE_ABI_VERSION: i32 = 1;

/// Return the current platform milestone.
pub fn android_port_stage() -> (r: i32)
    ensures
        r == ANDROID_PORT_STAGE,
{
    ANDROID_PORT_STAGE
}

/// Return the Android smoke ABI version.
pub fn android_smoke_abi_version() -> (r: i32)
    ensures
        r == ANDROID_SMOKE_ABI_VERSION,
{
    ANDROID_SMOKE_ABI_VERSION
}

/// A banner naming the milestone, the result type and the statement type that
/// the smoke layer links against.
pub fn android_smoke_banner() -> (r: String)
    ensures
        r@ == "rdbms-android-stage-10:rdbms::types::ExecResult:rdbms::sqlparse::Statement"@,
{
    "rdbms-android-stage-10:rdbms::types::ExecResult:rdbms::sqlparse::Statement".to_string()
}

/// Saturating sum used by the native `add` smoke symbol.
pub fn smoke_add(left: i32, right: i32) -> (r: i32)
    ensures
        r == (if left + right > i32::MAX { i32::MAX as int } else if left + right < i32::MIN { i32::MIN as int } else { left + right }),
{
    let sum = left as i64 + right as i64;
    if sum > i32::MAX as i64 {
        i32::MAX
    } else if sum < i32::MIN as i64 {
        i32::MIN
    } else {
        sum as i32
    }
}

} // verus!
