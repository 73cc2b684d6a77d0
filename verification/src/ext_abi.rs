//! Extension ABI: the version this build speaks and the status codes of the
//! native boundary.

use vstd::prelude::*;

verus! {

/// ABI version supported by this build.
pub const RDBMS_EXT_ABI_VERSION: u32 = 1;

/// Status code returned through the native extension boundary.
#[derive(Clone, Copy, Debug, PartialEq, Eq, Structural)]
pub enum RdbmsStatus {
    /// Operation succeeded.
    Success,
    /// Operation failed.
    Error,
}

impl RdbmsStatus {
    /// Numeric code of the status on the native boundary.
    pub fn code(self) -> (c: i32)
        ensures
            c == (if self == RdbmsStatus::Success { 0i32 } else { 1i32 }),
    {
        match self {
            RdbmsStatus::Success => 0,
            RdbmsStatus::Error => 1,
        }
    }
}

/// Opaque host handle for native extensions.
pub struct RdbmsHost {
    _private: (),
}

/// An extension built for ABI version `version` can be loaded by this build.
pub fn abi_version_supported(version: u32) -> (r: bool)
    ensures
        r == (version == RDBMS_EXT_ABI_VERSION),
{
    version == RDBMS_EXT_ABI_VERSION
}

} // verus!
