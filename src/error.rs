use vstd::prelude::*;

verus! {

/// Why an artifact could not be read, merged or rewritten.
#[derive(Clone, Copy, Debug, PartialEq, Eq, Structural)]
pub enum TestAnalyticsError {
    /// An offset into the string table names no string.
    InvalidStringReference,
    /// An offset into the flag-set table names no flag set.
    InvalidFlagSetReference,
    /// The bytes are not an artifact of this version, or a size does not fit.
    InvalidFormat,
}

} // verus!
