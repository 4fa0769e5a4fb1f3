//! The library's error type.

use vstd::prelude::*;

verus! {

/// Why a fallible call refused its input.
#[derive(Debug, Clone, Copy, PartialEq, Eq)]
pub enum Error {
    /// A requested dimension is over the limit this library holds it to.
    DimensionTooLarge {
        /// What was being sized.
        what: &'static str,
        /// The size asked for (`usize::MAX` when the request overflowed).
        requested: usize,
        /// The largest size allowed.
        limit: usize,
    },
    /// The allocator could not provide the memory asked for.
    AllocationFailed {
        /// What was being allocated.
        what: &'static str,
    },
    /// A collection that needs at least one element (or two) had too few.
    EmptyDimension {
        /// What was empty.
        what: &'static str,
    },
    /// A parameter is outside its meaningful range.
    InvalidParameter {
        /// What is wrong with it.
        detail: &'static str,
    },
    /// Two settings that cannot be combined.
    IncompatibleScale {
        /// What conflicts with what.
        detail: &'static str,
    },
}

} // verus!
