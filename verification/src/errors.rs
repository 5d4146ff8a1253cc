//! The failures that store operations report to their callers.

use vstd::prelude::*;

verus! {

/// Why an operation on the store did not succeed.
#[derive(Clone, Copy, Debug, PartialEq, Eq, Structural)]
pub enum ApplicationError {
    /// A lookup, update or delete named an id that the store does not hold.
    NotFound,
    /// A facade could not be built because the storage handed to it is not a
    /// usable seed: some record is filed under a key other than its own id.
    InitializationFailure,
}

} // verus!
