//! Errors of the ring core.

use vstd::prelude::*;

verus! {

/// Every fallible operation of the core reports one of these kinds.
#[derive(Clone, Copy, PartialEq, Eq, Structural, Debug)]
pub enum Error {
    /// Construction-time parameters were invalid: a degree that is not a
    /// power of two, a modulus that is not an odd prime in range, or one
    /// that does not admit the required transform.
    ParameterError,
    /// An operation received a polynomial built under a different context
    /// than the one it was configured for.
    ContextMismatch,
}

} // verus!
