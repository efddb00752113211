//! Failure kinds of the sweep engine.

use vstd::prelude::*;

verus! {

/// Every way the engine can fail: a malformed sweep string, arithmetic or
/// comparison between a relative and an absolute quantity, a discrete-choice
/// selector outside its known set, a configuration that violates a
/// correctness precondition, and a value that does not fit the machine range.
#[derive(Clone, Copy, Debug, PartialEq, Eq, Structural)]
pub enum Error {
    /// Malformed sweep string: bad range, list or numeral grammar.
    SpecFormat,
    /// Arithmetic or comparison between a relative and an absolute quantity.
    Mismatch,
    /// Quorum-algorithm or attack-strategy selector outside its known set.
    UnknownFlag,
    /// A resolved configuration fails a correctness precondition.
    InvariantViolation,
    /// A computed quantity does not fit the machine integer range.
    Overflow,
}

impl Error {
    /// A short description of the failure, for reporting at the edge.
    pub fn describe(&self) -> (r: &'static str)
        ensures
            r@ == match *self {
                Error::SpecFormat => "malformed sweep specification"@,
                Error::Mismatch => "arithmetic between relative and absolute quantities"@,
                Error::UnknownFlag => "unknown flag value"@,
                Error::InvariantViolation => "configuration invariant violated"@,
                Error::Overflow => "quantity out of machine range"@,
            },
    {
        match *self {
            Error::SpecFormat => "malformed sweep specification",
            Error::Mismatch => "arithmetic between relative and absolute quantities",
            Error::UnknownFlag => "unknown flag value",
            Error::InvariantViolation => "configuration invariant violated",
            Error::Overflow => "quantity out of machine range",
        }
    }
}

} // verus!
