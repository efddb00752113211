//! Exact real-valued proportions in fixed-point form: a value is a whole
//! number of millionths, so quorum proportions and relative quantities are
//! parsed, stepped and compared without rounding.

use vstd::prelude::*;

use crate::errors::Error;
use crate::parse::spec_parse_scaled;
use crate::parse::parse_scaled;
use crate::quantity::DefaultStep;
use crate::quantity::Quantity;

verus! {

/// How many `Ratio` units make one whole.
pub const RATIO_ONE: u64 = 1000000;

/// A non-negative real proportion held exactly as millionths.
///
/// `Ratio { micros: 500000 }` is one half. Textual form: decimal digits
/// with at most six fractional digits, such as `0.5`.
#[derive(Clone, Copy, Debug, PartialEq, Eq, Structural)]
pub struct Ratio {
    /// Millionths of a whole.
    pub micros: u64,
}

impl Ratio {
    /// The proportion holding `micros` millionths.
    pub fn from_micros(micros: u64) -> (r: Ratio)
        ensures
            r.micros == micros,
    {
        Ratio { micros }
    }
}

impl DefaultStep<Ratio> for Ratio {
    open spec fn spec_default_step(x: Ratio) -> Ratio {
        Ratio { micros: RATIO_ONE }
    }

    fn default_step(_x: Ratio) -> (r: Ratio) {
        Ratio { micros: RATIO_ONE }
    }
}

impl Quantity for Ratio {
    open spec fn to_math(self) -> int {
        self.micros as int
    }

    open spec fn compatible(self, other: Ratio) -> bool {
        true
    }

    open spec fn with_math(self, m: int) -> Ratio {
        Ratio { micros: m as u64 }
    }

    open spec fn max_math(self) -> int {
        u64::MAX as int
    }

    open spec fn spec_parse(s: Seq<char>) -> Option<Ratio> {
        match spec_parse_scaled(s, 6) {
            Some(v) => Some(Ratio { micros: v as u64 }),
            None => None,
        }
    }

    proof fn lemma_model(self, other: Ratio) {
    }

    proof fn lemma_compatible_trans(self, b: Ratio, c: Ratio) {
    }

    proof fn lemma_with_math(self, other: Ratio, m: int) {
    }

    proof fn lemma_default_step(x: Ratio) {
    }

    fn is_compatible(self, other: Ratio) -> (r: bool) {
        true
    }

    fn is_zero(self) -> (r: bool) {
        self.micros == 0
    }

    fn checked_add(self, other: Ratio) -> (r: Result<Ratio, Error>) {
        match u64::checked_add(self.micros, other.micros) {
            Some(v) => Ok(Ratio { micros: v }),
            None => Err(Error::Overflow),
        }
    }

    fn le_checked(self, other: Ratio) -> (r: Result<bool, Error>) {
        Ok(self.micros <= other.micros)
    }

    fn parse_item(s: &str) -> (r: Result<Ratio, Error>) {
        let n = s.unicode_len();
        proof {
            assert(s@.subrange(0, s@.len() as int) == s@);
        }
        match parse_scaled(s, 0, n, 6) {
            Ok(v) => Ok(Ratio { micros: v }),
            Err(e) => Err(e),
        }
    }
}

} // verus!
