//! A dual-mode quantity: either a literal count, or a proportion of a base
//! that is only resolved later. Both forms are swept uniformly; arithmetic
//! between the two forms is an explicit failure.

use vstd::prelude::*;

use crate::errors::Error;
use crate::parse::spec_parse_scaled;
use crate::parse::parse_scaled;
use crate::quantity::DefaultStep;
use crate::quantity::Quantity;
use crate::ratio::Ratio;
use crate::ratio::RATIO_ONE;
use crate::NN;

verus! {

/// A relative proportion of a yet-unknown base, or an absolute count.
///
/// Textual form: a trailing `%` marks a proportion (`20%` is one fifth);
/// otherwise the numeral is an absolute count.
#[derive(Clone, Copy, Debug, PartialEq, Eq, Structural)]
pub enum RelOrAbs {
    /// A proportion of a base resolved later.
    Rel(Ratio),
    /// A literal count.
    Abs(NN),
}

impl RelOrAbs {
    /// What resolving against `base` gives: a proportion multiplies the
    /// base and truncates, saturating at the machine bound; a count passes
    /// through.
    pub open spec fn spec_from_base(self, base: NN) -> NN {
        match self {
            RelOrAbs::Rel(r) => {
                let v = (base * r.micros) / (RATIO_ONE as int);
                if v > u64::MAX {
                    u64::MAX
                } else {
                    v as u64
                }
            },
            RelOrAbs::Abs(n) => n,
        }
    }

    /// Resolve against a concrete base count.
    pub fn from_base(self, base: NN) -> (r: NN)
        ensures
            r == self.spec_from_base(base),
    {
        match self {
            RelOrAbs::Rel(rel) => {
                proof {
                    assert((base as u128) * (rel.micros as u128) <= u128::MAX) by (nonlinear_arith)
                        requires
                            base <= u64::MAX,
                            rel.micros <= u64::MAX,
                    ;
                }
                let prod: u128 = (base as u128) * (rel.micros as u128);
                let q: u128 = prod / (RATIO_ONE as u128);
                if q > u64::MAX as u128 {
                    u64::MAX
                } else {
                    q as u64
                }
            },
            RelOrAbs::Abs(n) => n,
        }
    }
}

impl DefaultStep<RelOrAbs> for RelOrAbs {
    open spec fn spec_default_step(x: RelOrAbs) -> RelOrAbs {
        match x {
            RelOrAbs::Rel(_) => RelOrAbs::Rel(Ratio { micros: (RATIO_ONE / 10) as u64 }),
            RelOrAbs::Abs(_) => RelOrAbs::Abs(1u64),
        }
    }

    fn default_step(x: RelOrAbs) -> (r: RelOrAbs) {
        match x {
            RelOrAbs::Rel(_) => RelOrAbs::Rel(Ratio { micros: RATIO_ONE / 10 }),
            RelOrAbs::Abs(_) => RelOrAbs::Abs(1),
        }
    }
}

impl Quantity for RelOrAbs {
    open spec fn to_math(self) -> int {
        match self {
            RelOrAbs::Rel(r) => r.micros as int,
            RelOrAbs::Abs(n) => n as int,
        }
    }

    open spec fn compatible(self, other: RelOrAbs) -> bool {
        match (self, other) {
            (RelOrAbs::Rel(_), RelOrAbs::Rel(_)) => true,
            (RelOrAbs::Abs(_), RelOrAbs::Abs(_)) => true,
            _ => false,
        }
    }

    open spec fn with_math(self, m: int) -> RelOrAbs {
        match self {
            RelOrAbs::Rel(_) => RelOrAbs::Rel(Ratio { micros: m as u64 }),
            RelOrAbs::Abs(_) => RelOrAbs::Abs(m as u64),
        }
    }

    open spec fn max_math(self) -> int {
        u64::MAX as int
    }

    open spec fn spec_parse(s: Seq<char>) -> Option<RelOrAbs> {
        if s.len() >= 1 && s.last() == '%' {
            match spec_parse_scaled(s.drop_last(), 4) {
                Some(v) => Some(RelOrAbs::Rel(Ratio { micros: v as u64 })),
                None => None,
            }
        } else {
            match spec_parse_scaled(s, 0) {
                Some(v) => Some(RelOrAbs::Abs(v as u64)),
                None => None,
            }
        }
    }

    proof fn lemma_model(self, other: RelOrAbs) {
    }

    proof fn lemma_compatible_trans(self, b: RelOrAbs, c: RelOrAbs) {
    }

    proof fn lemma_with_math(self, other: RelOrAbs, m: int) {
    }

    proof fn lemma_default_step(x: RelOrAbs) {
    }

    fn is_compatible(self, other: RelOrAbs) -> (r: bool) {
        match (self, other) {
            (RelOrAbs::Rel(_), RelOrAbs::Rel(_)) => true,
            (RelOrAbs::Abs(_), RelOrAbs::Abs(_)) => true,
            _ => false,
        }
    }

    fn is_zero(self) -> (r: bool) {
        match self {
            RelOrAbs::Rel(r) => r.micros == 0,
            RelOrAbs::Abs(n) => n == 0,
        }
    }

    fn checked_add(self, other: RelOrAbs) -> (r: Result<RelOrAbs, Error>) {
        match (self, other) {
            (RelOrAbs::Rel(x), RelOrAbs::Rel(y)) => {
                match u64::checked_add(x.micros, y.micros) {
                    Some(v) => Ok(RelOrAbs::Rel(Ratio { micros: v })),
                    None => Err(Error::Overflow),
                }
            },
            (RelOrAbs::Abs(x), RelOrAbs::Abs(y)) => {
                match u64::checked_add(x, y) {
                    Some(v) => Ok(RelOrAbs::Abs(v)),
                    None => Err(Error::Overflow),
                }
            },
            _ => Err(Error::Mismatch),
        }
    }

    fn le_checked(self, other: RelOrAbs) -> (r: Result<bool, Error>) {
        match (self, other) {
            (RelOrAbs::Rel(x), RelOrAbs::Rel(y)) => Ok(x.micros <= y.micros),
            (RelOrAbs::Abs(x), RelOrAbs::Abs(y)) => Ok(x <= y),
            _ => Err(Error::Mismatch),
        }
    }

    fn parse_item(s: &str) -> (r: Result<RelOrAbs, Error>) {
        let n = s.unicode_len();
        if n >= 1 && s.get_char(n - 1) == '%' {
            proof {
                assert(s@.subrange(0, n - 1) == s@.drop_last());
            }
            match parse_scaled(s, 0, n - 1, 4) {
                Ok(v) => Ok(RelOrAbs::Rel(Ratio { micros: v })),
                Err(e) => Err(e),
            }
        } else {
            proof {
                assert(s@.subrange(0, s@.len() as int) == s@);
            }
            match parse_scaled(s, 0, n, 0) {
                Ok(v) => Ok(RelOrAbs::Abs(v)),
                Err(e) => Err(e),
            }
        }
    }
}

} // verus!
