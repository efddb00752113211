//! The capability a quantity type needs so that it can be swept: copying,
//! checked ordering comparison, checked addition for stepping, a default
//! step, and token parsing.

use vstd::prelude::*;

use crate::errors::Error;
use crate::parse::spec_parse_scaled;
use crate::parse::parse_scaled;
use crate::NN;

verus! {

/// The default stride of a stepped range when none is given.
pub trait DefaultStep<T> {
    /// The default step, as contracts see it.
    spec fn spec_default_step(x: T) -> T;

    /// Return a default step.
    ///
    /// The value `x` is passed so that a dual relative/absolute quantity
    /// can see whether it is being used in relative or absolute form.
    fn default_step(x: T) -> (r: T)
        ensures
            r == Self::spec_default_step(x),
    ;
}

/// What a type must offer to be swept over.
///
/// Contracts see a quantity through a mathematical model: `to_math` gives
/// its magnitude as an integer, `compatible` says when two values share a
/// representation (and so may be added or compared), `with_math` rebuilds
/// the value of a representation from a magnitude, and `max_math` bounds
/// what the representation can hold.
pub trait Quantity: Copy + DefaultStep<Self> + Sized {
    /// The magnitude of the value as a mathematical integer.
    spec fn to_math(self) -> int;

    /// Whether two values share a representation.
    spec fn compatible(self, other: Self) -> bool;

    /// The value of `self`'s representation whose magnitude is `m`.
    spec fn with_math(self, m: int) -> Self;

    /// The largest magnitude `self`'s representation can hold.
    spec fn max_math(self) -> int;

    /// What parsing a single textual token gives, if anything.
    spec fn spec_parse(s: Seq<char>) -> Option<Self>;

    /// Basic facts of the model: magnitudes are within range, compatibility
    /// is reflexive, symmetric and respects the bound, and rebuilding a
    /// value from its own magnitude gives it back.
    proof fn lemma_model(self, other: Self)
        ensures
            0 <= self.to_math() <= self.max_math(),
            self.compatible(self),
            self.compatible(other) ==> other.compatible(self),
            self.compatible(other) ==> self.max_math() == other.max_math(),
            self.with_math(self.to_math()) == self,
    ;

    /// Compatibility is transitive.
    proof fn lemma_compatible_trans(self, b: Self, c: Self)
        requires
            self.compatible(b),
            b.compatible(c),
        ensures
            self.compatible(c),
    ;

    /// Rebuilding from a magnitude inverts the model and lands in the same
    /// representation; compatible values rebuild identically.
    proof fn lemma_with_math(self, other: Self, m: int)
        requires
            0 <= m <= self.max_math(),
        ensures
            self.with_math(m).to_math() == m,
            self.with_math(m).compatible(self),
            self.compatible(other) ==> self.with_math(m) == other.with_math(m),
    ;

    /// The default step shares the representation of its sample and is at
    /// least one unit, so that stepping a range always terminates.
    proof fn lemma_default_step(x: Self)
        ensures
            Self::spec_default_step(x).compatible(x),
            Self::spec_default_step(x).to_math() >= 1,
    ;

    /// Whether `other` shares `self`'s representation.
    fn is_compatible(self, other: Self) -> (r: bool)
        ensures
            r == self.compatible(other),
    ;

    /// Whether the magnitude is zero.
    fn is_zero(self) -> (r: bool)
        ensures
            r == (self.to_math() == 0),
    ;

    /// Checked addition: fails on mismatched representations, and when the
    /// sum leaves the representation's range.
    fn checked_add(self, other: Self) -> (r: Result<Self, Error>)
        ensures
            !self.compatible(other) ==> r == Err::<Self, Error>(Error::Mismatch),
            self.compatible(other) && self.to_math() + other.to_math() > self.max_math() ==> r
                == Err::<Self, Error>(Error::Overflow),
            self.compatible(other) && self.to_math() + other.to_math() <= self.max_math() ==> r
                == Ok::<Self, Error>(self.with_math(self.to_math() + other.to_math())),
    ;

    /// Checked ordering comparison, `self <= other`: fails on mismatched
    /// representations.
    fn le_checked(self, other: Self) -> (r: Result<bool, Error>)
        ensures
            !self.compatible(other) ==> r == Err::<bool, Error>(Error::Mismatch),
            self.compatible(other) ==> r == Ok::<bool, Error>(self.to_math() <= other.to_math()),
    ;

    /// Parse a single textual token.
    fn parse_item(s: &str) -> (r: Result<Self, Error>)
        ensures
            match Self::spec_parse(s@) {
                Some(v) => r == Ok::<Self, Error>(v),
                None => r == Err::<Self, Error>(Error::SpecFormat),
            },
    ;
}

impl DefaultStep<NN> for NN {
    open spec fn spec_default_step(x: NN) -> NN {
        1u64
    }

    fn default_step(_x: NN) -> (r: NN) {
        1
    }
}

impl Quantity for NN {
    open spec fn to_math(self) -> int {
        self as int
    }

    open spec fn compatible(self, other: NN) -> bool {
        true
    }

    open spec fn with_math(self, m: int) -> NN {
        m as u64
    }

    open spec fn max_math(self) -> int {
        u64::MAX as int
    }

    open spec fn spec_parse(s: Seq<char>) -> Option<NN> {
        match spec_parse_scaled(s, 0) {
            Some(v) => Some(v as u64),
            None => None,
        }
    }

    proof fn lemma_model(self, other: NN) {
    }

    proof fn lemma_compatible_trans(self, b: NN, c: NN) {
    }

    proof fn lemma_with_math(self, other: NN, m: int) {
    }

    proof fn lemma_default_step(x: NN) {
    }

    fn is_compatible(self, other: NN) -> (r: bool) {
        true
    }

    fn is_zero(self) -> (r: bool) {
        self == 0
    }

    fn checked_add(self, other: NN) -> (r: Result<NN, Error>) {
        match u64::checked_add(self, other) {
            Some(v) => Ok(v),
            None => Err(Error::Overflow),
        }
    }

    fn le_checked(self, other: NN) -> (r: Result<bool, Error>) {
        Ok(self <= other)
    }

    fn parse_item(s: &str) -> (r: Result<NN, Error>) {
        let n = s.unicode_len();
        proof {
            assert(s@.subrange(0, s@.len() as int) == s@);
        }
        parse_scaled(s, 0, n, 0)
    }
}

} // verus!
