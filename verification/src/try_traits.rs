//! Comparison and hashing that may fail.

use std::convert::Infallible;
use std::hash::{Hash, Hasher};
use vstd::prelude::*;
use vstd::std_specs::cmp::PartialEqSpec;

verus! {

/// Analogous to [`PartialEq`], for comparisons that may fail.
pub trait TryPartialEq<Rhs: ?Sized = Self> {
    /// The error of a comparison that could not be made.
    type Error;

    /// Whether `try_eq` always returns what `try_eq_spec` says.
    open spec fn obeys_try_eq_spec() -> bool {
        false
    }

    /// What comparing `self` to `rhs` yields.
    open spec fn try_eq_spec(&self, rhs: &Rhs) -> Result<bool, Self::Error> {
        arbitrary()
    }

    /// Compares `self` to `rhs`.
    fn try_eq(&self, rhs: &Rhs) -> (r: Result<bool, Self::Error>)
        ensures
            Self::obeys_try_eq_spec() ==> r == self.try_eq_spec(rhs),
    ;
}

impl<T: PartialEq<Rhs>, Rhs> TryPartialEq<Rhs> for T {
    type Error = Infallible;

    open spec fn obeys_try_eq_spec() -> bool {
        T::obeys_eq_spec()
    }

    open spec fn try_eq_spec(&self, rhs: &Rhs) -> Result<bool, Infallible> {
        Ok(self.eq_spec(rhs))
    }

    #[inline]
    fn try_eq(&self, rhs: &Rhs) -> (r: Result<bool, Infallible>) {
        Ok(self == rhs)
    }
}

/// Analogous to [`Eq`], for comparisons that may fail.
pub trait TryEq: TryPartialEq<Self> {
}

impl<T: Eq> TryEq for T {
}

/// Hashing that may fail.
pub trait TryHash {
    /// The error of a value that could not be hashed.
    type Error;

    /// Whether `try_hash` always returns what `try_hash_spec` says.
    open spec fn obeys_try_hash_spec() -> bool {
        false
    }

    /// Whether hashing `self` succeeds, and the error where it does not.
    open spec fn try_hash_spec(&self) -> Result<(), Self::Error> {
        arbitrary()
    }

    /// Feeds `self` into `hasher`.
    fn try_hash<H: Hasher>(&self, hasher: &mut H) -> (r: Result<(), Self::Error>)
        ensures
            Self::obeys_try_hash_spec() ==> r == self.try_hash_spec(),
    ;
}

/// `Hash::hash`: feeds `value` into `hasher`.
#[verifier::external_body]
fn feed<T: Hash, H: Hasher>(value: &T, hasher: &mut H) {
    value.hash(hasher)
}

impl<T: Hash> TryHash for T {
    type Error = Infallible;

    open spec fn obeys_try_hash_spec() -> bool {
        true
    }

    open spec fn try_hash_spec(&self) -> Result<(), Infallible> {
        Ok(())
    }

    /// Feeds `self` into `hasher` with `Hash::hash`, which cannot fail: the
    /// result is `Ok` for every value and every hasher. What the hasher holds
    /// afterwards is up to `Hash::hash` and to the hasher.
    #[inline]
    fn try_hash<H: Hasher>(&self, hasher: &mut H) -> (r: Result<(), Infallible>) {
        feed(self, hasher);
        Ok(())
    }
}

} // verus!
