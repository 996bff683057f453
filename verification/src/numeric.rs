//! Arithmetic and ordering for the accumulating write operators.
//!
//! The accumulate, keep-maximum and keep-minimum operators need, per
//! value domain: a zero (the prior value assumed when a key is absent),
//! addition, and a strict total order.  [`Numeric`] captures those over
//! the domain's mathematical view, together with the order laws the
//! operators' correctness arguments rest on; every implementation proves
//! the laws.

use vstd::prelude::*;
use crate::traits::ToBytes;

verus! {

/// A value domain that supports accumulation and comparison.
pub trait Numeric: ToBytes {
    /// The domain's zero, used as the prior value for an absent key.
    spec fn zero_spec() -> Self::V;

    /// Equality of domain values (equality of denoted numbers, which for
    /// some domains is coarser than equality of representations).
    spec fn eq_spec(a: Self::V, b: Self::V) -> bool;

    /// Strict order on domain values.
    spec fn lt_spec(a: Self::V, b: Self::V) -> bool;

    /// Addition of domain values.
    spec fn add_spec(a: Self::V, b: Self::V) -> Self::V;

    /// The zero value.
    fn zero_value() -> (r: Self)
        ensures
            r@ == Self::zero_spec(),
            r.inv(),
    ;

    /// Decide the strict order.
    fn lt_value(&self, other: &Self) -> (r: bool)
        requires
            self.inv(),
            other.inv(),
        ensures
            r == Self::lt_spec(self@, other@),
    ;

    /// Compute the sum.
    fn add_value(&self, other: &Self) -> (r: Self)
        requires
            self.inv(),
            other.inv(),
        ensures
            r@ == Self::add_spec(self@, other@),
            r.inv(),
    ;

    /// The order laws: totality up to `eq_spec`, transitivity,
    /// irreflexivity, and reflexivity of `eq_spec`.
    proof fn lemma_strict_order(a: Self::V, b: Self::V, c: Self::V)
        ensures
            Self::lt_spec(a, b) || Self::lt_spec(b, a) || Self::eq_spec(a, b),
            Self::lt_spec(a, b) && Self::lt_spec(b, c) ==> Self::lt_spec(a, c),
            !Self::lt_spec(a, a),
            Self::eq_spec(a, a),
    ;

    /// The domain zero is a valid view.
    proof fn lemma_zero_vinv()
        ensures
            Self::vinv(Self::zero_spec()),
    ;

    /// Valid views are closed under addition.
    proof fn lemma_add_vinv(a: Self::V, b: Self::V)
        requires
            Self::vinv(a),
            Self::vinv(b),
        ensures
            Self::vinv(Self::add_spec(a, b)),
    ;
}

impl Numeric for i64 {
    open spec fn zero_spec() -> i64 {
        0
    }

    open spec fn eq_spec(a: i64, b: i64) -> bool {
        a == b
    }

    open spec fn lt_spec(a: i64, b: i64) -> bool {
        a < b
    }

    /// Addition of the signed 64-bit domain wraps on overflow.
    open spec fn add_spec(a: i64, b: i64) -> i64 {
        vstd::wrapping::i64_specs::wrapping_add(a, b)
    }

    fn zero_value() -> (r: Self) {
        0
    }

    fn lt_value(&self, other: &Self) -> (r: bool) {
        *self < *other
    }

    fn add_value(&self, other: &Self) -> (r: Self) {
        self.wrapping_add(*other)
    }

    proof fn lemma_strict_order(a: i64, b: i64, c: i64) {
    }

    proof fn lemma_zero_vinv() {
    }

    proof fn lemma_add_vinv(a: i64, b: i64) {
    }
}

} // verus!
