//! Total order on keys.
//!
//! Key-routed operations need a three-way comparison whose meaning the
//! verifier can reason about, which rules out the derived `Ord` code it
//! never reads.  [`TotalOrder`] packages a strict ordering relation, the
//! laws making it a total order that respects equality, and an executable
//! comparison tied to it.  The map's key operations are verified for every
//! key type implementing this trait.

use std::cmp::Ordering;
use vstd::prelude::*;

verus! {

/// A strict total order over `Self`, with an executable three-way
/// comparison agreeing with it.
pub trait TotalOrder: Sized {
    /// The strict ordering relation: does `self` come before `other`?
    spec fn lt(self, other: Self) -> bool;

    /// Trichotomy: `a` comes before `b` exactly when `b` neither equals
    /// `a` nor comes before it.
    proof fn lemma_trichotomy(a: Self, b: Self)
        ensures
            Self::lt(a, b) <==> (!Self::lt(b, a) && a != b),
    ;

    /// The order carries over chains.
    proof fn lemma_transitive(a: Self, b: Self, c: Self)
        requires
            Self::lt(a, b),
            Self::lt(b, c),
        ensures
            Self::lt(a, c),
    ;

    /// Three-way comparison deciding the order.
    fn compare(&self, other: &Self) -> (c: Ordering)
        ensures
            (c == Ordering::Equal) <==> (*self == *other),
            (c == Ordering::Less) <==> Self::lt(*self, *other),
            (c == Ordering::Greater) <==> Self::lt(*other, *self),
    ;
}

impl TotalOrder for i32 {
    open spec fn lt(self, other: Self) -> bool {
        self < other
    }

    proof fn lemma_trichotomy(a: Self, b: Self) {
    }

    proof fn lemma_transitive(a: Self, b: Self, c: Self) {
    }

    fn compare(&self, other: &Self) -> (c: Ordering) {
        if *self == *other {
            Ordering::Equal
        } else if *self < *other {
            Ordering::Less
        } else {
            Ordering::Greater
        }
    }
}

impl TotalOrder for i64 {
    open spec fn lt(self, other: Self) -> bool {
        self < other
    }

    proof fn lemma_trichotomy(a: Self, b: Self) {
    }

    proof fn lemma_transitive(a: Self, b: Self, c: Self) {
    }

    fn compare(&self, other: &Self) -> (c: Ordering) {
        if *self == *other {
            Ordering::Equal
        } else if *self < *other {
            Ordering::Less
        } else {
            Ordering::Greater
        }
    }
}

impl TotalOrder for u64 {
    open spec fn lt(self, other: Self) -> bool {
        self < other
    }

    proof fn lemma_trichotomy(a: Self, b: Self) {
    }

    proof fn lemma_transitive(a: Self, b: Self, c: Self) {
    }

    fn compare(&self, other: &Self) -> (c: Ordering) {
        if *self == *other {
            Ordering::Equal
        } else if *self < *other {
            Ordering::Less
        } else {
            Ordering::Greater
        }
    }
}

impl TotalOrder for usize {
    open spec fn lt(self, other: Self) -> bool {
        self < other
    }

    proof fn lemma_trichotomy(a: Self, b: Self) {
    }

    proof fn lemma_transitive(a: Self, b: Self, c: Self) {
    }

    fn compare(&self, other: &Self) -> (c: Ordering) {
        if *self == *other {
            Ordering::Equal
        } else if *self < *other {
            Ordering::Less
        } else {
            Ordering::Greater
        }
    }
}

} // verus!
