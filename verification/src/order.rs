//! The order that an `IntervalMap` requires of its keys: a total order
//! together with an executable three-way comparison, and a least element
//! that anchors the default interval.

use vstd::prelude::*;
use core::cmp::Ordering;

verus! {

/// A total order on a key type. The spec relation `le` is the
/// mathematical order; `compare` is its executable counterpart.
pub trait TotalOrder: Sized {
    /// The mathematical "less than or equal" relation on keys.
    spec fn le(self, other: Self) -> bool;

    proof fn lemma_le_reflexive(a: Self)
        ensures
            a.le(a),
    ;

    proof fn lemma_le_transitive(a: Self, b: Self, c: Self)
        requires
            a.le(b),
            b.le(c),
        ensures
            a.le(c),
    ;

    proof fn lemma_le_antisymmetric(a: Self, b: Self)
        requires
            a.le(b),
            b.le(a),
        ensures
            a == b,
    ;

    proof fn lemma_le_total(a: Self, b: Self)
        ensures
            a.le(b) || b.le(a),
    ;

    /// Executable three-way comparison agreeing with `le`.
    fn compare(&self, other: &Self) -> (c: Ordering)
        ensures
            (match c {
                Ordering::Less => self.le(*other) && *self != *other,
                Ordering::Equal => *self == *other,
                Ordering::Greater => other.le(*self) && *self != *other,
            }),
    ;
}

/// A key type with a least element: the sentinel key below every other
/// key, at which the default value of an `IntervalMap` is anchored.
pub trait Min: TotalOrder {
    fn minimum() -> (m: Self)
        ensures
            forall|k: Self| m.le(k),
    ;
}

/// Strict order on keys: `a` is below `b` and distinct from it.
pub open spec fn key_lt<K: TotalOrder>(a: K, b: K) -> bool {
    a.le(b) && a != b
}

/// Membership of `q` in the half-open range `[begin, end)`.
pub open spec fn in_range<K: TotalOrder>(q: K, begin: K, end: K) -> bool {
    begin.le(q) && key_lt(q, end)
}

/// A strict bound composes with a weak bound on its right.
pub proof fn lemma_key_lt_le<K: TotalOrder>(a: K, b: K, c: K)
    requires
        key_lt(a, b),
        b.le(c),
    ensures
        key_lt(a, c),
{
    K::lemma_le_transitive(a, b, c);
    if a == c {
        K::lemma_le_antisymmetric(a, b);
        assert(false);
    }
}

/// The strict order on keys is transitive.
pub proof fn lemma_key_lt_trans<K: TotalOrder>(a: K, b: K, c: K)
    requires
        key_lt(a, b),
        key_lt(b, c),
    ensures
        key_lt(a, c),
{
    lemma_key_lt_le(a, b, c);
}

/// A key that is not strictly below another is at or above it.
pub proof fn lemma_not_key_lt<K: TotalOrder>(a: K, b: K)
    requires
        !key_lt(a, b),
    ensures
        b.le(a),
{
    K::lemma_le_total(a, b);
    if a != b {
        assert(b.le(a));
    } else {
        K::lemma_le_reflexive(a);
    }
}

/// A half-open range `[begin, end)` with `end` at or below `begin`
/// contains no key at all.
pub proof fn lemma_empty_range<K: TotalOrder>(begin: K, end: K)
    requires
        !key_lt(begin, end),
    ensures
        forall|q: K| !in_range(q, begin, end),
{
    assert forall|q: K| !in_range(q, begin, end) by {
        if in_range(q, begin, end) {
            K::lemma_le_transitive(begin, q, end);
            K::lemma_le_antisymmetric(q, begin);
            assert(false);
        }
    }
}

impl TotalOrder for i32 {
    open spec fn le(self, other: Self) -> bool {
        self <= other
    }

    proof fn lemma_le_reflexive(a: Self) {
    }

    proof fn lemma_le_transitive(a: Self, b: Self, c: Self) {
    }

    proof fn lemma_le_antisymmetric(a: Self, b: Self) {
    }

    proof fn lemma_le_total(a: Self, b: Self) {
    }

    fn compare(&self, other: &Self) -> (c: Ordering) {
        if *self < *other {
            Ordering::Less
        } else if *self > *other {
            Ordering::Greater
        } else {
            Ordering::Equal
        }
    }
}

impl Min for i32 {
    fn minimum() -> (m: Self) {
        i32::MIN
    }
}

} // verus!
