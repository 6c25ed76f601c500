use vstd::prelude::*;

verus! {

/// A partially ordered timestamp with a least element.
///
/// `leq` is the order that every progress comparison uses; `Copy` lets
/// frontiers hand their elements out by value.
pub trait Timestamp: Copy + Sized {
    spec fn leq(&self, other: &Self) -> bool;

    spec fn min_spec() -> Self;

    proof fn reflexive(a: &Self)
        ensures
            a.leq(a),
    ;

    proof fn antisymmetric(a: &Self, b: &Self)
        requires
            a.leq(b),
            b.leq(a),
        ensures
            *a == *b,
    ;

    proof fn transitive(a: &Self, b: &Self, c: &Self)
        requires
            a.leq(b),
            b.leq(c),
        ensures
            a.leq(c),
    ;

    proof fn least(a: &Self)
        ensures
            Self::min_spec().leq(a),
    ;

    fn less_equal(&self, other: &Self) -> (r: bool)
        ensures
            r == self.leq(other),
    ;

    fn equals(&self, other: &Self) -> (r: bool)
        ensures
            r == (*self == *other),
    ;

    fn minimum() -> (r: Self)
        ensures
            r == Self::min_spec(),
    ;
}

/// Strictly before in the order of `T`.
pub open spec fn lt<T: Timestamp>(a: &T, b: &T) -> bool {
    a.leq(b) && *a != *b
}

impl Timestamp for u64 {
    open spec fn leq(&self, other: &Self) -> bool {
        *self <= *other
    }

    open spec fn min_spec() -> Self {
        0
    }

    proof fn reflexive(a: &Self) {
    }

    proof fn antisymmetric(a: &Self, b: &Self) {
    }

    proof fn transitive(a: &Self, b: &Self, c: &Self) {
    }

    proof fn least(a: &Self) {
    }

    fn less_equal(&self, other: &Self) -> (r: bool) {
        *self <= *other
    }

    fn equals(&self, other: &Self) -> (r: bool) {
        *self == *other
    }

    fn minimum() -> (r: Self) {
        0
    }
}

} // verus!
