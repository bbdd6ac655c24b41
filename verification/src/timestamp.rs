//! Partially ordered logical time, and the summaries that transform it.

use vstd::prelude::*;

verus! {

/// A partial order with an executable test.
///
/// `le_spec` is the order that contracts speak of; the three proof obligations
/// make it reflexive, transitive and antisymmetric with respect to equality.
/// `le` is its executable counterpart.
pub trait PartialOrder: Copy + Sized {
    /// `self` is at or before `other`.
    spec fn le_spec(self, other: Self) -> bool;

    proof fn le_reflexive(a: Self)
        ensures
            a.le_spec(a),
    ;

    proof fn le_transitive(a: Self, b: Self, c: Self)
        requires
            a.le_spec(b),
            b.le_spec(c),
        ensures
            a.le_spec(c),
    ;

    proof fn le_antisymmetric(a: Self, b: Self)
        requires
            a.le_spec(b),
            b.le_spec(a),
        ensures
            a == b,
    ;

    /// Decides the order.
    fn le(&self, other: &Self) -> (b: bool)
        ensures
            b == self.le_spec(*other),
    ;
}

/// A logical time label attached to data: immutable, copyable, and known only
/// by its order and by equality.
pub trait Timestamp: PartialOrder {

}

/// A transformation of timestamps that composes with others of its kind.
///
/// Applying a summary may leave the representable range, hence the `Option`.
pub trait PathSummary<T: Timestamp>: PartialOrder {
    /// The time that `time` becomes along this path, if it can be represented.
    spec fn results_in_spec(self, time: T) -> Option<T>;

    /// This path followed by `other`, if it can be represented.
    spec fn followed_by_spec(self, other: Self) -> Option<Self>;

    /// Following a composed path is following its two parts in turn.
    proof fn composition(a: Self, b: Self, time: T)
        requires
            a.followed_by_spec(b) is Some,
        ensures
            a.followed_by_spec(b)->Some_0.results_in_spec(time) == (match a.results_in_spec(time) {
                Some(mid) => b.results_in_spec(mid),
                None => None,
            }),
    ;

    /// Applies the summary to a time.
    fn results_in(&self, time: &T) -> (after: Option<T>)
        ensures
            after == self.results_in_spec(*time),
    ;

    /// Composes the summary with the one that comes after it.
    fn followed_by(&self, other: &Self) -> (both: Option<Self>)
        ensures
            both == self.followed_by_spec(*other),
    ;
}

/// Decides whether two values are the same, using only the order.
pub fn same<E: PartialOrder>(a: &E, b: &E) -> (r: bool)
    ensures
        r == (*a == *b),
{
    let r = a.le(b) && b.le(a);
    proof {
        if r {
            E::le_antisymmetric(*a, *b);
        }
        if *a == *b {
            E::le_reflexive(*a);
        }
    }
    r
}

impl PartialOrder for u64 {
    open spec fn le_spec(self, other: Self) -> bool {
        self <= other
    }

    proof fn le_reflexive(a: Self) {
    }

    proof fn le_transitive(a: Self, b: Self, c: Self) {
    }

    proof fn le_antisymmetric(a: Self, b: Self) {
    }

    fn le(&self, other: &Self) -> (b: bool) {
        *self <= *other
    }
}

impl Timestamp for u64 {

}

/// A `u64` summary advances a `u64` time by that many steps.
impl PathSummary<u64> for u64 {
    open spec fn results_in_spec(self, time: u64) -> Option<u64> {
        if self + time <= u64::MAX {
            Some((self + time) as u64)
        } else {
            None
        }
    }

    open spec fn followed_by_spec(self, other: Self) -> Option<Self> {
        if self + other <= u64::MAX {
            Some((self + other) as u64)
        } else {
            None
        }
    }

    proof fn composition(a: Self, b: Self, time: u64) {
    }

    fn results_in(&self, time: &u64) -> (after: Option<u64>) {
        self.checked_add(*time)
    }

    fn followed_by(&self, other: &Self) -> (both: Option<Self>) {
        self.checked_add(*other)
    }
}

/// The summary of a path that leaves every timestamp as it is.
#[derive(Clone, Copy, Debug)]
pub struct Identity;

impl PartialOrder for Identity {
    open spec fn le_spec(self, other: Self) -> bool {
        true
    }

    proof fn le_reflexive(a: Self) {
    }

    proof fn le_transitive(a: Self, b: Self, c: Self) {
    }

    proof fn le_antisymmetric(a: Self, b: Self) {
    }

    fn le(&self, other: &Self) -> (b: bool) {
        true
    }
}

impl<T: Timestamp> PathSummary<T> for Identity {
    open spec fn results_in_spec(self, time: T) -> Option<T> {
        Some(time)
    }

    open spec fn followed_by_spec(self, other: Self) -> Option<Self> {
        Some(Identity)
    }

    proof fn composition(a: Self, b: Self, time: T) {
    }

    fn results_in(&self, time: &T) -> (after: Option<T>) {
        Some(*time)
    }

    fn followed_by(&self, other: &Self) -> (both: Option<Self>) {
        Some(Identity)
    }
}

/// A time with two coordinates, ordered coordinate by coordinate: the
/// timestamp of a scope nested in another.
#[derive(Debug)]
pub struct Product<A: Timestamp, B: Timestamp> {
    pub outer: A,
    pub inner: B,
}

impl<A: Timestamp, B: Timestamp> Clone for Product<A, B> {
    fn clone(&self) -> (copy: Self)
        ensures
            copy == *self,
    {
        *self
    }
}

impl<A: Timestamp, B: Timestamp> Copy for Product<A, B> {

}

impl<A: Timestamp, B: Timestamp> Product<A, B> {
    /// The time with the given coordinates.
    pub fn new(outer: A, inner: B) -> (time: Self)
        ensures
            time.outer == outer,
            time.inner == inner,
    {
        Product { outer, inner }
    }
}

impl<A: Timestamp, B: Timestamp> PartialOrder for Product<A, B> {
    open spec fn le_spec(self, other: Self) -> bool {
        self.outer.le_spec(other.outer) && self.inner.le_spec(other.inner)
    }

    proof fn le_reflexive(a: Self) {
        A::le_reflexive(a.outer);
        B::le_reflexive(a.inner);
    }

    proof fn le_transitive(a: Self, b: Self, c: Self) {
        A::le_transitive(a.outer, b.outer, c.outer);
        B::le_transitive(a.inner, b.inner, c.inner);
    }

    proof fn le_antisymmetric(a: Self, b: Self) {
        A::le_antisymmetric(a.outer, b.outer);
        B::le_antisymmetric(a.inner, b.inner);
    }

    fn le(&self, other: &Self) -> (b: bool) {
        self.outer.le(&other.outer) && self.inner.le(&other.inner)
    }
}

impl<A: Timestamp, B: Timestamp> Timestamp for Product<A, B> {

}

} // verus!
