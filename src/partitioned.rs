use vstd::prelude::*;

use crate::order::Timestamp;

verus! {

/// Where a bound stands relative to its partition.
#[derive(Clone, Copy, Debug, PartialEq, Eq, Structural, PartialOrd, Ord, Hash)]
pub enum BoundKind {
    Before,
    Exact,
    After,
}

/// A bound on a partition identifier: just before, at or just after a
/// partition, or one of the two infinities. The derived order is the order
/// along the line of partitions.
#[derive(Clone, Copy, Debug, PartialEq, Eq, Structural, PartialOrd, Ord, Hash)]
pub enum RangeBound {
    NegInfinity,
    Elem(i32, BoundKind),
    PosInfinity,
}

pub open spec fn kind_rank(k: BoundKind) -> int {
    match k {
        BoundKind::Before => 0,
        BoundKind::Exact => 1,
        BoundKind::After => 2,
    }
}

/// The position of a bound on the line of partitions.
pub open spec fn bound_rank(b: RangeBound) -> int {
    match b {
        RangeBound::NegInfinity => -3 * 0x8000_0000 - 1,
        RangeBound::Elem(p, k) => 3 * p + kind_rank(k),
        RangeBound::PosInfinity => (3 * 0x8000_0000) as int,
    }
}

pub proof fn lemma_bound_rank_injective(a: RangeBound, b: RangeBound)
    requires
        bound_rank(a) == bound_rank(b),
    ensures
        a == b,
{
}

impl RangeBound {
    /// Just before partition `p`.
    pub fn before(p: i32) -> (r: Self)
        ensures
            r == RangeBound::Elem(p, BoundKind::Before),
    {
        RangeBound::Elem(p, BoundKind::Before)
    }

    /// At partition `p`.
    pub fn exact(p: i32) -> (r: Self)
        ensures
            r == RangeBound::Elem(p, BoundKind::Exact),
    {
        RangeBound::Elem(p, BoundKind::Exact)
    }

    /// Just after partition `p`.
    pub fn after(p: i32) -> (r: Self)
        ensures
            r == RangeBound::Elem(p, BoundKind::After),
    {
        RangeBound::Elem(p, BoundKind::After)
    }

    fn rank(&self) -> (r: i64)
        ensures
            r == bound_rank(*self),
    {
        match *self {
            RangeBound::NegInfinity => -3 * 0x8000_0000 - 1,
            RangeBound::Elem(p, BoundKind::Before) => 3 * (p as i64),
            RangeBound::Elem(p, BoundKind::Exact) => 3 * (p as i64) + 1,
            RangeBound::Elem(p, BoundKind::After) => 3 * (p as i64) + 2,
            RangeBound::PosInfinity => 3 * 0x8000_0000,
        }
    }

    /// `self` lies at or before `other`.
    pub fn bound_le(&self, other: &Self) -> (r: bool)
        ensures
            r == (bound_rank(*self) <= bound_rank(*other)),
    {
        self.rank() <= other.rank()
    }
}

/// A set of partitions: those between two bounds, or a single one.
#[derive(Clone, Copy, Debug, PartialEq, Eq, Structural, PartialOrd, Ord, Hash)]
pub enum Interval {
    Range(RangeBound, RangeBound),
    Point(RangeBound),
}

/// `a` contains `b`.
pub open spec fn interval_le(a: Interval, b: Interval) -> bool {
    match (a, b) {
        (Interval::Range(l, u), Interval::Range(l2, u2)) => bound_rank(l) <= bound_rank(l2)
            && bound_rank(u2) <= bound_rank(u),
        (Interval::Range(l, u), Interval::Point(p)) => bound_rank(l) <= bound_rank(p)
            && bound_rank(p) <= bound_rank(u),
        (Interval::Point(p), Interval::Point(q)) => p == q,
        (Interval::Point(_), Interval::Range(_, _)) => false,
    }
}

/// A source timestamp of a partitioned source: every partition of the
/// interval is at the given offset. It lies before another when its
/// interval contains the other's and its offset is not greater.
#[derive(Clone, Copy, Debug, PartialEq, Eq, Structural, PartialOrd, Ord, Hash)]
pub struct Partitioned {
    pub interval: Interval,
    pub offset: u64,
}

impl Partitioned {
    /// The partitions from `lower` to `upper`, at `offset`.
    pub fn new_range(lower: RangeBound, upper: RangeBound, offset: u64) -> (r: Self)
        ensures
            r == (Partitioned { interval: Interval::Range(lower, upper), offset }),
    {
        Partitioned { interval: Interval::Range(lower, upper), offset }
    }

    /// The single partition `at`, at `offset`.
    pub fn new_singleton(at: RangeBound, offset: u64) -> (r: Self)
        ensures
            r == (Partitioned { interval: Interval::Point(at), offset }),
    {
        Partitioned { interval: Interval::Point(at), offset }
    }
}

impl Timestamp for Partitioned {
    open spec fn leq(&self, other: &Self) -> bool {
        interval_le(self.interval, other.interval) && self.offset <= other.offset
    }

    open spec fn min_spec() -> Self {
        Partitioned {
            interval: Interval::Range(RangeBound::NegInfinity, RangeBound::PosInfinity),
            offset: 0,
        }
    }

    proof fn reflexive(a: &Self) {
    }

    proof fn antisymmetric(a: &Self, b: &Self) {
        match (a.interval, b.interval) {
            (Interval::Range(l, u), Interval::Range(l2, u2)) => {
                lemma_bound_rank_injective(l, l2);
                lemma_bound_rank_injective(u, u2);
            },
            _ => {},
        }
    }

    proof fn transitive(a: &Self, b: &Self, c: &Self) {
    }

    proof fn least(a: &Self) {
    }

    fn less_equal(&self, other: &Self) -> (r: bool) {
        let contains = match (self.interval, other.interval) {
            (Interval::Range(l, u), Interval::Range(l2, u2)) => l.bound_le(&l2) && u2.bound_le(&u),
            (Interval::Range(l, u), Interval::Point(p)) => l.bound_le(&p) && p.bound_le(&u),
            (Interval::Point(p), Interval::Point(q)) => p == q,
            (Interval::Point(_), Interval::Range(_, _)) => false,
        };
        contains && self.offset <= other.offset
    }

    fn equals(&self, other: &Self) -> (r: bool) {
        *self == *other
    }

    fn minimum() -> (r: Self) {
        Partitioned {
            interval: Interval::Range(RangeBound::NegInfinity, RangeBound::PosInfinity),
            offset: 0,
        }
    }
}

} // verus!
