use vstd::prelude::*;

use crate::antichain::{Antichain, is_antichain};
use crate::order::Timestamp;

verus! {

/// The signed count of `x` in a sequence of `(element, count)` deltas.
pub open spec fn weight<T>(s: Seq<(T, i64)>, x: T) -> int
    decreases s.len(),
{
    if s.len() == 0 {
        0
    } else {
        weight(s.drop_last(), x) + if s.last().0 == x {
            s.last().1 as int
        } else {
            0
        }
    }
}

/// No element occurs twice as a key.
pub open spec fn distinct_keys<T>(s: Seq<(T, i64)>) -> bool {
    forall|i: int, j: int|
        #![trigger s[i], s[j]]
        0 <= i < s.len() && 0 <= j < s.len() && i != j ==> s[i].0 != s[j].0
}

pub proof fn lemma_weight_push<T>(s: Seq<(T, i64)>, e: (T, i64), x: T)
    ensures
        weight(s.push(e), x) == weight(s, x) + if e.0 == x {
            e.1 as int
        } else {
            0
        },
{
    assert(s.push(e).drop_last() =~= s);
}

proof fn lemma_weight_absent<T>(s: Seq<(T, i64)>, x: T)
    requires
        forall|j: int| 0 <= j < s.len() ==> (#[trigger] s[j]).0 != x,
    ensures
        weight(s, x) == 0,
    decreases s.len(),
{
    if s.len() > 0 {
        lemma_weight_absent(s.drop_last(), x);
    }
}

proof fn lemma_weight_single<T>(s: Seq<(T, i64)>, i: int, x: T)
    requires
        0 <= i < s.len(),
        s[i].0 == x,
        forall|j: int| 0 <= j < s.len() && j != i ==> (#[trigger] s[j]).0 != x,
    ensures
        weight(s, x) == s[i].1,
    decreases s.len(),
{
    if i == s.len() - 1 {
        lemma_weight_absent(s.drop_last(), x);
    } else {
        lemma_weight_single(s.drop_last(), i, x);
    }
}

proof fn lemma_weight_update<T>(s: Seq<(T, i64)>, i: int, e: (T, i64), x: T)
    requires
        0 <= i < s.len(),
    ensures
        weight(s.update(i, e), x) == weight(s, x) - (if s[i].0 == x {
            s[i].1 as int
        } else {
            0
        }) + (if e.0 == x {
            e.1 as int
        } else {
            0
        }),
    decreases s.len(),
{
    if i == s.len() - 1 {
        assert(s.update(i, e).drop_last() =~= s.drop_last());
    } else {
        lemma_weight_update(s.drop_last(), i, e, x);
        assert(s.update(i, e).drop_last() =~= s.drop_last().update(i, e));
    }
}

/// With distinct keys, the weight of `x` is the count stored beside it.
proof fn lemma_weight_lookup<T>(s: Seq<(T, i64)>, x: T)
    requires
        distinct_keys(s),
    ensures
        weight(s, x) > 0 <==> exists|j: int| 0 <= j < s.len() && (#[trigger] s[j]).0 == x && s[j].1 > 0,
{
    if exists|j: int| 0 <= j < s.len() && (#[trigger] s[j]).0 == x {
        let j = choose|j: int| 0 <= j < s.len() && (#[trigger] s[j]).0 == x;
        assert forall|k: int| 0 <= k < s.len() && k != j implies (#[trigger] s[k]).0 != x by {
            assert(s[k].0 != s[j].0);
        }
        lemma_weight_single(s, j, x);
    } else {
        lemma_weight_absent(s, x);
    }
}

/// `x` has a positive weight in `s` and nothing else with a positive weight
/// lies at or before it.
pub open spec fn minimal_positive<T: Timestamp>(s: Seq<(T, i64)>, x: T) -> bool {
    &&& weight(s, x) > 0
    &&& forall|y: T| #[trigger] weight(s, y) > 0 && y.leq(&x) ==> y == x
}

/// A multiset of timestamps with signed counts, and the frontier of those
/// whose count is positive.
#[derive(Clone, Debug)]
pub struct MutableAntichain<T> {
    counts: Vec<(T, i64)>,
    frontier: Antichain<T>,
}

impl<T: Timestamp> MutableAntichain<T> {
    /// The accumulated count of `x`.
    pub closed spec fn count(&self, x: T) -> int {
        weight(self.counts@, x)
    }

    /// The elements of the frontier, in the order kept.
    pub closed spec fn frontier_view(&self) -> Seq<T> {
        self.frontier@
    }

    pub proof fn lemma_frontier(&self)
        requires
            self.wf(),
        ensures
            is_antichain(self.frontier_view()),
            forall|x: T| #[trigger] self.frontier_view().contains(x) <==> self.in_frontier(x),
    {
    }

    /// `x` has a positive count and no other element with a positive count
    /// lies at or before it.
    pub open spec fn in_frontier(&self, x: T) -> bool {
        &&& self.count(x) > 0
        &&& forall|y: T| #[trigger] self.count(y) > 0 && y.leq(&x) ==> y == x
    }

    pub closed spec fn wf(&self) -> bool {
        &&& distinct_keys(self.counts@)
        &&& self.frontier.wf()
        &&& forall|x: T| #[trigger] self.frontier@.contains(x) <==> self.in_frontier(x)
    }

    /// No element has a count.
    pub fn new() -> (r: Self)
        ensures
            r.wf(),
            forall|x: T| #[trigger] r.count(x) == 0,
    {
        let r = MutableAntichain { counts: Vec::new(), frontier: Antichain::new() };
        assert forall|x: T| #[trigger] r.frontier@.contains(x) <==> r.in_frontier(x) by {
            assert(r.count(x) == 0);
        }
        r
    }

    /// The minimal elements among those with a positive count.
    pub fn frontier(&self) -> (r: &Antichain<T>)
        requires
            self.wf(),
        ensures
            r.wf(),
            r@ == self.frontier_view(),
            forall|x: T| #[trigger] r@.contains(x) <==> self.in_frontier(x),
    {
        &self.frontier
    }

    /// Adds each `(element, delta)` pair to the element's count, then
    /// recomputes the frontier.
    pub fn update_iter(&mut self, deltas: &Vec<(T, i64)>)
        requires
            old(self).wf(),
            forall|k: int, x: T|
                0 <= k <= deltas@.len() ==> i64::MIN <= old(self).count(x) + #[trigger] weight(
                    deltas@.take(k),
                    x,
                ) <= i64::MAX,
        ensures
            final(self).wf(),
            forall|x: T| #[trigger] final(self).count(x) == old(self).count(x) + weight(deltas@, x),
    {
        let ghost start = self.counts@;
        let mut k: usize = 0;
        while k < deltas.len()
            invariant
                k <= deltas@.len(),
                distinct_keys(self.counts@),
                forall|x: T| #[trigger]
                    weight(self.counts@, x) == weight(start, x) + weight(deltas@.take(k as int), x),
                forall|j: int, x: T|
                    0 <= j <= deltas@.len() ==> i64::MIN <= weight(start, x) + #[trigger] weight(
                        deltas@.take(j),
                        x,
                    ) <= i64::MAX,
            decreases deltas@.len() - k,
        {
            let (x, d) = deltas[k];
            proof {
                assert(deltas@.take(k + 1) =~= deltas@.take(k as int).push((x, d)));
                assert forall|y: T| #[trigger]
                    weight(deltas@.take(k + 1), y) == weight(deltas@.take(k as int), y) + if y
                        == x {
                        d as int
                    } else {
                        0
                    } by {
                    lemma_weight_push(deltas@.take(k as int), (x, d), y);
                }
                assert(i64::MIN <= weight(start, x) + weight(deltas@.take(k + 1), x) <= i64::MAX);
            }
            self.add(x, d);
            k += 1;
        }
        assert(deltas@.take(k as int) =~= deltas@);
        self.rebuild_frontier();
    }

    /// Adds `d` to the count of `x`, leaving the frontier stale.
    fn add(&mut self, x: T, d: i64)
        requires
            distinct_keys(old(self).counts@),
            i64::MIN <= weight(old(self).counts@, x) + d <= i64::MAX,
        ensures
            distinct_keys(final(self).counts@),
            forall|y: T| #[trigger]
                weight(final(self).counts@, y) == weight(old(self).counts@, y) + if y == x {
                    d as int
                } else {
                    0
                },
    {
        let mut i: usize = 0;
        while i < self.counts.len()
            invariant
                i <= self.counts@.len(),
                self.counts@ == old(self).counts@,
                distinct_keys(self.counts@),
                i64::MIN <= weight(self.counts@, x) + d <= i64::MAX,
                forall|j: int| 0 <= j < i ==> (#[trigger] self.counts@[j]).0 != x,
            decreases self.counts@.len() - i,
        {
            if self.counts[i].0.equals(&x) {
                let ghost before = self.counts@;
                proof {
                    assert forall|j: int| 0 <= j < before.len() && j != i implies (#[trigger] before[j]).0
                        != x by {
                        assert(before[j].0 != before[i as int].0);
                    }
                    lemma_weight_single(before, i as int, x);
                }
                let c = self.counts[i].1;
                self.counts.set(i, (x, c + d));
                proof {
                    assert forall|y: T| #[trigger]
                        weight(self.counts@, y) == weight(before, y) + if y == x {
                            d as int
                        } else {
                            0
                        } by {
                        lemma_weight_update(before, i as int, (x, (c + d) as i64), y);
                    }
                    assert forall|a: int, b: int|
                        #![trigger self.counts@[a], self.counts@[b]]
                        0 <= a < self.counts@.len() && 0 <= b < self.counts@.len() && a != b
                            implies self.counts@[a].0 != self.counts@[b].0 by {
                        assert(before[a].0 != before[b].0);
                    }
                }
                return ;
            }
            i += 1;
        }
        let ghost before = self.counts@;
        proof {
            lemma_weight_absent(before, x);
        }
        self.counts.push((x, d));
        proof {
            assert forall|y: T| #[trigger]
                weight(self.counts@, y) == weight(before, y) + if y == x {
                    d as int
                } else {
                    0
                } by {
                lemma_weight_push(before, (x, d), y);
            }
            assert forall|a: int, b: int|
                #![trigger self.counts@[a], self.counts@[b]]
                0 <= a < self.counts@.len() && 0 <= b < self.counts@.len() && a != b
                    implies self.counts@[a].0 != self.counts@[b].0 by {
                if a < before.len() && b < before.len() {
                    assert(before[a].0 != before[b].0);
                }
            }
        }
    }

    /// Sets the frontier to the minimal elements with a positive count.
    fn rebuild_frontier(&mut self)
        requires
            distinct_keys(old(self).counts@),
        ensures
            final(self).wf(),
            final(self).counts@ == old(self).counts@,
    {
        let ghost s = self.counts@;
        proof {
            assert forall|y: T| #[trigger] weight(s, y) > 0 <==> exists|j: int|
                0 <= j < s.len() && (#[trigger] s[j]).0 == y && s[j].1 > 0 by {
                lemma_weight_lookup(s, y);
            }
        }
        let mut minimal: Vec<T> = Vec::new();
        let mut i: usize = 0;
        while i < self.counts.len()
            invariant
                self.counts@ == s,
                distinct_keys(s),
                i <= s.len(),
                forall|y: T| #[trigger] weight(s, y) > 0 <==> exists|j: int|
                    0 <= j < s.len() && (#[trigger] s[j]).0 == y && s[j].1 > 0,
                is_antichain(minimal@),
                forall|y: T| #[trigger] minimal@.contains(y) <==> (exists|j: int|
                    0 <= j < i && (#[trigger] s[j]).0 == y) && minimal_positive(s, y),
            decreases s.len() - i,
        {
            let (x, c) = self.counts[i];
            if c > 0 && self.is_minimal_at(i) {
                proof {
                    assert(minimal_positive(s, x)) by {
                        assert forall|y: T| #[trigger] weight(s, y) > 0 && y.leq(&x) implies y
                            == x by {
                            let j = choose|j: int|
                                0 <= j < s.len() && (#[trigger] s[j]).0 == y && s[j].1 > 0;
                            assert(s[j].0 == y);
                        }
                        assert(s[i as int].0 == x);
                    }
                    assert forall|k: int| 0 <= k < minimal@.len() implies !(#[trigger] minimal@[k]).leq(&x)
                        && !x.leq(&minimal@[k]) by {
                        let m = minimal@[k];
                        assert(minimal@.contains(m));
                        let j = choose|j: int| 0 <= j < i && (#[trigger] s[j]).0 == m;
                        assert(s[j].0 != s[i as int].0);
                    }
                }
                let ghost before = minimal@;
                minimal.push(x);
                proof {
                    assert forall|y: T| #[trigger] minimal@.contains(y) <==> (exists|j: int|
                        0 <= j < i + 1 && (#[trigger] s[j]).0 == y) && minimal_positive(s, y) by {
                        if minimal@.contains(y) && y != x {
                            let k = choose|k: int| 0 <= k < minimal@.len() && minimal@[k] == y;
                            assert(before[k] == y);
                            assert(before.contains(y));
                        }
                        if (exists|j: int| 0 <= j < i + 1 && (#[trigger] s[j]).0 == y)
                            && minimal_positive(s, y) && y != x {
                            let j = choose|j: int| 0 <= j < i + 1 && (#[trigger] s[j]).0 == y;
                            assert(j != i as int);
                            assert(before.contains(y));
                            let k = choose|k: int| 0 <= k < before.len() && before[k] == y;
                            assert(minimal@[k] == y);
                        }
                        if y == x {
                            assert(minimal@[minimal@.len() - 1] == x);
                            assert(s[i as int].0 == x);
                        }
                    }
                }
            } else {
                proof {
                    assert forall|y: T| #[trigger] minimal@.contains(y) <==> (exists|j: int|
                        0 <= j < i + 1 && (#[trigger] s[j]).0 == y) && minimal_positive(s, y) by {
                        if (exists|j: int| 0 <= j < i + 1 && (#[trigger] s[j]).0 == y)
                            && minimal_positive(s, y) {
                            let j = choose|j: int| 0 <= j < i + 1 && (#[trigger] s[j]).0 == y;
                            if j == i as int {
                                assert(weight(s, x) > 0);
                                let jj = choose|jj: int|
                                    0 <= jj < s.len() && (#[trigger] s[jj]).0 == x && s[jj].1 > 0;
                                assert(jj == j);
                                let q = choose|q: int|
                                    0 <= q < s.len() && s[q].1 > 0 && (#[trigger] s[q]).0.leq(&x)
                                        && s[q].0 != x;
                                assert(weight(s, s[q].0) > 0);
                            }
                        }
                    }
                }
            }
            i += 1;
        }
        proof {
            assert forall|y: T| #[trigger] minimal@.contains(y) <==> minimal_positive(s, y) by {
                if minimal_positive(s, y) {
                    let j = choose|j: int| 0 <= j < s.len() && (#[trigger] s[j]).0 == y && s[j].1
                        > 0;
                }
            }
        }
        self.frontier = Antichain::from_vec(minimal);
        assert forall|y: T| #[trigger] self.frontier@.contains(y) <==> self.in_frontier(y) by {
            assert(minimal@.contains(y) <==> minimal_positive(s, y));
            assert(forall|z: T| #[trigger] self.count(z) == weight(s, z));
            if minimal_positive(s, y) {
                assert forall|z: T| #[trigger] self.count(z) > 0 && z.leq(&y) implies z == y by {
                    assert(weight(s, z) > 0);
                }
            }
            if self.in_frontier(y) {
                assert forall|z: T| #[trigger] weight(s, z) > 0 && z.leq(&y) implies z == y by {
                    assert(self.count(z) > 0);
                }
            }
        }
    }

    /// No other element with a positive count lies at or before the element at `i`.
    fn is_minimal_at(&self, i: usize) -> (r: bool)
        requires
            i < self.counts@.len(),
        ensures
            r == !exists|q: int|
                0 <= q < self.counts@.len() && self.counts@[q].1 > 0 && (#[trigger] self.counts@[q]).0.leq(
                    &self.counts@[i as int].0,
                ) && self.counts@[q].0 != self.counts@[i as int].0,
    {
        let x = self.counts[i].0;
        let mut j: usize = 0;
        while j < self.counts.len()
            invariant
                j <= self.counts@.len(),
                x == self.counts@[i as int].0,
                forall|q: int|
                    0 <= q < j ==> !(self.counts@[q].1 > 0 && (#[trigger] self.counts@[q]).0.leq(&x)
                        && self.counts@[q].0 != x),
            decreases self.counts@.len() - j,
        {
            let (y, c) = self.counts[j];
            if c > 0 && y.less_equal(&x) && !y.equals(&x) {
                return false;
            }
            j += 1;
        }
        true
    }
}

} // verus!
