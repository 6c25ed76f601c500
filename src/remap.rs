use vstd::prelude::*;

use crate::antichain::{Antichain, dominates, frontier_le, is_antichain};
use crate::consolidation::{
    consolidate,
    has_key,
    is_consolidated,
    key_weight,
    lemma_consolidated_weight,
    lemma_sum_if_concat,
    lemma_sum_if_ext,
    lemma_sum_if_none,
    lemma_sum_if_single,
    sum_if,
};
use crate::order::Timestamp;

verus! {

/// Selects the bindings of the source timestamp `x`.
pub open spec fn from_is<T>(x: T) -> spec_fn((T, u64, i64)) -> bool {
    |b: (T, u64, i64)| b.0 == x
}

/// Selects the bindings of `x` made at or before internal time `t`.
pub open spec fn from_until<T>(x: T, t: u64) -> spec_fn((T, u64, i64)) -> bool {
    |b: (T, u64, i64)| b.0 == x && b.1 <= t
}

/// The count of `x` summed over every binding of `s`.
pub open spec fn total<T>(s: Seq<(T, u64, i64)>, x: T) -> int {
    sum_if(s, from_is(x))
}

/// The count of `x` summed over the bindings of `s` at internal times up to `t`.
pub open spec fn acc_at<T>(s: Seq<(T, u64, i64)>, t: u64, x: T) -> int {
    sum_if(s, from_until(x, t))
}

/// As of internal time `t`, every source timestamp has count 0 or 1, and
/// those with count 1 form an antichain.
pub open spec fn frontier_at<T: Timestamp>(s: Seq<(T, u64, i64)>, t: u64) -> bool {
    &&& forall|x: T| 0 <= #[trigger] acc_at(s, t, x) <= 1
    &&& forall|x: T, y: T|
        #![trigger acc_at(s, t, x), acc_at(s, t, y)]
        acc_at(s, t, x) == 1 && acc_at(s, t, y) == 1 && x.leq(&y) ==> x == y
}

/// The invariant that bindings keep: at every internal time they accumulate
/// into a frontier, and no prefix of the log holds a count outside 0 and 1.
pub open spec fn accumulates_to_frontiers<T: Timestamp>(s: Seq<(T, u64, i64)>) -> bool {
    &&& forall|t: u64| #[trigger] frontier_at(s, t)
    &&& forall|k: int, x: T| 0 <= k <= s.len() ==> 0 <= #[trigger] total(s.take(k), x) <= 1
}

/// Internal times never decrease along `s`.
pub open spec fn times_sorted<T>(s: Seq<(T, u64, i64)>) -> bool {
    forall|i: int, j: int| 0 <= i <= j < s.len() ==> (#[trigger] s[i]).1 <= (#[trigger] s[j]).1
}

/// The bindings of `s` before index `k` are before the frontier `up`, the others at or beyond it.
pub open spec fn splits_at<T>(s: Seq<(T, u64, i64)>, up: Seq<u64>, k: int) -> bool {
    &&& 0 <= k <= s.len()
    &&& forall|j: int| 0 <= j < k ==> !dominates(up, (#[trigger] s[j]).1)
    &&& forall|j: int| k <= j < s.len() ==> dominates(up, (#[trigger] s[j]).1)
}

/// Once every binding lies at or before `t`, the accumulation at `t` is the total.
pub proof fn lemma_acc_at_total<T>(s: Seq<(T, u64, i64)>, t: u64, x: T)
    requires
        forall|i: int| 0 <= i < s.len() ==> (#[trigger] s[i]).1 <= t,
    ensures
        acc_at(s, t, x) == total(s, x),
{
    lemma_sum_if_ext(s, from_until(x, t), from_is(x));
}

/// Appending a consolidated segment at internal time `c` that retracts the
/// frontier `f` of `l` and asserts the antichain `n` leaves bindings that
/// still accumulate to frontiers, with total `n`.
pub proof fn lemma_append_segment<T: Timestamp>(
    l: Seq<(T, u64, i64)>,
    s: Seq<(T, u64, i64)>,
    c: u64,
    f: Seq<T>,
    n: Seq<T>,
)
    requires
        accumulates_to_frontiers(l),
        forall|i: int| 0 <= i < l.len() ==> (#[trigger] l[i]).1 <= c,
        forall|i: int| 0 <= i < s.len() ==> (#[trigger] s[i]).1 == c,
        is_consolidated(s),
        forall|x: T| #[trigger]
            key_weight(s, x, c) == (if n.contains(x) {
                1int
            } else {
                0
            }) - (if f.contains(x) {
                1int
            } else {
                0
            }),
        forall|x: T| #[trigger] f.contains(x) <==> total(l, x) == 1,
        is_antichain(n),
    ensures
        accumulates_to_frontiers(l + s),
        forall|x: T| #[trigger]
            total(l + s, x) == if n.contains(x) {
                1int
            } else {
                0
            },
{
    let ls = l + s;
    assert(l.take(l.len() as int) =~= l);
    assert forall|x: T| total(s, x) == #[trigger] key_weight(s, x, c) by {
        lemma_sum_if_ext(s, from_is(x), has_key(x, c));
    }
    assert forall|x: T| #[trigger]
        total(ls, x) == if n.contains(x) {
            1int
        } else {
            0
        } by {
        lemma_sum_if_concat(l, s, from_is(x));
        assert(0 <= total(l.take(l.len() as int), x) <= 1);
        assert(total(s, x) == key_weight(s, x, c));
        assert(f.contains(x) <==> total(l, x) == 1);
    }
    assert forall|t: u64| #[trigger] frontier_at(ls, t) by {
        assert forall|x: T| #[trigger]
            acc_at(ls, t, x) == if t < c {
                acc_at(l, t, x)
            } else {
                total(ls, x)
            } by {
            lemma_sum_if_concat(l, s, from_until(x, t));
            if t < c {
                assert forall|i: int| 0 <= i < s.len() implies !from_until(x, t)(#[trigger] s[i]) by {}
                lemma_sum_if_none(s, from_until(x, t));
            } else {
                lemma_acc_at_total(l, t, x);
                lemma_sum_if_ext(s, from_until(x, t), has_key(x, c));
                lemma_sum_if_concat(l, s, from_is(x));
                assert(total(s, x) == key_weight(s, x, c));
            }
        }
        assert(frontier_at(l, t));
    }
    assert forall|k: int, x: T| 0 <= k <= ls.len() implies 0 <= #[trigger] total(ls.take(k), x)
        <= 1 by {
        if k <= l.len() {
            assert(ls.take(k) =~= l.take(k));
        } else {
            let j = k - l.len();
            let sj = s.take(j);
            assert(ls.take(k) =~= l + sj);
            lemma_sum_if_concat(l, sj, from_is(x));
            lemma_sum_if_ext(sj, from_is(x), has_key(x, c));
            assert(0 <= total(l.take(l.len() as int), x) <= 1);
            lemma_segment_prefix(s, c, j, x);
            lemma_sum_if_ext(s, from_is(x), has_key(x, c));
            assert(total(s, x) == key_weight(s, x, c));
            assert(f.contains(x) <==> total(l, x) == 1);
        }
    }
}

/// Each binding of `q` moved to internal time `since`.
pub open spec fn advance_to<T>(q: Seq<(T, u64, i64)>, since: u64) -> Seq<(T, u64, i64)> {
    q.map_values(|b: (T, u64, i64)| (b.0, since, b.2))
}

pub proof fn lemma_advance_weight<T>(q: Seq<(T, u64, i64)>, since: u64, x: T, t: u64)
    ensures
        key_weight(advance_to(q, since), x, t) == if t == since {
            total(q, x)
        } else {
            0
        },
    decreases q.len(),
{
    if q.len() > 0 {
        lemma_advance_weight(q.drop_last(), since, x, t);
        assert(advance_to(q, since).drop_last() =~= advance_to(q.drop_last(), since));
    }
}

/// In a consolidated segment at one internal time, a prefix holds each
/// source timestamp's count or nothing of it.
pub proof fn lemma_segment_prefix<T>(s: Seq<(T, u64, i64)>, c: u64, j: int, x: T)
    requires
        is_consolidated(s),
        forall|i: int| 0 <= i < s.len() ==> (#[trigger] s[i]).1 == c,
        0 <= j <= s.len(),
    ensures
        total(s.take(j), x) == 0 || total(s.take(j), x) == total(s, x),
{
    let sj = s.take(j);
    let g = has_key(x, c);
    lemma_sum_if_ext(sj, from_is(x), g);
    lemma_sum_if_ext(s, from_is(x), g);
    if exists|i: int| 0 <= i < j && #[trigger] sj[i].0 == x {
        let i = choose|i: int| 0 <= i < j && #[trigger] sj[i].0 == x;
        assert forall|q: int| 0 <= q < sj.len() && q != i implies !g(#[trigger] sj[q]) by {
            assert((s[i].0, s[i].1) != (s[q].0, s[q].1));
        }
        lemma_sum_if_single(sj, i, g);
        lemma_consolidated_weight(s, i);
    } else {
        assert forall|q: int| 0 <= q < sj.len() implies !g(#[trigger] sj[q]) by {}
        lemma_sum_if_none(sj, g);
    }
}

/// An antichain of `u64` holds at most one element.
pub proof fn lemma_u64_antichain(s: Seq<u64>)
    requires
        is_antichain(s),
    ensures
        s.len() <= 1,
{
    if s.len() > 1 {
        assert(!s[0].leq(&s[1]));
        assert(!s[1].leq(&s[0]));
    }
}

/// Antichains of `u64` with the same elements are equal.
pub proof fn lemma_u64_antichain_eq(a: Seq<u64>, b: Seq<u64>)
    requires
        is_antichain(a),
        is_antichain(b),
        a.to_set() == b.to_set(),
    ensures
        a == b,
{
    lemma_u64_antichain(a);
    lemma_u64_antichain(b);
    if a.len() == 1 {
        assert(a.to_set().contains(a[0]));
        assert(b.contains(a[0]));
    }
    if b.len() == 1 {
        assert(b.to_set().contains(b[0]));
        assert(a.contains(b[0]));
    }
    assert(a =~= b);
}

/// Frontiers of `u64` that lie at or before each other are equal.
pub proof fn lemma_u64_frontier_antisymmetric(a: Seq<u64>, b: Seq<u64>)
    requires
        is_antichain(a),
        is_antichain(b),
        frontier_le(a, b),
        frontier_le(b, a),
    ensures
        a == b,
{
    lemma_u64_antichain(a);
    lemma_u64_antichain(b);
    if a.len() == 1 {
        assert(dominates(b, a[0]));
    }
    if b.len() == 1 {
        assert(dominates(a, b[0]));
    }
    assert(a =~= b);
}

/// A durable, linearizable log of bindings `(from, into, diff)` with an upper
/// frontier in internal time, extended only by compare-and-append.
#[derive(Clone, Debug)]
pub struct RemapLog<T> {
    bindings: Vec<(T, u64, i64)>,
    upper: Antichain<u64>,
}

impl<T: Timestamp> RemapLog<T> {
    /// Every binding appended so far, in order.
    pub closed spec fn log(&self) -> Seq<(T, u64, i64)> {
        self.bindings@
    }

    /// The exclusive upper bound of everything appended.
    pub closed spec fn upper_view(&self) -> Seq<u64> {
        self.upper@
    }

    pub open spec fn wf(&self) -> bool {
        &&& is_antichain(self.upper_view())
        &&& times_sorted(self.log())
        &&& forall|i: int|
            0 <= i < self.log().len() ==> !dominates(self.upper_view(), (#[trigger] self.log()[i]).1)
    }

    /// An empty log whose upper is the least internal time.
    pub fn new() -> (r: Self)
        ensures
            r.wf(),
            r.log() == Seq::<(T, u64, i64)>::empty(),
            r.upper_view() == seq![0u64],
            accumulates_to_frontiers(r.log()),
    {
        let r = RemapLog { bindings: Vec::new(), upper: Antichain::from_elem(0) };
        assert forall|k: int, x: T| 0 <= k <= r.log().len() implies 0 <= #[trigger] total(
            r.log().take(k),
            x,
        ) <= 1 by {
            assert(r.log().take(k).len() == 0);
        }
        r
    }

    /// The current upper frontier.
    pub fn upper(&self) -> (r: Antichain<u64>)
        ensures
            r@ == self.upper_view(),
    {
        self.upper.copy()
    }

    /// The bindings at or beyond `from`, with the current upper.
    pub fn next(&self, from: &Antichain<u64>) -> (r: (Vec<(T, u64, i64)>, Antichain<u64>))
        requires
            self.wf(),
            from.wf(),
        ensures
            exists|k: int|
                splits_at(self.log(), from@, k) && r.0@ == self.log().subrange(
                    k,
                    self.log().len() as int,
                ),
            r.1@ == self.upper_view(),
            r.1.wf(),
    {
        proof {
            lemma_u64_antichain(from@);
        }
        let n = self.bindings.len();
        let mut k: usize = 0;
        while k < n && !from.less_equal(&self.bindings[k].1)
            invariant
                n == self.log().len(),
                k <= n,
                forall|j: int| 0 <= j < k ==> !dominates(from@, (#[trigger] self.log()[j]).1),
            decreases n - k,
        {
            k += 1;
        }
        proof {
            assert forall|j: int| k <= j < n implies dominates(from@, (#[trigger] self.log()[j]).1) by {
                assert(dominates(from@, self.log()[k as int].1));
                assert(self.log()[k as int].1 <= self.log()[j].1);
                assert(from@[0] <= self.log()[k as int].1);
                assert(from@[0].leq(&self.log()[j].1));
            }
        }
        let mut out: Vec<(T, u64, i64)> = Vec::new();
        let mut i: usize = k;
        while i < n
            invariant
                n == self.log().len(),
                k <= i <= n,
                out@ == self.log().subrange(k as int, i as int),
            decreases n - i,
        {
            out.push(self.bindings[i]);
            i += 1;
            assert(out@ =~= self.log().subrange(k as int, i as int));
        }
        assert(splits_at(self.log(), from@, k as int));
        (out, self.upper.copy())
    }

    /// Moves every binding before internal time `since` to `since` and
    /// consolidates them. The log then gives the same accumulation as before
    /// at every time at or beyond `since`, and holds nothing earlier.
    #[verifier::rlimit(40)]
    pub fn compact(&mut self, since: u64)
        requires
            old(self).wf(),
            accumulates_to_frontiers(old(self).log()),
            !dominates(old(self).upper_view(), since),
        ensures
            final(self).wf(),
            accumulates_to_frontiers(final(self).log()),
            final(self).upper_view() == old(self).upper_view(),
            forall|t: u64, x: T|
                since <= t ==> #[trigger] acc_at(final(self).log(), t, x) == acc_at(
                    old(self).log(),
                    t,
                    x,
                ),
            forall|i: int|
                0 <= i < final(self).log().len() ==> since <= (#[trigger] final(self).log()[i]).1,
    {
        let ghost l = self.bindings@;
        let n = self.bindings.len();
        let mut k: usize = 0;
        let mut advanced: Vec<(T, u64, i64)> = Vec::new();
        while k < n && self.bindings[k].1 <= since
            invariant
                n == l.len(),
                self.bindings@ == l,
                k <= n,
                advanced@ == advance_to(l.take(k as int), since),
                forall|j: int| 0 <= j < k ==> (#[trigger] l[j]).1 <= since,
            decreases n - k,
        {
            let b = self.bindings[k];
            advanced.push((b.0, since, b.2));
            k += 1;
            assert(advanced@ =~= advance_to(l.take(k as int), since));
        }
        let ghost p = l.take(k as int);
        let ghost rest = l.subrange(k as int, n as int);
        proof {
            assert forall|j: int| k <= j < n implies since < (#[trigger] l[j]).1 by {
                assert(l[k as int].1 <= l[j].1);
            }
            assert forall|j: int, x: T, t: u64|
                0 <= j <= advanced@.len() implies i64::MIN <= #[trigger] key_weight(
                    advanced@.take(j),
                    x,
                    t,
                ) <= i64::MAX by {
                assert(advanced@.take(j) =~= advance_to(l.take(j), since));
                lemma_advance_weight(l.take(j), since, x, t);
                assert(0 <= total(l.take(j), x) <= 1);
            }
        }
        let mut compacted = consolidate(&advanced);
        let ghost seg = compacted@;
        proof {
            assert forall|q: int| 0 <= q < seg.len() implies (#[trigger] seg[q]).1 == since by {
                lemma_consolidated_weight(seg, q);
                lemma_advance_weight(p, since, seg[q].0, seg[q].1);
            }
            assert forall|x: T| #[trigger] total(seg, x) == total(p, x) by {
                lemma_sum_if_ext(seg, from_is(x), has_key(x, since));
                lemma_advance_weight(p, since, x, since);
                assert(key_weight(seg, x, since) == key_weight(advanced@, x, since));
                assert(advanced@ == advance_to(p, since));
            }
        }
        let mut i: usize = k;
        while i < n
            invariant
                n == l.len(),
                self.bindings@ == l,
                k <= i <= n,
                compacted@ == seg + l.subrange(k as int, i as int),
            decreases n - i,
        {
            compacted.push(self.bindings[i]);
            i += 1;
            assert(compacted@ =~= seg + l.subrange(k as int, i as int));
        }
        self.bindings = compacted;
        proof {
            let nl = self.bindings@;
            assert(nl == seg + rest);
            assert(l =~= p + rest);
            assert forall|t: u64, x: T| since <= t implies #[trigger] acc_at(nl, t, x) == acc_at(
                l,
                t,
                x,
            ) by {
                lemma_sum_if_concat(seg, rest, from_until(x, t));
                lemma_sum_if_concat(p, rest, from_until(x, t));
                lemma_acc_at_total(seg, t, x);
                lemma_acc_at_total(p, t, x);
            }
            assert forall|t: u64| #[trigger] frontier_at(nl, t) by {
                if t < since {
                    assert forall|x: T| #[trigger] acc_at(nl, t, x) == 0 by {
                        assert forall|q: int| 0 <= q < nl.len() implies !from_until(x, t)(
                            #[trigger] nl[q],
                        ) by {
                            if q >= seg.len() {
                                assert(nl[q] == l[k + q - seg.len()]);
                            }
                        }
                        lemma_sum_if_none(nl, from_until(x, t));
                    }
                } else {
                    assert(frontier_at(l, t));
                }
            }
            assert forall|j: int, x: T| 0 <= j <= nl.len() implies 0 <= #[trigger] total(
                nl.take(j),
                x,
            ) <= 1 by {
                assert(0 <= total(l.take(k as int), x) <= 1);
                assert(total(seg, x) == total(p, x));
                if j <= seg.len() {
                    assert(nl.take(j) =~= seg.take(j));
                    lemma_segment_prefix(seg, since, j, x);
                } else {
                    let m = j - seg.len();
                    assert(nl.take(j) =~= seg + rest.take(m));
                    assert(l.take(k + m) =~= p + rest.take(m));
                    lemma_sum_if_concat(seg, rest.take(m), from_is(x));
                    lemma_sum_if_concat(p, rest.take(m), from_is(x));
                    assert(0 <= total(l.take(k + m), x) <= 1);
                }
            }
            assert forall|q: int| 0 <= q < nl.len() implies since <= (#[trigger] nl[q]).1 by {
                if q >= seg.len() {
                    assert(nl[q] == l[k + q - seg.len()]);
                }
            }
            assert forall|a: int, b: int| 0 <= a <= b < nl.len() implies (#[trigger] nl[a]).1
                <= (#[trigger] nl[b]).1 by {
                if a >= seg.len() {
                    assert(nl[a] == l[k + a - seg.len()]);
                }
                if b >= seg.len() {
                    assert(nl[b] == l[k + b - seg.len()]);
                }
            }
            assert forall|q: int| 0 <= q < nl.len() implies !dominates(
                self.upper_view(),
                (#[trigger] nl[q]).1,
            ) by {
                if q >= seg.len() {
                    assert(nl[q] == l[k + q - seg.len()]);
                }
            }
        }
    }

    /// Appends `updates` and moves the upper from `expected` to `new_upper`,
    /// only if the upper is currently `expected`. Otherwise nothing changes
    /// and the current upper is returned.
    pub fn compare_and_append(
        &mut self,
        updates: Vec<(T, u64, i64)>,
        expected: &Antichain<u64>,
        new_upper: &Antichain<u64>,
    ) -> (r: Result<(), Antichain<u64>>)
        requires
            old(self).wf(),
            expected.wf(),
            new_upper.wf(),
            frontier_le(expected@, new_upper@),
            times_sorted(updates@),
            forall|i: int|
                0 <= i < updates@.len() ==> dominates(expected@, (#[trigger] updates@[i]).1)
                    && !dominates(new_upper@, updates@[i].1),
        ensures
            final(self).wf(),
            match r {
                Ok(()) => old(self).upper_view() == expected@ && final(self).log() == old(self).log()
                    + updates@ && final(self).upper_view() == new_upper@,
                Err(current) => old(self).upper_view() != expected@ && *final(self) == *old(self)
                    && current@ == old(self).upper_view() && current.wf(),
            },
    {
        if !self.upper.same_elements(expected) {
            proof {
                if self.upper@ == expected@ {
                    assert(self.upper@.to_set() == expected@.to_set());
                }
            }
            return Err(self.upper.copy());
        }
        proof {
            lemma_u64_antichain_eq(self.upper@, expected@);
            lemma_u64_antichain(expected@);
            lemma_u64_antichain(new_upper@);
        }
        let ghost prev = self.bindings@;
        let mut updates = updates;
        self.bindings.append(&mut updates);
        self.upper = new_upper.copy();
        proof {
            assert forall|i: int, j: int| 0 <= i <= j < self.log().len() implies (#[trigger] self.log()[i]).1
                <= (#[trigger] self.log()[j]).1 by {
                if i < prev.len() && j >= prev.len() {
                    let u = self.log()[j];
                    assert(dominates(expected@, u.1));
                    assert(!dominates(expected@, prev[i].1));
                }
            }
            assert forall|i: int| 0 <= i < self.log().len() implies !dominates(
                self.upper_view(),
                (#[trigger] self.log()[i]).1,
            ) by {
                if i < prev.len() {
                    assert(!dominates(expected@, prev[i].1));
                    if new_upper@.len() == 1 {
                        assert(dominates(expected@, new_upper@[0]));
                    }
                }
            }
        }
        Ok(())
    }
}

} // verus!
