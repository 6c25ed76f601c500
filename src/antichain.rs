use vstd::prelude::*;

use crate::order::{Timestamp, lt};

verus! {

/// No element of `s` is less than or equal to another element of `s`.
pub open spec fn is_antichain<T: Timestamp>(s: Seq<T>) -> bool {
    forall|i: int, j: int|
        #![trigger s[i], s[j]]
        0 <= i < s.len() && 0 <= j < s.len() && i != j ==> !s[i].leq(&s[j])
}

/// Some element of `s` is less than or equal to `t`: `t` is at or beyond the frontier `s`.
pub open spec fn dominates<T: Timestamp>(s: Seq<T>, t: T) -> bool {
    exists|i: int| 0 <= i < s.len() && (#[trigger] s[i]).leq(&t)
}

/// Some element of `s` is strictly less than `t`.
pub open spec fn strictly_dominates<T: Timestamp>(s: Seq<T>, t: T) -> bool {
    exists|i: int| 0 <= i < s.len() && lt(&(#[trigger] s[i]), &t)
}

/// Frontier `a` is at or before frontier `b`: every element of `b` is dominated by `a`.
pub open spec fn frontier_le<T: Timestamp>(a: Seq<T>, b: Seq<T>) -> bool {
    forall|j: int| 0 <= j < b.len() ==> dominates(a, #[trigger] b[j])
}

/// Frontier `a` is strictly before frontier `b`.
pub open spec fn frontier_lt<T: Timestamp>(a: Seq<T>, b: Seq<T>) -> bool {
    frontier_le(a, b) && a.to_set() != b.to_set()
}

/// The elements of an antichain are distinct.
pub proof fn lemma_antichain_distinct<T: Timestamp>(s: Seq<T>)
    requires
        is_antichain(s),
    ensures
        forall|i: int, j: int|
            #![trigger s[i], s[j]]
            0 <= i < s.len() && 0 <= j < s.len() && i != j ==> s[i] != s[j],
{
    assert forall|i: int, j: int|
        #![trigger s[i], s[j]]
        0 <= i < s.len() && 0 <= j < s.len() && i != j implies s[i] != s[j] by {
        T::reflexive(&s[i]);
    }
}

/// A time at or beyond `b` is at or beyond every frontier before `b`.
pub proof fn lemma_dominates_trans<T: Timestamp>(a: Seq<T>, b: Seq<T>, t: T)
    requires
        frontier_le(a, b),
        dominates(b, t),
    ensures
        dominates(a, t),
{
    let j = choose|j: int| 0 <= j < b.len() && (#[trigger] b[j]).leq(&t);
    assert(dominates(a, b[j]));
    let i = choose|i: int| 0 <= i < a.len() && (#[trigger] a[i]).leq(&b[j]);
    T::transitive(&a[i], &b[j], &t);
}

pub proof fn lemma_frontier_le_trans<T: Timestamp>(a: Seq<T>, b: Seq<T>, c: Seq<T>)
    requires
        frontier_le(a, b),
        frontier_le(b, c),
    ensures
        frontier_le(a, c),
{
    assert forall|j: int| 0 <= j < c.len() implies dominates(a, #[trigger] c[j]) by {
        lemma_dominates_trans(a, b, c[j]);
    }
}

pub proof fn lemma_frontier_le_refl<T: Timestamp>(a: Seq<T>)
    ensures
        frontier_le(a, a),
{
    assert forall|j: int| 0 <= j < a.len() implies dominates(a, #[trigger] a[j]) by {
        T::reflexive(&a[j]);
    }
}

/// Replacing the smaller frontier by one holding all its elements keeps the order.
pub proof fn lemma_frontier_le_superset<T: Timestamp>(a: Seq<T>, a2: Seq<T>, b: Seq<T>)
    requires
        frontier_le(a, b),
        forall|x: T| a.contains(x) ==> #[trigger] a2.contains(x),
    ensures
        frontier_le(a2, b),
{
    assert forall|j: int| 0 <= j < b.len() implies dominates(a2, #[trigger] b[j]) by {
        assert(dominates(a, b[j]));
        let i = choose|i: int| 0 <= i < a.len() && (#[trigger] a[i]).leq(&b[j]);
        assert(a.contains(a[i]));
        assert(a2.contains(a[i]));
        let i2 = choose|i2: int| 0 <= i2 < a2.len() && a2[i2] == a[i];
        assert(a2[i2].leq(&b[j]));
    }
}

/// A set of mutually incomparable timestamps: the frontier of a computation.
#[derive(Clone, Debug, PartialEq, Eq)]
pub struct Antichain<T> {
    elements: Vec<T>,
}

impl<T> View for Antichain<T> {
    type V = Seq<T>;

    closed spec fn view(&self) -> Seq<T> {
        self.elements@
    }
}

impl<T: Timestamp> Antichain<T> {
    pub open spec fn wf(&self) -> bool {
        is_antichain(self@)
    }

    /// The empty frontier: nothing remains to happen.
    pub fn new() -> (r: Self)
        ensures
            r@ == Seq::<T>::empty(),
            r.wf(),
    {
        Antichain { elements: Vec::new() }
    }

    /// The frontier holding the single element `x`.
    pub fn from_elem(x: T) -> (r: Self)
        ensures
            r@ == seq![x],
            r.wf(),
    {
        let mut elements: Vec<T> = Vec::new();
        elements.push(x);
        Antichain { elements }
    }

    /// The frontier holding the elements of `v`, in that order.
    pub(crate) fn from_vec(v: Vec<T>) -> (r: Self)
        requires
            is_antichain(v@),
        ensures
            r@ == v@,
            r.wf(),
    {
        Antichain { elements: v }
    }

    pub fn elements(&self) -> (r: &Vec<T>)
        ensures
            r@ == self@,
    {
        &self.elements
    }

    pub fn len(&self) -> (r: usize)
        ensures
            r == self@.len(),
    {
        self.elements.len()
    }

    pub fn is_empty(&self) -> (r: bool)
        ensures
            r == (self@.len() == 0),
    {
        self.elements.len() == 0
    }

    /// A copy holding the same elements in the same order.
    pub fn copy(&self) -> (r: Self)
        ensures
            r@ == self@,
    {
        let mut elements: Vec<T> = Vec::new();
        let mut i: usize = 0;
        while i < self.elements.len()
            invariant
                i <= self.elements@.len(),
                elements@ == self.elements@.take(i as int),
            decreases self.elements@.len() - i,
        {
            elements.push(self.elements[i]);
            i += 1;
            assert(elements@ =~= self.elements@.take(i as int));
        }
        assert(self.elements@.take(i as int) =~= self.elements@);
        Antichain { elements }
    }

    /// Some element is less than or equal to `t`.
    pub fn less_equal(&self, t: &T) -> (r: bool)
        ensures
            r == dominates(self@, *t),
    {
        let mut i: usize = 0;
        while i < self.elements.len()
            invariant
                i <= self@.len(),
                forall|k: int| 0 <= k < i ==> !(#[trigger] self@[k]).leq(t),
            decreases self@.len() - i,
        {
            if self.elements[i].less_equal(t) {
                return true;
            }
            i += 1;
        }
        false
    }

    /// Some element is strictly less than `t`.
    pub fn less_than(&self, t: &T) -> (r: bool)
        ensures
            r == strictly_dominates(self@, *t),
    {
        let mut i: usize = 0;
        while i < self.elements.len()
            invariant
                i <= self@.len(),
                forall|k: int| 0 <= k < i ==> !lt(&(#[trigger] self@[k]), t),
            decreases self@.len() - i,
        {
            if self.elements[i].less_equal(t) && !self.elements[i].equals(t) {
                return true;
            }
            i += 1;
        }
        false
    }

    /// This frontier is at or before `other`.
    pub fn frontier_less_equal(&self, other: &Antichain<T>) -> (r: bool)
        ensures
            r == frontier_le(self@, other@),
    {
        let mut j: usize = 0;
        while j < other.elements.len()
            invariant
                j <= other@.len(),
                forall|k: int| 0 <= k < j ==> dominates(self@, #[trigger] other@[k]),
            decreases other@.len() - j,
        {
            if !self.less_equal(&other.elements[j]) {
                return false;
            }
            j += 1;
        }
        true
    }

    /// Both frontiers hold the same set of elements.
    pub fn same_elements(&self, other: &Antichain<T>) -> (r: bool)
        ensures
            r == (self@.to_set() == other@.to_set()),
    {
        let a = self.contains_all(other);
        let b = other.contains_all(self);
        proof {
            if a && b {
                assert(self@.to_set() =~= other@.to_set());
            }
            if self@.to_set() == other@.to_set() {
                assert forall|k: int| 0 <= k < other@.len() implies self@.contains(
                    #[trigger] other@[k],
                ) by {
                    assert(other@.to_set().contains(other@[k]));
                }
                assert forall|k: int| 0 <= k < self@.len() implies other@.contains(
                    #[trigger] self@[k],
                ) by {
                    assert(self@.to_set().contains(self@[k]));
                }
            }
        }
        a && b
    }

    fn contains_all(&self, other: &Antichain<T>) -> (r: bool)
        ensures
            r == (forall|k: int| 0 <= k < other@.len() ==> self@.contains(#[trigger] other@[k])),
    {
        let mut j: usize = 0;
        while j < other.elements.len()
            invariant
                j <= other@.len(),
                forall|k: int| 0 <= k < j ==> self@.contains(#[trigger] other@[k]),
            decreases other@.len() - j,
        {
            if !self.contains(&other.elements[j]) {
                return false;
            }
            j += 1;
        }
        true
    }

    /// `x` is one of the elements.
    pub fn contains(&self, x: &T) -> (r: bool)
        ensures
            r == self@.contains(*x),
    {
        let mut i: usize = 0;
        while i < self.elements.len()
            invariant
                i <= self@.len(),
                forall|k: int| 0 <= k < i ==> self@[k] != *x,
            decreases self@.len() - i,
        {
            if self.elements[i].equals(x) {
                return true;
            }
            i += 1;
        }
        false
    }

    /// This frontier is strictly before `other`.
    pub fn frontier_less_than(&self, other: &Antichain<T>) -> (r: bool)
        ensures
            r == frontier_lt(self@, other@),
    {
        self.frontier_less_equal(other) && !self.same_elements(other)
    }

    /// Adds `x` unless an element already lies at or before it; in that case
    /// nothing changes. Otherwise every element at or beyond `x` is removed.
    /// Returns whether `x` was added.
    pub fn insert(&mut self, x: T) -> (r: bool)
        requires
            old(self).wf(),
        ensures
            final(self).wf(),
            r == !dominates(old(self)@, x),
            !r ==> final(self)@ == old(self)@,
            r ==> forall|e: T|
                #[trigger] final(self)@.contains(e) <==> (e == x || (old(self)@.contains(e)
                    && !x.leq(&e))),
    {
        if self.less_equal(&x) {
            return false;
        }
        let ghost prev = self@;
        let mut kept: Vec<T> = Vec::new();
        let mut i: usize = 0;
        while i < self.elements.len()
            invariant
                self@ == prev,
                is_antichain(prev),
                !dominates(prev, x),
                i <= prev.len(),
                is_antichain(kept@),
                forall|k: int|
                    0 <= k < kept@.len() ==> exists|p: int|
                        0 <= p < i && prev[p] == #[trigger] kept@[k],
                forall|e: T|
                    #[trigger] kept@.contains(e) <==> (exists|p: int|
                        0 <= p < i && prev[p] == e) && !x.leq(&e),
            decreases prev.len() - i,
        {
            let e = self.elements[i];
            if !x.less_equal(&e) {
                proof {
                    assert forall|k: int| 0 <= k < kept@.len() implies !(#[trigger] kept@[k]).leq(
                        &e,
                    ) && !e.leq(&kept@[k]) by {
                        let p = choose|p: int| 0 <= p < i && prev[p] == kept@[k];
                        assert(prev[p] == kept@[k]);
                        assert(p != i as int);
                    }
                }
                let ghost before = kept@;
                kept.push(e);
                proof {
                    assert forall|f: T|
                        #[trigger] kept@.contains(f) <==> (exists|p: int|
                            0 <= p < i + 1 && prev[p] == f) && !x.leq(&f) by {
                        if kept@.contains(f) {
                            let k = choose|k: int| 0 <= k < kept@.len() && kept@[k] == f;
                            if k < before.len() {
                                assert(before[k] == f);
                                assert(before.contains(f));
                            }
                        }
                        if (exists|p: int| 0 <= p < i + 1 && prev[p] == f) && !x.leq(&f) {
                            let p = choose|p: int| 0 <= p < i + 1 && prev[p] == f;
                            if p < i {
                                assert(before.contains(f));
                                let k = choose|k: int| 0 <= k < before.len() && before[k] == f;
                                assert(kept@[k] == f);
                            } else {
                                assert(kept@[kept@.len() - 1] == f);
                            }
                        }
                    }
                }
            } else {
                proof {
                    assert forall|f: T|
                        #[trigger] kept@.contains(f) <==> (exists|p: int|
                            0 <= p < i + 1 && prev[p] == f) && !x.leq(&f) by {
                        if (exists|p: int| 0 <= p < i + 1 && prev[p] == f) && !x.leq(&f) {
                            let p = choose|p: int| 0 <= p < i + 1 && prev[p] == f;
                            assert(p != i as int);
                        }
                    }
                }
            }
            i += 1;
        }
        proof {
            assert forall|k: int| 0 <= k < kept@.len() implies !(#[trigger] kept@[k]).leq(&x)
                && !x.leq(&kept@[k]) by {
                assert(kept@.contains(kept@[k]));
            }
        }
        let ghost pre = kept@;
        kept.push(x);
        self.elements = kept;
        proof {
            assert forall|e: T|
                #[trigger] self@.contains(e) <==> (e == x || (prev.contains(e) && !x.leq(&e))) by {
                if self@.contains(e) && e != x {
                    let k = choose|k: int| 0 <= k < self@.len() && self@[k] == e;
                    assert(pre[k] == e);
                    assert(pre.contains(e));
                }
                if prev.contains(e) && !x.leq(&e) {
                    let p = choose|p: int| 0 <= p < prev.len() && prev[p] == e;
                    assert(pre.contains(e));
                    let k = choose|k: int| 0 <= k < pre.len() && pre[k] == e;
                    assert(self@[k] == e);
                }
                if e == x {
                    assert(self@[self@.len() - 1] == x);
                }
            }
        }
        true
    }
}

} // verus!
