use vstd::prelude::*;

use crate::order::Timestamp;

verus! {

/// The sum of the diffs of the bindings in `s` that satisfy `f`.
pub open spec fn sum_if<T>(s: Seq<(T, u64, i64)>, f: spec_fn((T, u64, i64)) -> bool) -> int
    decreases s.len(),
{
    if s.len() == 0 {
        0
    } else {
        sum_if(s.drop_last(), f) + if f(s.last()) {
            s.last().2 as int
        } else {
            0
        }
    }
}

/// Selects the bindings keyed `(x, t)`.
pub open spec fn has_key<T>(x: T, t: u64) -> spec_fn((T, u64, i64)) -> bool {
    |b: (T, u64, i64)| b.0 == x && b.1 == t
}

/// The accumulated diff of the key `(x, t)` in `s`.
pub open spec fn key_weight<T>(s: Seq<(T, u64, i64)>, x: T, t: u64) -> int {
    sum_if(s, has_key(x, t))
}

/// No key `(x, t)` occurs twice and no diff is zero.
pub open spec fn is_consolidated<T>(s: Seq<(T, u64, i64)>) -> bool {
    &&& forall|i: int, j: int|
        #![trigger s[i], s[j]]
        0 <= i < s.len() && 0 <= j < s.len() && i != j ==> (s[i].0, s[i].1) != (s[j].0, s[j].1)
    &&& forall|i: int| 0 <= i < s.len() ==> (#[trigger] s[i]).2 != 0
}

pub proof fn lemma_sum_if_push<T>(
    s: Seq<(T, u64, i64)>,
    e: (T, u64, i64),
    f: spec_fn((T, u64, i64)) -> bool,
)
    ensures
        sum_if(s.push(e), f) == sum_if(s, f) + if f(e) {
            e.2 as int
        } else {
            0
        },
{
    assert(s.push(e).drop_last() =~= s);
}

pub proof fn lemma_sum_if_concat<T>(
    a: Seq<(T, u64, i64)>,
    b: Seq<(T, u64, i64)>,
    f: spec_fn((T, u64, i64)) -> bool,
)
    ensures
        sum_if(a + b, f) == sum_if(a, f) + sum_if(b, f),
    decreases b.len(),
{
    if b.len() == 0 {
        assert(a + b =~= a);
    } else {
        lemma_sum_if_concat(a, b.drop_last(), f);
        assert((a + b).drop_last() =~= a + b.drop_last());
    }
}

/// Nothing in `s` satisfies `f`.
pub proof fn lemma_sum_if_none<T>(s: Seq<(T, u64, i64)>, f: spec_fn((T, u64, i64)) -> bool)
    requires
        forall|j: int| 0 <= j < s.len() ==> !f(#[trigger] s[j]),
    ensures
        sum_if(s, f) == 0,
    decreases s.len(),
{
    if s.len() > 0 {
        lemma_sum_if_none(s.drop_last(), f);
    }
}

/// Only the binding at `i` satisfies `f`.
pub proof fn lemma_sum_if_single<T>(
    s: Seq<(T, u64, i64)>,
    i: int,
    f: spec_fn((T, u64, i64)) -> bool,
)
    requires
        0 <= i < s.len(),
        f(s[i]),
        forall|j: int| 0 <= j < s.len() && j != i ==> !f(#[trigger] s[j]),
    ensures
        sum_if(s, f) == s[i].2,
    decreases s.len(),
{
    if i == s.len() - 1 {
        lemma_sum_if_none(s.drop_last(), f);
    } else {
        lemma_sum_if_single(s.drop_last(), i, f);
    }
}

pub proof fn lemma_sum_if_update<T>(
    s: Seq<(T, u64, i64)>,
    i: int,
    e: (T, u64, i64),
    f: spec_fn((T, u64, i64)) -> bool,
)
    requires
        0 <= i < s.len(),
    ensures
        sum_if(s.update(i, e), f) == sum_if(s, f) - (if f(s[i]) {
            s[i].2 as int
        } else {
            0
        }) + (if f(e) {
            e.2 as int
        } else {
            0
        }),
    decreases s.len(),
{
    if i == s.len() - 1 {
        assert(s.update(i, e).drop_last() =~= s.drop_last());
    } else {
        lemma_sum_if_update(s.drop_last(), i, e, f);
        assert(s.update(i, e).drop_last() =~= s.drop_last().update(i, e));
    }
}

/// `f` and `g` agree on every binding of `s`.
pub proof fn lemma_sum_if_ext<T>(
    s: Seq<(T, u64, i64)>,
    f: spec_fn((T, u64, i64)) -> bool,
    g: spec_fn((T, u64, i64)) -> bool,
)
    requires
        forall|i: int| 0 <= i < s.len() ==> f(#[trigger] s[i]) == g(s[i]),
    ensures
        sum_if(s, f) == sum_if(s, g),
    decreases s.len(),
{
    if s.len() > 0 {
        lemma_sum_if_ext(s.drop_last(), f, g);
    }
}

/// In a consolidated sequence, the weight of a binding's key is its diff.
pub proof fn lemma_consolidated_weight<T>(s: Seq<(T, u64, i64)>, i: int)
    requires
        is_consolidated(s),
        0 <= i < s.len(),
    ensures
        key_weight(s, s[i].0, s[i].1) == s[i].2,
{
    let f = has_key(s[i].0, s[i].1);
    assert forall|j: int| 0 <= j < s.len() && j != i implies !f(#[trigger] s[j]) by {
        assert((s[i].0, s[i].1) != (s[j].0, s[j].1));
    }
    lemma_sum_if_single(s, i, f);
}

/// Each element of `s` as a binding at internal time `c` with diff `d`.
pub open spec fn stamp<T>(s: Seq<T>, c: u64, d: i64) -> Seq<(T, u64, i64)> {
    s.map_values(|e: T| (e, c, d))
}

/// No element occurs twice.
pub open spec fn no_duplicates<T>(s: Seq<T>) -> bool {
    forall|i: int, j: int|
        #![trigger s[i], s[j]]
        0 <= i < s.len() && 0 <= j < s.len() && i != j ==> s[i] != s[j]
}

pub proof fn lemma_no_duplicates_take<T>(s: Seq<T>, k: int)
    requires
        no_duplicates(s),
        0 <= k <= s.len(),
    ensures
        no_duplicates(s.take(k)),
{
    assert forall|i: int, j: int|
        #![trigger s.take(k)[i], s.take(k)[j]]
        0 <= i < k && 0 <= j < k && i != j implies s.take(k)[i] != s.take(k)[j] by {
        assert(s[i] != s[j]);
    }
}

pub proof fn lemma_key_weight_stamp<T>(s: Seq<T>, c: u64, d: i64, x: T, t: u64)
    requires
        no_duplicates(s),
    ensures
        key_weight(stamp(s, c, d), x, t) == if t == c && s.contains(x) {
            d as int
        } else {
            0
        },
{
    let st = stamp(s, c, d);
    let f = has_key(x, t);
    if t == c && s.contains(x) {
        let i = choose|i: int| 0 <= i < s.len() && s[i] == x;
        assert forall|j: int| 0 <= j < st.len() && j != i implies !f(#[trigger] st[j]) by {
            assert(s[i] != s[j]);
        }
        lemma_sum_if_single(st, i, f);
    } else {
        assert forall|j: int| 0 <= j < st.len() implies !f(#[trigger] st[j]) by {
            if t == c {
                assert(s[j] != x);
            }
        }
        lemma_sum_if_none(st, f);
    }
}

/// Index of the binding keyed `(x, t)` in `acc`, if there is one.
fn find_key<T: Timestamp>(acc: &Vec<(T, u64, i64)>, x: &T, t: u64) -> (r: Option<usize>)
    ensures
        match r {
            Some(i) => i < acc@.len() && acc@[i as int].0 == *x && acc@[i as int].1 == t,
            None => forall|j: int|
                0 <= j < acc@.len() ==> !((#[trigger] acc@[j]).0 == *x && acc@[j].1 == t),
        },
{
    let mut i: usize = 0;
    while i < acc.len()
        invariant
            i <= acc@.len(),
            forall|j: int| 0 <= j < i ==> !((#[trigger] acc@[j]).0 == *x && acc@[j].1 == t),
        decreases acc@.len() - i,
    {
        if acc[i].0.equals(x) && acc[i].1 == t {
            return Some(i);
        }
        i += 1;
    }
    None
}

/// Groups `updates` by `(from, into)`, sums the diffs of each group and
/// drops the groups that sum to zero.
pub fn consolidate<T: Timestamp>(updates: &Vec<(T, u64, i64)>) -> (r: Vec<(T, u64, i64)>)
    requires
        forall|k: int, x: T, t: u64|
            0 <= k <= updates@.len() ==> i64::MIN <= #[trigger] key_weight(updates@.take(k), x, t)
                <= i64::MAX,
    ensures
        is_consolidated(r@),
        forall|x: T, t: u64| #[trigger] key_weight(r@, x, t) == key_weight(updates@, x, t),
{
    let mut acc: Vec<(T, u64, i64)> = Vec::new();
    let mut k: usize = 0;
    while k < updates.len()
        invariant
            k <= updates@.len(),
            forall|i: int, j: int|
                #![trigger acc@[i], acc@[j]]
                0 <= i < acc@.len() && 0 <= j < acc@.len() && i != j ==> (acc@[i].0, acc@[i].1)
                    != (acc@[j].0, acc@[j].1),
            forall|x: T, t: u64| #[trigger]
                key_weight(acc@, x, t) == key_weight(updates@.take(k as int), x, t),
            forall|kk: int, x: T, t: u64|
                0 <= kk <= updates@.len() ==> i64::MIN <= #[trigger] key_weight(
                    updates@.take(kk),
                    x,
                    t,
                ) <= i64::MAX,
        decreases updates@.len() - k,
    {
        let (x, t, d) = updates[k];
        let ghost before = acc@;
        proof {
            assert(updates@.take(k + 1) =~= updates@.take(k as int).push((x, t, d)));
            assert forall|y: T, s: u64| #[trigger]
                key_weight(updates@.take(k + 1), y, s) == key_weight(updates@.take(k as int), y, s)
                    + if y == x && s == t {
                    d as int
                } else {
                    0
                } by {
                lemma_sum_if_push(
                    updates@.take(k as int),
                    (x, t, d),
                    has_key(y, s),
                );
            }
            assert(i64::MIN <= key_weight(updates@.take(k + 1), x, t) <= i64::MAX);
        }
        match find_key(&acc, &x, t) {
            Some(i) => {
                proof {
                    let f = has_key(x, t);
                    assert forall|j: int| 0 <= j < before.len() && j != i implies !f(
                        #[trigger] before[j],
                    ) by {
                        assert((before[j].0, before[j].1) != (before[i as int].0, before[i as int].1));
                    }
                    lemma_sum_if_single(before, i as int, f);
                    assert(key_weight(before, x, t) == key_weight(updates@.take(k as int), x, t));
                }
                let c = acc[i].2;
                acc.set(i, (x, t, c + d));
                proof {
                    assert forall|y: T, s: u64| #[trigger]
                        key_weight(acc@, y, s) == key_weight(updates@.take(k + 1), y, s) by {
                        lemma_sum_if_update(
                            before,
                            i as int,
                            (x, t, (c + d) as i64),
                            has_key(y, s),
                        );
                        assert(key_weight(before, y, s) == key_weight(updates@.take(k as int), y, s));
                    }
                    assert forall|a: int, b: int|
                        #![trigger acc@[a], acc@[b]]
                        0 <= a < acc@.len() && 0 <= b < acc@.len() && a != b implies (
                        acc@[a].0,
                        acc@[a].1,
                    ) != (acc@[b].0, acc@[b].1) by {
                        assert((before[a].0, before[a].1) != (before[b].0, before[b].1));
                    }
                }
            },
            None => {
                acc.push((x, t, d));
                proof {
                    assert forall|y: T, s: u64| #[trigger]
                        key_weight(acc@, y, s) == key_weight(updates@.take(k + 1), y, s) by {
                        lemma_sum_if_push(before, (x, t, d), has_key(y, s));
                        assert(key_weight(before, y, s) == key_weight(updates@.take(k as int), y, s));
                    }
                    assert forall|a: int, b: int|
                        #![trigger acc@[a], acc@[b]]
                        0 <= a < acc@.len() && 0 <= b < acc@.len() && a != b implies (
                        acc@[a].0,
                        acc@[a].1,
                    ) != (acc@[b].0, acc@[b].1) by {
                        if a < before.len() && b < before.len() {
                            assert((before[a].0, before[a].1) != (before[b].0, before[b].1));
                        }
                    }
                }
            },
        }
        k += 1;
    }
    assert(updates@.take(k as int) =~= updates@);
    let mut out: Vec<(T, u64, i64)> = Vec::new();
    let mut i: usize = 0;
    while i < acc.len()
        invariant
            i <= acc@.len(),
            forall|a: int, b: int|
                #![trigger acc@[a], acc@[b]]
                0 <= a < acc@.len() && 0 <= b < acc@.len() && a != b ==> (acc@[a].0, acc@[a].1)
                    != (acc@[b].0, acc@[b].1),
            is_consolidated(out@),
            forall|a: int|
                0 <= a < out@.len() ==> exists|p: int|
                    0 <= p < i && acc@[p] == #[trigger] out@[a],
            forall|x: T, t: u64| #[trigger]
                key_weight(out@, x, t) == key_weight(acc@.take(i as int), x, t),
        decreases acc@.len() - i,
    {
        let e = acc[i];
        let ghost before = out@;
        proof {
            assert(acc@.take(i + 1) =~= acc@.take(i as int).push(e));
            assert forall|y: T, s: u64| #[trigger]
                key_weight(acc@.take(i + 1), y, s) == key_weight(acc@.take(i as int), y, s) + if e.0
                    == y && e.1 == s {
                    e.2 as int
                } else {
                    0
                } by {
                lemma_sum_if_push(acc@.take(i as int), e, has_key(y, s));
            }
        }
        if e.2 != 0 {
            out.push(e);
            proof {
                assert forall|y: T, s: u64| #[trigger]
                    key_weight(out@, y, s) == key_weight(acc@.take(i + 1), y, s) by {
                    lemma_sum_if_push(before, e, has_key(y, s));
                    assert(key_weight(before, y, s) == key_weight(acc@.take(i as int), y, s));
                }
                assert forall|a: int, b: int|
                    #![trigger out@[a], out@[b]]
                    0 <= a < out@.len() && 0 <= b < out@.len() && a != b implies (
                    out@[a].0,
                    out@[a].1,
                ) != (out@[b].0, out@[b].1) by {
                    if a < before.len() && b < before.len() {
                        assert((before[a].0, before[a].1) != (before[b].0, before[b].1));
                    } else if a < before.len() {
                        let p = choose|p: int| 0 <= p < i && acc@[p] == #[trigger] before[a];
                        assert((acc@[p].0, acc@[p].1) != (acc@[i as int].0, acc@[i as int].1));
                    } else if b < before.len() {
                        let p = choose|p: int| 0 <= p < i && acc@[p] == #[trigger] before[b];
                        assert((acc@[p].0, acc@[p].1) != (acc@[i as int].0, acc@[i as int].1));
                    }
                }
                assert forall|a: int| 0 <= a < out@.len() implies exists|p: int|
                    0 <= p < i + 1 && acc@[p] == #[trigger] out@[a] by {
                    if a < before.len() {
                        let p = choose|p: int| 0 <= p < i && acc@[p] == #[trigger] before[a];
                        assert(acc@[p] == out@[a]);
                    } else {
                        assert(acc@[i as int] == out@[a]);
                    }
                }
            }
        } else {
            proof {
                assert forall|y: T, s: u64| #[trigger]
                    key_weight(out@, y, s) == key_weight(acc@.take(i + 1), y, s) by {
                    assert(key_weight(before, y, s) == key_weight(acc@.take(i as int), y, s));
                }
                assert forall|a: int| 0 <= a < out@.len() implies exists|p: int|
                    0 <= p < i + 1 && acc@[p] == #[trigger] out@[a] by {
                    let p = choose|p: int| 0 <= p < i && acc@[p] == #[trigger] out@[a];
                    assert(acc@[p] == out@[a]);
                }
            }
        }
        i += 1;
    }
    assert(acc@.take(i as int) =~= acc@);
    out
}

} // verus!
