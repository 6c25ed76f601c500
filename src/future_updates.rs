use vstd::prelude::*;

verus! {

/// The updates scheduled at time `t` in `s`.
pub open spec fn scheduled_at<U>(s: Seq<(u64, Seq<U>)>, t: u64) -> Seq<U>
    decreases s.len(),
{
    if s.len() == 0 {
        Seq::empty()
    } else if s.last().0 == t {
        s.last().1
    } else {
        scheduled_at(s.drop_last(), t)
    }
}

/// Every update of `s`, time by time.
pub open spec fn flatten<U>(s: Seq<(u64, Seq<U>)>) -> Seq<U>
    decreases s.len(),
{
    if s.len() == 0 {
        Seq::empty()
    } else {
        flatten(s.drop_last()) + s.last().1
    }
}

/// Times strictly increase along `s` and no time holds an empty list.
pub open spec fn schedule_wf<U>(s: Seq<(u64, Seq<U>)>) -> bool {
    &&& forall|i: int, j: int| 0 <= i < j < s.len() ==> (#[trigger] s[i]).0 < (#[trigger] s[j]).0
    &&& forall|i: int| 0 <= i < s.len() ==> (#[trigger] s[i]).1.len() > 0
}

proof fn lemma_scheduled_lookup<U>(s: Seq<(u64, Seq<U>)>, t: u64)
    requires
        schedule_wf(s),
    ensures
        forall|i: int| 0 <= i < s.len() && (#[trigger] s[i]).0 == t ==> scheduled_at(s, t) == s[i].1,
        (forall|i: int| 0 <= i < s.len() ==> (#[trigger] s[i]).0 != t) ==> scheduled_at(s, t)
            == Seq::<U>::empty(),
    decreases s.len(),
{
    if s.len() > 0 {
        let p = s.drop_last();
        assert(schedule_wf(p)) by {
            assert forall|i: int, j: int| 0 <= i < j < p.len() implies (#[trigger] p[i]).0 < (
            #[trigger] p[j]).0 by {
                assert(s[i] == p[i] && s[j] == p[j]);
            }
            assert forall|i: int| 0 <= i < p.len() implies (#[trigger] p[i]).1.len() > 0 by {
                assert(s[i] == p[i]);
            }
        }
        lemma_scheduled_lookup(p, t);
        assert forall|i: int| 0 <= i < s.len() && (#[trigger] s[i]).0 == t implies scheduled_at(
            s,
            t,
        ) == s[i].1 by {
            if i < s.len() - 1 {
                assert(s[i].0 < s[s.len() - 1].0);
                assert(p[i] == s[i]);
            }
        }
        if forall|i: int| 0 <= i < s.len() ==> (#[trigger] s[i]).0 != t {
            assert forall|i: int| 0 <= i < p.len() implies (#[trigger] p[i]).0 != t by {
                assert(p[i] == s[i]);
            }
        }
    }
}

proof fn lemma_schedule_update<U>(s: Seq<(u64, Seq<U>)>, i: int, v: Seq<U>)
    requires
        schedule_wf(s),
        0 <= i < s.len(),
        v.len() > 0,
    ensures
        schedule_wf(s.update(i, (s[i].0, v))),
        forall|t: u64| #[trigger]
            scheduled_at(s.update(i, (s[i].0, v)), t) == if t == s[i].0 {
                v
            } else {
                scheduled_at(s, t)
            },
{
    let n = s.update(i, (s[i].0, v));
    assert forall|a: int, b: int| 0 <= a < b < n.len() implies (#[trigger] n[a]).0 < (
    #[trigger] n[b]).0 by {
        assert(s[a].0 < s[b].0);
    }
    assert forall|t: u64| #[trigger]
        scheduled_at(n, t) == if t == s[i].0 {
            v
        } else {
            scheduled_at(s, t)
        } by {
        lemma_scheduled_lookup(s, t);
        lemma_scheduled_lookup(n, t);
        assert(n[i].0 == s[i].0);
        if t != s[i].0 && exists|j: int| 0 <= j < s.len() && (#[trigger] s[j]).0 == t {
            let j = choose|j: int| 0 <= j < s.len() && (#[trigger] s[j]).0 == t;
            assert(n[j].0 == t);
        }
    }
}

proof fn lemma_schedule_insert<U>(s: Seq<(u64, Seq<U>)>, i: int, time: u64, v: Seq<U>)
    requires
        schedule_wf(s),
        0 <= i <= s.len(),
        forall|j: int| 0 <= j < i ==> (#[trigger] s[j]).0 < time,
        i < s.len() ==> s[i].0 > time,
        v.len() > 0,
    ensures
        schedule_wf(s.insert(i, (time, v))),
        forall|t: u64| #[trigger]
            scheduled_at(s.insert(i, (time, v)), t) == if t == time {
                v
            } else {
                scheduled_at(s, t)
            },
{
    let n = s.insert(i, (time, v));
    assert forall|a: int, b: int| 0 <= a < b < n.len() implies (#[trigger] n[a]).0 < (
    #[trigger] n[b]).0 by {
        if b > i {
            assert(n[b] == s[b - 1]);
            if b - 1 > i {
                assert(s[i].0 < s[b - 1].0);
            }
        }
        if a > i {
            assert(n[a] == s[a - 1]);
        }
        if a < i {
            assert(n[a] == s[a]);
        }
        if b < i {
            assert(n[b] == s[b]);
        }
    }
    assert forall|a: int| 0 <= a < n.len() implies (#[trigger] n[a]).1.len() > 0 by {
        if a > i {
            assert(n[a] == s[a - 1]);
        } else if a < i {
            assert(n[a] == s[a]);
        }
    }
    assert forall|t: u64| #[trigger]
        scheduled_at(n, t) == if t == time {
            v
        } else {
            scheduled_at(s, t)
        } by {
        lemma_scheduled_lookup(s, t);
        lemma_scheduled_lookup(n, t);
        assert(n[i].0 == time);
        if t != time {
            if exists|j: int| 0 <= j < s.len() && (#[trigger] s[j]).0 == t {
                let j = choose|j: int| 0 <= j < s.len() && (#[trigger] s[j]).0 == t;
                if j < i {
                    assert(n[j] == s[j]);
                } else {
                    assert(n[j + 1] == s[j]);
                }
            } else {
                assert forall|j: int| 0 <= j < n.len() implies (#[trigger] n[j]).0 != t by {
                    if j < i {
                        assert(n[j] == s[j]);
                    } else if j > i {
                        assert(n[j] == s[j - 1]);
                    }
                }
            }
        }
    }
}

/// Updates held back until a given time, handed out in time order and, at
/// one time, in the order they were scheduled.
pub struct FutureUpdates<U> {
    updates: Vec<(u64, Vec<U>)>,
}

impl<U> View for FutureUpdates<U> {
    type V = Seq<(u64, Seq<U>)>;

    closed spec fn view(&self) -> Seq<(u64, Seq<U>)> {
        self.updates@.map_values(|e: (u64, Vec<U>)| (e.0, e.1@))
    }
}

impl<U> FutureUpdates<U> {
    pub open spec fn wf(&self) -> bool {
        schedule_wf(self@)
    }

    /// Nothing scheduled.
    pub fn new() -> (r: Self)
        ensures
            r.wf(),
            r@ == Seq::<(u64, Seq<U>)>::empty(),
    {
        let r = FutureUpdates { updates: Vec::new() };
        assert(r@ =~= Seq::<(u64, Seq<U>)>::empty());
        r
    }

    /// Schedules `update` to be handed out at `time`, after those already
    /// scheduled then.
    pub fn insert(&mut self, time: u64, update: U)
        requires
            old(self).wf(),
        ensures
            final(self).wf(),
            forall|t: u64| #[trigger]
                scheduled_at(final(self)@, t) == if t == time {
                    scheduled_at(old(self)@, t).push(update)
                } else {
                    scheduled_at(old(self)@, t)
                },
    {
        let ghost s = self@;
        let mut i: usize = 0;
        while i < self.updates.len() && self.updates[i].0 < time
            invariant
                self@ == s,
                i <= s.len(),
                forall|j: int| 0 <= j < i ==> (#[trigger] s[j]).0 < time,
            decreases s.len() - i,
        {
            i += 1;
        }
        proof {
            lemma_scheduled_lookup(s, time);
        }
        if i < self.updates.len() && self.updates[i].0 == time {
            let (t, mut v) = self.updates.remove(i);
            v.push(update);
            self.updates.insert(i, (t, v));
            proof {
                assert(self@ =~= s.update(i as int, (time, s[i as int].1.push(update))));
                lemma_schedule_update(s, i as int, s[i as int].1.push(update));
            }
        } else {
            let mut v: Vec<U> = Vec::new();
            v.push(update);
            self.updates.insert(i, (time, v));
            proof {
                assert(self@ =~= s.insert(i as int, (time, seq![update])));
                if i < s.len() {
                    assert(s[i as int].0 > time);
                }
                lemma_schedule_insert(s, i as int, time, seq![update]);
                assert forall|j: int| 0 <= j < s.len() implies (#[trigger] s[j]).0 != time by {
                    if j >= i {
                        assert(s[j].0 >= s[i as int].0);
                    }
                }
                assert(seq![update] =~= Seq::<U>::empty().push(update));
            }
        }
    }

    /// Removes and returns every update scheduled at or before `time`, in
    /// time order.
    pub fn retrieve(&mut self, time: u64) -> (r: Vec<U>)
        requires
            old(self).wf(),
        ensures
            final(self).wf(),
            exists|k: int|
                0 <= k <= old(self)@.len() && (forall|j: int|
                    0 <= j < k ==> (#[trigger] old(self)@[j]).0 <= time) && (forall|j: int|
                    k <= j < old(self)@.len() ==> (#[trigger] old(self)@[j]).0 > time)
                    && final(self)@ == old(self)@.skip(k) && r@ == flatten(old(self)@.take(k)),
    {
        let ghost s = self@;
        let mut out: Vec<U> = Vec::new();
        let ghost mut k: int = 0;
        while self.updates.len() > 0 && self.updates[0].0 <= time
            invariant
                0 <= k <= s.len(),
                schedule_wf(s),
                self@ == s.skip(k),
                out@ == flatten(s.take(k)),
                forall|j: int| 0 <= j < k ==> (#[trigger] s[j]).0 <= time,
            decreases self.updates@.len(),
        {
            let ghost before = self.updates@;
            proof {
                assert(self@.len() == before.len());
                assert(k < s.len());
                assert(self@[0] == s[k]);
            }
            let (_t, mut v) = self.updates.remove(0);
            let ghost vv = v@;
            out.append(&mut v);
            proof {
                assert(vv == s[k].1);
                assert(s.take(k + 1).drop_last() =~= s.take(k));
                assert forall|j: int| 0 <= j < self@.len() implies self@[j] == s.skip(k + 1)[j] by {
                    assert(self.updates@[j] == before[j + 1]);
                    assert(s.skip(k)[j + 1] == s.skip(k + 1)[j]);
                }
                assert(self@ =~= s.skip(k + 1));
                k = k + 1;
            }
        }
        proof {
            assert forall|j: int| k <= j < s.len() implies (#[trigger] s[j]).0 > time by {
                if j > k {
                    assert(s[k].0 < s[j].0);
                }
                assert(s.skip(k)[0] == s[k]);
            }
            assert forall|a: int, b: int| 0 <= a < b < self@.len() implies (#[trigger] self@[a]).0
                < (#[trigger] self@[b]).0 by {
                assert(self@[a] == s[a + k] && self@[b] == s[b + k]);
            }
            assert forall|a: int| 0 <= a < self@.len() implies (#[trigger] self@[a]).1.len() > 0 by {
                assert(self@[a] == s[a + k]);
            }
        }
        out
    }
}

} // verus!
