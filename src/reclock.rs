use vstd::prelude::*;

use crate::antichain::{
    Antichain,
    dominates,
    frontier_le,
    frontier_lt,
    is_antichain,
    lemma_antichain_distinct,
    lemma_dominates_trans,
    lemma_frontier_le_refl,
    lemma_frontier_le_trans,
};
use crate::consolidation::{
    consolidate,
    has_key,
    is_consolidated,
    key_weight,
    lemma_consolidated_weight,
    lemma_key_weight_stamp,
    lemma_no_duplicates_take,
    lemma_sum_if_concat,
    no_duplicates,
    stamp,
    sum_if,
};
use crate::mutable_antichain::{MutableAntichain, weight};
use crate::order::Timestamp;
use crate::remap::{
    RemapLog,
    accumulates_to_frontiers,
    from_is,
    acc_at,
    frontier_at,
    lemma_acc_at_total,
    lemma_append_segment,
    lemma_u64_antichain,
    times_sorted,
    lemma_u64_antichain_eq,
    lemma_u64_frontier_antisymmetric,
    splits_at,
    total,
};

verus! {

/// The bindings read or written in one step, and the upper reached.
#[derive(Clone, Debug, PartialEq)]
pub struct ReclockBatch<T> {
    pub updates: Vec<(T, u64, i64)>,
    pub upper: Antichain<u64>,
}

/// Each binding as its source timestamp and diff.
pub open spec fn project<T>(s: Seq<(T, u64, i64)>) -> Seq<(T, i64)> {
    s.map_values(|b: (T, u64, i64)| (b.0, b.2))
}

pub proof fn lemma_weight_project<T>(s: Seq<(T, u64, i64)>, x: T)
    ensures
        weight(project(s), x) == total(s, x),
    decreases s.len(),
{
    if s.len() > 0 {
        lemma_weight_project(s.drop_last(), x);
        assert(project(s).drop_last() =~= project(s.drop_last()));
    }
}

/// At most one index splits a sequence at a frontier.
pub proof fn lemma_splits_unique<T>(s: Seq<(T, u64, i64)>, up: Seq<u64>, k: int, m: int)
    requires
        splits_at(s, up, k),
        splits_at(s, up, m),
    ensures
        k == m,
{
    if k < m {
        assert(dominates(up, s[k].1));
    }
    if m < k {
        assert(dominates(up, s[m].1));
    }
}

/// A later frontier splits a sequence no earlier.
pub proof fn lemma_splits_monotone<T>(
    s: Seq<(T, u64, i64)>,
    a: Seq<u64>,
    b: Seq<u64>,
    ka: int,
    kb: int,
)
    requires
        splits_at(s, a, ka),
        splits_at(s, b, kb),
        frontier_le(a, b),
    ensures
        ka <= kb,
{
    if kb < ka {
        assert(dominates(b, s[kb].1));
        lemma_dominates_trans(a, b, s[kb].1);
    }
}

/// Log `b` is log `a` with bindings at or beyond `a`'s upper appended, and an
/// upper at or beyond `a`'s.
pub open spec fn extends<T: Timestamp>(a: RemapLog<T>, b: RemapLog<T>) -> bool {
    &&& a.log().len() <= b.log().len()
    &&& b.log().take(a.log().len() as int) == a.log()
    &&& forall|j: int|
        a.log().len() <= j < b.log().len() ==> dominates(a.upper_view(), (#[trigger] b.log()[j]).1)
    &&& frontier_le(a.upper_view(), b.upper_view())
}

pub proof fn lemma_extends_trans<T: Timestamp>(a: RemapLog<T>, b: RemapLog<T>, c: RemapLog<T>)
    requires
        extends(a, b),
        extends(b, c),
    ensures
        extends(a, c),
{
    lemma_frontier_le_trans(a.upper_view(), b.upper_view(), c.upper_view());
    assert forall|j: int| a.log().len() <= j < c.log().len() implies dominates(
        a.upper_view(),
        (#[trigger] c.log()[j]).1,
    ) by {
        if j < b.log().len() {
            assert(c.log()[j] == b.log()[j]);
        } else {
            lemma_dominates_trans(a.upper_view(), b.upper_view(), c.log()[j].1);
        }
    }
    assert(c.log().take(a.log().len() as int) =~= b.log().take(a.log().len() as int));
}

pub proof fn lemma_extends_refl<T: Timestamp>(a: RemapLog<T>)
    ensures
        extends(a, a),
{
    lemma_frontier_le_refl(a.upper_view());
    assert(a.log().take(a.log().len() as int) =~= a.log());
}

/// The upper a mint aims for: closing the source closes the internal time too.
pub open spec fn effective_into<T>(into: Seq<u64>, from: Seq<T>) -> Seq<u64> {
    if from.len() == 0 {
        Seq::empty()
    } else {
        into
    }
}

/// The internal time a mint binds at: the least one while the log is at
/// its very beginning, `ts` after that.
pub open spec fn commit_time(log_upper: Seq<u64>, ts: u64) -> u64 {
    if log_upper == seq![0u64] {
        0
    } else {
        ts
    }
}

/// Steps left before the upper passes `ts`.
pub open spec fn mint_measure(up: Seq<u64>, ts: u64) -> int {
    if up.len() == 1 && up[0] <= ts {
        ts + 1 - up[0]
    } else {
        0
    }
}

/// Whether the frontier is exactly the least internal time.
fn is_minimum(a: &Antichain<u64>) -> (r: bool)
    ensures
        r == (a@ == seq![0u64]),
{
    let r = a.len() == 1 && a.elements()[0] == 0;
    proof {
        if r {
            assert(a@ =~= seq![0u64]);
        }
    }
    r
}

/// What a call of `mint` on `op` and `log` with the targets `ts`, `into` and
/// `from` leaves behind: the operator `op2`, the log `log2` and the batch `r`.
pub open spec fn minted<T: Timestamp>(
    op: ReclockOperator<T>,
    log: RemapLog<T>,
    op2: ReclockOperator<T>,
    log2: RemapLog<T>,
    ts: u64,
    into: Seq<u64>,
    from: Seq<T>,
    r: ReclockBatch<T>,
) -> bool {
    &&& log2.wf()
    &&& accumulates_to_frontiers(log2.log())
    &&& extends(log, log2)
    &&& op2.tracks(log2)
    &&& r.upper@ == op2.upper_view()
    &&& exists|k0: int, k1: int|
        op.reads_to(log2, k0) && op2.reads_to(log2, k1) && r.updates@ == log2.log().subrange(k0, k1)
    &&& !op.mint_needed(ts, into, from) ==> op2 == op && log2 == log
    &&& op.mint_needed(ts, into, from) ==> {
        &&& op2.synced(log2)
        &&& !op2.mint_needed(ts, effective_into(into, from), from)
        &&& {
            ||| (log2.log() == log.log() && log2.upper_view() == log.upper_view())
            ||| {
                &&& log2.upper_view() == effective_into(into, from)
                &&& forall|x: T| #[trigger]
                    total(log2.log(), x) == if from.contains(x) {
                        1int
                    } else {
                        0
                    }
                &&& forall|j: int|
                    log.log().len() <= j < log2.log().len() ==> (#[trigger] log2.log()[j]).1
                        == commit_time(log.upper_view(), ts)
            }
        }
    }
}

/// Mints bindings between a source's progress (`T`) and internal time
/// (`u64`) into a shared remap log, and follows what the log holds.
#[derive(Debug)]
pub struct ReclockOperator<T> {
    upper: Antichain<u64>,
    source_upper: MutableAntichain<T>,
}

impl<T: Timestamp> ReclockOperator<T> {
    /// The upper of the part of the log read so far.
    pub closed spec fn upper_view(&self) -> Seq<u64> {
        self.upper@
    }

    /// The counts accumulated from every binding read so far.
    pub closed spec fn source(&self) -> MutableAntichain<T> {
        self.source_upper
    }

    pub open spec fn wf(&self) -> bool {
        &&& is_antichain(self.upper_view())
        &&& self.source().wf()
    }

    /// The operator has read exactly the first `k` bindings of `log`.
    pub open spec fn reads_to(&self, log: RemapLog<T>, k: int) -> bool {
        &&& splits_at(log.log(), self.upper_view(), k)
        &&& forall|x: T| #[trigger] self.source().count(x) == total(log.log().take(k), x)
    }

    /// The operator's state is a prefix of `log`.
    pub open spec fn tracks(&self, log: RemapLog<T>) -> bool {
        &&& self.wf()
        &&& frontier_le(self.upper_view(), log.upper_view())
        &&& exists|k: int| self.reads_to(log, k)
    }

    /// The operator has read all of `log`.
    pub open spec fn synced(&self, log: RemapLog<T>) -> bool {
        &&& self.tracks(log)
        &&& self.upper_view() == log.upper_view()
    }

    /// Whether `mint` would append: on the first mint ever, or when the
    /// frontier read so far lies at or before `from`, the upper before `into`
    /// and at or before `ts`.
    pub open spec fn mint_needed(&self, ts: u64, into: Seq<u64>, from: Seq<T>) -> bool {
        ||| self.upper_view() == seq![0u64]
        ||| (frontier_le(self.source().frontier_view(), from) && frontier_lt(
            self.upper_view(),
            into,
        ) && dominates(self.upper_view(), ts))
    }

    pub fn upper(&self) -> (r: &Antichain<u64>)
        ensures
            r@ == self.upper_view(),
    {
        &self.upper
    }

    pub fn source_upper(&self) -> (r: &MutableAntichain<T>)
        ensures
            *r == self.source(),
    {
        &self.source_upper
    }

    /// A tracking operator whose upper is the log's has read all of it.
    pub proof fn lemma_synced_reads_all(&self, log: RemapLog<T>)
        requires
            log.wf(),
            self.synced(log),
        ensures
            self.reads_to(log, log.log().len() as int),
            forall|x: T| #[trigger] self.source().count(x) == total(log.log(), x),
    {
        let k = choose|k: int| self.reads_to(log, k);
        assert(splits_at(log.log(), self.upper_view(), log.log().len() as int));
        lemma_splits_unique(log.log(), self.upper_view(), k, log.log().len() as int);
        assert(log.log().take(k) =~= log.log());
    }

    /// Appending beyond the log's upper keeps every reader's position.
    pub proof fn lemma_tracks_extend(&self, a: RemapLog<T>, b: RemapLog<T>, k: int)
        requires
            a.wf(),
            self.tracks(a),
            self.reads_to(a, k),
            extends(a, b),
        ensures
            self.tracks(b),
            self.reads_to(b, k),
    {
        lemma_frontier_le_trans(self.upper_view(), a.upper_view(), b.upper_view());
        assert forall|j: int| k <= j < b.log().len() implies dominates(
            self.upper_view(),
            (#[trigger] b.log()[j]).1,
        ) by {
            if j >= a.log().len() {
                lemma_dominates_trans(self.upper_view(), a.upper_view(), b.log()[j].1);
            } else {
                assert(b.log()[j] == a.log()[j]);
            }
        }
        assert forall|j: int| 0 <= j < k implies !dominates(
            self.upper_view(),
            (#[trigger] b.log()[j]).1,
        ) by {
            assert(b.log()[j] == a.log()[j]);
        }
        assert(b.log().take(k) =~= a.log().take(k));
        assert(self.reads_to(b, k));
    }

    /// Builds an operator over `log`, reading every binding already in it.
    pub fn new(log: &RemapLog<T>) -> (r: (Self, ReclockBatch<T>))
        requires
            log.wf(),
            accumulates_to_frontiers(log.log()),
        ensures
            r.0.synced(*log),
            r.1.updates@ == log.log(),
            r.1.upper@ == log.upper_view(),
            forall|x: T| #[trigger] r.0.source().count(x) == total(log.log(), x),
    {
        let upper = log.upper();
        let mut operator = ReclockOperator {
            upper: Antichain::from_elem(0),
            source_upper: MutableAntichain::new(),
        };
        proof {
            lemma_u64_antichain(log.upper_view());
            assert(splits_at(log.log(), operator.upper_view(), 0)) by {
                assert forall|j: int| 0 <= j < log.log().len() implies dominates(
                    operator.upper_view(),
                    (#[trigger] log.log()[j]).1,
                ) by {
                    assert(operator.upper_view()[0] == 0);
                }
            }
            assert(log.log().take(0) =~= Seq::<(T, u64, i64)>::empty());
            assert(operator.reads_to(*log, 0));
            assert forall|j: int| 0 <= j < log.upper_view().len() implies dominates(
                operator.upper_view(),
                #[trigger] log.upper_view()[j],
            ) by {
                assert(operator.upper_view()[0] == 0);
            }
        }
        let batch = if !is_minimum(&upper) {
            proof {
                lemma_frontier_le_refl(log.upper_view());
                if operator.upper_view().to_set() == upper@.to_set() {
                    lemma_u64_antichain_eq(operator.upper_view(), upper@);
                }
            }
            let ghost before = operator;
            let b = operator.sync(log, &upper);
            proof {
                operator.lemma_synced_reads_all(*log);
                let (k0, k1) = choose|k0: int, k1: int|
                    before.reads_to(*log, k0) && operator.reads_to(*log, k1) && b.updates@
                        == log.log().subrange(k0, k1);
                lemma_splits_unique(log.log(), before.upper_view(), k0, 0);
                lemma_splits_unique(log.log(), operator.upper_view(), k1, log.log().len() as int);
            }
            b
        } else {
            proof {
                if log.log().len() > 0 {
                    assert(!dominates(log.upper_view(), log.log()[0].1));
                    assert(log.upper_view()[0] == 0);
                }
                assert(operator.synced(*log));
                operator.lemma_synced_reads_all(*log);
            }
            ReclockBatch { updates: Vec::new(), upper: Antichain::from_elem(0) }
        };
        proof {
            operator.lemma_synced_reads_all(*log);
            assert(log.log().subrange(0, log.log().len() as int) =~= log.log());
        }
        (operator, batch)
    }

    /// Reads the log until the upper is no longer before `target`, and
    /// folds what was read into the source counts.
    fn sync(&mut self, log: &RemapLog<T>, target: &Antichain<u64>) -> (r: ReclockBatch<T>)
        requires
            old(self).tracks(*log),
            log.wf(),
            accumulates_to_frontiers(log.log()),
            target.wf(),
            frontier_le(target@, log.upper_view()),
        ensures
            final(self).tracks(*log),
            r.upper@ == final(self).upper_view(),
            exists|k0: int, k1: int|
                old(self).reads_to(*log, k0) && final(self).reads_to(*log, k1) && r.updates@
                    == log.log().subrange(k0, k1),
            frontier_lt(old(self).upper_view(), target@) ==> final(self).synced(*log),
            !frontier_lt(old(self).upper_view(), target@) ==> *final(self) == *old(self),
    {
        let ghost k0 = choose|k: int| self.reads_to(*log, k);
        let ghost n = log.log().len() as int;
        proof {
            assert(splits_at(log.log(), log.upper_view(), n));
        }
        let mut updates: Vec<(T, u64, i64)> = Vec::new();
        while self.upper.frontier_less_than(target)
            invariant
                log.wf(),
                target.wf(),
                frontier_le(target@, log.upper_view()),
                n == log.log().len(),
                splits_at(log.log(), log.upper_view(), n),
                old(self).reads_to(*log, k0),
                self.source_upper == old(self).source_upper,
                is_antichain(self.upper@),
                frontier_le(self.upper@, log.upper_view()),
                !frontier_lt(old(self).upper@, target@) ==> *self == *old(self),
                (self.upper@ == old(self).upper@ && updates@.len() == 0 && *self == *old(self)) || (
                self.upper@ == log.upper_view() && updates@ == log.log().subrange(k0, n)),
            decreases
                    if self.upper@ == log.upper_view() {
                        0int
                    } else {
                        1int
                    },
        {
            proof {
                if self.upper@ == log.upper_view() {
                    lemma_u64_frontier_antisymmetric(target@, log.upper_view());
                }
            }
            let (mut batch, upper) = log.next(&self.upper);
            proof {
                let k = choose|k: int|
                    splits_at(log.log(), self.upper@, k) && batch@ == log.log().subrange(k, n);
                lemma_splits_unique(log.log(), self.upper@, k, k0);
            }
            self.upper = upper;
            updates.append(&mut batch);
            proof {
                assert(updates@ =~= log.log().subrange(k0, n));
            }
        }
        proof {
            if !frontier_lt(old(self).upper@, target@) && self.upper@ == log.upper_view() {
                lemma_splits_unique(log.log(), self.upper@, k0, n);
                assert(updates@.len() == 0);
            }
        }
        if updates.len() > 0 {
            let ghost before = self.source_upper;
            let mut deltas: Vec<(T, i64)> = Vec::new();
            let mut i: usize = 0;
            while i < updates.len()
                invariant
                    i <= updates@.len(),
                    deltas@ == project(updates@.take(i as int)),
                decreases updates@.len() - i,
            {
                let b = updates[i];
                deltas.push((b.0, b.2));
                i += 1;
                assert(deltas@ =~= project(updates@.take(i as int)));
            }
            proof {
                assert(updates@.take(i as int) =~= updates@);
                assert forall|j: int, x: T|
                    0 <= j <= deltas@.len() implies i64::MIN <= self.source_upper.count(x)
                        + #[trigger] weight(deltas@.take(j), x) <= i64::MAX by {
                    let l = log.log();
                    assert(deltas@.take(j) =~= project(l.subrange(k0, k0 + j)));
                    lemma_weight_project(l.subrange(k0, k0 + j), x);
                    assert(l.take(k0) + l.subrange(k0, k0 + j) =~= l.take(k0 + j));
                    lemma_sum_if_concat(l.take(k0), l.subrange(k0, k0 + j), from_is(x));
                    assert(self.source_upper.count(x) == total(l.take(k0), x));
                    assert(0 <= total(l.take(k0 + j), x) <= 1);
                }
            }
            self.source_upper.update_iter(&deltas);
            proof {
                let l = log.log();
                assert forall|x: T| #[trigger] self.source().count(x) == total(l.take(n), x) by {
                    lemma_weight_project(l.subrange(k0, n), x);
                    assert(l.take(k0) + l.subrange(k0, n) =~= l.take(n));
                    lemma_sum_if_concat(l.take(k0), l.subrange(k0, n), from_is(x));
                    assert(before.count(x) == total(l.take(k0), x));
                }
                assert(self.reads_to(*log, n));
            }
        }
        proof {
            if self.upper@ == log.upper_view() {
                if updates@.len() == 0 {
                    if *self != *old(self) {
                        assert(log.log().subrange(k0, n).len() == 0);
                        assert(log.log().take(k0) =~= log.log().take(n));
                        assert(self.reads_to(*log, n));
                    } else {
                        lemma_splits_unique(log.log(), self.upper@, k0, n);
                    }
                }
                assert(self.reads_to(*log, n));
                assert(log.log().subrange(k0, n) == updates@);
            } else {
                assert(log.log().subrange(k0, k0).len() == 0);
                assert(updates@ =~= log.log().subrange(k0, k0));
            }
        }
        ReclockBatch { updates, upper: self.upper.copy() }
    }

    /// Appends `updates` at the operator's upper and moves the log's upper to
    /// `new_upper`, then reads back what is now durable. When another writer
    /// got there first, nothing changes and the log's current upper comes back.
    fn append_batch(
        &mut self,
        log: &mut RemapLog<T>,
        updates: Vec<(T, u64, i64)>,
        new_upper: &Antichain<u64>,
    ) -> (r: Result<ReclockBatch<T>, Antichain<u64>>)
        requires
            old(self).tracks(*old(log)),
            old(log).wf(),
            accumulates_to_frontiers(old(log).log()),
            new_upper.wf(),
            frontier_le(old(self).upper_view(), new_upper@),
            times_sorted(updates@),
            forall|i: int|
                0 <= i < updates@.len() ==> dominates(
                    old(self).upper_view(),
                    (#[trigger] updates@[i]).1,
                ) && !dominates(new_upper@, updates@[i].1),
            old(self).upper_view() == old(log).upper_view() ==> accumulates_to_frontiers(
                old(log).log() + updates@,
            ),
        ensures
            final(log).wf(),
            accumulates_to_frontiers(final(log).log()),
            extends(*old(log), *final(log)),
            match r {
                Ok(b) => {
                    &&& old(self).upper_view() == old(log).upper_view()
                    &&& final(log).log() == old(log).log() + updates@
                    &&& final(log).upper_view() == new_upper@
                    &&& final(self).synced(*final(log))
                    &&& b.upper@ == final(self).upper_view()
                    &&& b.updates@ == final(log).log().subrange(
                        old(log).log().len() as int,
                        final(log).log().len() as int,
                    )
                },
                Err(current) => {
                    &&& old(self).upper_view() != old(log).upper_view()
                    &&& *final(log) == *old(log)
                    &&& *final(self) == *old(self)
                    &&& current@ == old(log).upper_view()
                    &&& current.wf()
                },
            },
    {
        let ghost log0 = *log;
        let ghost self0 = *self;
        match log.compare_and_append(updates, &self.upper, new_upper) {
            Ok(()) => {
                let ghost n0 = log0.log().len() as int;
                proof {
                    self0.lemma_synced_reads_all(log0);
                    assert(log.log().take(n0) =~= log0.log());
                    assert(extends(log0, *log));
                    self0.lemma_tracks_extend(log0, *log, n0);
                    lemma_frontier_le_refl(new_upper@);
                }
                let b = self.sync(log, new_upper);
                proof {
                    if !frontier_lt(self0.upper_view(), new_upper@) {
                        lemma_u64_antichain_eq(self0.upper_view(), new_upper@);
                    }
                    self.lemma_synced_reads_all(*log);
                    let (ka, kb) = choose|ka: int, kb: int|
                        self0.reads_to(*log, ka) && self.reads_to(*log, kb) && b.updates@
                            == log.log().subrange(ka, kb);
                    lemma_splits_unique(log.log(), self0.upper_view(), ka, n0);
                    lemma_splits_unique(
                        log.log(),
                        self.upper_view(),
                        kb,
                        log.log().len() as int,
                    );
                }
                Ok(b)
            },
            Err(current) => {
                proof {
                    lemma_extends_refl(*log);
                }
                Err(current)
            },
        }
    }

    /// Records that the source has reached `new_from_upper` and internal
    /// time has reached `new_into_upper`, binding the change at `binding_ts`
    /// (at the least internal time on the very first mint). Retries after
    /// every concurrent append, recomputing what is still owed, until the
    /// operator's targets no longer call for an append. Returns every binding
    /// read or written on the way.
    pub fn mint(
        &mut self,
        log: &mut RemapLog<T>,
        binding_ts: u64,
        new_into_upper: Antichain<u64>,
        new_from_upper: &Antichain<T>,
    ) -> (r: ReclockBatch<T>)
        requires
            old(log).wf(),
            accumulates_to_frontiers(old(log).log()),
            old(self).tracks(*old(log)),
            new_into_upper.wf(),
            new_from_upper.wf(),
            !dominates(new_into_upper@, binding_ts),
        ensures
            minted(
                *old(self),
                *old(log),
                *final(self),
                *final(log),
                binding_ts,
                new_into_upper@,
                new_from_upper@,
                r,
            ),
    {
        let ghost k0 = choose|k: int| self.reads_to(*log, k);
        let ghost from = new_from_upper@;
        let ghost eff = effective_into(new_into_upper@, from);
        let mut into = new_into_upper;
        let mut batch = ReclockBatch { updates: Vec::new(), upper: self.upper.copy() };
        let ghost mut ran = false;
        let ghost mut wrote = false;
        proof {
            lemma_extends_refl(*log);
            assert(batch.updates@ =~= log.log().subrange(k0, k0));
        }
        while is_minimum(&self.upper) || (self.source_upper.frontier().frontier_less_equal(
            new_from_upper,
        ) && self.upper.frontier_less_than(&into) && self.upper.less_equal(&binding_ts))
            invariant
                log.wf(),
                accumulates_to_frontiers(log.log()),
                self.tracks(*log),
                extends(*old(log), *log),
                old(self).tracks(*old(log)),
                old(self).reads_to(*old(log), k0),
                from == new_from_upper@,
                eff == effective_into(new_into_upper@, from),
                new_from_upper.wf(),
                into.wf(),
                !dominates(into@, binding_ts),
                batch.upper@ == self.upper_view(),
                exists|k1: int|
                    k0 <= k1 && self.reads_to(*log, k1) && batch.updates@ == log.log().subrange(
                        k0,
                        k1,
                    ),
                !ran ==> (*self == *old(self) && *log == *old(log) && into@ == new_into_upper@),
                ran ==> (self.synced(*log) && into@ == eff),
                ran ==> old(self).mint_needed(binding_ts, new_into_upper@, from),
                ran && !wrote ==> (log.log() == old(log).log() && log.upper_view() == old(
                    log,
                ).upper_view()),
                wrote ==> (ran && log.upper_view() == into@ && forall|x: T| #[trigger]
                    total(log.log(), x) == if from.contains(x) {
                        1int
                    } else {
                        0
                    }),
                wrote ==> forall|j: int|
                    old(log).log().len() <= j < log.log().len() ==> (#[trigger] log.log()[j]).1
                        == commit_time(old(log).upper_view(), binding_ts),
            decreases mint_measure(self.upper_view(), binding_ts),
        {
            let ghost log0 = *log;
            let ghost self0 = *self;
            let ghost batch0 = batch.updates@;
            proof {
                lemma_u64_antichain(self.upper@);
                lemma_u64_antichain(into@);
                if wrote {
                    if self.upper@.to_set() == into@.to_set() {
                    } else {
                        assert(self.upper@ == into@);
                    }
                    assert(!(self.upper@ == seq![0u64]));
                }
                old(self).lemma_tracks_extend(*old(log), *log, k0);
                self.source_upper.lemma_frontier();
                if !ran {
                    assert(old(self).mint_needed(binding_ts, new_into_upper@, from));
                }
                if self.upper@ != seq![0u64] {
                    assert(dominates(self.upper@, binding_ts));
                    assert(self.upper@[0] <= binding_ts);
                }
                assert(self.upper@.len() == 1);
                assert(self.upper@[0] <= binding_ts);
            }
            if new_from_upper.is_empty() {
                into = Antichain::new();
            }
            let initial = is_minimum(&self.upper);
            let ts: u64 = if initial {
                0
            } else {
                binding_ts
            };
            let frontier = self.source_upper.frontier();
            let ghost fr = frontier@;
            let mut updates: Vec<(T, u64, i64)> = Vec::new();
            let mut i: usize = 0;
            while i < frontier.len()
                invariant
                    i <= fr.len(),
                    fr == frontier@,
                    updates@ == stamp(fr.take(i as int), ts, -1i64),
                decreases fr.len() - i,
            {
                updates.push((frontier.elements()[i], ts, -1i64));
                i += 1;
                assert(updates@ =~= stamp(fr.take(i as int), ts, -1i64));
            }
            assert(fr.take(i as int) =~= fr);
            let mut j: usize = 0;
            while j < new_from_upper.len()
                invariant
                    j <= from.len(),
                    from == new_from_upper@,
                    updates@ == stamp(fr, ts, -1i64) + stamp(from.take(j as int), ts, 1i64),
                decreases from.len() - j,
            {
                updates.push((new_from_upper.elements()[j], ts, 1i64));
                j += 1;
                assert(updates@ =~= stamp(fr, ts, -1i64) + stamp(from.take(j as int), ts, 1i64));
            }
            assert(from.take(j as int) =~= from);
            let ghost input = updates@;
            proof {
                self.source_upper.lemma_frontier();
                lemma_antichain_distinct(fr);
                lemma_antichain_distinct(from);
                assert forall|x: T, t: u64| #[trigger]
                    key_weight(input, x, t) == (if t == ts && from.contains(x) {
                        1int
                    } else {
                        0
                    }) - (if t == ts && fr.contains(x) {
                        1int
                    } else {
                        0
                    }) by {
                    lemma_sum_if_concat(stamp(fr, ts, -1i64), stamp(from, ts, 1i64), has_key(x, t));
                    lemma_key_weight_stamp(fr, ts, -1i64, x, t);
                    lemma_key_weight_stamp(from, ts, 1i64, x, t);
                }
                assert forall|k: int, x: T, t: u64|
                    0 <= k <= input.len() implies i64::MIN <= #[trigger] key_weight(
                        input.take(k),
                        x,
                        t,
                    ) <= i64::MAX by {
                    if k <= fr.len() {
                        assert(input.take(k) =~= stamp(fr.take(k), ts, -1i64));
                        lemma_no_duplicates_take(fr, k);
                        lemma_key_weight_stamp(fr.take(k), ts, -1i64, x, t);
                    } else {
                        let m = k - fr.len();
                        assert(input.take(k) =~= stamp(fr, ts, -1i64) + stamp(from.take(m), ts, 1i64));
                        lemma_sum_if_concat(
                            stamp(fr, ts, -1i64),
                            stamp(from.take(m), ts, 1i64),
                            has_key(x, t),
                        );
                        lemma_no_duplicates_take(from, m);
                        lemma_key_weight_stamp(fr, ts, -1i64, x, t);
                        lemma_key_weight_stamp(from.take(m), ts, 1i64, x, t);
                    }
                }
            }
            let updates = consolidate(&updates);
            let ghost seg = updates@;
            proof {
                assert forall|q: int| 0 <= q < seg.len() implies (#[trigger] seg[q]).1 == ts by {
                    lemma_consolidated_weight(seg, q);
                    assert(key_weight(seg, seg[q].0, seg[q].1) == key_weight(
                        input,
                        seg[q].0,
                        seg[q].1,
                    ));
                }
                assert(times_sorted(seg));
                if !initial {
                    assert(dominates(self.upper@, binding_ts));
                }
                assert forall|q: int| 0 <= q < seg.len() implies dominates(
                    self.upper_view(),
                    (#[trigger] seg[q]).1,
                ) && !dominates(into@, seg[q].1) by {
                    if initial {
                        assert(self.upper@[0] == 0);
                        assert(self.upper@[0].leq(&seg[q].1));
                        if dominates(into@, 0) {
                            assert(into@[0] == 0);
                            assert(into@[0].leq(&binding_ts));
                        }
                    }
                }
                if initial {
                    assert forall|q: int| 0 <= q < into@.len() implies dominates(
                        self.upper_view(),
                        #[trigger] into@[q],
                    ) by {
                        assert(self.upper@[0] == 0);
                        assert(self.upper@[0].leq(&into@[q]));
                    }
                }
                if self.upper_view() == log.upper_view() {
                    self.lemma_synced_reads_all(*log);
                    let l = log.log();
                    assert forall|x: T| #[trigger] fr.contains(x) <==> total(l, x) == 1 by {
                        assert forall|y: T| #[trigger] total(l, y) == acc_at(l, u64::MAX, y) by {
                            lemma_acc_at_total(l, u64::MAX, y);
                        }
                        assert(frontier_at(l, u64::MAX));
                        assert(self.source_upper.count(x) == total(l, x));
                        if total(l, x) == 1 {
                            assert forall|y: T| #[trigger]
                                self.source_upper.count(y) > 0 && y.leq(&x) implies y == x by {
                                assert(self.source_upper.count(y) == total(l, y));
                                assert(acc_at(l, u64::MAX, y) == 1);
                                assert(acc_at(l, u64::MAX, x) == 1);
                            }
                        }
                    }
                    assert forall|q: int| 0 <= q < l.len() implies (#[trigger] l[q]).1 <= ts by {
                        assert(!dominates(log.upper_view(), l[q].1));
                        if !initial {
                            assert(self.upper@[0] <= binding_ts);
                        } else {
                            assert(self.upper@[0].leq(&l[q].1));
                        }
                    }
                    assert forall|x: T| #[trigger]
                        key_weight(seg, x, ts) == (if from.contains(x) {
                            1int
                        } else {
                            0
                        }) - (if fr.contains(x) {
                            1int
                        } else {
                            0
                        }) by {
                        assert(key_weight(input, x, ts) == key_weight(seg, x, ts));
                    }
                    lemma_append_segment(l, seg, ts, fr, from);
                }
            }
            let ghost mut kend: int = 0;
            let mut new_batch = match self.append_batch(log, updates, &into) {
                Ok(b) => {
                    proof {
                        wrote = true;
                        lemma_append_segment(log0.log(), seg, ts, fr, from);
                        let n0 = log0.log().len() as int;
                        self0.lemma_synced_reads_all(log0);
                        let k1 = choose|k1: int|
                            k0 <= k1 && self0.reads_to(log0, k1) && batch0 == log0.log().subrange(
                                k0,
                                k1,
                            );
                        lemma_splits_unique(log0.log(), self0.upper_view(), k1, n0);
                        kend = log.log().len() as int;
                        assert(log.log().take(n0) == log0.log());
                        assert(batch0 + b.updates@ =~= log.log().subrange(k0, kend));
                        self.lemma_synced_reads_all(*log);
                        assert(self.reads_to(*log, kend));
                        assert(self.upper@ == into@);
                        assert(log0.upper_view() == old(log).upper_view());
                        assert(log0.log() == old(log).log());
                        assert(ts == commit_time(old(log).upper_view(), binding_ts));
                        assert forall|j: int|
                            old(log).log().len() <= j < log.log().len() implies (
                            #[trigger] log.log()[j]).1 == commit_time(
                            old(log).upper_view(),
                            binding_ts,
                        ) by {
                            assert(log.log()[j] == seg[j - n0]);
                        }
                    }
                    b
                },
                Err(current) => {
                    proof {
                        lemma_frontier_le_refl(log.upper_view());
                        if self.upper@.to_set() == current@.to_set() {
                            lemma_u64_antichain_eq(self.upper@, current@);
                        }
                    }
                    let b = self.sync(log, &current);
                    proof {
                        let (ka, kb) = choose|ka: int, kb: int|
                            self0.reads_to(*log, ka) && self.reads_to(*log, kb) && b.updates@
                                == log.log().subrange(ka, kb);
                        let k1 = choose|k1: int|
                            k0 <= k1 && self0.reads_to(log0, k1) && batch0 == log0.log().subrange(
                                k0,
                                k1,
                            );
                        lemma_splits_unique(log.log(), self0.upper_view(), ka, k1);
                        lemma_splits_monotone(
                            log.log(),
                            self0.upper_view(),
                            self.upper_view(),
                            ka,
                            kb,
                        );
                        kend = kb;
                        assert(batch0 + b.updates@ =~= log.log().subrange(k0, kend));
                        assert(self.upper@ == log0.upper_view());
                        lemma_u64_antichain(log0.upper_view());
                        if log0.upper_view().len() == 1 {
                            assert(dominates(self0.upper@, log0.upper_view()[0]));
                            assert(self0.upper@[0] <= log0.upper_view()[0]);
                            if self0.upper@[0] == log0.upper_view()[0] {
                                assert(self0.upper@ =~= log0.upper_view());
                            }
                        }
                    }
                    b
                },
            };
            proof {
                self.lemma_synced_reads_all(*log);
                lemma_extends_trans(*old(log), log0, *log);
            }
            let ghost added = new_batch.updates@;
            batch.updates.append(&mut new_batch.updates);
            batch.upper = new_batch.upper;
            proof {
                ran = true;
                assert(batch.updates@ == batch0 + added);
                assert(self.reads_to(*log, kend));
                lemma_u64_antichain(self.upper@);
                if self.upper@.len() == 1 {
                    assert(self.upper@[0] > self0.upper@[0]);
                }
            }
        }
        proof {
            old(self).lemma_tracks_extend(*old(log), *log, k0);
            self.source_upper.lemma_frontier();
            let k1 = choose|k1: int|
                k0 <= k1 && self.reads_to(*log, k1) && batch.updates@ == log.log().subrange(k0, k1);
            assert(old(self).reads_to(*log, k0) && self.reads_to(*log, k1) && batch.updates@
                == log.log().subrange(k0, k1));
        }
        batch
    }
}

} // verus!
