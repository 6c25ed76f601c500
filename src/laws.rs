use vstd::prelude::*;

use crate::antichain::{dominates, frontier_le, is_antichain, lemma_frontier_le_superset};
use crate::mutable_antichain::{MutableAntichain, weight};
use crate::order::Timestamp;
use crate::reclock::{
    ReclockBatch,
    ReclockOperator,
    effective_into,
    extends,
    lemma_extends_trans,
    lemma_splits_unique,
    lemma_weight_project,
    minted,
    project,
};
use crate::remap::{RemapLog, accumulates_to_frontiers, frontier_at, total};

verus! {

/// A mint whose targets the operator already meets writes nothing, reads
/// nothing, and hands back an empty batch with the operator's upper.
pub proof fn lemma_mint_noop<T: Timestamp>(
    op: ReclockOperator<T>,
    log: RemapLog<T>,
    op2: ReclockOperator<T>,
    log2: RemapLog<T>,
    ts: u64,
    into: Seq<u64>,
    from: Seq<T>,
    r: ReclockBatch<T>,
)
    requires
        minted(op, log, op2, log2, ts, into, from, r),
        !op.mint_needed(ts, into, from),
    ensures
        log2 == log,
        op2 == op,
        r.updates@.len() == 0,
        r.upper@ == op.upper_view(),
{
    let (k0, k1) = choose|k0: int, k1: int|
        op.reads_to(log2, k0) && op2.reads_to(log2, k1) && r.updates@ == log2.log().subrange(k0, k1);
    lemma_splits_unique(log2.log(), op.upper_view(), k0, k1);
}

/// After any mint, summing the bindings at or before each internal time `t`
/// gives every source timestamp a count of 0 or 1, and those with count 1
/// form an antichain.
pub proof fn lemma_mint_keeps_frontiers<T: Timestamp>(
    op: ReclockOperator<T>,
    log: RemapLog<T>,
    op2: ReclockOperator<T>,
    log2: RemapLog<T>,
    ts: u64,
    into: Seq<u64>,
    from: Seq<T>,
    r: ReclockBatch<T>,
    t: u64,
)
    requires
        minted(op, log, op2, log2, ts, into, from, r),
    ensures
        frontier_at(log2.log(), t),
{
}

/// Two synced operators with the same counts and upper decide alike.
proof fn lemma_same_state_same_need<T: Timestamp>(
    a: ReclockOperator<T>,
    b: ReclockOperator<T>,
    ts: u64,
    into: Seq<u64>,
    from: Seq<T>,
)
    requires
        a.wf(),
        b.wf(),
        a.upper_view() == b.upper_view(),
        forall|x: T| #[trigger] a.source().count(x) == b.source().count(x),
        a.mint_needed(ts, into, from),
    ensures
        b.mint_needed(ts, into, from),
{
    a.source().lemma_frontier();
    b.source().lemma_frontier();
    assert forall|x: T| a.source().frontier_view().contains(x) implies #[trigger] b.source().frontier_view().contains(
        x,
    ) by {
        assert(a.source().in_frontier(x));
        assert forall|y: T| #[trigger] b.source().count(y) > 0 && y.leq(&x) implies y == x by {
            assert(a.source().count(y) > 0);
        }
    }
    if frontier_le(a.source().frontier_view(), from) {
        lemma_frontier_le_superset(a.source().frontier_view(), b.source().frontier_view(), from);
    }
}

/// The frontier of a synced operator is the set that the log totals to.
proof fn lemma_synced_frontier<T: Timestamp>(
    op: ReclockOperator<T>,
    log: RemapLog<T>,
    f: Seq<T>,
)
    requires
        log.wf(),
        op.synced(log),
        is_antichain(f),
        forall|x: T| #[trigger]
            total(log.log(), x) == if f.contains(x) {
                1int
            } else {
                0
            },
    ensures
        forall|x: T| f.contains(x) ==> #[trigger] op.source().frontier_view().contains(x),
{
    op.lemma_synced_reads_all(log);
    op.source().lemma_frontier();
    assert forall|x: T| f.contains(x) implies #[trigger] op.source().frontier_view().contains(
        x,
    ) by {
        assert(op.source().count(x) == total(log.log(), x));
        assert forall|y: T| #[trigger] op.source().count(y) > 0 && y.leq(&x) implies y == x by {
            assert(op.source().count(y) == total(log.log(), y));
            assert(f.contains(y));
            let i = choose|i: int| 0 <= i < f.len() && f[i] == y;
            let j = choose|j: int| 0 <= j < f.len() && f[j] == x;
            if i != j {
                assert(!f[i].leq(&f[j]));
            }
        }
    }
}

/// A mint whose operator is up to date and whose targets call for an append
/// writes exactly its source frontier and moves the upper to its target.
proof fn lemma_synced_mint_writes<T: Timestamp>(
    a0: ReclockOperator<T>,
    log0: RemapLog<T>,
    a1: ReclockOperator<T>,
    log1: RemapLog<T>,
    ra: ReclockBatch<T>,
    ts: u64,
    into: Seq<u64>,
    from: Seq<T>,
)
    requires
        log0.wf(),
        a0.synced(log0),
        from.len() > 0,
        a0.mint_needed(ts, into, from),
        minted(a0, log0, a1, log1, ts, into, from, ra),
    ensures
        forall|x: T| #[trigger]
            total(log1.log(), x) == if from.contains(x) {
                1int
            } else {
                0
            },
        log1.upper_view() == into,
{
    if log1.log() == log0.log() && log1.upper_view() == log0.upper_view() {
        a0.lemma_synced_reads_all(log0);
        a1.lemma_synced_reads_all(log1);
        assert forall|x: T| #[trigger] a0.source().count(x) == a1.source().count(x) by {}
        lemma_same_state_same_need(a0, a1, ts, into, from);
    }
}

/// A mint on a log that totals to `from_a` with upper `into_a`, whose source
/// frontier covers `from_a` and whose binding time is at or beyond `into_a`,
/// writes exactly its own source frontier, whatever the operator had read.
proof fn lemma_later_mint_writes<T: Timestamp>(
    b0: ReclockOperator<T>,
    log1: RemapLog<T>,
    b1: ReclockOperator<T>,
    log2: RemapLog<T>,
    rb: ReclockBatch<T>,
    ts_b: u64,
    into_b: Seq<u64>,
    from_b: Seq<T>,
    into_a: u64,
    from_a: Seq<T>,
)
    requires
        is_antichain(from_a),
        frontier_le(from_a, from_b),
        forall|x: T| #[trigger]
            total(log1.log(), x) == if from_a.contains(x) {
                1int
            } else {
                0
            },
        log1.upper_view() == seq![into_a],
        into_a <= ts_b,
        !dominates(into_b, ts_b),
        b0.mint_needed(ts_b, into_b, from_b),
        minted(b0, log1, b1, log2, ts_b, into_b, from_b, rb),
    ensures
        forall|x: T| #[trigger]
            total(log2.log(), x) == if from_b.contains(x) {
                1int
            } else {
                0
            },
        log2.upper_view() == effective_into(into_b, from_b),
{
    if log2.log() == log1.log() && log2.upper_view() == log1.upper_view() {
        lemma_synced_frontier(b1, log2, from_a);
        b1.source().lemma_frontier();
        lemma_frontier_le_superset(from_a, b1.source().frontier_view(), from_b);
        assert(b1.upper_view() == seq![into_a]);
        assert(dominates(b1.upper_view(), ts_b)) by {
            assert(b1.upper_view()[0].leq(&ts_b));
        }
        assert(b1.upper_view().to_set().contains(into_a));
        if into_b.len() > 0 && from_b.len() > 0 {
            assert(!(into_b[0] <= ts_b)) by {
                if into_b[0] <= ts_b {
                    assert(into_b[0].leq(&ts_b));
                }
            }
            assert(dominates(b1.upper_view(), into_b[0])) by {
                assert(b1.upper_view()[0].leq(&into_b[0]));
            }
            if b1.upper_view().to_set() == into_b.to_set() {
                assert(into_b.contains(into_a));
            }
        } else {
            assert(!effective_into(into_b, from_b).contains(into_a));
        }
    }
}

/// Two operators share one log. `a` is up to date and mints first; `b`,
/// holding an older view, mints after it with a source frontier that covers
/// `a`'s and a binding time at or beyond `a`'s internal upper. Then both
/// mints take effect: after `a` the log totals to `a`'s source frontier, and
/// after `b` to `b`'s, with `b`'s internal upper. Every binding `a` wrote is
/// still in the log, and every time still accumulates to 0 or 1 per source
/// timestamp.
pub proof fn lemma_concurrent_writers<T: Timestamp>(
    a0: ReclockOperator<T>,
    b0: ReclockOperator<T>,
    log0: RemapLog<T>,
    a1: ReclockOperator<T>,
    log1: RemapLog<T>,
    ra: ReclockBatch<T>,
    ts_a: u64,
    into_a: u64,
    from_a: Seq<T>,
    b1: ReclockOperator<T>,
    log2: RemapLog<T>,
    rb: ReclockBatch<T>,
    ts_b: u64,
    into_b: Seq<u64>,
    from_b: Seq<T>,
)
    requires
        log0.wf(),
        a0.synced(log0),
        b0.tracks(log0),
        is_antichain(from_a),
        from_a.len() > 0,
        is_antichain(from_b),
        frontier_le(from_a, from_b),
        a0.mint_needed(ts_a, seq![into_a], from_a),
        b0.mint_needed(ts_b, into_b, from_b),
        into_a <= ts_b,
        !dominates(into_b, ts_b),
        minted(a0, log0, a1, log1, ts_a, seq![into_a], from_a, ra),
        minted(b0, log1, b1, log2, ts_b, into_b, from_b, rb),
    ensures
        forall|x: T| #[trigger]
            total(log1.log(), x) == if from_a.contains(x) {
                1int
            } else {
                0
            },
        log1.upper_view() == seq![into_a],
        forall|x: T| #[trigger]
            total(log2.log(), x) == if from_b.contains(x) {
                1int
            } else {
                0
            },
        log2.upper_view() == effective_into(into_b, from_b),
        log2.log().take(log1.log().len() as int) == log1.log(),
        extends(log0, log2),
        accumulates_to_frontiers(log2.log()),
{
    lemma_synced_mint_writes(a0, log0, a1, log1, ra, ts_a, seq![into_a], from_a);
    lemma_later_mint_writes(b0, log1, b1, log2, rb, ts_b, into_b, from_b, into_a, from_a);
    assert(extends(log0, log1));
    assert(extends(log1, log2));
    lemma_extends_trans(log0, log1, log2);
}

/// An operator built over a log holds the counts, and so the frontier, that
/// replaying every binding of the log into an empty multiset gives.
pub proof fn lemma_replay_equivalence<T: Timestamp>(
    op: ReclockOperator<T>,
    log: RemapLog<T>,
    replayed: MutableAntichain<T>,
)
    requires
        log.wf(),
        op.synced(log),
        replayed.wf(),
        forall|x: T| #[trigger] replayed.count(x) == weight(project(log.log()), x),
    ensures
        forall|x: T| #[trigger] op.source().count(x) == replayed.count(x),
        forall|x: T| #[trigger] op.source().in_frontier(x) <==> replayed.in_frontier(x),
{
    op.lemma_synced_reads_all(log);
    assert forall|x: T| #[trigger] op.source().count(x) == replayed.count(x) by {
        lemma_weight_project(log.log(), x);
    }
    assert forall|x: T| #[trigger] op.source().in_frontier(x) <==> replayed.in_frontier(x) by {
        if op.source().in_frontier(x) {
            assert forall|y: T| #[trigger] replayed.count(y) > 0 && y.leq(&x) implies y == x by {
                assert(op.source().count(y) == replayed.count(y));
            }
        }
        if replayed.in_frontier(x) {
            assert forall|y: T| #[trigger] op.source().count(y) > 0 && y.leq(&x) implies y == x by {
                assert(op.source().count(y) == replayed.count(y));
            }
        }
    }
}

} // verus!
