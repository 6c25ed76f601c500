use reclock::{
    Antichain, MutableAntichain, Partitioned, RangeBound, ReclockBatch, ReclockOperator, RemapLog,
    Timestamp,
};

type Binding = (Partitioned, u64, i64);

/// Builds an operator over `log`; on an empty log it first binds the least
/// source frontier to the least internal time.
fn make_test_operator(
    log: &mut RemapLog<Partitioned>,
) -> (ReclockOperator<Partitioned>, ReclockBatch<Partitioned>) {
    let (mut operator, mut initial_batch) = ReclockOperator::new(log);
    if initial_batch.upper.elements().as_slice() == [0u64] {
        initial_batch = operator.mint(
            log,
            0,
            Antichain::from_elem(1),
            &Antichain::from_elem(<Partitioned as Timestamp>::minimum()),
        );
    }
    (operator, initial_batch)
}

/// A frontier where the given partitions are at the given offsets and the
/// gaps between them are ranges at offset zero.
fn partitioned_frontier(items: &[(i32, u64)]) -> Antichain<Partitioned> {
    let mut frontier = Antichain::new();
    let mut prev = RangeBound::NegInfinity;
    for &(pid, offset) in items {
        assert!(prev < RangeBound::before(pid));
        frontier.insert(Partitioned::new_range(prev, RangeBound::before(pid), 0));
        frontier.insert(Partitioned::new_singleton(RangeBound::exact(pid), offset));
        prev = RangeBound::after(pid);
    }
    frontier.insert(Partitioned::new_range(prev, RangeBound::PosInfinity, 0));
    frontier
}

fn gap_below_zero() -> Partitioned {
    Partitioned::new_range(RangeBound::NegInfinity, RangeBound::before(0), 0)
}

fn gap_above_zero() -> Partitioned {
    Partitioned::new_range(RangeBound::after(0), RangeBound::PosInfinity, 0)
}

fn everything() -> Partitioned {
    Partitioned::new_range(RangeBound::NegInfinity, RangeBound::PosInfinity, 0)
}

fn partition_zero(offset: u64) -> Partitioned {
    Partitioned::new_singleton(RangeBound::exact(0), offset)
}

fn sorted(mut updates: Vec<Binding>) -> Vec<Binding> {
    updates.sort();
    updates
}

fn all_bindings(log: &RemapLog<Partitioned>) -> Vec<Binding> {
    let (_, batch) = ReclockOperator::new(log);
    batch.updates
}

#[test]
fn test_basic_usage() {
    let mut log = RemapLog::new();
    let (mut operator, _) = make_test_operator(&mut log);

    let source_upper = partitioned_frontier(&[(0, 4)]);
    let mut batch = operator.mint(&mut log, 1000, Antichain::from_elem(1001), &source_upper);
    let mut expected_batch = ReclockBatch {
        updates: vec![
            (gap_below_zero(), 1000, 1),
            (gap_above_zero(), 1000, 1),
            (everything(), 1000, -1),
            (partition_zero(4), 1000, 1),
        ],
        upper: Antichain::from_elem(1001),
    };
    batch.updates.sort();
    expected_batch.updates.sort();
    assert_eq!(batch, expected_batch);
}

#[test]
fn test_concurrency() {
    let mut log = RemapLog::new();
    let (mut op_a, _) = make_test_operator(&mut log);
    let (mut op_b, _) = make_test_operator(&mut log);

    let source_upper = partitioned_frontier(&[(0, 3)]);
    let mut batch = op_a.mint(&mut log, 1000, Antichain::from_elem(1001), &source_upper);
    let mut expected_batch = ReclockBatch {
        updates: vec![
            (gap_below_zero(), 1000, 1),
            (gap_above_zero(), 1000, 1),
            (everything(), 1000, -1),
            (partition_zero(3), 1000, 1),
        ],
        upper: Antichain::from_elem(1001),
    };
    batch.updates.sort();
    expected_batch.updates.sort();
    assert_eq!(batch, expected_batch);

    // Operator B tries in one go, fails, re-syncs, and retries only for the
    // bindings still owed.
    let source_upper = partitioned_frontier(&[(0, 5)]);
    let mut batch = op_b.mint(&mut log, 11000, Antichain::from_elem(11001), &source_upper);
    expected_batch
        .updates
        .extend([(partition_zero(3), 11000, -1), (partition_zero(5), 11000, 1)]);
    expected_batch.upper = Antichain::from_elem(11001);
    batch.updates.sort();
    expected_batch.updates.sort();
    assert_eq!(batch, expected_batch);
}

#[test]
fn first_mint_binds_at_least_time() {
    let mut log = RemapLog::new();
    let (_, batch) = make_test_operator(&mut log);
    assert_eq!(batch.updates, vec![(everything(), 0, 1)]);
    assert_eq!(batch.upper, Antichain::from_elem(1));
    assert_eq!(log.upper(), Antichain::from_elem(1));
}

#[test]
fn first_mint_ignores_binding_time() {
    let mut log: RemapLog<u64> = RemapLog::new();
    let (mut op, batch) = ReclockOperator::new(&log);
    assert!(batch.updates.is_empty());
    let batch = op.mint(&mut log, 500, Antichain::from_elem(501), &Antichain::from_elem(7));
    assert_eq!(batch.updates, vec![(7, 0, 1)]);
    assert_eq!(batch.upper, Antichain::from_elem(501));
}

#[test]
fn mint_already_satisfied_is_noop() {
    let mut log = RemapLog::new();
    let (mut operator, _) = make_test_operator(&mut log);
    let source_upper = partitioned_frontier(&[(0, 4)]);
    operator.mint(&mut log, 1000, Antichain::from_elem(1001), &source_upper);
    let before = all_bindings(&log);

    // The internal upper is already 1001.
    let batch = operator.mint(&mut log, 1000, Antichain::from_elem(1001), &source_upper);
    assert!(batch.updates.is_empty());
    assert_eq!(batch.upper, Antichain::from_elem(1001));
    assert_eq!(log.upper(), Antichain::from_elem(1001));
    assert_eq!(all_bindings(&log), before);

    // The binding time lies before the upper.
    let later = partitioned_frontier(&[(0, 9)]);
    let batch = operator.mint(&mut log, 500, Antichain::from_elem(2000), &later);
    assert!(batch.updates.is_empty());
    assert_eq!(batch.upper, Antichain::from_elem(1001));
    assert_eq!(all_bindings(&log), before);
}

#[test]
fn mint_with_regressed_source_frontier_is_noop() {
    let mut log: RemapLog<u64> = RemapLog::new();
    let (mut op, _) = ReclockOperator::new(&log);
    op.mint(&mut log, 0, Antichain::from_elem(1), &Antichain::from_elem(0));
    op.mint(&mut log, 10, Antichain::from_elem(11), &Antichain::from_elem(5));
    let batch = op.mint(&mut log, 20, Antichain::from_elem(21), &Antichain::from_elem(3));
    assert!(batch.updates.is_empty());
    assert_eq!(batch.upper, Antichain::from_elem(11));
    assert_eq!(log.upper(), Antichain::from_elem(11));
}

#[test]
fn closing_the_source_closes_the_log() {
    let mut log: RemapLog<u64> = RemapLog::new();
    let (mut op, _) = ReclockOperator::new(&log);
    op.mint(&mut log, 0, Antichain::from_elem(1), &Antichain::from_elem(0));
    let batch = op.mint(&mut log, 10, Antichain::from_elem(11), &Antichain::new());
    assert_eq!(batch.updates, vec![(0, 10, -1)]);
    assert!(batch.upper.is_empty());
    assert!(log.upper().is_empty());
    assert!(op.source_upper().frontier().is_empty());
}

#[test]
fn replay_matches_fresh_accumulation() {
    let mut log = RemapLog::new();
    let (mut operator, _) = make_test_operator(&mut log);
    operator.mint(&mut log, 1000, Antichain::from_elem(1001), &partitioned_frontier(&[(0, 3)]));
    operator.mint(&mut log, 2000, Antichain::from_elem(2001), &partitioned_frontier(&[(0, 5), (2, 7)]));

    let (fresh, initial) = ReclockOperator::new(&log);
    assert_eq!(initial.upper, Antichain::from_elem(2001));

    let mut replayed = MutableAntichain::new();
    let deltas: Vec<(Partitioned, i64)> = initial.updates.iter().map(|b| (b.0, b.2)).collect();
    replayed.update_iter(&deltas);

    let mut got = fresh.source_upper().frontier().elements().clone();
    let mut want = replayed.frontier().elements().clone();
    got.sort();
    want.sort();
    assert_eq!(got, want);
    let mut expected = partitioned_frontier(&[(0, 5), (2, 7)]).elements().clone();
    expected.sort();
    assert_eq!(got, expected);
    assert_eq!(fresh.upper(), &Antichain::from_elem(2001));
}

#[test]
fn log_accumulates_to_one_frontier_at_each_time() {
    let mut log = RemapLog::new();
    let (mut a, _) = make_test_operator(&mut log);
    let (mut b, _) = make_test_operator(&mut log);
    a.mint(&mut log, 1000, Antichain::from_elem(1001), &partitioned_frontier(&[(0, 3)]));
    b.mint(&mut log, 1500, Antichain::from_elem(1501), &partitioned_frontier(&[(0, 4), (1, 2)]));
    a.mint(&mut log, 3000, Antichain::from_elem(3001), &partitioned_frontier(&[(0, 8), (1, 2)]));
    let bindings = all_bindings(&log);
    for t in [0u64, 999, 1000, 1200, 1500, 2000, 3000, 5000] {
        let mut counts: Vec<(Partitioned, i64)> = Vec::new();
        for &(x, time, d) in &bindings {
            if time <= t {
                match counts.iter_mut().find(|c| c.0 == x) {
                    Some(c) => c.1 += d,
                    None => counts.push((x, d)),
                }
            }
        }
        assert!(counts.iter().all(|c| c.1 == 0 || c.1 == 1));
        let live: Vec<Partitioned> = counts.iter().filter(|c| c.1 == 1).map(|c| c.0).collect();
        for x in &live {
            for y in &live {
                assert!(x == y || !x.less_equal(y));
            }
        }
    }
}

#[test]
fn concurrent_writers_both_take_effect() {
    let mut log: RemapLog<u64> = RemapLog::new();
    let (mut a, _) = ReclockOperator::new(&log);
    let (mut b, _) = ReclockOperator::new(&log);
    a.mint(&mut log, 0, Antichain::from_elem(1), &Antichain::from_elem(0));
    a.mint(&mut log, 10, Antichain::from_elem(11), &Antichain::from_elem(4));
    let batch = b.mint(&mut log, 20, Antichain::from_elem(21), &Antichain::from_elem(9));
    assert_eq!(
        sorted_u64(batch.updates),
        sorted_u64(vec![(0, 0, 1), (0, 10, -1), (4, 10, 1), (4, 20, -1), (9, 20, 1)])
    );
    assert_eq!(log.upper(), Antichain::from_elem(21));
    assert_eq!(b.source_upper().frontier().elements(), &vec![9u64]);
    let (_, all) = ReclockOperator::new(&log);
    assert_eq!(all.updates.len(), 5);
}

fn sorted_u64(mut v: Vec<(u64, u64, i64)>) -> Vec<(u64, u64, i64)> {
    v.sort();
    v
}

#[test]
fn stale_mint_is_skipped_when_overtaken() {
    let mut log: RemapLog<u64> = RemapLog::new();
    let (mut a, _) = ReclockOperator::new(&log);
    let (mut b, _) = ReclockOperator::new(&log);
    a.mint(&mut log, 0, Antichain::from_elem(1), &Antichain::from_elem(0));
    a.mint(&mut log, 50, Antichain::from_elem(51), &Antichain::from_elem(8));
    // B aims below what A already recorded: it only catches up.
    let batch = b.mint(&mut log, 20, Antichain::from_elem(21), &Antichain::from_elem(5));
    assert_eq!(sorted_u64(batch.updates), sorted_u64(vec![(0, 0, 1), (0, 50, -1), (8, 50, 1)]));
    assert_eq!(batch.upper, Antichain::from_elem(51));
    assert_eq!(log.upper(), Antichain::from_elem(51));
}

#[test]
fn mint_on_fresh_log_splits_partition_range() {
    let mut log = RemapLog::new();
    let (mut operator, _) = make_test_operator(&mut log);
    let batch = operator.mint(&mut log, 1000, Antichain::from_elem(1001), &partitioned_frontier(&[(0, 4)]));
    assert_eq!(batch.updates.len(), 4);
    assert_eq!(
        sorted(batch.updates),
        sorted(vec![
            (everything(), 1000, -1),
            (gap_below_zero(), 1000, 1),
            (gap_above_zero(), 1000, 1),
            (partition_zero(4), 1000, 1),
        ])
    );
    assert_eq!(batch.upper, Antichain::from_elem(1001));
}

#[test]
fn test_compaction() {
    let mut log = RemapLog::new();
    let (mut operator, _batch) = make_test_operator(&mut log);

    operator.mint(&mut log, 1000, Antichain::from_elem(1001), &partitioned_frontier(&[(0, 3)]));
    operator.mint(&mut log, 2000, Antichain::from_elem(2001), &partitioned_frontier(&[(0, 5)]));

    // Compact so that the state as of 1000 is what remains of it.
    log.compact(1000);

    let (_operator, mut initial_batch) = make_test_operator(&mut log);
    let mut expected_batch = ReclockBatch {
        updates: vec![
            (gap_below_zero(), 1000, 1),
            (gap_above_zero(), 1000, 1),
            (partition_zero(3), 1000, 1),
            (partition_zero(3), 2000, -1),
            (partition_zero(5), 2000, 1),
        ],
        upper: Antichain::from_elem(2001),
    };
    expected_batch.updates.sort();
    initial_batch.updates.sort();
    assert_eq!(initial_batch, expected_batch);
}

#[test]
fn compaction_frontier_as_of_since() {
    let mut log = RemapLog::new();
    let (mut operator, _) = make_test_operator(&mut log);
    operator.mint(&mut log, 1000, Antichain::from_elem(1001), &partitioned_frontier(&[(0, 3)]));
    operator.mint(&mut log, 2000, Antichain::from_elem(2001), &partitioned_frontier(&[(0, 5)]));
    log.compact(1000);
    let as_of_1000: Vec<Partitioned> = all_bindings(&log)
        .into_iter()
        .filter(|b| b.1 <= 1000 && b.2 == 1)
        .map(|b| b.0)
        .collect();
    let mut got = as_of_1000;
    got.sort();
    let mut want = partitioned_frontier(&[(0, 3)]).elements().clone();
    want.sort();
    assert_eq!(got, want);
    assert!(all_bindings(&log).iter().all(|b| b.1 >= 1000));
    assert_eq!(log.upper(), Antichain::from_elem(2001));
}

#[test]
fn compare_and_append_rejects_stale_upper() {
    let mut log: RemapLog<u64> = RemapLog::new();
    assert_eq!(
        log.compare_and_append(vec![(1, 0, 1)], &Antichain::from_elem(0), &Antichain::from_elem(5)),
        Ok(())
    );
    let r = log.compare_and_append(vec![(2, 0, 1)], &Antichain::from_elem(0), &Antichain::from_elem(7));
    assert_eq!(r, Err(Antichain::from_elem(5)));
    assert_eq!(log.upper(), Antichain::from_elem(5));
    let (batch, upper) = log.next(&Antichain::from_elem(0));
    assert_eq!(batch, vec![(1, 0, 1)]);
    assert_eq!(upper, Antichain::from_elem(5));
    let (batch, _) = log.next(&Antichain::from_elem(5));
    assert!(batch.is_empty());
}

#[test]
fn antichain_insert_keeps_minimal_elements() {
    let a = Partitioned::new_range(RangeBound::NegInfinity, RangeBound::PosInfinity, 3);
    let b = partition_zero(5);
    let c = partition_zero(1);
    let mut f = Antichain::new();
    assert!(f.insert(b));
    // `a` covers every partition at a lower offset: it lies before `b` and replaces it.
    assert!(a.less_equal(&b));
    assert!(f.insert(a));
    assert_eq!(f.elements(), &vec![a]);
    // Dominated: nothing changes.
    assert!(!f.insert(b));
    assert_eq!(f.elements(), &vec![a]);
    assert!(f.insert(c));
    let mut got = f.elements().clone();
    got.sort();
    let mut want = vec![a, c];
    want.sort();
    assert_eq!(got, want);
}

#[test]
fn antichain_comparisons() {
    let lo: Antichain<u64> = Antichain::from_elem(3);
    let hi: Antichain<u64> = Antichain::from_elem(7);
    let closed: Antichain<u64> = Antichain::new();
    assert!(lo.frontier_less_equal(&hi));
    assert!(lo.frontier_less_than(&hi));
    assert!(!hi.frontier_less_equal(&lo));
    assert!(lo.frontier_less_equal(&lo));
    assert!(!lo.frontier_less_than(&lo));
    assert!(hi.frontier_less_than(&closed));
    assert!(!closed.frontier_less_equal(&hi));
    assert!(lo.less_equal(&3));
    assert!(!lo.less_equal(&2));
    assert!(lo.less_than(&4));
    assert!(!lo.less_than(&3));
    assert!(!closed.less_equal(&0));
    assert!(lo.same_elements(&Antichain::from_elem(3)));
    assert!(lo.contains(&3));
}

#[test]
fn mutable_antichain_tracks_positive_minimal() {
    let mut m: MutableAntichain<u64> = MutableAntichain::new();
    assert!(m.frontier().is_empty());
    m.update_iter(&vec![(5, 1), (3, 1), (8, 1)]);
    assert_eq!(m.frontier().elements(), &vec![3]);
    m.update_iter(&vec![(3, -1)]);
    assert_eq!(m.frontier().elements(), &vec![5]);
    m.update_iter(&vec![(5, -1), (8, -1), (9, 2)]);
    assert_eq!(m.frontier().elements(), &vec![9]);
    m.update_iter(&vec![(9, -2), (2, -1)]);
    assert!(m.frontier().is_empty());
}

#[test]
fn mutable_antichain_partial_order() {
    let mut m: MutableAntichain<Partitioned> = MutableAntichain::new();
    let f = partitioned_frontier(&[(0, 4)]);
    let deltas: Vec<(Partitioned, i64)> = f.elements().iter().map(|x| (*x, 1)).collect();
    m.update_iter(&deltas);
    let mut got = m.frontier().elements().clone();
    got.sort();
    let mut want = f.elements().clone();
    want.sort();
    assert_eq!(got, want);
    // Adding the least element hides the rest.
    m.update_iter(&vec![(everything(), 1)]);
    assert_eq!(m.frontier().elements(), &vec![everything()]);
}

#[test]
fn consolidate_sums_and_drops_zeros() {
    let updates: Vec<(u64, u64, i64)> =
        vec![(1, 10, 1), (2, 10, 1), (1, 10, -1), (2, 10, 1), (2, 11, -1), (3, 10, 0)];
    let mut r = reclock::consolidate(&updates);
    r.sort();
    assert_eq!(r, vec![(2, 10, 2), (2, 11, -1)]);
    let empty: Vec<(u64, u64, i64)> = vec![];
    assert!(reclock::consolidate(&empty).is_empty());
}

#[test]
fn partitioned_order() {
    let all = everything();
    assert!(all.less_equal(&gap_below_zero()));
    assert!(all.less_equal(&partition_zero(0)));
    assert!(!partition_zero(0).less_equal(&all));
    assert!(partition_zero(2).less_equal(&partition_zero(3)));
    assert!(!partition_zero(3).less_equal(&partition_zero(2)));
    assert!(!gap_below_zero().less_equal(&partition_zero(4)));
    assert!(!gap_above_zero().less_equal(&gap_below_zero()));
    assert!(RangeBound::before(0).bound_le(&RangeBound::exact(0)));
    assert!(RangeBound::exact(0).bound_le(&RangeBound::after(0)));
    assert!(RangeBound::after(0).bound_le(&RangeBound::before(1)));
    assert!(!RangeBound::PosInfinity.bound_le(&RangeBound::after(7)));
    assert!(RangeBound::after(0) < RangeBound::before(1));
    assert_eq!(<Partitioned as Timestamp>::minimum(), all);
    assert!(all.equals(&everything()));
    assert!(!all.equals(&gap_below_zero()));
}
