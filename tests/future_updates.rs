use reclock::FutureUpdates;

#[test]
fn retrieve_hands_out_due_updates_in_time_order() {
    let mut f: FutureUpdates<&str> = FutureUpdates::new();
    f.insert(30, "c");
    f.insert(10, "a");
    f.insert(20, "b1");
    f.insert(20, "b2");
    f.insert(40, "d");
    assert!(f.retrieve(5).is_empty());
    assert_eq!(f.retrieve(20), vec!["a", "b1", "b2"]);
    assert!(f.retrieve(20).is_empty());
    f.insert(25, "x");
    assert_eq!(f.retrieve(100), vec!["x", "c", "d"]);
    assert!(f.retrieve(u64::MAX).is_empty());
}

#[test]
fn retrieve_at_exact_time_includes_it() {
    let mut f: FutureUpdates<u32> = FutureUpdates::new();
    f.insert(7, 1);
    f.insert(8, 2);
    assert_eq!(f.retrieve(7), vec![1]);
    assert_eq!(f.retrieve(7), Vec::<u32>::new());
    assert_eq!(f.retrieve(8), vec![2]);
}
