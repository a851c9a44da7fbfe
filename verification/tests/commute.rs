use stats::merge_all;
use stats::sorted::Sorted;
use stats::Commute;

#[test]
fn options() {
    let v1: Sorted = Sorted::from_vec(vec![2, 1, 3, 2]);
    let v2: Sorted = Sorted::from_vec(vec![5, 6, 5, 5]);
    let mut merged = Some(v1);
    merged.merge(Some(v2));
    assert_eq!(merged.unwrap().mode(), Some(5));
}

#[test]
fn option_none_is_identity() {
    let mut left: Option<Sorted> = None;
    left.merge(Some(Sorted::from_vec(vec![4, 2])));
    assert_eq!(left.as_ref().unwrap().min(), Some(2));

    let mut right: Option<Sorted> = Some(Sorted::from_vec(vec![4, 2]));
    right.merge(None);
    assert_eq!(right.as_ref().unwrap().max(), Some(4));

    let mut both: Option<Sorted> = None;
    both.merge(None);
    assert!(both.is_none());
}

#[test]
fn result_errors_absorb() {
    let mut ok_then_err: Result<Sorted, &str> = Ok(Sorted::from_vec(vec![1]));
    ok_then_err.merge(Err("bad shard"));
    match ok_then_err {
        Err(e) => assert_eq!(e, "bad shard"),
        Ok(_) => panic!("an error must absorb the merge"),
    }

    let mut err_then_err: Result<Sorted, &str> = Err("first");
    err_then_err.merge(Err("second"));
    match err_then_err {
        Err(e) => assert_eq!(e, "first"),
        Ok(_) => panic!("an error must absorb the merge"),
    }

    let mut ok_then_ok: Result<Sorted, &str> = Ok(Sorted::from_vec(vec![1, 3]));
    ok_then_ok.merge(Ok(Sorted::from_vec(vec![2])));
    match ok_then_ok {
        Ok(s) => assert_eq!(s.kth(1), Some(2)),
        Err(_) => panic!("two successes must merge"),
    }
}

#[test]
fn vec_merges_pointwise() {
    let mut left: Vec<Sorted> = vec![Sorted::from_vec(vec![1]), Sorted::from_vec(vec![5])];
    let right: Vec<Sorted> = vec![Sorted::from_vec(vec![2]), Sorted::from_vec(vec![6, 4])];
    left.merge(right);
    assert_eq!(left[0].len(), 2);
    assert_eq!(left[0].max(), Some(2));
    assert_eq!(left[1].min(), Some(4));
    assert_eq!(left[1].len(), 3);
}

#[test]
fn vec_of_identities_changes_no_component() {
    let mut left: Vec<Sorted> = vec![Sorted::from_vec(vec![1, 2]), Sorted::from_vec(vec![3])];
    left.merge(vec![Sorted::new(), Sorted::new()]);
    assert_eq!(left.len(), 2);
    assert_eq!(left[0].kth(0), Some(1));
    assert_eq!(left[0].kth(1), Some(2));
    assert_eq!(left[0].len(), 2);
    assert_eq!(left[1].kth(0), Some(3));
    assert_eq!(left[1].len(), 1);
}

#[test]
fn consume_folds_in_order() {
    let mut acc = Sorted::from_vec(vec![3]);
    acc.consume(vec![Sorted::from_vec(vec![1]), Sorted::from_vec(vec![2])]);
    assert_eq!(acc.kth(0), Some(1));
    assert_eq!(acc.kth(1), Some(2));
    assert_eq!(acc.kth(2), Some(3));
}

#[test]
fn merge_all_of_empty_stream_is_none() {
    let empty: Vec<Sorted> = Vec::new();
    assert!(merge_all(empty).is_none());
}

#[test]
fn merge_all_unions_every_shard() {
    let shards = vec![
        Sorted::from_vec(vec![2, 1]),
        Sorted::from_vec(vec![3, 2]),
        Sorted::from_vec(vec![5]),
    ];
    let merged = merge_all(shards).unwrap();
    assert_eq!(merged.len(), 5);
    assert_eq!(merged.min(), Some(1));
    assert_eq!(merged.max(), Some(5));
    assert_eq!(merged.mode(), Some(2));
}

#[test]
fn merge_is_commutative() {
    let mut ab = Sorted::from_vec(vec![2, 1, 3, 2]);
    ab.merge(Sorted::from_vec(vec![5, 6, 5, 5]));
    let mut ba = Sorted::from_vec(vec![5, 6, 5, 5]);
    ba.merge(Sorted::from_vec(vec![2, 1, 3, 2]));
    for k in 0..8 {
        assert_eq!(ab.kth(k), ba.kth(k));
    }
}

#[test]
fn merge_is_associative() {
    let mut left_grouped = Sorted::from_vec(vec![2, 1]);
    left_grouped.merge(Sorted::from_vec(vec![3]));
    left_grouped.merge(Sorted::from_vec(vec![2, 5]));

    let mut right_inner = Sorted::from_vec(vec![3]);
    right_inner.merge(Sorted::from_vec(vec![2, 5]));
    let mut right_grouped = Sorted::from_vec(vec![2, 1]);
    right_grouped.merge(right_inner);

    for k in 0..5 {
        assert_eq!(left_grouped.kth(k), right_grouped.kth(k));
    }
}

#[test]
fn merging_fresh_instance_changes_nothing() {
    let mut counter = stats::frequency::Frequencies::new();
    for v in [2, 1, 3, 2] {
        counter.add(v);
    }
    counter.merge(stats::frequency::Frequencies::default());
    assert_eq!(counter.count(2), 2);
    assert_eq!(counter.count(1), 1);
    assert_eq!(counter.count(3), 1);
    assert_eq!(counter.total(), 4);

    let mut tracker = stats::minmax::MinMax::new();
    tracker.merge({
        let mut fed = stats::minmax::MinMax::new();
        fed.add(7);
        fed
    });
    assert_eq!(tracker.min(), Some(7));
    assert_eq!(tracker.max(), Some(7));
}

#[test]
fn sharded_feeding_matches_single_pass() {
    let whole: Vec<i64> = vec![2, 1, 3, 2, 5, 6, 5, 5];
    let mut single = stats::frequency::Frequencies::new();
    for &v in &whole {
        single.add(v);
    }

    let mut shard_a = stats::frequency::Frequencies::new();
    for &v in &whole[..3] {
        shard_a.add(v);
    }
    let mut shard_b = stats::frequency::Frequencies::new();
    for &v in &whole[3..6] {
        shard_b.add(v);
    }
    let mut shard_c = stats::frequency::Frequencies::new();
    for &v in &whole[6..] {
        shard_c.add(v);
    }

    let merged = merge_all(vec![shard_a, shard_b, shard_c]).unwrap();
    for v in [1, 2, 3, 5, 6, 9] {
        assert_eq!(merged.count(v), single.count(v));
    }
    assert_eq!(merged.total(), single.total());
    assert_eq!(merged.distinct(), single.distinct());
}
