use stats::frequency::Frequencies;
use stats::minmax::MinMax;
use stats::online::{self, OnlineStats};
use stats::sorted::Sorted;
use stats::unsorted::{self, Unsorted};
use stats::Commute;
use stats::Partial;
use std::cmp::Ordering;

fn ratio_to_f64(q: stats::ratio::Ratio) -> f64 {
    q.num as f64 / q.den as f64
}

#[test]
fn frequency_counts() {
    let mut counter = Frequencies::new();
    for v in [2, 1, 3, 2] {
        counter.add(v);
    }
    assert_eq!(counter.count(2), 2);
    assert_eq!(counter.count(1), 1);
    assert_eq!(counter.count(3), 1);
    assert_eq!(counter.count(9), 0);
    assert_eq!(counter.total(), 4);
    assert_eq!(counter.distinct(), vec![1, 2, 3]);

    let mut other = Frequencies::new();
    for v in [5, 6, 5, 5] {
        other.add(v);
    }
    counter.merge(other);
    assert_eq!(counter.count(5), 3);
    assert_eq!(counter.count(6), 1);
    assert_eq!(counter.count(2), 2);
    assert_eq!(counter.total(), 8);
    assert!(counter.is_live());
}

#[test]
fn from_vec_constructors() {
    let tracker = MinMax::from_vec(vec![2, 1, 3, 2]);
    assert_eq!(tracker.min(), Some(1));
    assert_eq!(tracker.max(), Some(3));

    let counter = Frequencies::from_vec(vec![2, 1, 3, 2]);
    assert_eq!(counter.count(2), 2);
    assert_eq!(counter.count(1), 1);
    assert_eq!(counter.count(3), 1);
    assert_eq!(counter.total(), 4);
    assert!(counter.is_live());
}

#[test]
fn optional_minmax_merges_to_global_bounds() {
    let mut merged = Some(MinMax::from_vec(vec![2, 1, 3, 2]));
    merged.merge(Some(MinMax::from_vec(vec![9, 5])));
    let m = merged.unwrap();
    assert_eq!(m.min(), Some(1));
    assert_eq!(m.max(), Some(9));

    let mut absent_right = Some(MinMax::from_vec(vec![4]));
    absent_right.merge(None);
    assert_eq!(absent_right.unwrap().min(), Some(4));
}

#[test]
fn minmax_bounds() {
    let mut tracker = MinMax::new();
    for v in [2, 1, 3, 2] {
        tracker.add(v);
    }
    assert_eq!(tracker.min(), Some(1));
    assert_eq!(tracker.max(), Some(3));

    let empty = MinMax::new();
    assert_eq!(empty.min(), None);
    assert_eq!(empty.max(), None);
}

#[test]
fn minmax_merge_takes_global_bounds() {
    let mut low = MinMax::new();
    low.add(-4);
    low.add(2);
    let mut high = MinMax::new();
    high.add(9);
    high.add(5);
    low.merge(high);
    assert_eq!(low.min(), Some(-4));
    assert_eq!(low.max(), Some(9));
}

#[test]
fn online_moments_single_pass() {
    let mut stats = OnlineStats::new();
    for v in [2, 4, 4, 4, 5, 5, 7, 9] {
        stats.add(v);
    }
    assert!(stats.is_live());
    assert_eq!(stats.len(), 8);
    let mean = stats.mean().unwrap();
    assert_eq!((mean.num, mean.den), (40, 8));
    assert!((ratio_to_f64(mean) - 5.0).abs() < 1e-9);
    let var = stats.variance().unwrap();
    assert!((ratio_to_f64(var) - 4.0).abs() < 1e-9);
}

#[test]
fn online_moments_merge_matches_single_pass() {
    let mut left = OnlineStats::new();
    for v in [2, 4, 4, 4] {
        left.add(v);
    }
    let mut right = OnlineStats::new();
    for v in [5, 5, 7, 9] {
        right.add(v);
    }
    left.merge(right);
    assert_eq!(left.len(), 8);
    assert!((ratio_to_f64(left.mean().unwrap()) - 5.0).abs() < 1e-9);
    assert!((ratio_to_f64(left.variance().unwrap()) - 4.0).abs() < 1e-9);
}

#[test]
fn online_free_functions() {
    let mean = online::mean(vec![2, 4, 4, 4, 5, 5, 7, 9]).unwrap();
    assert!((ratio_to_f64(mean) - 5.0).abs() < 1e-9);
    let var = online::variance(vec![2, 4, 4, 4, 5, 5, 7, 9]).unwrap();
    assert!((ratio_to_f64(var) - 4.0).abs() < 1e-9);
    assert!(online::mean(Vec::new()).is_none());
    assert!(online::variance(Vec::new()).is_none());
}

#[test]
fn sorted_rank_queries() {
    let sorted = Sorted::from_vec(vec![2, 1, 3, 2]);
    assert_eq!(sorted.len(), 4);
    assert_eq!(sorted.min(), Some(1));
    assert_eq!(sorted.max(), Some(3));
    assert_eq!(sorted.kth(0), Some(1));
    assert_eq!(sorted.kth(1), Some(2));
    assert_eq!(sorted.kth(2), Some(2));
    assert_eq!(sorted.kth(3), Some(3));
    assert_eq!(sorted.kth(4), None);
    assert_eq!(sorted.count_value(2), 2);
    assert_eq!(sorted.count_value(7), 0);
}

#[test]
fn sorted_mode_prefers_least_on_ties() {
    assert_eq!(Sorted::from_vec(vec![2, 1, 1, 2]).mode(), Some(1));
    assert_eq!(Sorted::from_vec(vec![5, 6, 5, 5]).mode(), Some(5));
    assert_eq!(Sorted::new().mode(), None);
}

#[test]
fn median_of_samples() {
    let even = Unsorted::from_vec(vec![1, 2, 3, 4]);
    let q = even.median().unwrap();
    assert_eq!((q.num, q.den), (5, 2));
    assert!((ratio_to_f64(q) - 2.5).abs() < 1e-9);

    let odd = Unsorted::from_vec(vec![1, 2, 3]);
    let q = odd.median().unwrap();
    assert!((ratio_to_f64(q) - 2.0).abs() < 1e-9);

    assert!(Unsorted::new().median().is_none());
}

#[test]
fn unsorted_mode_and_merge() {
    let mut sample = Unsorted::from_vec(vec![2, 1, 3, 2]);
    assert_eq!(sample.mode(), Some(2));
    sample.merge(Unsorted::from_vec(vec![5, 6, 5, 5]));
    assert_eq!(sample.mode(), Some(5));
    assert_eq!(sample.len(), 8);
    sample.add(5);
    assert_eq!(sample.len(), 9);
}

#[test]
fn unsorted_free_functions() {
    let q = unsorted::median(vec![1, 2, 3, 4]).unwrap();
    assert_eq!((q.num, q.den), (5, 2));
    assert_eq!(unsorted::mode(vec![5, 6, 5, 5]), Some(5));
    assert_eq!(unsorted::mode(Vec::new()), None);
    assert!(unsorted::median(Vec::new()).is_none());
}

#[test]
fn partial_orders_totally() {
    assert_eq!(Partial(f64::NAN).total_cmp(&Partial(1.0)), Ordering::Less);
    assert_eq!(Partial(1.0).total_cmp(&Partial(f64::NAN)), Ordering::Less);
    assert_eq!(Partial(2.0).total_cmp(&Partial(1.0)), Ordering::Greater);
    assert_eq!(Partial(1.0).total_cmp(&Partial(2.0)), Ordering::Less);
    assert_eq!(Partial(1.5).total_cmp(&Partial(1.5)), Ordering::Equal);
    assert!(Partial(1.5) == Partial(1.5));
    assert_eq!(Partial(7.25).into_inner(), 7.25);
}
