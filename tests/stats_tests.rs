use latency_bench::outcome::Measurement;
use latency_bench::stats::summarize;

const SEC: u64 = 1_000_000_000;

fn sample(nanos: &[u64]) -> Vec<Measurement> {
    nanos
        .iter()
        .enumerate()
        .map(|(i, &n)| Measurement { target: format!("t{}", i), elapsed_nanos: n })
        .collect()
}

#[test]
fn one_two_three_seconds() {
    let s = summarize(&sample(&[SEC, 2 * SEC, 3 * SEC]));
    assert_eq!(s.sample_count, 3);
    let st = s.stats.expect("non-empty sample has statistics");
    assert_eq!(st.mean_nanos, 2 * SEC);
    assert_eq!(st.min_nanos, SEC);
    assert_eq!(st.max_nanos, 3 * SEC);
    assert_eq!(st.total_nanos, 6 * SEC as u128);
    // population standard deviation: sqrt(2/3) s, rounded down to the nanosecond
    assert_eq!(st.stddev_nanos, 816_496_580);
}

#[test]
fn empty_sample_has_no_statistics() {
    let s = summarize(&Vec::new());
    assert_eq!(s.sample_count, 0);
    assert!(s.stats.is_none());
}

#[test]
fn single_measurement() {
    let s = summarize(&sample(&[1234]));
    assert_eq!(s.sample_count, 1);
    let st = s.stats.unwrap();
    assert_eq!(st.mean_nanos, 1234);
    assert_eq!(st.stddev_nanos, 0);
    assert_eq!(st.min_nanos, 1234);
    assert_eq!(st.max_nanos, 1234);
}

#[test]
fn textbook_standard_deviation() {
    let st = summarize(&sample(&[2, 4, 4, 4, 5, 5, 7, 9])).stats.unwrap();
    assert_eq!(st.mean_nanos, 5);
    assert_eq!(st.stddev_nanos, 2);
    assert_eq!(st.min_nanos, 2);
    assert_eq!(st.max_nanos, 9);
}

#[test]
fn mean_rounds_down() {
    let st = summarize(&sample(&[1, 2])).stats.unwrap();
    assert_eq!(st.mean_nanos, 1);
    // population variance 1/4, standard deviation 1/2
    assert_eq!(st.stddev_nanos, 0);
    assert_eq!(st.total_nanos, 3);
}

#[test]
fn largest_durations_do_not_overflow() {
    let st = summarize(&sample(&[u64::MAX, u64::MAX, u64::MAX])).stats.unwrap();
    assert_eq!(st.total_nanos, 3 * u64::MAX as u128);
    assert_eq!(st.mean_nanos, u64::MAX);
    assert_eq!(st.stddev_nanos, 0);
}

#[test]
fn widest_spread() {
    let st = summarize(&sample(&[0, u64::MAX])).stats.unwrap();
    assert_eq!(st.mean_nanos, u64::MAX / 2);
    assert_eq!(st.stddev_nanos, u64::MAX / 2);
    assert_eq!(st.min_nanos, 0);
    assert_eq!(st.max_nanos, u64::MAX);
}

#[test]
fn bounds_are_ordered() {
    for data in [vec![5, 1, 9, 3], vec![7], vec![100, 100, 101], vec![0, 0, 0, 1_000_000]] {
        let st = summarize(&sample(&data)).stats.unwrap();
        assert!(st.min_nanos <= st.mean_nanos && st.mean_nanos <= st.max_nanos);
    }
}

#[test]
fn order_does_not_matter() {
    let a = summarize(&sample(&[30, 10, 20])).stats.unwrap();
    let b = summarize(&sample(&[10, 20, 30])).stats.unwrap();
    assert_eq!(a.mean_nanos, b.mean_nanos);
    assert_eq!(a.stddev_nanos, b.stddev_nanos);
    assert_eq!(a.min_nanos, 10);
    assert_eq!(b.max_nanos, 30);
}
