use latency_bench::dispatch::{DispatchError, Dispatcher, Schedule};
use latency_bench::outcome::{filter_outcomes, CallOutcome};

fn names(ts: &[&str]) -> Vec<String> {
    ts.iter().map(|t| t.to_string()).collect()
}

/// Drives a dispatcher to the end, completing outstanding calls oldest
/// first, and checks at every step that no more than `limit` are outstanding.
fn run_to_end(d: &mut Dispatcher, limit: usize) {
    let mut outstanding: Vec<usize> = d.start_ready();
    while !d.is_finished() {
        assert!(d.in_flight_count() <= limit);
        let i = outstanding.remove(0);
        d.complete(i, Ok(i as u64 + 1)).unwrap();
        outstanding.extend(d.start_ready());
    }
}

#[test]
fn zero_limit_is_rejected() {
    assert!(matches!(
        Dispatcher::new(names(&["a"]), 0, Schedule::Batched),
        Err(DispatchError::ZeroLimit)
    ));
    assert!(matches!(
        Dispatcher::new(Vec::new(), 0, Schedule::Continuous),
        Err(DispatchError::ZeroLimit)
    ));
}

#[test]
fn batches_of_two_over_five_targets() {
    let mut d = Dispatcher::new(names(&["A", "B", "C", "D", "E"]), 2, Schedule::Batched).unwrap();
    assert_eq!(d.start_ready(), vec![0, 1]);
    d.complete(0, Ok(10)).unwrap();
    // B is still outstanding: the next batch waits
    assert_eq!(d.start_ready(), Vec::<usize>::new());
    d.complete(1, Ok(20)).unwrap();
    assert_eq!(d.start_ready(), vec![2, 3]);
    d.complete(3, Ok(40)).unwrap();
    assert_eq!(d.start_ready(), Vec::<usize>::new());
    d.complete(2, Ok(30)).unwrap();
    assert_eq!(d.start_ready(), vec![4]);
    assert!(!d.is_finished());
    d.complete(4, Ok(50)).unwrap();
    assert_eq!(d.start_ready(), Vec::<usize>::new());
    assert!(d.is_finished());
    let order: Vec<String> = d.outcomes().iter().map(|o| o.target().clone()).collect();
    assert_eq!(order, names(&["A", "B", "D", "C", "E"]));
}

#[test]
fn continuous_refills_at_once() {
    let mut d = Dispatcher::new(names(&["A", "B", "C", "D", "E"]), 2, Schedule::Continuous).unwrap();
    assert_eq!(d.start_ready(), vec![0, 1]);
    d.complete(1, Ok(5)).unwrap();
    assert_eq!(d.start_ready(), vec![2]);
    assert_eq!(d.in_flight_count(), 2);
    d.complete(0, Ok(9)).unwrap();
    d.complete(2, Ok(9)).unwrap();
    assert_eq!(d.start_ready(), vec![3, 4]);
    d.complete(4, Ok(1)).unwrap();
    d.complete(3, Ok(1)).unwrap();
    assert_eq!(d.start_ready(), Vec::<usize>::new());
    assert!(d.is_finished());
    assert_eq!(d.outcomes().len(), 5);
}

#[test]
fn every_target_gets_one_outcome() {
    let targets = names(&["a", "b", "c", "d", "e", "f", "g"]);
    for limit in 1..10 {
        for schedule in [Schedule::Batched, Schedule::Continuous] {
            let mut d = Dispatcher::new(targets.clone(), limit, schedule).unwrap();
            run_to_end(&mut d, limit);
            let outs = d.into_outcomes();
            assert_eq!(outs.len(), targets.len());
            let mut seen: Vec<String> = outs.iter().map(|o| o.target().clone()).collect();
            seen.sort();
            assert_eq!(seen, targets);
        }
    }
}

#[test]
fn no_targets_is_finished_at_once() {
    let mut d = Dispatcher::new(Vec::new(), 3, Schedule::Continuous).unwrap();
    assert!(d.start_ready().is_empty());
    assert!(d.is_finished());
    assert!(d.outcomes().is_empty());
}

#[test]
fn unknown_or_repeated_completion_is_rejected() {
    let mut d = Dispatcher::new(names(&["a", "b", "c"]), 1, Schedule::Continuous).unwrap();
    assert_eq!(d.start_ready(), vec![0]);
    assert_eq!(d.complete(1, Ok(3)), Err(DispatchError::NotInFlight));
    assert_eq!(d.complete(0, Ok(3)), Ok(()));
    assert_eq!(d.complete(0, Ok(3)), Err(DispatchError::NotInFlight));
    assert_eq!(d.outcomes().len(), 1);
}

#[test]
fn one_failure_does_not_stop_the_batch() {
    let mut d = Dispatcher::new(names(&["a", "b", "c", "d"]), 4, Schedule::Batched).unwrap();
    assert_eq!(d.start_ready(), vec![0, 1, 2, 3]);
    d.complete(2, Err("connection reset".to_string())).unwrap();
    assert_eq!(d.in_flight_count(), 3);
    d.complete(0, Ok(100)).unwrap();
    d.complete(3, Ok(300)).unwrap();
    d.complete(1, Ok(200)).unwrap();
    assert!(d.is_finished());
    match &d.outcomes()[0] {
        CallOutcome::Failure { target, error } => {
            assert_eq!(target, "c");
            assert_eq!(error, "connection reset");
        }
        _ => panic!("first completion was the failure"),
    }
    let (ms, failed) = filter_outcomes(d.outcomes());
    assert_eq!(failed, 1);
    let kept: Vec<(String, u64)> = ms.iter().map(|m| (m.target.clone(), m.elapsed_nanos)).collect();
    assert_eq!(
        kept,
        vec![("a".to_string(), 100), ("d".to_string(), 300), ("b".to_string(), 200)]
    );
}

#[test]
fn target_lookup() {
    let d = Dispatcher::new(names(&["x", "y"]), 2, Schedule::Batched).unwrap();
    assert_eq!(d.target(1), "y");
}
