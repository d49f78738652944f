use task_window::SerializedTasksOrdered;
use task_window::TaskExt;
use task_window::TasksOrdered;
use task_window::TasksUnordered;
use task_window::run_ordered;
use task_window::run_unordered;

fn drain_ordered<C, M, F: Fn(C) -> M>(mut t: TasksOrdered<C, F>) -> Vec<M> {
    let mut out = Vec::new();
    while let Some(m) = t.next() {
        out.push(m);
    }
    out
}

fn drain_unordered<C, M, F: Fn(C) -> M>(mut t: TasksUnordered<C, F>) -> Vec<M> {
    let mut out = Vec::new();
    while let Some(m) = t.next() {
        out.push(m);
    }
    out
}

#[test]
fn ordered_identity_window_two() {
    let source: Vec<u64> = (0..10).collect();
    let out = run_ordered(source, 2, |x: u64| x);
    assert_eq!(out, (0..10).collect::<Vec<u64>>());
}

#[test]
fn ordered_output_independent_of_window_size() {
    for n in 1..12 {
        let source: Vec<u64> = (0..10).collect();
        let out = run_ordered(source, n, |x: u64| x * 3);
        assert_eq!(out, (0..10).map(|x| x * 3).collect::<Vec<u64>>());
    }
}

#[test]
fn unordered_reversed_range_delay_schedule() {
    // Source [4,3,2,1,0], window 3, identity mapping, each worker's running
    // time proportional to its value: values 4,3,2 start first and 2
    // finishes first, then 3, whose slot was backfilled by 1, and so on.
    // The arrival schedule below is that timing expressed as window
    // positions; the observed completion order is 2, 3, 0, 1, 4.
    let mut t = TasksUnordered::new(vec![4u32, 3, 2, 1, 0], 3, |x: u32| x);
    assert_eq!(t.next_pick(2), Some(2));
    assert_eq!(t.next_pick(1), Some(3));
    assert_eq!(t.next_pick(2), Some(0));
    assert_eq!(t.next_pick(1), Some(1));
    assert_eq!(t.next_pick(0), Some(4));
    assert_eq!(t.next_pick(0), None);
}

#[test]
fn empty_source_yields_nothing() {
    let mut ordered = TasksOrdered::new(Vec::<u8>::new(), 4, |x: u8| x);
    assert_eq!(ordered.next(), None);
    let mut unordered = TasksUnordered::new(Vec::<u8>::new(), 4, |x: u8| x);
    assert_eq!(unordered.next(), None);
    assert_eq!(unordered.next_pick(7), None);
    let out = run_ordered(Vec::<u8>::new(), 1, |x: u8| x);
    assert!(out.is_empty());
    let out = run_unordered(Vec::<u8>::new(), 1, |x: u8| x, &vec![]);
    assert!(out.is_empty());
}

#[test]
fn oversized_window_matches_exact_window() {
    let arrivals = vec![2, 0, 1, 0, 1];
    let small = run_unordered(vec![5u32, 6, 7, 8, 9], 5, |x: u32| x + 1, &arrivals);
    let large = run_unordered(vec![5u32, 6, 7, 8, 9], 50, |x: u32| x + 1, &arrivals);
    assert_eq!(small, large);
    let small = run_ordered(vec![5u32, 6, 7, 8, 9], 5, |x: u32| x + 1);
    let large = run_ordered(vec![5u32, 6, 7, 8, 9], 50, |x: u32| x + 1);
    assert_eq!(small, large);
}

#[test]
fn unordered_multiset_matches_ordered() {
    let schedules: Vec<Vec<usize>> = vec![
        vec![],
        vec![1, 1, 1, 1],
        vec![3, 2, 1, 0],
        vec![0, 3, 0, 3, 0],
        vec![9, 9, 9, 9, 9, 9],
    ];
    let ordered = run_ordered(vec![1u64, 2, 3, 4, 5, 6], 3, |x: u64| x * 10);
    let mut sorted_ordered = ordered.clone();
    sorted_ordered.sort();
    for arrivals in schedules {
        let unordered = run_unordered(vec![1u64, 2, 3, 4, 5, 6], 3, |x: u64| x * 10, &arrivals);
        let mut sorted = unordered.clone();
        sorted.sort();
        assert_eq!(sorted, sorted_ordered);
    }
}

#[test]
fn zero_window_rejected() {
    assert!(TasksOrdered::try_new(vec![1u8], 0, |x: u8| x).is_none());
    assert!(TasksUnordered::try_new(vec![1u8], 0, |x: u8| x).is_none());
    assert!(TasksOrdered::try_new(vec![1u8], 1, |x: u8| x).is_some());
    assert!(TasksUnordered::try_new(vec![1u8], 1, |x: u8| x).is_some());
}

#[test]
fn snapshot_round_trip_resumes_identically() {
    // With a window of one, the dispatcher is idle between pulls, so it can
    // be suspended mid-stream; the reconstruction yields what the original
    // would have yielded.
    let mut t = TasksOrdered::new(vec![10u32, 20, 30], 1, |x: u32| x + 1);
    assert_eq!(t.next(), Some(11));
    let snap: SerializedTasksOrdered<u32, _> = match t.try_serialize() {
        Ok(s) => s,
        Err(_) => panic!("idle dispatcher refused to suspend"),
    };
    let resumed = snap.deserialize();
    assert_eq!(drain_ordered(resumed), vec![21, 31]);
}

#[test]
fn snapshot_of_fresh_unordered_dispatcher() {
    let t = TasksUnordered::new(vec![1u8, 2, 3], 2, |x: u8| x * 2);
    let snap = match t.try_serialize() {
        Ok(s) => s,
        Err(_) => panic!("idle dispatcher refused to suspend"),
    };
    let resumed = snap.deserialize();
    assert_eq!(drain_unordered(resumed), vec![2, 4, 6]);
}

#[test]
fn serialize_refused_mid_flight() {
    // After one pull with a window of two, one worker is still in flight:
    // suspending must fail and hand the dispatcher back intact.
    let mut t = TasksOrdered::new(vec![1u32, 2, 3], 2, |x: u32| x);
    assert_eq!(t.next(), Some(1));
    let t = match t.try_serialize() {
        Ok(_) => panic!("suspended with a worker in flight"),
        Err(t) => t,
    };
    assert_eq!(drain_ordered(t), vec![2, 3]);

    let mut u = TasksUnordered::new(vec![1u32, 2, 3], 2, |x: u32| x);
    assert_eq!(u.next(), Some(1));
    match u.try_serialize() {
        Ok(_) => panic!("suspended with a worker in flight"),
        Err(_) => {}
    }
}

#[test]
fn task_ext_builds_dispatchers() {
    let out = drain_ordered(vec![1u64, 2, 3].tasks_ordered(2, |x: u64| x * x));
    assert_eq!(out, vec![1, 4, 9]);
    let out = drain_unordered(vec![1u64, 2, 3].tasks_unordered(2, |x: u64| x * x));
    assert_eq!(out, vec![1, 4, 9]);
}

#[test]
fn pull_driven_mapping_invocations() {
    // The engine is pull-driven: constructing a dispatcher runs nothing,
    // and each pull performs the one mapping invocation whose result it
    // releases.
    let calls = std::cell::Cell::new(0u32);
    let mut t = TasksOrdered::new(vec![0u32, 1, 2, 3], 2, |x: u32| {
        calls.set(calls.get() + 1);
        x
    });
    assert_eq!(calls.get(), 0);
    assert_eq!(t.next(), Some(0));
    assert_eq!(calls.get(), 1);
    assert_eq!(t.next(), Some(1));
    assert_eq!(calls.get(), 2);
    drop(t);
}
