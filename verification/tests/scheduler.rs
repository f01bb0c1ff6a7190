use lib::scheduler::{base_priority, is_wahoo, SchedMsg, Scheduler};

fn msg(size: usize, tag: u32) -> SchedMsg<u32> {
    SchedMsg { priority: 0, stream: tag, file_path: b"/f".to_vec(), file_size: size }
}

#[test]
fn base_priority_counts_units() {
    assert_eq!(base_priority(0), 0);
    assert_eq!(base_priority(20479), 0);
    assert_eq!(base_priority(20480), 1);
    assert_eq!(base_priority(40960 * 3), 6);
}

#[test]
fn wahoo_prefixes() {
    assert!(is_wahoo(b"128.143.1.1"));
    assert!(is_wahoo(b"137.54.0.9"));
    assert!(is_wahoo(b"172.26.3.4"));
    assert!(is_wahoo(b"50.134.8.8"));
    assert!(!is_wahoo(b"128.14.1.1"));
    assert!(!is_wahoo(b"127.0.0.1"));
    assert!(!is_wahoo(b"0"));
    assert!(!is_wahoo(b""));
}

#[test]
fn ordering_is_reversed_priority() {
    let a = SchedMsg { priority: 5, stream: (), file_path: Vec::new(), file_size: 0 };
    let b = SchedMsg { priority: 2, stream: (), file_path: Vec::new(), file_size: 0 };
    assert!(a.lt(&b));
    assert!(!b.lt(&a));
    assert!(!a.lt(&a));
}

#[test]
fn wahoo_requests_get_the_discounted_priority() {
    let mut s: Scheduler<u32> = Scheduler::new();
    let discount = |p: usize| p * 3 / 5;
    s.add_sched_msg(msg(20480 * 10, 1), b"128.143.0.1", discount);
    s.add_sched_msg(msg(20480 * 10, 2), b"10.0.0.1", discount);
    assert_eq!(s.len(), 2);
    // The university's request gets 60% of the base priority and goes first.
    let first = s.maybe_pop().unwrap();
    assert_eq!(first.stream, 1);
    assert_eq!(first.priority, 6);
    let second = s.maybe_pop().unwrap();
    assert_eq!(second.stream, 2);
    assert_eq!(second.priority, 10);
    assert!(s.maybe_pop().is_none());
}

#[test]
fn outside_requests_are_ranked_by_file_size() {
    let mut s: Scheduler<u32> = Scheduler::new();
    // A request for a 102400-byte file passed in with priority 0 gets 5.
    s.add_sched_msg(msg(102400, 1), b"10.0.0.1", |p| p);
    s.add_sched_msg(msg(1000, 2), b"10.0.0.2", |p| p);
    let a = s.maybe_pop().unwrap();
    assert_eq!((a.stream, a.priority), (2, 0));
    let b = s.maybe_pop().unwrap();
    assert_eq!((b.stream, b.priority), (1, 5));
}

#[test]
fn pops_lowest_priority_first_then_arrival() {
    let mut s: Scheduler<u32> = Scheduler::new();
    for (i, units) in [4usize, 1, 3, 1, 2].iter().enumerate() {
        s.add_sched_msg(msg(units * 20480, i as u32), b"0", |x| x);
    }
    let order: Vec<u32> = std::iter::from_fn(|| s.maybe_pop().map(|m| m.stream)).collect();
    assert_eq!(order, vec![1, 3, 4, 2, 0]);
}

#[test]
fn first_scheduler_always_sets_priority() {
    let mut s: Scheduler<u32> = Scheduler::new();
    let discount = |p: usize| p / 2;
    s.add_sched_msg_by_size(msg(20480 * 10, 1), b"10.0.0.1", discount);
    s.add_sched_msg_by_size(msg(20480 * 10, 2), b"128.143.2.2", discount);
    // 172.26. was not among the first scheduler's networks.
    s.add_sched_msg_by_size(msg(20480 * 10, 3), b"172.26.2.2", discount);
    let a = s.maybe_pop().unwrap();
    assert_eq!((a.stream, a.priority), (2, 5));
    let b = s.maybe_pop().unwrap();
    assert_eq!((b.stream, b.priority), (1, 10));
    let c = s.maybe_pop().unwrap();
    assert_eq!((c.stream, c.priority), (3, 10));
}

#[test]
fn early_wahoo_networks() {
    assert!(lib::scheduler::is_wahoo_early(b"50.134.0.1"));
    assert!(!lib::scheduler::is_wahoo_early(b"172.26.0.1"));
}
