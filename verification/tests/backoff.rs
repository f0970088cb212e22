use nodescheduler::cache::PodInfo;
use nodescheduler::queue::backoff::{
    backoff_duration, BackoffQueue, DEFAULT_POD_INITIAL_BACKOFF, DEFAULT_POD_MAX_BACKOFF,
};
use std::sync::Arc;

const SECOND: u64 = 1_000_000_000;
const NOW: u64 = 1_000 * SECOND;

fn test_pod(uid: &str, priority: i32, _attempts: u32) -> std::sync::Arc<PodInfo> {
    std::sync::Arc::new(PodInfo {
        uid: uid.to_string(),
        name: uid.to_string(),
        priority,
        ..Default::default()
    })
}

#[test]
fn the_backoff_sequence_doubles_from_one_second_and_settles_at_ten() {
    let (i, m) = (DEFAULT_POD_INITIAL_BACKOFF, DEFAULT_POD_MAX_BACKOFF);
    let seq: Vec<u64> = (1..=6)
        .map(|a| backoff_duration(a, i, m) / SECOND)
        .collect();
    assert_eq!(seq, vec![1, 2, 4, 8, 10, 10]);
}

#[test]
fn a_pod_that_has_failed_absurdly_often_still_waits_exactly_the_ceiling() {
    let (i, m) = (DEFAULT_POD_INITIAL_BACKOFF, DEFAULT_POD_MAX_BACKOFF);
    for attempts in [31, 32, 33, 1000, u32::MAX] {
        assert_eq!(backoff_duration(attempts, i, m), m, "attempts={attempts}");
    }
}

#[test]
fn the_first_attempt_waits_the_initial_delay_and_never_less() {
    let (i, m) = (DEFAULT_POD_INITIAL_BACKOFF, DEFAULT_POD_MAX_BACKOFF);
    assert_eq!(backoff_duration(0, i, m), i);
    assert_eq!(backoff_duration(1, i, m), i);
}

#[test]
fn an_initial_delay_longer_than_the_ceiling_is_still_capped() {
    let d = backoff_duration(1, 30 * SECOND, 10 * SECOND);
    assert_eq!(d, 10 * SECOND);
}

#[test]
fn next_expiry_is_the_earliest_entry_not_the_most_recently_pushed() {
    let mut q = BackoffQueue::new(DEFAULT_POD_INITIAL_BACKOFF, DEFAULT_POD_MAX_BACKOFF);
    assert_eq!(q.next_expiry(), None, "an empty queue arms no timer at all");

    let base = NOW;
    q.push_at(test_pod("late", 0, 0), base + 9 * SECOND);
    let far = q.next_expiry();
    q.push_at(test_pod("soon", 0, 0), base + 1 * SECOND);

    assert_ne!(
        q.next_expiry(),
        far,
        "a nearer push must move the deadline, or the run loop sleeps past it"
    );
    assert_eq!(q.next_expiry(), Some(base + 1 * SECOND));
}

#[test]
fn only_pods_whose_penalty_has_elapsed_come_out_and_they_come_out_in_order() {
    let mut q = BackoffQueue::new(DEFAULT_POD_INITIAL_BACKOFF, DEFAULT_POD_MAX_BACKOFF);
    let base = NOW;
    q.push_at(test_pod("third", 0, 0), base + 8 * SECOND);
    q.push_at(test_pod("first", 0, 0), base + 1 * SECOND);
    q.push_at(test_pod("second", 0, 0), base + 2 * SECOND);

    let due = q.pop_expired(base + 5 * SECOND);
    let names: Vec<&str> = due.iter().map(|p| p.name.as_str()).collect();
    assert_eq!(names, vec!["first", "second"]);
    assert_eq!(q.len(), 1);
    assert_eq!(q.next_expiry(), Some(base + 8 * SECOND));
}

#[test]
fn two_pods_due_in_the_same_instant_leave_in_arrival_order() {
    let mut q = BackoffQueue::new(DEFAULT_POD_INITIAL_BACKOFF, DEFAULT_POD_MAX_BACKOFF);
    let at = NOW + 1 * SECOND;
    q.push_at(test_pod("a", 0, 0), at);
    q.push_at(test_pod("b", 0, 0), at);
    q.push_at(test_pod("c", 0, 0), at);

    let names: Vec<String> = q
        .pop_expired(at)
        .iter()
        .map(|p| p.name.clone())
        .collect();
    assert_eq!(names, vec!["a", "b", "c"]);
}

#[test]
fn an_update_replaces_the_pod_without_moving_its_deadline() {
    let mut q = BackoffQueue::new(DEFAULT_POD_INITIAL_BACKOFF, DEFAULT_POD_MAX_BACKOFF);
    let at = NOW + 7 * SECOND;
    let mut original = (*test_pod("p", 1, 0)).clone();
    original.attempts = 4;
    q.push_at(Arc::new(original), at);

    let updated = test_pod("p", 99, 0);
    assert!(q.update(&updated));
    assert_eq!(q.next_expiry(), Some(at));

    let popped = q.pop_expired(at);
    assert_eq!(popped[0].priority, 99);
    assert_eq!(popped[0].attempts, 4);
}

#[test]
fn removing_a_pod_leaves_the_rest_of_the_heap_correctly_ordered() {
    let mut q = BackoffQueue::new(DEFAULT_POD_INITIAL_BACKOFF, DEFAULT_POD_MAX_BACKOFF);
    let base = NOW;
    for (i, n) in ["a", "b", "c", "d"].iter().enumerate() {
        q.push_at(test_pod(n, 0, 0), base + (i as u64 + 1) * SECOND);
    }
    let taken = q.remove(&test_pod("b", 0, 0).uid).expect("b was queued");
    assert_eq!(taken.name, "b");
    assert!(!q.contains(&test_pod("b", 0, 0).uid));

    let names: Vec<String> = q
        .pop_expired(base + 60 * SECOND)
        .iter()
        .map(|p| p.name.clone())
        .collect();
    assert_eq!(names, vec!["a", "c", "d"]);
}

#[test]
fn removing_a_pod_that_is_not_queued_is_not_an_error() {
    let mut q = BackoffQueue::new(DEFAULT_POD_INITIAL_BACKOFF, DEFAULT_POD_MAX_BACKOFF);
    q.push_at(test_pod("a", 0, 0), NOW);
    assert!(q.remove("no-such-uid").is_none());
    assert_eq!(q.len(), 1);
}

#[test]
fn a_push_waits_the_delay_its_attempts_earn() {
    let mut q = BackoffQueue::new(DEFAULT_POD_INITIAL_BACKOFF, DEFAULT_POD_MAX_BACKOFF);
    assert!(q.is_empty());
    assert_eq!(q.delay_for(3), 4 * SECOND);
    q.push(test_pod("p", 0, 0), 3, NOW);
    assert_eq!(q.next_expiry(), Some(NOW + 4 * SECOND));
}

#[test]
fn doubling_goes_on_as_long_as_the_ceiling_is_not_reached() {
    let max = 10_000_000_000;
    assert_eq!(backoff_duration(33, 1, max), 4_294_967_296);
    assert_eq!(backoff_duration(34, 1, max), 8_589_934_592);
    assert_eq!(backoff_duration(35, 1, max), max);
    assert_eq!(backoff_duration(40, 1, max), max);
}

#[test]
fn a_pod_that_failed_forty_times_waits_the_ceiling_however_short_the_first_wait() {
    let hour = 3_600_000_000_000;
    assert_eq!(backoff_duration(39, 1, hour), 274_877_906_944);
    assert_eq!(backoff_duration(40, 1, hour), hour);
    assert_eq!(backoff_duration(u32::MAX, 1, hour), hour);
}

#[test]
fn a_wait_of_nothing_becomes_the_ceiling_in_the_end() {
    assert_eq!(backoff_duration(1, 0, 10), 0);
    assert_eq!(backoff_duration(32, 0, 10), 0);
    assert_eq!(backoff_duration(40, 0, 10), 10);
}
