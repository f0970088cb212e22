use nodescheduler::cache::{PodInfo, Timestamp};
use nodescheduler::framework::plugins::priority_sort::PrioritySort;
use nodescheduler::framework::QueueSortPlugin;

fn pod_at(name: &str, priority: i32, secs: i64) -> PodInfo {
    PodInfo {
        name: name.to_string(),
        priority,
        queued_at: Timestamp { second: 1_700_000_000 + secs, nanosecond: 0 },
        ..Default::default()
    }
}

#[test]
fn higher_priority_sorts_first() {
    let high = pod_at("high", 1000, 0);
    let low = pod_at("low", 0, 0);
    assert!(PrioritySort.less(&high, &low));
    assert!(!PrioritySort.less(&low, &high));
}

#[test]
fn equal_priority_is_broken_by_who_queued_first() {
    let first = pod_at("first", 0, 0);
    let second = pod_at("second", 0, 10);
    assert!(PrioritySort.less(&first, &second));
    assert!(!PrioritySort.less(&second, &first));
}

#[test]
fn priority_outranks_age() {
    let old_low = pod_at("old", 0, 0);
    let new_high = pod_at("new", 1000, 100);
    assert!(PrioritySort.less(&new_high, &old_low));
}

#[test]
fn negative_priorities_sort_below_the_default() {
    let normal = pod_at("normal", 0, 0);
    let background = pod_at("background", -10, 0);
    assert!(PrioritySort.less(&normal, &background));
}

#[test]
fn a_requeued_pod_keeps_its_place_in_its_priority_band() {
    let mut retried = pod_at("retried", 0, 0);
    retried.attempts = 5;
    let newcomer = pod_at("newcomer", 0, 10);

    assert!(
        PrioritySort.less(&retried, &newcomer),
        "failing cycles must not send a pod to the back of its band"
    );
}
