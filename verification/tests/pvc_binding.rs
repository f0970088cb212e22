use nodescheduler::pvc_binding::PvcBindingTracker;

#[test]
fn an_event_between_subscribe_and_wait_is_not_lost() {
    let mut tracker = PvcBindingTracker::new();
    tracker.subscribe("ns/claim");
    tracker.observe("ns/claim", true);
    assert!(tracker.seen_bound("ns/claim"));
    tracker.release("ns/claim");
    assert_eq!(tracker.tracked_len(), 0);
}

#[test]
fn a_timeout_releases_the_tracker_entry() {
    let mut tracker = PvcBindingTracker::new();
    tracker.subscribe("ns/claim");
    assert!(!tracker.seen_bound("ns/claim"));
    tracker.release("ns/claim");
    assert_eq!(tracker.tracked_len(), 0);
}

#[test]
fn a_claim_is_kept_until_its_last_waiter_leaves() {
    let mut tracker = PvcBindingTracker::new();
    tracker.subscribe("ns/claim");
    tracker.subscribe("ns/claim");
    tracker.release("ns/claim");
    assert_eq!(tracker.tracked_len(), 1);
    tracker.observe("ns/claim", true);
    assert!(tracker.seen_bound("ns/claim"));
    tracker.release("ns/claim");
    assert_eq!(tracker.tracked_len(), 0);
}

#[test]
fn a_claim_nobody_waits_for_takes_no_room() {
    let mut tracker = PvcBindingTracker::new();
    tracker.observe("ns/claim", true);
    assert_eq!(tracker.tracked_len(), 0);
    assert!(!tracker.seen_bound("ns/claim"));
}
