use nodescheduler::api::PodSchedulingGate;
use nodescheduler::cache::{PodInfo, Timestamp};
use nodescheduler::events::{ActionType, ClusterEvent, EventResource};
use nodescheduler::framework::plugins::priority_sort::PrioritySort;
use nodescheduler::framework::plugins::scheduling_gates::SchedulingGates;
use nodescheduler::framework::{ClusterEventWithHint, NoHint};
use nodescheduler::queue::backoff::{
    BackoffQueue, DEFAULT_POD_INITIAL_BACKOFF, DEFAULT_POD_MAX_BACKOFF,
};
use nodescheduler::queue::hints::HintRegistry;
use nodescheduler::queue::{SchedulingQueue, DEFAULT_MAX_IN_UNSCHEDULABLE};
use std::sync::Arc;

const SECOND: u64 = 1_000_000_000;
const NOW: u64 = 1_000 * SECOND;

fn pod(uid: &str, priority: i32) -> Arc<PodInfo> {
    Arc::new(PodInfo {
        uid: uid.to_string(),
        name: uid.to_string(),
        priority,
        queued_at: Timestamp { second: 1_700_000_000, nanosecond: 0 },
        ..Default::default()
    })
}

fn node_added() -> ClusterEvent {
    ClusterEvent::new(EventResource::Node, ActionType(ActionType::ADD))
}

/// A pod that its scheduling gates hold back.
fn gated_pod(uid: &str, priority: i32) -> Arc<PodInfo> {
    let mut p = (*pod(uid, priority)).clone();
    p.scheduling_gates = vec![PodSchedulingGate { name: "example.com/hold".to_string() }];
    Arc::new(p)
}

type Queue = SchedulingQueue<PrioritySort, SchedulingGates, NoHint>;

/// A queue whose "Fit" plugin wakes on node additions, and which admits every
/// pod without gates.
fn queue() -> Queue {
    let mut hints = HintRegistry::new();
    hints.register("Fit", vec![ClusterEventWithHint::always(node_added())]);
    queue_with(hints, DEFAULT_MAX_IN_UNSCHEDULABLE)
}

fn queue_with(hints: HintRegistry<NoHint>, max_in_unschedulable: u64) -> Queue {
    SchedulingQueue::new(
        hints,
        PrioritySort,
        SchedulingGates,
        BackoffQueue::new(DEFAULT_POD_INITIAL_BACKOFF, DEFAULT_POD_MAX_BACKOFF),
        max_in_unschedulable,
    )
}

fn fit() -> Vec<String> {
    vec!["Fit".to_string()]
}

#[test]
fn pods_come_out_in_priority_order() {
    let mut q = queue();
    q.add(pod("low", 0), NOW);
    q.add(pod("high", 1000), NOW);
    q.add(pod("mid", 500), NOW);

    assert_eq!(q.pop(NOW).unwrap().uid, "high");
    assert_eq!(q.pop(NOW).unwrap().uid, "mid");
    assert_eq!(q.pop(NOW).unwrap().uid, "low");
}

#[test]
fn pop_waits_rather_than_spinning_on_an_empty_queue() {
    let mut q = queue();
    // Nothing to take yet, and no deadline to wake up for.
    assert!(q.pop(NOW).is_none());
    assert!(q.next_backoff_expiry().is_none());
    q.add(pod("late", 0), NOW);

    assert_eq!(q.pop(NOW).unwrap().uid, "late");
}

#[test]
fn a_pod_rejected_by_pre_enqueue_never_reaches_the_active_queue() {
    let mut q = queue();
    q.add(gated_pod("gated", 0), NOW);

    assert_eq!(q.active_len(), 0);
    assert_eq!(q.unschedulable_len(), 1);
}

#[test]
fn adding_the_same_pod_twice_does_not_duplicate_it() {
    let mut q = queue();
    q.add(pod("p", 0), NOW);
    q.add(pod("p", 0), NOW);
    assert_eq!(q.active_len(), 1);
}

#[test]
fn a_matching_event_moves_a_parked_pod_to_backoff() {
    let mut q = queue();
    q.add_unschedulable(pod("p", 0), fit(), vec![], NOW);
    assert_eq!(q.unschedulable_len(), 1);

    q.move_all_to_active_or_backoff(node_added(), None, None, NOW);

    assert_eq!(q.unschedulable_len(), 0);
    assert_eq!(q.backoff_len(), 1);
}

#[test]
fn an_unrelated_event_leaves_a_parked_pod_parked() {
    let mut q = queue();
    q.add_unschedulable(pod("p", 0), fit(), vec![], NOW);

    q.move_all_to_active_or_backoff(
        ClusterEvent::new(EventResource::Node, ActionType(ActionType::UPDATE_NODE_LABEL)),
        None,
        None,
        NOW,
    );

    assert_eq!(q.unschedulable_len(), 1);
    assert_eq!(q.backoff_len(), 0);
}

#[test]
fn a_pending_rejection_goes_straight_to_active_skipping_backoff() {
    let mut hints = HintRegistry::new();
    hints.register("DRA", vec![ClusterEventWithHint::always(node_added())]);
    let mut q = queue_with(hints, DEFAULT_MAX_IN_UNSCHEDULABLE);

    q.add_unschedulable(pod("p", 0), vec![], vec!["DRA".to_string()], NOW);
    q.move_all_to_active_or_backoff(node_added(), None, None, NOW);

    assert_eq!(q.active_len(), 1, "progress was made, so no penalty is owed");
    assert_eq!(q.backoff_len(), 0);
}

#[test]
fn a_still_gated_pod_bounces_back_rather_than_entering_the_active_queue() {
    let mut q = queue();
    q.add_unschedulable(gated_pod("gated", 0), fit(), vec![], NOW);

    q.move_all_to_active_or_backoff(node_added(), None, None, NOW);

    assert_eq!(q.active_len(), 0);
    assert_eq!(q.unschedulable_len(), 1);
}


#[test]
fn an_event_arriving_mid_cycle_is_replayed_for_that_pod() {
    let mut q = queue();
    q.add(pod("p", 0), NOW);

    let popped = q.pop(NOW).unwrap(); // cycle starts
    q.move_all_to_active_or_backoff(node_added(), None, None, NOW); // arrives during it
    q.add_unschedulable(popped, fit(), vec![], NOW); // cycle rejects it

    assert_eq!(
        q.unschedulable_len(),
        0,
        "the event that arrived mid-cycle must not be lost"
    );
    assert_eq!(q.backoff_len(), 1);
}

#[test]
fn an_event_arriving_before_the_cycle_started_is_not_replayed() {
    let mut q = queue();
    q.move_all_to_active_or_backoff(node_added(), None, None, NOW);
    q.add(pod("p", 0), NOW);

    let popped = q.pop(NOW).unwrap();
    q.add_unschedulable(popped, fit(), vec![], NOW);

    assert_eq!(q.unschedulable_len(), 1);
}

#[test]
fn an_event_is_replayed_only_for_cycles_it_actually_overlapped() {
    let mut q = queue();
    q.add(pod("first", 100), NOW);
    q.add(pod("second", 50), NOW);

    let first = q.pop(NOW).unwrap();
    q.move_all_to_active_or_backoff(node_added(), None, None, NOW);
    let second = q.pop(NOW).unwrap();

    q.add_unschedulable(second, fit(), vec![], NOW);
    assert_eq!(q.unschedulable_len(), 1, "second must park");

    q.add_unschedulable(first, fit(), vec![], NOW);
    assert_eq!(q.backoff_len(), 1, "first must be requeued");
}

#[test]
fn finishing_every_cycle_clears_the_event_timeline() {
    let mut q = queue();
    q.add(pod("p", 0), NOW);
    let popped = q.pop(NOW).unwrap();
    q.move_all_to_active_or_backoff(node_added(), None, None, NOW);
    q.done(&popped.uid);

    q.add(pod("later", 0), NOW);
    let later = q.pop(NOW).unwrap();
    q.add_unschedulable(later, fit(), vec![], NOW);

    assert_eq!(
        q.unschedulable_len(),
        1,
        "a stale event must not requeue a pod whose cycle it never overlapped"
    );
}

#[test]
fn events_are_not_recorded_when_no_cycle_is_running() {
    let mut q = queue();
    for _ in 0..100 {
        q.move_all_to_active_or_backoff(node_added(), None, None, NOW);
    }
    q.add_unschedulable(pod("p", 0), fit(), vec![], NOW);
    assert_eq!(q.unschedulable_len(), 1);
}


#[test]
fn the_timeout_net_rescues_a_pod_that_has_waited_too_long() {
    let mut hints = HintRegistry::new();
    hints.register("Forgetful", vec![]);
    let mut q = queue_with(hints, 0);

    q.add_unschedulable(pod("stranded", 0), vec!["Forgetful".to_string()], vec![], NOW);
    q.flush_timed_out(NOW);

    assert_eq!(q.unschedulable_len(), 0);
    assert_eq!(q.backoff_len(), 1);
    assert_eq!(
        q.rescued_by_timeout(),
        1,
        "a rescue must be counted — it is a bug report, not routine"
    );
}

#[test]
fn the_timeout_net_does_nothing_when_nothing_has_waited_too_long() {
    let mut q = queue();
    q.add_unschedulable(pod("p", 0), fit(), vec![], NOW);
    q.flush_timed_out(NOW);

    assert_eq!(q.unschedulable_len(), 1);
    assert_eq!(q.rescued_by_timeout(), 0);
}

#[test]
fn the_next_timeout_deadline_is_the_oldest_parked_pods() {
    let mut q = queue();
    assert!(q.next_timeout_deadline().is_none(), "nothing parked, nothing to wake for");

    q.add_unschedulable(pod("p", 0), fit(), vec![], NOW);
    assert!(q.next_timeout_deadline().is_some());
}


#[test]
fn deleting_a_pod_removes_it_from_wherever_it_is() {
    let mut q = queue();
    q.add(pod("active", 0), NOW);
    q.add_unschedulable(pod("parked", 0), fit(), vec![], NOW);

    q.remove("active");
    q.remove("parked");

    assert_eq!(q.active_len(), 0);
    assert_eq!(q.unschedulable_len(), 0);
}

#[test]
fn activate_forces_a_parked_pod_into_the_active_queue() {
    let mut q = queue();
    q.add_unschedulable(pod("p", 0), fit(), vec![], NOW);

    q.activate(&vec!["p".to_string()], NOW);

    assert_eq!(q.active_len(), 1);
    assert_eq!(q.unschedulable_len(), 0);
}

#[test]
fn a_pod_leaves_backoff_once_its_penalty_is_over() {
    let mut q = queue();
    q.add_unschedulable(pod("p", 0), fit(), vec![], NOW);
    q.move_all_to_active_or_backoff(node_added(), None, None, NOW);
    assert_eq!(q.next_backoff_expiry(), Some(NOW + SECOND));
    assert!(q.pop(NOW).is_none());
    assert_eq!(q.pop(NOW + SECOND).unwrap().uid, "p");
}

#[test]
fn the_net_hands_back_whom_it_rescued_and_who_is_to_blame() {
    let mut hints = HintRegistry::new();
    hints.register("Forgetful", vec![]);
    let mut q = queue_with(hints, 0);
    q.add_unschedulable(pod("stranded", 0), vec!["Forgetful".to_string()], vec![], NOW);
    let rescued = q.flush_timed_out(NOW);
    assert_eq!(rescued.len(), 1);
    assert_eq!(rescued[0].0.uid, "stranded");
    assert_eq!(rescued[0].1, vec!["Forgetful".to_string()]);
}

#[test]
fn an_event_keeps_every_pod() {
    let mut q = queue();
    q.add(pod("active", 1), NOW);
    q.add(gated_pod("gated", 1), NOW);
    q.add_unschedulable(pod("fits", 1), fit(), vec![], NOW);
    q.add_unschedulable(pod("hurried", 1), vec![], fit(), NOW);
    q.add_unschedulable(gated_pod("stuck", 1), fit(), vec![], NOW);
    let waiting = |q: &Queue| q.active_len() + q.unschedulable_len() + q.backoff_len();
    assert_eq!(waiting(&q), 5);
    q.move_all_to_active_or_backoff(node_added(), None, None, NOW);
    assert_eq!((q.active_len(), q.unschedulable_len(), q.backoff_len()), (2, 2, 1));
    assert_eq!(waiting(&q), 5);
}
