use nodescheduler::api::Toleration;
use nodescheduler::cache::{NodeInfo, PodInfo};
use nodescheduler::events::{ActionType, ClusterEvent, EventResource};
use nodescheduler::framework::plugins::node_unschedulable::{
    NodeUnschedulable, UNSCHEDULABLE_TAINT,
};
use nodescheduler::framework::{CycleState, FilterPlugin, Plugin};

fn pod(name: &str) -> PodInfo {
    PodInfo { name: name.to_string(), ..Default::default() }
}

fn node(name: &str) -> NodeInfo {
    NodeInfo { name: name.to_string(), ..Default::default() }
}

#[test]
fn an_uncordoned_node_admits_everything() {
    assert!(NodeUnschedulable
        .filter(&CycleState::default(), &pod("p"), &node("n"))
        .is_success());
}

#[test]
fn a_cordoned_node_is_rejected() {
    let mut n = node("n");
    n.unschedulable = true;

    let s = NodeUnschedulable.filter(&CycleState::default(), &pod("p"), &n);
    assert!(!s.is_success());
    assert!(s.reasons[0].contains("unschedulable"));
}

#[test]
fn a_cordon_rejection_is_not_resolvable_by_preemption() {
    let mut n = node("n");
    n.unschedulable = true;
    let s = NodeUnschedulable.filter(&CycleState::default(), &pod("p"), &n);
    assert!(!s.code.is_resolvable_by_preemption());
}

#[test]
fn a_pod_tolerating_the_cordon_taint_may_still_be_placed() {
    let mut n = node("n");
    n.unschedulable = true;
    let mut p = pod("daemon");
    p.tolerations = vec![Toleration {
        key: Some(UNSCHEDULABLE_TAINT.to_string()),
        operator: Some("Exists".to_string()),
        effect: Some("NoSchedule".to_string()),
        ..Default::default()
    }];

    assert!(NodeUnschedulable.filter(&CycleState::default(), &p, &n).is_success());
}

#[test]
fn a_blanket_exists_toleration_also_covers_a_cordon() {
    let mut n = node("n");
    n.unschedulable = true;
    let mut p = pod("superuser");
    p.tolerations = vec![Toleration {
        operator: Some("Exists".to_string()),
        ..Default::default()
    }];

    assert!(NodeUnschedulable.filter(&CycleState::default(), &p, &n).is_success());
}

#[test]
fn an_unrelated_toleration_does_not_cover_a_cordon() {
    let mut n = node("n");
    n.unschedulable = true;
    let mut p = pod("p");
    p.tolerations = vec![Toleration {
        key: Some("dedicated".to_string()),
        operator: Some("Exists".to_string()),
        ..Default::default()
    }];

    assert!(!NodeUnschedulable.filter(&CycleState::default(), &p, &n).is_success());
}

#[test]
fn it_subscribes_to_the_change_an_uncordon_produces() {
    let events = NodeUnschedulable.events_to_register();
    let uncordon =
        ClusterEvent::new(EventResource::Node, ActionType(ActionType::UPDATE_NODE_TAINT));

    assert!(
        events.iter().any(|e| e.event.matches(&uncordon)),
        "an uncordon must wake pods this plugin rejected"
    );
}
