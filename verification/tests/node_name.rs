use nodescheduler::cache::{NodeInfo, PodInfo};
use nodescheduler::events::{ActionType, ClusterEvent, EventResource};
use nodescheduler::framework::plugins::node_name::NodeName;
use nodescheduler::framework::{CycleState, FilterPlugin, Plugin};

fn pod(name: &str) -> PodInfo {
    PodInfo { name: name.to_string(), ..Default::default() }
}

fn node(name: &str) -> NodeInfo {
    NodeInfo { name: name.to_string(), ..Default::default() }
}

#[test]
fn a_pod_naming_no_node_is_admitted_anywhere() {
    assert!(NodeName.filter(&CycleState::default(), &pod("p"), &node("any")).is_success());
}

#[test]
fn a_pod_naming_this_node_is_admitted() {
    let mut p = pod("p");
    p.node_name = Some("worker-3".to_string());
    assert!(NodeName
        .filter(&CycleState::default(), &p, &node("worker-3"))
        .is_success());
}

#[test]
fn a_pod_naming_another_node_is_rejected_as_unresolvable() {
    let mut p = pod("p");
    p.node_name = Some("worker-3".to_string());

    let s = NodeName.filter(&CycleState::default(), &p, &node("worker-4"));
    assert!(!s.is_success());
    assert!(
        !s.code.is_resolvable_by_preemption(),
        "evicting pods elsewhere can never satisfy spec.nodeName"
    );
}

#[test]
fn it_wakes_when_the_requested_node_appears() {
    let events = NodeName.events_to_register();
    assert_eq!(events.len(), 1);
    assert_eq!(events[0].event, ClusterEvent::new(EventResource::Node, ActionType(ActionType::ADD)));
}
