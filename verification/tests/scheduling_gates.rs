use nodescheduler::api::PodSchedulingGate;
use nodescheduler::cache::PodInfo;
use nodescheduler::events::{ActionType, ClusterEvent, EventResource};
use nodescheduler::framework::plugins::scheduling_gates::SchedulingGates;
use nodescheduler::framework::{Plugin, PreEnqueuePlugin};

fn pod(name: &str) -> PodInfo {
    PodInfo { name: name.to_string(), ..Default::default() }
}

fn gate(name: &str) -> PodSchedulingGate {
    PodSchedulingGate { name: name.to_string() }
}

#[test]
fn an_ungated_pod_is_admitted() {
    assert!(SchedulingGates.pre_enqueue(&pod("p")).is_success());
}

#[test]
fn a_gated_pod_is_held_out_of_the_queue() {
    let mut p = pod("p");
    p.scheduling_gates = vec![gate("example.com/hold")];

    let s = SchedulingGates.pre_enqueue(&p);
    assert!(!s.is_success());
    assert!(s.reasons[0].contains("example.com/hold"));
}

#[test]
fn removing_only_some_gates_still_holds_the_pod() {
    let mut p = pod("p");
    p.scheduling_gates = vec![gate("b")];
    assert!(!SchedulingGates.pre_enqueue(&p).is_success());
}

#[test]
fn the_reason_names_every_gate_being_waited_on() {
    let mut p = pod("p");
    p.scheduling_gates = vec![gate("a"), gate("b")];

    let s = SchedulingGates.pre_enqueue(&p);
    assert!(s.reasons[0].contains('a') && s.reasons[0].contains('b'));
}

#[test]
fn it_subscribes_only_to_the_last_gate_being_removed() {
    let events = SchedulingGates.events_to_register();
    let pairs: Vec<(EventResource, ActionType)> =
        events.iter().map(|e| (e.event.resource, e.event.action)).collect();

    assert_eq!(
        pairs,
        vec![(EventResource::Pod, ActionType(ActionType::UPDATE_POD_SCHEDULING_GATES_ELIMINATED))]
    );
}

#[test]
fn a_pod_label_change_does_not_wake_a_gated_pod() {
    let label_change = ClusterEvent::new(EventResource::Pod, ActionType(ActionType::UPDATE_POD_LABEL));
    for reg in SchedulingGates.events_to_register() {
        assert!(!reg.event.matches(&label_change));
    }
}
