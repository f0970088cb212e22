use nodescheduler::cache::{HostPort, NodeInfo, PodInfo, Snapshot};
use nodescheduler::events::{ActionType, ClusterEvent, EventResource};
use nodescheduler::framework::plugins::node_ports::{NodePorts, NAME};
use nodescheduler::framework::{CycleState, FilterPlugin, Plugin, PreFilterPlugin};

fn pod(name: &str) -> PodInfo {
    PodInfo { name: name.to_string(), ..Default::default() }
}

fn node(name: &str) -> NodeInfo {
    NodeInfo { name: name.to_string(), ..Default::default() }
}

fn port(ip: &str, p: i32) -> HostPort {
    HostPort { protocol: "TCP".to_string(), ip: ip.to_string(), port: p }
}

#[test]
fn a_pod_wanting_no_host_ports_skips_the_plugin_entirely() {
    let mut state = CycleState::default();
    let (status, _) = NodePorts.pre_filter(&mut state, &pod("p"), &Snapshot::default());

    assert!(status.is_skip());
    assert!(state.filter_skipped(NAME));
}

#[test]
fn a_free_port_is_admitted() {
    let mut p = pod("web");
    p.host_ports = vec![port("", 80)];
    let mut state = CycleState::default();
    NodePorts.pre_filter(&mut state, &p, &Snapshot::default());

    assert!(NodePorts.filter(&state, &p, &node("n")).is_success());
}

#[test]
fn a_taken_port_is_rejected() {
    let mut p = pod("web");
    p.host_ports = vec![port("", 80)];
    let mut n = node("n");
    n.used_ports = vec![port("", 80)];
    let mut state = CycleState::default();
    NodePorts.pre_filter(&mut state, &p, &Snapshot::default());

    let s = NodePorts.filter(&state, &p, &n);
    assert!(!s.is_success());
    assert!(s.reasons[0].contains("free ports"));
}

#[test]
fn a_port_rejection_is_resolvable_by_preemption() {
    let mut p = pod("web");
    p.host_ports = vec![port("", 80)];
    let mut n = node("n");
    n.used_ports = vec![port("", 80)];
    let mut state = CycleState::default();
    NodePorts.pre_filter(&mut state, &p, &Snapshot::default());

    assert!(NodePorts.filter(&state, &p, &n).code.is_resolvable_by_preemption());
}

#[test]
fn a_wildcard_claim_collides_with_a_specific_address() {
    let mut p = pod("web");
    p.host_ports = vec![port("0.0.0.0", 80)];
    let mut n = node("n");
    n.used_ports = vec![port("10.0.0.1", 80)];
    let mut state = CycleState::default();
    NodePorts.pre_filter(&mut state, &p, &Snapshot::default());

    assert!(!NodePorts.filter(&state, &p, &n).is_success());
}

#[test]
fn the_same_port_on_different_addresses_is_fine() {
    let mut p = pod("web");
    p.host_ports = vec![port("10.0.0.2", 80)];
    let mut n = node("n");
    n.used_ports = vec![port("10.0.0.1", 80)];
    let mut state = CycleState::default();
    NodePorts.pre_filter(&mut state, &p, &Snapshot::default());

    assert!(NodePorts.filter(&state, &p, &n).is_success());
}

#[test]
fn filtering_without_prefilter_state_still_checks_the_pods_ports() {
    let mut p = pod("web");
    p.host_ports = vec![port("", 80)];
    let mut n = node("n");
    n.used_ports = vec![port("", 80)];

    assert!(!NodePorts.filter(&CycleState::default(), &p, &n).is_success());
}

#[test]
fn it_wakes_on_a_pod_deletion_but_not_a_pod_creation() {
    let events = NodePorts.events_to_register();
    let deleted = ClusterEvent::new(EventResource::AssignedPod, ActionType(ActionType::DELETE));
    let added = ClusterEvent::new(EventResource::AssignedPod, ActionType(ActionType::ADD));

    assert!(events.iter().any(|e| e.event.matches(&deleted)));
    assert!(!events.iter().any(|e| e.event.matches(&added)));
}

#[test]
fn a_collision_is_mutual() {
    let wild = port("0.0.0.0", 80);
    let local = port("10.0.0.1", 80);
    let other = port("10.0.0.2", 80);
    assert!(wild.conflicts_with(&local) && local.conflicts_with(&wild));
    assert!(!local.conflicts_with(&other) && !other.conflicts_with(&local));
}
