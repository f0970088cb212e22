use nodescheduler::framework::status::{Code, NodeToStatus, Status};

#[test]
fn only_plain_unschedulable_invites_preemption() {
    assert!(Code::Unschedulable.is_resolvable_by_preemption());
    assert!(!Code::UnschedulableAndUnresolvable.is_resolvable_by_preemption());
    assert!(!Code::Error.is_resolvable_by_preemption());
    assert!(!Code::Success.is_resolvable_by_preemption());
}

#[test]
fn a_node_rejected_as_unresolvable_is_not_a_preemption_candidate() {
    let mut n = NodeToStatus::default();
    n.record("fits-nothing", Status::unschedulable("NodeResourcesFit", "Insufficient cpu"));
    n.record("wrong-name", Status::unresolvable("NodeName", "node(s) didn't match"));

    assert_eq!(n.preemption_candidates(), vec!["fits-nothing"]);
}

#[test]
fn every_rejecting_plugin_is_recorded_exactly_once() {
    let mut n = NodeToStatus::default();
    n.record("a", Status::unschedulable("NodeResourcesFit", "Insufficient cpu"));
    n.record("b", Status::unschedulable("NodeResourcesFit", "Insufficient memory"));
    n.record("c", Status::unresolvable("TaintToleration", "untolerated taint"));

    assert_eq!(n.rejecting_plugins(), vec!["NodeResourcesFit", "TaintToleration"]);
}

#[test]
fn pending_is_a_rejection_but_a_forgiving_one() {
    assert!(Code::Pending.is_rejection());
    assert!(!Code::Pending.is_resolvable_by_preemption());
}

#[test]
fn the_summary_reads_like_kubectl_describe() {
    let mut n = NodeToStatus::default();
    n.record("a", Status::unschedulable("NodeResourcesFit", "Insufficient cpu"));
    n.record("b", Status::unschedulable("NodeResourcesFit", "Insufficient cpu"));
    n.record("c", Status::unresolvable("TaintToleration", "node(s) had untolerated taint"));

    assert_eq!(
        n.summary(3),
        "0/3 nodes are available: 2 Insufficient cpu, 1 node(s) had untolerated taint"
    );
}

#[test]
fn an_error_is_found_before_any_rejection() {
    let mut n = NodeToStatus::default();
    n.record("a", Status::unschedulable("NodeResourcesFit", "Insufficient cpu"));
    n.record("b", Status::error("VolumeBinding", "no client"));
    assert_eq!(n.len(), 2);
    assert!(!n.is_empty());
    assert_eq!(n.first_error().unwrap().reasons[0], "no client");
    assert_eq!(n.for_node("a").unwrap().plugin, "NodeResourcesFit");
    assert!(n.for_node("c").is_none());
}

#[test]
fn codes_and_constructors_agree() {
    assert_eq!(Status::success().code, Code::Success);
    assert_eq!(Status::skip().code, Code::Skip);
    assert_eq!(Status::pending("p", "later").code, Code::Pending);
    assert_eq!(Status::cancelled("p", "gone").code, Code::Cancelled);
    assert_eq!(Status::error("p", "broken").code, Code::Error);
    assert!(Status::unschedulable("p", "full").is_rejection());
    assert!(!Status::success().is_rejection());
    assert!(Status::unschedulable("p", "full").describe().contains("full"));
}
