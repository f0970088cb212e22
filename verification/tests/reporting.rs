use nodescheduler::cache::PodInfo;
use nodescheduler::framework::plugins::default_binder::{
    after_bind, after_conflict, binding, binding_uri, BindReply, BindStep, NAME,
};
use nodescheduler::report::{events_uri, failed_scheduling, unschedulable_status};

fn sample_pod() -> PodInfo {
    PodInfo {
        namespace: "default".to_string(),
        name: "stuck".to_string(),
        uid: "abc-123".to_string(),
        ..Default::default()
    }
}

#[test]
fn the_plugin_is_named_for_its_upstream_counterpart() {
    assert_eq!(NAME, "DefaultBinder");
}

#[test]
fn the_condition_uses_the_reason_tools_match_on() {
    let pod = sample_pod();
    let msg = "0/1 nodes are available: 1 Insufficient cpu";
    let status = unschedulable_status(msg, None);
    assert_eq!(status.type_, "PodScheduled");
    assert_eq!(status.reason, "Unschedulable");
    assert_eq!(status.status, "False");
    assert_eq!(status.message, msg);
    assert_eq!(status.nominated_node_name, None);
    assert_eq!(pod.key(), "default/stuck");
}

#[test]
fn a_nominated_node_is_part_of_the_status() {
    let status = unschedulable_status("waiting", Some("n1"));
    assert_eq!(status.nominated_node_name.as_deref(), Some("n1"));
}

#[test]
fn the_event_carries_the_pods_uid() {
    let pod = sample_pod();
    let event = failed_scheduling(&pod, "no room", "default-scheduler");
    assert_eq!(event.pod_uid, "abc-123");
    assert_eq!(event.generate_name, "stuck.");
    assert_eq!(event.reason, "FailedScheduling");
    assert_eq!(event.message, "no room");
    assert_eq!(event.type_, "Warning");
    assert_eq!(event.component, "default-scheduler");
    assert_eq!(event.count, 1);
    assert_eq!(events_uri(&pod), "/api/v1/namespaces/default/events");
}

#[test]
fn a_binding_names_the_pod_by_uid_and_is_posted_below_it() {
    let pod = sample_pod();
    let b = binding(&pod, "n1");
    assert_eq!((b.name.as_str(), b.namespace.as_str()), ("stuck", "default"));
    assert_eq!(b.uid, "abc-123");
    assert_eq!((b.target_api_version.as_str(), b.target_kind.as_str()), ("v1", "Node"));
    assert_eq!(b.target_name, "n1");
    assert_eq!(binding_uri(&pod), "/api/v1/namespaces/default/pods/stuck/binding");
}

fn done(step: BindStep) -> nodescheduler::framework::status::Status {
    match step {
        BindStep::Done(s) => s,
        BindStep::Reread => panic!("expected a verdict"),
    }
}

#[test]
fn only_a_conflict_has_the_pod_read_again() {
    let pod = sample_pod();
    assert!(done(after_bind(&pod, "n1", &BindReply::Accepted)).is_success());
    assert!(matches!(
        after_bind(&pod, "n1", &BindReply::Refused(409, "conflict".to_string())),
        BindStep::Reread
    ));
    let refused = done(after_bind(&pod, "n1", &BindReply::Refused(404, "no pod".to_string())));
    assert_eq!(refused.reasons, vec!["binding default/stuck to n1: no pod".to_string()]);
    let failed = done(after_bind(&pod, "n1", &BindReply::Failed("reset".to_string())));
    assert_eq!(failed.reasons, vec!["binding default/stuck to n1: reset".to_string()]);
    let late = done(after_bind(&pod, "n1", &BindReply::TimedOut));
    assert_eq!(
        late.reasons,
        vec!["binding default/stuck to n1 did not respond within 30s".to_string()]
    );
}

#[test]
fn a_pod_that_has_a_node_is_bound_already() {
    let pod = sample_pod();
    assert!(after_conflict(&pod, "n1", "conflict", Some("n2")).is_success());
    assert!(!after_conflict(&pod, "n1", "conflict", Some("")).is_success());
    assert!(!after_conflict(&pod, "n1", "conflict", None).is_success());
}
