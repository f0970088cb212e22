use nodescheduler::api::{Taint, Toleration};
use nodescheduler::cache::{NodeInfo, PodInfo};
use nodescheduler::events::{ActionType, ClusterEvent, EventResource};
use nodescheduler::framework::plugins::taint_toleration::{
    toleration_tolerates_taint, TaintToleration,
};
use nodescheduler::framework::status::Code;
use nodescheduler::framework::{CycleState, FilterPlugin, Plugin, ScorePlugin};

fn pod(name: &str) -> PodInfo {
    PodInfo { name: name.to_string(), ..Default::default() }
}

fn node(name: &str) -> NodeInfo {
    NodeInfo { name: name.to_string(), ..Default::default() }
}

fn taint(key: &str, value: &str, effect: &str) -> Taint {
    Taint {
        key: key.to_string(),
        value: Some(value.to_string()),
        effect: effect.to_string(),
        ..Default::default()
    }
}

fn tol(key: Option<&str>, op: &str, value: Option<&str>, effect: Option<&str>) -> Toleration {
    Toleration {
        key: key.map(String::from),
        operator: Some(op.to_string()),
        value: value.map(String::from),
        effect: effect.map(String::from),
        ..Default::default()
    }
}

#[test]
fn an_untolerated_noschedule_taint_rejects_the_node() {
    let mut n = node("tainted");
    n.taints = vec![taint("dedicated", "gpu", "NoSchedule")];

    let s = TaintToleration.filter(&CycleState::default(), &pod("p"), &n);
    assert_eq!(s.code, Code::Unschedulable);
    assert!(s.reasons[0].contains("untolerated taint"));
}

#[test]
fn a_rejection_here_is_resolvable_by_preemption_never_unresolvable() {
    let mut n = node("tainted");
    n.taints = vec![taint("dedicated", "gpu", "NoSchedule")];
    let s = TaintToleration.filter(&CycleState::default(), &pod("p"), &n);
    assert!(s.code.is_resolvable_by_preemption());
}

#[test]
fn an_exact_equal_toleration_admits_the_pod() {
    let mut n = node("tainted");
    n.taints = vec![taint("dedicated", "gpu", "NoSchedule")];
    let mut p = pod("p");
    p.tolerations = vec![tol(Some("dedicated"), "Equal", Some("gpu"), Some("NoSchedule"))];

    assert!(TaintToleration.filter(&CycleState::default(), &p, &n).is_success());
}

#[test]
fn an_equal_toleration_with_the_wrong_value_does_not_admit_the_pod() {
    let mut n = node("tainted");
    n.taints = vec![taint("dedicated", "gpu", "NoSchedule")];
    let mut p = pod("p");
    p.tolerations = vec![tol(Some("dedicated"), "Equal", Some("cpu"), Some("NoSchedule"))];

    assert!(!TaintToleration.filter(&CycleState::default(), &p, &n).is_success());
}

#[test]
fn exists_with_an_empty_key_tolerates_every_taint() {
    let mut n = node("tainted");
    n.taints = vec![
        taint("dedicated", "gpu", "NoSchedule"),
        taint("anything", "at-all", "NoExecute"),
    ];
    let mut p = pod("p");
    p.tolerations = vec![tol(None, "Exists", None, None)];

    assert!(TaintToleration.filter(&CycleState::default(), &p, &n).is_success());
}

#[test]
fn an_empty_effect_tolerates_every_effect_of_that_key() {
    let mut n = node("tainted");
    n.taints = vec![taint("dedicated", "gpu", "NoExecute")];
    let mut p = pod("p");
    p.tolerations = vec![tol(Some("dedicated"), "Exists", None, None)];

    assert!(TaintToleration.filter(&CycleState::default(), &p, &n).is_success());
}

#[test]
fn the_operator_defaults_to_equal_when_unset() {
    let t = Toleration {
        key: Some("dedicated".to_string()),
        value: Some("gpu".to_string()),
        ..Default::default()
    };
    assert!(toleration_tolerates_taint(&t, &taint("dedicated", "gpu", "NoSchedule")));
    assert!(!toleration_tolerates_taint(&t, &taint("dedicated", "cpu", "NoSchedule")));
}

#[test]
fn prefer_no_schedule_never_rejects_a_node() {
    let mut n = node("mildly-tainted");
    n.taints = vec![taint("spot", "true", "PreferNoSchedule")];

    assert!(TaintToleration.filter(&CycleState::default(), &pod("p"), &n).is_success());
}

#[test]
fn scoring_counts_only_untolerated_prefer_no_schedule_taints() {
    let mut n = node("n");
    n.taints = vec![
        taint("a", "1", "PreferNoSchedule"),
        taint("b", "2", "PreferNoSchedule"),
        taint("c", "3", "NoSchedule"),
    ];
    let mut p = pod("p");
    p.tolerations = vec![tol(Some("a"), "Exists", None, Some("PreferNoSchedule"))];

    let raw = TaintToleration.score(&CycleState::default(), &p, &n).unwrap();
    assert_eq!(raw, 1);
}

#[test]
fn a_node_with_more_untolerated_preferences_scores_lower() {
    let mut scores = vec![0, 1, 2];
    TaintToleration.normalize(&CycleState::default(), &pod("p"), &mut scores);
    assert_eq!(scores, [100, 50, 0]);
}

#[test]
fn an_untainted_cluster_scores_every_node_at_the_maximum() {
    let mut scores = vec![0, 0, 0];
    TaintToleration.normalize(&CycleState::default(), &pod("p"), &mut scores);
    assert_eq!(scores, [100, 100, 100]);
}

#[test]
fn the_score_weight_is_three_not_one() {
    assert_eq!(TaintToleration.weight(), 3);
}

#[test]
fn taint_toleration_it_registers_exactly_the_events_that_can_unstick_a_rejected_pod() {
    let events = TaintToleration.events_to_register();
    let pairs: Vec<(EventResource, ActionType)> =
        events.iter().map(|e| (e.event.resource, e.event.action)).collect();

    assert_eq!(
        pairs,
        vec![
            (EventResource::Node, ActionType(ActionType::ADD | ActionType::UPDATE_NODE_TAINT)),
            (EventResource::Pod, ActionType(ActionType::UPDATE_POD_TOLERATION)),
        ]
    );
}

#[test]
fn taint_toleration_a_node_heartbeat_does_not_wake_a_pod_this_plugin_rejected() {
    let heartbeat = ClusterEvent::new(EventResource::Node, ActionType(ActionType::UPDATE_NODE_CONDITION));
    for reg in TaintToleration.events_to_register() {
        assert!(!reg.event.matches(&heartbeat));
    }
}
