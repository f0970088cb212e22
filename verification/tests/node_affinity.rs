use nodescheduler::api::{NodeSelector, NodeSelectorRequirement, NodeSelectorTerm};
use nodescheduler::cache::{NodeInfo, PodInfo, PreferredTerm};
use nodescheduler::events::{ActionType, ClusterEvent, EventResource};
use nodescheduler::framework::plugins::node_affinity::{matches_requirement, NodeAffinity, NAME};
use nodescheduler::framework::{CycleState, FilterPlugin, Plugin, PreScorePlugin, ScorePlugin};
use nodescheduler::maps::{Labels, StrMap};

fn pod(name: &str) -> PodInfo {
    PodInfo { name: name.to_string(), ..Default::default() }
}

fn node(name: &str) -> NodeInfo {
    NodeInfo { name: name.to_string(), ..Default::default() }
}

fn strmap<V>(entries: Vec<(String, V)>) -> StrMap<V> {
    let mut m = StrMap::new();
    for (k, v) in entries {
        m.insert(k, v);
    }
    m
}

fn req(key: &str, op: &str, values: &[&str]) -> NodeSelectorRequirement {
    NodeSelectorRequirement {
        key: key.to_string(),
        operator: op.to_string(),
        values: Some(values.iter().map(|s| s.to_string()).collect()),
    }
}

fn term(reqs: Vec<NodeSelectorRequirement>) -> NodeSelectorTerm {
    NodeSelectorTerm { match_expressions: Some(reqs), match_fields: None }
}

fn labelled(name: &str, labels: &[(&str, &str)]) -> NodeInfo {
    let mut n = node(name);
    n.labels = strmap(labels.iter().map(|(k, v)| (k.to_string(), v.to_string())).collect());
    n
}

#[test]
fn a_flat_node_selector_must_match_every_entry() {
    let mut p = pod("p");
    p.node_selector = strmap(vec![
        ("disk".to_string(), "ssd".to_string()),
        ("zone".to_string(), "east".to_string()),
    ]);

    let both = labelled("a", &[("disk", "ssd"), ("zone", "east")]);
    let one = labelled("b", &[("disk", "ssd")]);

    assert!(NodeAffinity::default().filter(&CycleState::default(), &p, &both).is_success());
    assert!(!NodeAffinity::default().filter(&CycleState::default(), &p, &one).is_success());
}

#[test]
fn terms_are_ored_and_expressions_within_a_term_are_anded() {
    let selector = NodeSelector {
        node_selector_terms: vec![
            term(vec![req("disk", "In", &["ssd"]), req("zone", "In", &["east"])]),
            term(vec![req("disk", "In", &["nvme"])]),
        ],
    };
    let mut p = pod("p");
    p.node_affinity = Some(selector);
    let plugin = NodeAffinity::default();

    let a = labelled("a", &[("disk", "ssd"), ("zone", "east")]);
    assert!(plugin.filter(&CycleState::default(), &p, &a).is_success());

    let b = labelled("b", &[("disk", "nvme")]);
    assert!(plugin.filter(&CycleState::default(), &p, &b).is_success());

    let c = labelled("c", &[("disk", "ssd")]);
    assert!(!plugin.filter(&CycleState::default(), &p, &c).is_success());
}

#[test]
fn an_empty_term_list_matches_nothing() {
    let mut p = pod("p");
    p.node_affinity = Some(NodeSelector { node_selector_terms: vec![] });

    assert!(!NodeAffinity::default()
        .filter(&CycleState::default(), &p, &node("any"))
        .is_success());
}

#[test]
fn an_absent_affinity_matches_everything() {
    assert!(NodeAffinity::default()
        .filter(&CycleState::default(), &pod("p"), &node("any"))
        .is_success());
}

#[test]
fn every_operator_behaves_as_the_api_defines_it() {
    let labels = strmap(vec![
        ("present".to_string(), "yes".to_string()),
        ("count".to_string(), "5".to_string()),
    ]);

    assert!(matches_requirement(&req("present", "In", &["yes", "no"]), &labels));
    assert!(!matches_requirement(&req("present", "In", &["no"]), &labels));

    assert!(matches_requirement(&req("present", "NotIn", &["no"]), &labels));
    assert!(!matches_requirement(&req("present", "NotIn", &["yes"]), &labels));

    assert!(matches_requirement(&req("present", "Exists", &[]), &labels));
    assert!(!matches_requirement(&req("absent", "Exists", &[]), &labels));

    assert!(matches_requirement(&req("absent", "DoesNotExist", &[]), &labels));
    assert!(!matches_requirement(&req("present", "DoesNotExist", &[]), &labels));

    assert!(matches_requirement(&req("count", "Gt", &["3"]), &labels));
    assert!(!matches_requirement(&req("count", "Gt", &["9"]), &labels));
    assert!(matches_requirement(&req("count", "Lt", &["9"]), &labels));
}

#[test]
fn notin_is_satisfied_by_a_label_that_is_absent_entirely() {
    let labels: Labels = StrMap::new();
    assert!(matches_requirement(&req("anything", "NotIn", &["x"]), &labels));
}

#[test]
fn a_non_numeric_label_never_satisfies_gt_or_lt() {
    let labels = strmap(vec![("count".to_string(), "many".to_string())]);
    assert!(!matches_requirement(&req("count", "Gt", &["3"]), &labels));
}

#[test]
fn match_fields_can_select_a_node_by_name() {
    let selector = NodeSelector {
        node_selector_terms: vec![NodeSelectorTerm {
            match_expressions: None,
            match_fields: Some(vec![req("metadata.name", "In", &["worker-3"])]),
        }],
    };
    let mut p = pod("p");
    p.node_affinity = Some(selector);
    let plugin = NodeAffinity::default();

    assert!(plugin.filter(&CycleState::default(), &p, &node("worker-3")).is_success());
    assert!(!plugin.filter(&CycleState::default(), &p, &node("worker-4")).is_success());
}

#[test]
fn an_affinity_rejection_is_unresolvable_by_preemption() {
    let mut p = pod("p");
    p.node_selector = strmap(vec![("disk".to_string(), "ssd".to_string())]);

    let s = NodeAffinity::default().filter(&CycleState::default(), &p, &node("plain"));
    assert!(!s.code.is_resolvable_by_preemption());
}

#[test]
fn the_profiles_added_affinity_is_anded_onto_every_pod() {
    let plugin = NodeAffinity {
        added_affinity: Some(NodeSelector {
            node_selector_terms: vec![term(vec![req("pool", "In", &["batch"])])],
        }),
    };
    let p = pod("p");

    assert!(plugin
        .filter(&CycleState::default(), &p, &labelled("a", &[("pool", "batch")]))
        .is_success());
    assert!(!plugin
        .filter(&CycleState::default(), &p, &labelled("b", &[("pool", "web")]))
        .is_success());
}

#[test]
fn preferred_terms_sum_their_weights() {
    let mut p = pod("p");
    p.preferred_node_affinity = vec![
        PreferredTerm { weight: 10, selector: term(vec![req("disk", "In", &["ssd"])]) },
        PreferredTerm { weight: 5, selector: term(vec![req("zone", "In", &["east"])]) },
    ];
    let plugin = NodeAffinity::default();
    let state = CycleState::default();

    let both = labelled("both", &[("disk", "ssd"), ("zone", "east")]);
    let one = labelled("one", &[("disk", "ssd")]);
    let neither = node("neither");

    assert_eq!(plugin.score(&state, &p, &both).unwrap(), 15);
    assert_eq!(plugin.score(&state, &p, &one).unwrap(), 10);
    assert_eq!(plugin.score(&state, &p, &neither).unwrap(), 0);
}

#[test]
fn a_pod_with_no_preferences_skips_scoring() {
    let mut state = CycleState::default();
    let s = NodeAffinity::default().pre_score(&mut state, &pod("p"), &vec![]);

    assert!(s.is_skip());
    assert!(state.score_skipped(NAME));
}

#[test]
fn the_score_weight_is_two() {
    assert_eq!(NodeAffinity::default().weight(), 2);
}

#[test]
fn node_affinity_it_does_not_subscribe_to_node_heartbeats() {
    let heartbeat = ClusterEvent::new(EventResource::Node, ActionType(ActionType::UPDATE_NODE_CONDITION));
    for reg in NodeAffinity::default().events_to_register() {
        assert!(!reg.event.matches(&heartbeat));
    }
}

#[test]
fn it_wakes_on_a_node_label_change() {
    let relabel = ClusterEvent::new(EventResource::Node, ActionType(ActionType::UPDATE_NODE_LABEL));
    assert!(NodeAffinity::default()
        .events_to_register()
        .iter()
        .any(|e| e.event.matches(&relabel)));
}
