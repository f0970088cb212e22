use nodescheduler::api::{
    Affinity, LabelSelector, Node, NodeStatus, ObjectMeta, PodAffinity, PodAffinityTerm,
    PodAntiAffinity, WeightedPodAffinityTerm,
};
use nodescheduler::cache::{NodeInfo, PodInfo, Snapshot};
use nodescheduler::events::{ActionType, ClusterEvent, EventResource};
use nodescheduler::framework::plugins::inter_pod_affinity::{
    normalize_signed, InterPodAffinity, NAME,
};
use nodescheduler::framework::status::Code;
use nodescheduler::framework::{
    CycleState, FilterPlugin, Plugin, PreFilterExtensions, PreFilterPlugin, PreScorePlugin,
    ScorePlugin,
};
use nodescheduler::maps::{Labels, StrMap};
use std::sync::Arc;

fn pod(name: &str) -> PodInfo {
    PodInfo { name: name.to_string(), ..Default::default() }
}

fn strmap<V>(entries: Vec<(String, V)>) -> StrMap<V> {
    let mut m = StrMap::new();
    for (k, v) in entries {
        m.insert(k, v);
    }
    m
}

fn some_arc<T>(list: Vec<T>) -> Option<Arc<Vec<T>>> {
    Some(Arc::new(list))
}

/// Builds a snapshot step by step.
struct Cache {
    built: Snapshot,
}

impl Cache {
    fn new() -> Cache {
        Cache { built: Snapshot::default() }
    }

    fn upsert_node(&mut self, n: &Node) {
        let name = n.metadata.name.clone().unwrap();
        if self.built.nodes.iter().any(|known| known.name == name) {
            return;
        }
        let spec = n.spec.clone().unwrap_or_default();
        self.built.nodes.push(Arc::new(NodeInfo {
            name,
            labels: n.metadata.labels.clone().unwrap_or_default(),
            taints: spec.taints.unwrap_or_default(),
            unschedulable: spec.unschedulable.unwrap_or(false),
            allocatable_pods: 110,
            ..Default::default()
        }));
    }

    fn add_pod(&mut self, p: Arc<PodInfo>) {
        let node = p.node_name.clone().unwrap();
        for n in self.built.nodes.iter_mut() {
            if n.name == node {
                Arc::make_mut(n).add_pod(p.clone(), 1);
            }
        }
    }

    fn upsert_namespace(&mut self, name: &str, labels: Labels) {
        Arc::make_mut(&mut self.built.namespaces).insert(name.to_string(), labels);
    }

    fn snapshot(&self) -> Snapshot {
        let mut s = self.built.clone();
        s.nodes_with_pods_with_required_anti_affinity = s
            .nodes
            .iter()
            .filter(|n| !n.pods_with_required_anti_affinity.is_empty())
            .cloned()
            .collect();
        s
    }
}

const HOSTNAME: &str = "kubernetes.io/hostname";
const ZONE: &str = "topology.kubernetes.io/zone";

fn selector(pairs: &[(&str, &str)]) -> LabelSelector {
    LabelSelector {
        match_labels: Some(strmap(pairs.iter().map(|(k, v)| (k.to_string(), v.to_string())).collect())),
        match_expressions: None,
    }
}

fn term(pairs: &[(&str, &str)], topology_key: &str) -> PodAffinityTerm {
    PodAffinityTerm {
        label_selector: Some(selector(pairs)),
        topology_key: topology_key.to_string(),
        ..Default::default()
    }
}

fn api_node(name: &str, labels: &[(&str, &str)]) -> Node {
    Node {
        metadata: ObjectMeta {
            name: Some(name.to_string()),
            labels: Some(strmap(labels.iter().map(|(k, v)| (k.to_string(), v.to_string())).collect())),
            ..Default::default()
        },
        status: Some(NodeStatus {
            allocatable: Some(strmap(vec![
                ("cpu".to_string(), "4".to_string()),
                ("pods".to_string(), "110".to_string()),
            ])),
            ..Default::default()
        }),
        ..Default::default()
    }
}

fn placed(uid: &str, node: &str, labels: &[(&str, &str)]) -> Arc<PodInfo> {
    Arc::new(PodInfo {
        namespace: "default".to_string(),
        name: uid.to_string(),
        uid: uid.to_string(),
        node_name: Some(node.to_string()),
        labels: strmap(labels.iter().map(|(k, v)| (k.to_string(), v.to_string())).collect()),
        ..Default::default()
    })
}

fn placed_with_anti(uid: &str, node: &str, avoid: &[(&str, &str)], key: &str) -> Arc<PodInfo> {
    let mut p = (*placed(uid, node, &[])).clone();
    p.affinity = Some(Affinity {
        pod_anti_affinity: Some(PodAntiAffinity {
            required_during_scheduling_ignored_during_execution: some_arc(vec![term(avoid, key)]),
            ..Default::default()
        }),
        ..Default::default()
    });
    Arc::new(p)
}

fn incoming(labels: &[(&str, &str)], affinity: Option<Affinity>) -> PodInfo {
    let mut p = pod("incoming");
    p.namespace = "default".to_string();
    p.labels = strmap(labels.iter().map(|(k, v)| (k.to_string(), v.to_string())).collect());
    p.affinity = affinity;
    p
}

fn with_affinity(t: PodAffinityTerm) -> Affinity {
    Affinity {
        pod_affinity: Some(PodAffinity {
            required_during_scheduling_ignored_during_execution: some_arc(vec![t]),
            ..Default::default()
        }),
        ..Default::default()
    }
}

fn with_anti_affinity(t: PodAffinityTerm) -> Affinity {
    Affinity {
        pod_anti_affinity: Some(PodAntiAffinity {
            required_during_scheduling_ignored_during_execution: some_arc(vec![t]),
            ..Default::default()
        }),
        ..Default::default()
    }
}

fn cluster(pods: &[(Arc<PodInfo>, &str)]) -> Snapshot {
    let mut cache = Cache::new();
    cache.upsert_node(&api_node("a1", &[(HOSTNAME, "a1"), (ZONE, "east")]));
    cache.upsert_node(&api_node("a2", &[(HOSTNAME, "a2"), (ZONE, "east")]));
    cache.upsert_node(&api_node("b1", &[(HOSTNAME, "b1"), (ZONE, "west")]));
    for (p, _) in pods {
        cache.add_pod(p.clone());
    }
    cache.snapshot()
}

fn prefiltered(plugin: &InterPodAffinity, pod: &PodInfo, snap: &Snapshot) -> CycleState {
    let mut state = CycleState::default();
    plugin.pre_filter(&mut state, pod, snap);
    state
}

fn node<'a>(snap: &'a Snapshot, name: &str) -> &'a NodeInfo {
    snap.node(name).expect("node in snapshot")
}


#[test]
fn affinity_is_satisfied_by_one_matching_pod_in_the_domain() {
    let snap = cluster(&[(placed("web", "a1", &[("app", "web")]), "a1")]);
    let p = incoming(&[], Some(with_affinity(term(&[("app", "web")], HOSTNAME))));
    let plugin = InterPodAffinity::default();
    let state = prefiltered(&plugin, &p, &snap);

    assert!(plugin.filter(&state, &p, node(&snap, "a1")).is_success());
    assert!(
        !plugin.filter(&state, &p, node(&snap, "a2")).is_success(),
        "a2 has no matching pod on it, and the domain here is the node"
    );
}

#[test]
fn a_domain_spans_nodes() {
    let snap = cluster(&[(placed("web", "a1", &[("app", "web")]), "a1")]);
    let p = incoming(&[], Some(with_affinity(term(&[("app", "web")], ZONE))));
    let plugin = InterPodAffinity::default();
    let state = prefiltered(&plugin, &p, &snap);

    assert!(plugin.filter(&state, &p, node(&snap, "a2")).is_success());
    assert!(
        !plugin.filter(&state, &p, node(&snap, "b1")).is_success(),
        "b1 is in the other zone, so its domain has no matching pod"
    );
}

#[test]
fn affinity_with_no_matching_pod_anywhere_rejects_every_node() {
    let snap = cluster(&[(placed("other", "a1", &[("app", "api")]), "a1")]);
    let p = incoming(&[], Some(with_affinity(term(&[("app", "web")], HOSTNAME))));
    let plugin = InterPodAffinity::default();
    let state = prefiltered(&plugin, &p, &snap);

    for n in ["a1", "a2", "b1"] {
        assert!(!plugin.filter(&state, &p, node(&snap, n)).is_success(), "{n}");
    }
}


#[test]
fn anti_affinity_is_satisfied_only_where_nothing_matches() {
    let snap = cluster(&[(placed("web", "a1", &[("app", "web")]), "a1")]);
    let p = incoming(&[], Some(with_anti_affinity(term(&[("app", "web")], HOSTNAME))));
    let plugin = InterPodAffinity::default();
    let state = prefiltered(&plugin, &p, &snap);

    assert!(!plugin.filter(&state, &p, node(&snap, "a1")).is_success());
    assert!(plugin.filter(&state, &p, node(&snap, "a2")).is_success());
    assert!(plugin.filter(&state, &p, node(&snap, "b1")).is_success());
}

#[test]
fn zone_scoped_anti_affinity_excludes_the_whole_zone() {
    let snap = cluster(&[(placed("web", "a1", &[("app", "web")]), "a1")]);
    let p = incoming(&[], Some(with_anti_affinity(term(&[("app", "web")], ZONE))));
    let plugin = InterPodAffinity::default();
    let state = prefiltered(&plugin, &p, &snap);

    assert!(!plugin.filter(&state, &p, node(&snap, "a1")).is_success());
    assert!(
        !plugin.filter(&state, &p, node(&snap, "a2")).is_success(),
        "a2 shares the zone with the matching pod"
    );
    assert!(plugin.filter(&state, &p, node(&snap, "b1")).is_success());
}

#[test]
fn a_node_without_the_topology_label_satisfies_neither_rule() {
    let mut cache = Cache::new();
    cache.upsert_node(&api_node("bare", &[(HOSTNAME, "bare")]));
    cache.add_pod(placed("web", "bare", &[("app", "web")]));
    let snap = cache.snapshot();
    let plugin = InterPodAffinity::default();

    let affin = incoming(&[], Some(with_affinity(term(&[("app", "web")], ZONE))));
    let s1 = prefiltered(&plugin, &affin, &snap);
    assert!(!plugin.filter(&s1, &affin, node(&snap, "bare")).is_success());

    let anti = incoming(&[], Some(with_anti_affinity(term(&[("app", "web")], ZONE))));
    let s2 = prefiltered(&plugin, &anti, &snap);
    assert!(
        !plugin.filter(&s2, &anti, node(&snap, "bare")).is_success(),
        "an unlabelled node is in no domain, so anti-affinity cannot be shown to hold either"
    );
}


#[test]
fn an_existing_pods_own_anti_affinity_blocks_the_incoming_pod() {
    let snap = cluster(&[(placed_with_anti("guard", "a1", &[("app", "web")], HOSTNAME), "a1")]);
    let p = incoming(&[("app", "web")], None);
    let plugin = InterPodAffinity::default();
    let state = prefiltered(&plugin, &p, &snap);

    assert!(
        !plugin.filter(&state, &p, node(&snap, "a1")).is_success(),
        "a running pod's anti-affinity must forbid placing a matching pod beside it"
    );
    assert!(plugin.filter(&state, &p, node(&snap, "a2")).is_success());
}

#[test]
fn an_existing_pods_anti_affinity_does_not_block_a_pod_it_does_not_match() {
    let snap = cluster(&[(placed_with_anti("guard", "a1", &[("app", "web")], HOSTNAME), "a1")]);
    let p = incoming(&[("app", "batch")], None);
    let plugin = InterPodAffinity::default();
    let state = prefiltered(&plugin, &p, &snap);

    assert!(plugin.filter(&state, &p, node(&snap, "a1")).is_success());
}


#[test]
fn hypothetically_removing_the_blocking_pod_admits_the_node() {
    let blocker = placed("web", "a1", &[("app", "web")]);
    let snap = cluster(&[(blocker.clone(), "a1")]);
    let p = incoming(&[], Some(with_anti_affinity(term(&[("app", "web")], HOSTNAME))));
    let plugin = InterPodAffinity::default();
    let mut state = prefiltered(&plugin, &p, &snap);

    assert!(!plugin.filter(&state, &p, node(&snap, "a1")).is_success());

    plugin.remove_pod(&mut state, &p, &blocker, node(&snap, "a1"));

    assert!(
        plugin.filter(&state, &p, node(&snap, "a1")).is_success(),
        "with the matching pod hypothetically gone, the anti-affinity is satisfied"
    );
}

#[test]
fn hypothetically_removing_a_pod_whose_rule_blocked_us_admits_the_node() {
    let guard = placed_with_anti("guard", "a1", &[("app", "web")], HOSTNAME);
    let snap = cluster(&[(guard.clone(), "a1")]);
    let p = incoming(&[("app", "web")], None);
    let plugin = InterPodAffinity::default();
    let mut state = prefiltered(&plugin, &p, &snap);

    assert!(!plugin.filter(&state, &p, node(&snap, "a1")).is_success());

    plugin.remove_pod(&mut state, &p, &guard, node(&snap, "a1"));

    assert!(plugin.filter(&state, &p, node(&snap, "a1")).is_success());
}

#[test]
fn hypothetically_adding_a_pod_can_block_a_node() {
    let snap = cluster(&[]);
    let p = incoming(&[], Some(with_anti_affinity(term(&[("app", "web")], HOSTNAME))));
    let plugin = InterPodAffinity::default();
    let mut state = prefiltered(&plugin, &p, &snap);

    assert!(plugin.filter(&state, &p, node(&snap, "a1")).is_success());

    plugin.add_pod(&mut state, &p, &placed("web", "a1", &[("app", "web")]), node(&snap, "a1"));

    assert!(!plugin.filter(&state, &p, node(&snap, "a1")).is_success());
}


fn weighted(t: PodAffinityTerm, weight: i32) -> WeightedPodAffinityTerm {
    WeightedPodAffinityTerm { pod_affinity_term: t, weight }
}

#[test]
fn preferred_affinity_raises_a_domains_score() {
    let snap = cluster(&[(placed("web", "a1", &[("app", "web")]), "a1")]);
    let mut p = incoming(&[], None);
    p.affinity = Some(Affinity {
        pod_affinity: Some(PodAffinity {
            preferred_during_scheduling_ignored_during_execution: some_arc(vec![weighted(
                term(&[("app", "web")], HOSTNAME),
                10,
            )]),
            ..Default::default()
        }),
        ..Default::default()
    });
    let plugin = InterPodAffinity::default();
    let state = prefiltered(&plugin, &p, &snap);

    assert_eq!(plugin.score(&state, &p, node(&snap, "a1")).unwrap(), 10);
    assert_eq!(plugin.score(&state, &p, node(&snap, "a2")).unwrap(), 0);
}

#[test]
fn preferred_anti_affinity_lowers_a_domains_score_below_zero() {
    let snap = cluster(&[(placed("web", "a1", &[("app", "web")]), "a1")]);
    let mut p = incoming(&[], None);
    p.affinity = Some(Affinity {
        pod_anti_affinity: Some(PodAntiAffinity {
            preferred_during_scheduling_ignored_during_execution: some_arc(vec![weighted(
                term(&[("app", "web")], HOSTNAME),
                10,
            )]),
            ..Default::default()
        }),
        ..Default::default()
    });
    let plugin = InterPodAffinity::default();
    let state = prefiltered(&plugin, &p, &snap);

    assert_eq!(plugin.score(&state, &p, node(&snap, "a1")).unwrap(), -10);
}

#[test]
fn signed_scores_normalize_across_the_whole_range() {
    let mut scores = vec![-10, 0, 10];
    normalize_signed(&mut scores);
    assert_eq!(scores, [0, 50, 100]);
}

#[test]
fn uniform_scores_all_normalize_to_the_maximum() {
    let mut scores = vec![-5, -5, -5];
    normalize_signed(&mut scores);
    assert_eq!(scores, [100, 100, 100]);
}


#[test]
fn a_pod_with_no_affinity_rules_skips_the_plugin_entirely() {
    let snap = cluster(&[(placed("web", "a1", &[("app", "web")]), "a1")]);
    let p = incoming(&[], None);
    let plugin = InterPodAffinity::default();
    let mut state = CycleState::default();

    let (status, _) = plugin.pre_filter(&mut state, &p, &snap);

    assert!(status.is_skip());
    assert!(state.filter_skipped(NAME));
    assert!(state.score_skipped(NAME));
}

#[test]
fn a_pod_with_no_rules_is_still_checked_against_existing_pods_rules() {
    let snap = cluster(&[(placed_with_anti("guard", "a1", &[("app", "web")], HOSTNAME), "a1")]);
    let p = incoming(&[("app", "web")], None);
    let plugin = InterPodAffinity::default();
    let mut state = CycleState::default();

    let (status, _) = plugin.pre_filter(&mut state, &p, &snap);

    assert!(!status.is_skip(), "a pod an existing rule forbids cannot skip filtering");
    assert!(!state.filter_skipped(NAME));
    assert!(!plugin.filter(&state, &p, node(&snap, "a1")).is_success());
}

#[test]
fn inter_pod_affinity_tests_it_registers_exactly_the_events_that_can_unstick_a_rejected_pod() {
    let events = InterPodAffinity::default().events_to_register();
    let pairs: Vec<(EventResource, ActionType)> =
        events.iter().map(|e| (e.event.resource, e.event.action)).collect();

    assert_eq!(
        pairs,
        vec![
            (
                EventResource::AssignedPod,
                ActionType(ActionType::ADD | ActionType::DELETE | ActionType::UPDATE_POD_LABEL)
            ),
            (EventResource::Node, ActionType(ActionType::ADD | ActionType::UPDATE_NODE_LABEL)),
        ]
    );
}

#[test]
fn inter_pod_affinity_tests_a_node_heartbeat_does_not_wake_a_pod_this_plugin_rejected() {
    let heartbeat = ClusterEvent::new(EventResource::Node, ActionType(ActionType::UPDATE_NODE_CONDITION));
    for reg in InterPodAffinity::default().events_to_register() {
        assert!(!reg.event.matches(&heartbeat));
    }
}


fn cluster_with_namespaces(
    pods: &[(Arc<PodInfo>, &str)],
    namespaces: &[(&str, &[(&str, &str)])],
) -> Snapshot {
    let mut cache = Cache::new();
    cache.upsert_node(&api_node("a1", &[(HOSTNAME, "a1"), (ZONE, "east")]));
    cache.upsert_node(&api_node("a2", &[(HOSTNAME, "a2"), (ZONE, "east")]));
    cache.upsert_node(&api_node("b1", &[(HOSTNAME, "b1"), (ZONE, "west")]));
    for (name, labels) in namespaces {
        cache.upsert_namespace(
            name,
            strmap(labels.iter().map(|(k, v)| (k.to_string(), v.to_string())).collect()),
        );
    }
    for (p, _) in pods {
        cache.add_pod(p.clone());
    }
    cache.snapshot()
}

fn placed_in(ns: &str, uid: &str, node: &str, labels: &[(&str, &str)]) -> Arc<PodInfo> {
    let mut p = (*placed(uid, node, labels)).clone();
    p.namespace = ns.to_string();
    Arc::new(p)
}

fn term_with_ns_selector(
    pairs: &[(&str, &str)],
    key: &str,
    ns_pairs: &[(&str, &str)],
) -> PodAffinityTerm {
    let mut t = term(pairs, key);
    t.namespace_selector = Some(selector(ns_pairs));
    t
}

#[test]
fn a_namespace_selector_matches_only_the_namespaces_whose_labels_satisfy_it() {
    let db = placed_in("prod-a", "db", "a1", &[("app", "db")]);
    let snap = cluster_with_namespaces(
        &[(db, "a1")],
        &[("prod-a", &[("env", "prod")]), ("staging", &[("env", "staging")])],
    );
    let plugin = InterPodAffinity::default();
    let p = incoming(
        &[("app", "web")],
        Some(with_affinity(term_with_ns_selector(&[("app", "db")], HOSTNAME, &[("env", "prod")]))),
    );
    let state = prefiltered(&plugin, &p, &snap);

    assert!(plugin.filter(&state, &p, node(&snap, "a1")).is_success());
    assert!(!plugin.filter(&state, &p, node(&snap, "b1")).is_success());
}

#[test]
fn a_pod_in_a_namespace_the_selector_rejects_is_not_counted() {
    let db = placed_in("staging", "db", "a1", &[("app", "db")]);
    let snap = cluster_with_namespaces(
        &[(db, "a1")],
        &[("prod-a", &[("env", "prod")]), ("staging", &[("env", "staging")])],
    );
    let plugin = InterPodAffinity::default();
    let p = incoming(
        &[("app", "web")],
        Some(with_affinity(term_with_ns_selector(&[("app", "db")], HOSTNAME, &[("env", "prod")]))),
    );
    let state = prefiltered(&plugin, &p, &snap);

    for name in ["a1", "a2", "b1"] {
        assert!(
            !plugin.filter(&state, &p, node(&snap, name)).is_success(),
            "{name} must not satisfy an affinity whose namespaceSelector excludes the only match"
        );
    }
}

#[test]
fn an_existing_pods_anti_affinity_namespace_selector_is_resolved_too() {
    let mut noisy = (*placed_in("prod-a", "noisy", "a1", &[])).clone();
    noisy.affinity = Some(Affinity {
        pod_anti_affinity: Some(PodAntiAffinity {
            required_during_scheduling_ignored_during_execution: some_arc(vec![
                term_with_ns_selector(&[("app", "web")], HOSTNAME, &[("env", "prod")]),
            ]),
            ..Default::default()
        }),
        ..Default::default()
    });
    let snap = cluster_with_namespaces(
        &[(Arc::new(noisy), "a1")],
        &[("default", &[("env", "prod")]), ("prod-a", &[("env", "prod")])],
    );
    let plugin = InterPodAffinity::default();
    let p = incoming(&[("app", "web")], None);
    let state = prefiltered(&plugin, &p, &snap);

    assert!(
        !plugin.filter(&state, &p, node(&snap, "a1")).is_success(),
        "the running pod's anti-affinity selects our namespace, so a1 is forbidden"
    );
    assert!(plugin.filter(&state, &p, node(&snap, "a2")).is_success());
}

#[test]
fn a_namespace_with_no_labels_known_satisfies_no_selector() {
    let db = placed_in("prod-a", "db", "a1", &[("app", "db")]);
    let snap = cluster_with_namespaces(&[(db, "a1")], &[]);
    let plugin = InterPodAffinity::default();
    let p = incoming(
        &[("app", "web")],
        Some(with_affinity(term_with_ns_selector(&[("app", "db")], HOSTNAME, &[("env", "prod")]))),
    );
    let state = prefiltered(&plugin, &p, &snap);
    assert!(!plugin.filter(&state, &p, node(&snap, "a1")).is_success());
}

#[test]
fn every_term_needs_a_match_of_its_own() {
    let snap = cluster(&[(placed("web", "a1", &[("app", "web")]), "a1")]);
    let mut p = incoming(&[], None);
    p.affinity = Some(Affinity {
        pod_affinity: Some(PodAffinity {
            required_during_scheduling_ignored_during_execution: some_arc(vec![
                term(&[("app", "web")], ZONE),
                term(&[("app", "db")], ZONE),
            ]),
            ..Default::default()
        }),
        ..Default::default()
    });
    let plugin = InterPodAffinity::default();
    let mut state = prefiltered(&plugin, &p, &snap);
    let refused = plugin.filter(&state, &p, node(&snap, "a1"));
    assert_eq!(refused.code, Code::Unschedulable);
    assert_eq!(refused.reasons, vec!["node(s) didn't match pod affinity rules".to_string()]);

    plugin.add_pod(&mut state, &p, &placed("db", "a2", &[("app", "db")]), node(&snap, "a2"));
    assert!(plugin.filter(&state, &p, node(&snap, "a1")).is_success());
    assert!(!plugin.filter(&state, &p, node(&snap, "b1")).is_success());
}

#[test]
fn a_preference_that_nothing_matches_scores_nothing() {
    let snap = cluster(&[(placed("web", "a1", &[("app", "web")]), "a1")]);
    let mut p = incoming(&[], None);
    p.affinity = Some(Affinity {
        pod_affinity: Some(PodAffinity {
            preferred_during_scheduling_ignored_during_execution: some_arc(vec![
                weighted(term(&[("app", "web")], ZONE), 10),
                weighted(term(&[("app", "db")], ZONE), 5),
            ]),
            ..Default::default()
        }),
        ..Default::default()
    });
    let plugin = InterPodAffinity::default();
    let state = prefiltered(&plugin, &p, &snap);
    assert_eq!(plugin.score(&state, &p, node(&snap, "a1")).unwrap(), 10);
    assert_eq!(plugin.score(&state, &p, node(&snap, "b1")).unwrap(), 0);
}

fn placed_asking(uid: &str, node: &str, wanted: &[(&str, &str)], key: &str) -> Arc<PodInfo> {
    let mut p = (*placed(uid, node, &[])).clone();
    p.affinity = Some(with_affinity(term(wanted, key)));
    Arc::new(p)
}

#[test]
fn placed_pods_that_ask_for_the_incoming_one_raise_their_domain() {
    let snap = cluster(&[
        (placed_asking("x", "a1", &[("app", "web")], ZONE), "a1"),
        (placed_asking("y", "a2", &[("app", "web")], ZONE), "a2"),
        (placed_asking("z", "b1", &[("app", "db")], ZONE), "b1"),
    ]);
    let p = incoming(&[("app", "web")], None);
    let plugin = InterPodAffinity { hard_pod_affinity_weight: 7 };
    let mut state = CycleState::default();
    assert!(plugin.pre_filter(&mut state, &p, &snap).0.is_success());
    assert!(!state.score_skipped(NAME));
    assert!(plugin.pre_score(&mut state, &p, &snap.nodes).is_success());
    assert_eq!(plugin.score(&state, &p, node(&snap, "a1")).unwrap(), 14);
    assert_eq!(plugin.score(&state, &p, node(&snap, "a2")).unwrap(), 14);
    assert_eq!(plugin.score(&state, &p, node(&snap, "b1")).unwrap(), 0);

    let x = placed_asking("x", "a1", &[("app", "web")], ZONE);
    plugin.remove_pod(&mut state, &p, &x, node(&snap, "a1"));
    assert_eq!(plugin.score(&state, &p, node(&snap, "a1")).unwrap(), 7);
}

#[test]
fn removing_a_pod_decides_as_the_cluster_without_it() {
    let guard = placed_with_anti("guard", "a1", &[("app", "web")], ZONE);
    let web = placed("web", "b1", &[("app", "web")]);
    let full = cluster(&[(guard.clone(), "a1"), (web.clone(), "b1")]);
    let rest = cluster(&[(web, "b1")]);
    let p = incoming(&[("app", "web")], Some(with_affinity(term(&[("app", "web")], ZONE))));
    let plugin = InterPodAffinity::default();
    let mut state = prefiltered(&plugin, &p, &full);
    let without = prefiltered(&plugin, &p, &rest);
    let names = ["a1", "a2", "b1"];
    let verdicts = |s: &CycleState| -> Vec<Vec<String>> {
        names.iter().map(|n| plugin.filter(s, &p, node(&full, n)).reasons).collect()
    };
    let before = verdicts(&state);
    plugin.remove_pod(&mut state, &p, &guard, node(&full, "a1"));
    assert_eq!(verdicts(&state), verdicts(&without));
    for n in names {
        assert_eq!(
            plugin.score(&state, &p, node(&full, n)).unwrap(),
            plugin.score(&without, &p, node(&full, n)).unwrap()
        );
    }
    plugin.add_pod(&mut state, &p, &guard, node(&full, "a1"));
    assert_eq!(verdicts(&state), before);
}
