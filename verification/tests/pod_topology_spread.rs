use nodescheduler::api::{
    LabelSelector, Node, NodeSpec, NodeStatus, ObjectMeta, Taint, TopologySpreadConstraint,
};
use nodescheduler::cache::{NodeInfo, PodInfo, Snapshot, WorkloadSelector};
use nodescheduler::config::TopologyDefaulting;
use nodescheduler::events::{ActionType, ClusterEvent, EventResource};
use nodescheduler::framework::plugins::pod_topology_spread::{
    PodTopologySpread, SpreadState, NAME,
};
use nodescheduler::framework::status::Status;
use nodescheduler::framework::{
    CycleState, FilterPlugin, Plugin, PreFilterExtensions, PreFilterPlugin,
};
use nodescheduler::maps::StrMap;
use std::sync::Arc;

fn pod(name: &str) -> PodInfo {
    PodInfo { name: name.to_string(), ..Default::default() }
}

fn strmap<V>(entries: Vec<(String, V)>) -> StrMap<V> {
    let mut m = StrMap::new();
    for (k, v) in entries {
        m.insert(k, v);
    }
    m
}

/// Builds a snapshot step by step.
struct Cache {
    built: Snapshot,
}

impl Cache {
    fn new() -> Cache {
        Cache { built: Snapshot::default() }
    }

    fn upsert_node(&mut self, n: &Node) {
        let name = n.metadata.name.clone().unwrap();
        if self.built.nodes.iter().any(|known| known.name == name) {
            return;
        }
        let spec = n.spec.clone().unwrap_or_default();
        self.built.nodes.push(Arc::new(NodeInfo {
            name,
            labels: n.metadata.labels.clone().unwrap_or_default(),
            taints: spec.taints.unwrap_or_default(),
            unschedulable: spec.unschedulable.unwrap_or(false),
            allocatable_pods: 110,
            ..Default::default()
        }));
    }

    fn add_pod(&mut self, p: Arc<PodInfo>) {
        let node = p.node_name.clone().unwrap();
        for n in self.built.nodes.iter_mut() {
            if n.name == node {
                Arc::make_mut(n).add_pod(p.clone(), 1);
            }
        }
    }

    fn upsert_workload(&mut self, key: String, value: WorkloadSelector) {
        self.built.workloads.insert(key, value);
    }

    fn snapshot(&self) -> Snapshot {
        let mut s = self.built.clone();
        s.nodes_with_pods_with_required_anti_affinity = s
            .nodes
            .iter()
            .filter(|n| !n.pods_with_required_anti_affinity.is_empty())
            .cloned()
            .collect();
        s
    }
}

/// The raw score that a node's terms add up to.
fn score(plugin: &PodTopologySpread, state: &CycleState, node: &NodeInfo) -> i64 {
    let mut raw = 0f64;
    for t in plugin.score_terms(state, node) {
        raw += t.count as f64 * ((t.domains + 2) as f64).ln() + (t.max_skew as f64 - 1.0);
    }
    raw.round() as i64
}

const ZONE: &str = "topology.kubernetes.io/zone";

fn api_node(name: &str, zone: &str) -> Node {
    Node {
        metadata: ObjectMeta {
            name: Some(name.to_string()),
            labels: Some(strmap(vec![
                (ZONE.to_string(), zone.to_string()),
                ("kubernetes.io/hostname".to_string(), name.to_string()),
            ])),
            ..Default::default()
        },
        status: Some(NodeStatus {
            allocatable: Some(strmap(vec![
                ("cpu".to_string(), "4".to_string()),
                ("pods".to_string(), "110".to_string()),
            ])),
            ..Default::default()
        }),
        ..Default::default()
    }
}

fn placed(uid: &str, node: &str) -> Arc<PodInfo> {
    Arc::new(PodInfo {
        namespace: "default".to_string(),
        name: uid.to_string(),
        uid: uid.to_string(),
        node_name: Some(node.to_string()),
        labels: strmap(vec![("app".to_string(), "web".to_string())]),
        ..Default::default()
    })
}

fn constraint(max_skew: i32, hard: bool) -> TopologySpreadConstraint {
    TopologySpreadConstraint {
        max_skew,
        topology_key: ZONE.to_string(),
        when_unsatisfiable: if hard { "DoNotSchedule" } else { "ScheduleAnyway" }.to_string(),
        label_selector: Some(LabelSelector {
            match_labels: Some(strmap(vec![("app".to_string(), "web".to_string())])),
            match_expressions: None,
        }),
        ..Default::default()
    }
}

fn incoming(c: TopologySpreadConstraint) -> PodInfo {
    let mut p = pod("incoming");
    p.namespace = "default".to_string();
    p.labels = strmap(vec![("app".to_string(), "web".to_string())]);
    p.topology_spread_constraints = vec![c];
    p
}

fn cluster(placements: &[(&str, &str)]) -> Snapshot {
    let mut cache = Cache::new();
    cache.upsert_node(&api_node("n-east", "east"));
    cache.upsert_node(&api_node("n-west", "west"));
    cache.upsert_node(&api_node("n-north", "north"));
    for (uid, node) in placements {
        cache.add_pod(placed(uid, node));
    }
    cache.snapshot()
}

fn prefiltered(p: &PodInfo, snap: &Snapshot) -> (PodTopologySpread, CycleState, Status) {
    let plugin = PodTopologySpread::default();
    let mut state = CycleState::default();
    let (status, _) = plugin.pre_filter(&mut state, p, snap);
    (plugin, state, status)
}

fn node<'a>(snap: &'a Snapshot, name: &str) -> &'a NodeInfo {
    snap.node(name).expect("node in snapshot")
}


#[test]
fn an_empty_cluster_accepts_the_first_pod_anywhere() {
    let snap = cluster(&[]);
    let p = incoming(constraint(1, true));
    let (plugin, state, _) = prefiltered(&p, &snap);

    for n in ["n-east", "n-west", "n-north"] {
        assert!(plugin.filter(&state, &p, node(&snap, n)).is_success(), "{n}");
    }
}

#[test]
fn a_second_pod_avoids_the_occupied_zone_at_max_skew_one() {
    let snap = cluster(&[("a", "n-east")]);
    let p = incoming(constraint(1, true));
    let (plugin, state, _) = prefiltered(&p, &snap);

    assert!(!plugin.filter(&state, &p, node(&snap, "n-east")).is_success());
    assert!(plugin.filter(&state, &p, node(&snap, "n-west")).is_success());
    assert!(plugin.filter(&state, &p, node(&snap, "n-north")).is_success());
}

#[test]
fn a_wider_max_skew_tolerates_more_imbalance() {
    let snap = cluster(&[("a", "n-east")]);
    let p = incoming(constraint(2, true));
    let (plugin, state, _) = prefiltered(&p, &snap);

    assert!(
        plugin.filter(&state, &p, node(&snap, "n-east")).is_success(),
        "skew of 2 is allowed when maxSkew is 2"
    );
}

#[test]
fn an_evenly_filled_cluster_accepts_a_pod_in_any_zone() {
    let snap = cluster(&[("a", "n-east"), ("b", "n-west"), ("c", "n-north")]);
    let p = incoming(constraint(1, true));
    let (plugin, state, _) = prefiltered(&p, &snap);

    for n in ["n-east", "n-west", "n-north"] {
        assert!(plugin.filter(&state, &p, node(&snap, n)).is_success(), "{n}");
    }
}

#[test]
fn only_pods_matching_the_selector_are_counted() {
    let mut cache = Cache::new();
    cache.upsert_node(&api_node("n-east", "east"));
    cache.upsert_node(&api_node("n-west", "west"));
    cache.upsert_node(&api_node("n-north", "north"));
    let mut unrelated = (*placed("other", "n-east")).clone();
    unrelated.labels = strmap(vec![("app".to_string(), "batch".to_string())]);
    cache.add_pod(Arc::new(unrelated));
    let snap = cache.snapshot();

    let p = incoming(constraint(1, true));
    let (plugin, state, _) = prefiltered(&p, &snap);

    assert!(
        plugin.filter(&state, &p, node(&snap, "n-east")).is_success(),
        "a pod with different labels must not count against this constraint"
    );
}

#[test]
fn pods_in_another_namespace_are_not_counted() {
    let mut cache = Cache::new();
    cache.upsert_node(&api_node("n-east", "east"));
    cache.upsert_node(&api_node("n-west", "west"));
    cache.upsert_node(&api_node("n-north", "north"));
    let mut elsewhere = (*placed("other", "n-east")).clone();
    elsewhere.namespace = "kube-system".to_string();
    cache.add_pod(Arc::new(elsewhere));
    let snap = cache.snapshot();

    let p = incoming(constraint(1, true));
    let (plugin, state, _) = prefiltered(&p, &snap);

    assert!(plugin.filter(&state, &p, node(&snap, "n-east")).is_success());
}


#[test]
fn min_domains_keeps_a_constraint_biting_on_a_narrow_cluster() {
    let mut cache = Cache::new();
    cache.upsert_node(&api_node("n-east", "east"));
    cache.add_pod(placed("a", "n-east"));
    let snap = cache.snapshot();

    let mut c = constraint(1, true);
    c.min_domains = Some(3);
    let p = incoming(c);
    let (plugin, state, _) = prefiltered(&p, &snap);

    assert!(
        !plugin.filter(&state, &p, node(&snap, "n-east")).is_success(),
        "with fewer than minDomains domains, globalMin is 0 and the skew limit applies"
    );
}

#[test]
fn without_min_domains_a_single_domain_never_blocks() {
    let mut cache = Cache::new();
    cache.upsert_node(&api_node("n-east", "east"));
    cache.add_pod(placed("a", "n-east"));
    let snap = cache.snapshot();

    let p = incoming(constraint(1, true));
    let (plugin, state, _) = prefiltered(&p, &snap);

    assert!(plugin.filter(&state, &p, node(&snap, "n-east")).is_success());
}


#[test]
fn a_zone_the_pod_could_never_use_does_not_drag_globalmin_down() {
    let snap = cluster(&[("a", "n-east")]);
    let mut p = incoming(constraint(1, true));
    p.node_selector = strmap(vec![(ZONE.to_string(), "east".to_string())]);
    let (plugin, state, _) = prefiltered(&p, &snap);

    assert!(
        plugin.filter(&state, &p, node(&snap, "n-east")).is_success(),
        "east is the only eligible domain, so its own count is globalMin and skew is 1"
    );
}

#[test]
fn ignoring_node_affinity_lets_an_unreachable_zone_count() {
    let snap = cluster(&[("a", "n-east")]);
    let mut c = constraint(1, true);
    c.node_affinity_policy = Some("Ignore".to_string());
    let mut p = incoming(c);
    p.node_selector = strmap(vec![(ZONE.to_string(), "east".to_string())]);
    let (plugin, state, _) = prefiltered(&p, &snap);

    assert!(
        !plugin.filter(&state, &p, node(&snap, "n-east")).is_success(),
        "with Ignore the empty zones count, globalMin is 0, and east is at its limit"
    );
}

#[test]
fn taints_are_ignored_by_default_and_honoured_on_request() {
    let mut cache = Cache::new();
    let mut tainted = api_node("n-west", "west");
    tainted.spec = Some(NodeSpec {
        taints: Some(vec![Taint {
            key: "dedicated".to_string(),
            value: Some("gpu".to_string()),
            effect: "NoSchedule".to_string(),
            ..Default::default()
        }]),
        ..Default::default()
    });
    cache.upsert_node(&api_node("n-east", "east"));
    cache.upsert_node(&tainted);
    cache.add_pod(placed("a", "n-east"));
    let snap = cache.snapshot();

    let p = incoming(constraint(1, true));
    let (plugin, state, _) = prefiltered(&p, &snap);
    assert!(!plugin.filter(&state, &p, node(&snap, "n-east")).is_success());

    let mut c = constraint(1, true);
    c.node_taints_policy = Some("Honor".to_string());
    let p2 = incoming(c);
    let (plugin2, state2, _) = prefiltered(&p2, &snap);
    assert!(plugin2.filter(&state2, &p2, node(&snap, "n-east")).is_success());
}

#[test]
fn a_node_without_the_topology_label_is_rejected_by_a_hard_constraint() {
    let mut cache = Cache::new();
    cache.upsert_node(&api_node("n-east", "east"));
    let mut bare = api_node("bare", "unused");
    bare.metadata.labels = Some(strmap(vec![(
        "kubernetes.io/hostname".to_string(),
        "bare".to_string(),
    )]));
    cache.upsert_node(&bare);
    let snap = cache.snapshot();

    let p = incoming(constraint(1, true));
    let (plugin, state, _) = prefiltered(&p, &snap);

    let status = plugin.filter(&state, &p, node(&snap, "bare"));
    assert!(!status.is_success());
    assert!(!status.code.is_resolvable_by_preemption());
}

#[test]
fn a_hard_constraint_with_no_eligible_domain_is_unresolvable() {
    let mut cache = Cache::new();
    let mut bare = api_node("bare", "unused");
    bare.metadata.labels = Some(strmap(vec![(
        "kubernetes.io/hostname".to_string(),
        "bare".to_string(),
    )]));
    cache.upsert_node(&bare);
    let snap = cache.snapshot();

    let p = incoming(constraint(1, true));
    let (_, _, status) = prefiltered(&p, &snap);

    assert!(!status.is_success());
    assert!(
        !status.code.is_resolvable_by_preemption(),
        "no eviction can create a topology domain"
    );
}


#[test]
fn a_soft_constraint_never_rejects_a_node() {
    let snap = cluster(&[("a", "n-east"), ("b", "n-east"), ("c", "n-east")]);
    let p = incoming(constraint(1, false));
    let (plugin, state, _) = prefiltered(&p, &snap);

    assert!(
        plugin.filter(&state, &p, node(&snap, "n-east")).is_success(),
        "ScheduleAnyway is a preference; turning it into a rejection is an outage"
    );
}

#[test]
fn a_soft_constraint_prefers_the_emptier_domain() {
    let snap = cluster(&[("a", "n-east"), ("b", "n-east")]);
    let p = incoming(constraint(1, false));
    let (plugin, state, _) = prefiltered(&p, &snap);

    let mut scores = vec![
        score(&plugin, &state, node(&snap, "n-east")),
        score(&plugin, &state, node(&snap, "n-west")),
    ];
    assert!(scores[0] > scores[1], "raw score counts occupancy, so east is higher before inversion");

    plugin.normalize(&mut scores);
    assert!(
        scores[1] > scores[0],
        "after inversion the emptier zone must score higher, got east={} west={}",
        scores[0],
        scores[1]
    );
}

#[test]
fn a_hard_constraint_contributes_nothing_to_the_score() {
    let snap = cluster(&[("a", "n-east")]);
    let p = incoming(constraint(1, true));
    let (plugin, state, _) = prefiltered(&p, &snap);

    assert_eq!(score(&plugin, &state, node(&snap, "n-west")), 0);
}


#[test]
fn match_label_keys_narrows_the_selector_to_this_pods_own_revision() {
    let mut cache = Cache::new();
    cache.upsert_node(&api_node("n-east", "east"));
    cache.upsert_node(&api_node("n-west", "west"));
    let mut old_revision = (*placed("old", "n-east")).clone();
    old_revision
        .labels
        .insert("pod-template-hash".to_string(), "aaa".to_string());
    cache.add_pod(Arc::new(old_revision));
    let snap = cache.snapshot();

    let mut c = constraint(1, true);
    c.match_label_keys = Some(vec!["pod-template-hash".to_string()]);
    let mut p = incoming(c);
    p.labels.insert("pod-template-hash".to_string(), "bbb".to_string());

    let (plugin, state, _) = prefiltered(&p, &snap);

    assert!(
        plugin.filter(&state, &p, node(&snap, "n-east")).is_success(),
        "the previous revision's pod must not count against the new revision's spread"
    );
}

#[test]
fn a_match_label_key_the_pod_does_not_carry_is_skipped() {
    let snap = cluster(&[("a", "n-east")]);
    let mut c = constraint(1, true);
    c.match_label_keys = Some(vec!["absent".to_string()]);
    let p = incoming(c);
    let (plugin, state, _) = prefiltered(&p, &snap);

    assert!(!plugin.filter(&state, &p, node(&snap, "n-east")).is_success());
}


#[test]
fn hypothetically_removing_a_pod_relieves_the_skew() {
    let snap = cluster(&[("a", "n-east")]);
    let p = incoming(constraint(1, true));
    let (plugin, mut state, _) = prefiltered(&p, &snap);

    assert!(!plugin.filter(&state, &p, node(&snap, "n-east")).is_success());

    plugin.remove_pod(&mut state, &p, &placed("a", "n-east"), node(&snap, "n-east"));

    assert!(plugin.filter(&state, &p, node(&snap, "n-east")).is_success());
}

#[test]
fn hypothetically_adding_a_pod_creates_skew() {
    let snap = cluster(&[]);
    let p = incoming(constraint(1, true));
    let (plugin, mut state, _) = prefiltered(&p, &snap);

    assert!(plugin.filter(&state, &p, node(&snap, "n-east")).is_success());

    plugin.add_pod(&mut state, &p, &placed("x", "n-east"), node(&snap, "n-east"));

    assert!(!plugin.filter(&state, &p, node(&snap, "n-east")).is_success());
}


#[test]
fn a_pod_with_no_constraints_skips_the_plugin() {
    let snap = cluster(&[("a", "n-east")]);
    let mut p = pod("plain");
    p.namespace = "default".to_string();
    let plugin = PodTopologySpread::default();
    let mut state = CycleState::default();

    let (status, _) = plugin.pre_filter(&mut state, &p, &snap);

    assert!(status.is_skip());
    assert!(state.filter_skipped(NAME));
    assert!(state.score_skipped(NAME));
}

#[test]
fn pod_topology_spread_tests_it_registers_exactly_the_events_that_can_unstick_a_rejected_pod() {
    let events = PodTopologySpread::default().events_to_register();
    let pairs: Vec<(EventResource, ActionType)> =
        events.iter().map(|e| (e.event.resource, e.event.action)).collect();

    assert_eq!(
        pairs,
        vec![
            (
                EventResource::AssignedPod,
                ActionType(ActionType::ADD | ActionType::DELETE | ActionType::UPDATE_POD_LABEL)
            ),
            (
                EventResource::Node,
                ActionType(ActionType::ADD
                    | ActionType::DELETE
                    | ActionType::UPDATE_NODE_LABEL
                    | ActionType::UPDATE_NODE_TAINT)
            ),
        ]
    );
}

#[test]
fn pod_topology_spread_tests_a_node_heartbeat_does_not_wake_a_pod_this_plugin_rejected() {
    let heartbeat = ClusterEvent::new(EventResource::Node, ActionType(ActionType::UPDATE_NODE_CONDITION));
    for reg in PodTopologySpread::default().events_to_register() {
        assert!(!reg.event.matches(&heartbeat));
    }
}


fn workload(ns: &str, app: &str) -> WorkloadSelector {
    WorkloadSelector {
        namespace: ns.to_string(),
        selector: LabelSelector {
            match_labels: Some(strmap(vec![("app".to_string(), app.to_string())])),
            match_expressions: None,
        },
    }
}

fn cluster_with_workloads(
    placements: &[(&str, &str)],
    workloads: &[(&str, WorkloadSelector)],
) -> Snapshot {
    let mut cache = Cache::new();
    cache.upsert_node(&api_node("n-east", "east"));
    cache.upsert_node(&api_node("n-west", "west"));
    cache.upsert_node(&api_node("n-north", "north"));
    for (uid, node) in placements {
        cache.add_pod(placed(uid, node));
    }
    for (key, w) in workloads {
        cache.upsert_workload(key.to_string(), w.clone());
    }
    cache.snapshot()
}

fn bare(name: &str) -> PodInfo {
    let mut p = pod(name);
    p.namespace = "default".to_string();
    p.labels = strmap(vec![("app".to_string(), "web".to_string())]);
    p
}

#[test]
fn a_pod_no_workload_selects_gets_no_default_constraints() {
    let snap = cluster_with_workloads(&[("a", "n-east")], &[]);
    let (_, state, status) = prefiltered(&bare("incoming"), &snap);
    assert!(status.is_skip(), "no selecting workload means no defaults: {status:?}");
    assert!(state.score_skipped(NAME));
}

#[test]
fn a_pod_selected_by_a_workload_gets_the_two_system_defaults() {
    let snap = cluster_with_workloads(&[("a", "n-east")], &[("rs/default/web", workload("default", "web"))]);
    let (_, state, status) = prefiltered(&bare("incoming"), &snap);
    assert!(status.is_success(), "{status:?}");

    let s = state.read::<SpreadState>(NAME).expect("state written");
    let mut keys: Vec<&str> = s.constraints.iter().map(|c| c.topology_key.as_str()).collect();
    keys.sort();
    assert_eq!(keys, vec!["kubernetes.io/hostname", "topology.kubernetes.io/zone"]);

    let zone = s.constraints.iter().find(|c| c.topology_key == ZONE).unwrap();
    let host =
        s.constraints.iter().find(|c| c.topology_key == "kubernetes.io/hostname").unwrap();
    assert_eq!((zone.max_skew, host.max_skew), (3, 5));
}

#[test]
fn the_system_defaults_never_make_a_node_infeasible() {
    let snap = cluster_with_workloads(
        &[("a", "n-east"), ("b", "n-east"), ("c", "n-east"), ("d", "n-east"), ("e", "n-east")],
        &[("rs/default/web", workload("default", "web"))],
    );
    let (plugin, state, status) = prefiltered(&bare("incoming"), &snap);
    assert!(status.is_success(), "{status:?}");
    assert!(
        state.read::<SpreadState>(NAME).unwrap().constraints.iter().all(|c| !c.hard),
        "system defaults are ScheduleAnyway"
    );
    let p = bare("incoming");
    for name in ["n-east", "n-west", "n-north"] {
        assert!(
            plugin.filter(&state, &p, node(&snap, name)).is_success(),
            "{name} must stay feasible under the defaults"
        );
    }
    let east = score(&plugin, &state, node(&snap, "n-east"));
    let west = score(&plugin, &state, node(&snap, "n-west"));
    assert!(east > west, "the crowded zone must score worse pre-normalization: {east} vs {west}");
}

#[test]
fn a_pods_own_constraints_replace_the_defaults_rather_than_adding_to_them() {
    let snap = cluster_with_workloads(&[], &[("rs/default/web", workload("default", "web"))]);
    let (_, state, _) = prefiltered(&incoming(constraint(1, true)), &snap);
    let s = state.read::<SpreadState>(NAME).unwrap();
    assert_eq!(s.constraints.len(), 1, "defaults must not be merged in");
    assert!(s.constraints[0].hard);
}

#[test]
fn several_workloads_selecting_the_same_pod_are_anded() {
    let mut svc = workload("default", "web");
    svc.selector.match_labels =
        Some(strmap(vec![("tier".to_string(), "front".to_string())]));
    let snap = cluster_with_workloads(
        &[],
        &[("rs/default/web", workload("default", "web")), ("svc/default/web", svc)],
    );
    let mut p = bare("incoming");
    p.labels.insert("tier".to_string(), "front".to_string());

    let (_, state, status) = prefiltered(&p, &snap);
    assert!(status.is_success(), "{status:?}");
    let s = state.read::<SpreadState>(NAME).unwrap();
    let sel = s.constraints[0].selector.as_ref().expect("derived selector");
    let labels = sel.match_labels.as_ref().unwrap();
    assert_eq!(labels.get("app").map(String::as_str), Some("web"));
    assert_eq!(labels.get("tier").map(String::as_str), Some("front"));
}

#[test]
fn a_workload_in_another_namespace_does_not_select_the_pod() {
    let snap = cluster_with_workloads(&[], &[("rs/other/web", workload("other", "web"))]);
    let (_, _, status) = prefiltered(&bare("incoming"), &snap);
    assert!(status.is_skip(), "cross-namespace workload must not apply: {status:?}");
}

#[test]
fn defaulting_none_switches_the_whole_thing_off() {
    let snap = cluster_with_workloads(&[], &[("rs/default/web", workload("default", "web"))]);
    let plugin = PodTopologySpread { defaulting: TopologyDefaulting::Off };
    let mut state = CycleState::default();
    let (status, _) = plugin.pre_filter(&mut state, &bare("incoming"), &snap);
    assert!(status.is_skip(), "{status:?}");
}
