use nodescheduler::api::{Node, ObjectMeta};
use nodescheduler::cache::{NodeInfo, PodInfo, PvInfo, PvcInfo, Snapshot};
use nodescheduler::events::{ActionType, ClusterEvent, EventResource};
use nodescheduler::framework::plugins::volume_zone::{VolumeZone, NAME};
use nodescheduler::framework::{CycleState, FilterPlugin, Plugin, PreFilterPlugin};
use nodescheduler::maps::StrMap;
use std::sync::Arc;

fn pod(name: &str) -> PodInfo {
    PodInfo { name: name.to_string(), ..Default::default() }
}

/// Builds a snapshot step by step.
struct Cache {
    built: Snapshot,
}

impl Cache {
    fn new() -> Cache {
        Cache { built: Snapshot::default() }
    }

    fn upsert_node(&mut self, n: &Node) {
        let name = n.metadata.name.clone().unwrap();
        if self.built.nodes.iter().any(|known| known.name == name) {
            return;
        }
        let spec = n.spec.clone().unwrap_or_default();
        self.built.nodes.push(Arc::new(NodeInfo {
            name,
            labels: n.metadata.labels.clone().unwrap_or_default(),
            taints: spec.taints.unwrap_or_default(),
            unschedulable: spec.unschedulable.unwrap_or(false),
            allocatable_pods: 110,
            ..Default::default()
        }));
    }

    fn upsert_pvc(&mut self, key: String, value: PvcInfo) {
        self.built.pvcs.insert(key, value);
    }

    fn upsert_pv(&mut self, key: String, value: PvInfo) {
        self.built.pvs.insert(key, value);
    }

    fn snapshot(&self) -> Snapshot {
        let mut s = self.built.clone();
        s.nodes_with_pods_with_required_anti_affinity = s
            .nodes
            .iter()
            .filter(|n| !n.pods_with_required_anti_affinity.is_empty())
            .cloned()
            .collect();
        s
    }
}

fn api_node(name: &str, zone: Option<&str>) -> Node {
    let labels = zone.map(|z| {
        let mut m = StrMap::new();
        m.insert("topology.kubernetes.io/zone".to_string(), z.to_string());
        m
    });
    Node {
        metadata: ObjectMeta { name: Some(name.to_string()), labels, ..Default::default() },
        ..Default::default()
    }
}

fn zoned_pv(name: &str, zone: &str) -> PvInfo {
    let mut labels = StrMap::new();
    labels.insert("topology.kubernetes.io/zone".to_string(), zone.to_string());
    PvInfo { name: name.to_string(), labels, ..Default::default() }
}

fn bound_pvc(namespace: &str, name: &str, pv: &str) -> PvcInfo {
    PvcInfo {
        namespace: namespace.to_string(),
        name: name.to_string(),
        volume_name: Some(pv.to_string()),
        bound: true,
        ..Default::default()
    }
}

#[test]
fn a_pod_with_no_pvcs_skips_the_filter() {
    let mut state = CycleState::default();
    let (status, _) = VolumeZone.pre_filter(&mut state, &pod("p"), &Snapshot::default());
    assert!(status.is_skip());
    assert!(state.filter_skipped(NAME));
}

#[test]
fn a_pv_with_no_zone_label_imposes_no_restriction() {
    let mut cache = Cache::new();
    cache.upsert_node(&api_node("n1", None));
    cache.upsert_pv("pv-1".to_string(), PvInfo { name: "pv-1".to_string(), ..Default::default() });
    cache.upsert_pvc("ns/claim".to_string(), bound_pvc("ns", "claim", "pv-1"));
    let snapshot = cache.snapshot();

    let mut p = pod("p");
    p.namespace = "ns".to_string();
    p.pvc_names = vec!["claim".to_string()];

    let mut state = CycleState::default();
    VolumeZone.pre_filter(&mut state, &p, &snapshot);
    let n = snapshot.node("n1").unwrap().as_ref().clone();
    assert!(VolumeZone.filter(&state, &p, &n).is_success());
}

#[test]
fn a_node_in_the_pvs_zone_is_admitted() {
    let mut cache = Cache::new();
    cache.upsert_node(&api_node("n1", Some("us-east-1a")));
    cache.upsert_pv("pv-1".to_string(), zoned_pv("pv-1", "us-east-1a"));
    cache.upsert_pvc("ns/claim".to_string(), bound_pvc("ns", "claim", "pv-1"));
    let snapshot = cache.snapshot();

    let mut p = pod("p");
    p.namespace = "ns".to_string();
    p.pvc_names = vec!["claim".to_string()];

    let mut state = CycleState::default();
    VolumeZone.pre_filter(&mut state, &p, &snapshot);
    let n = snapshot.node("n1").unwrap().as_ref().clone();
    assert!(VolumeZone.filter(&state, &p, &n).is_success());
}

#[test]
fn a_node_in_the_wrong_zone_is_rejected_unresolvably() {
    let mut cache = Cache::new();
    cache.upsert_node(&api_node("n1", Some("us-east-1b")));
    cache.upsert_pv("pv-1".to_string(), zoned_pv("pv-1", "us-east-1a"));
    cache.upsert_pvc("ns/claim".to_string(), bound_pvc("ns", "claim", "pv-1"));
    let snapshot = cache.snapshot();

    let mut p = pod("p");
    p.namespace = "ns".to_string();
    p.pvc_names = vec!["claim".to_string()];

    let mut state = CycleState::default();
    VolumeZone.pre_filter(&mut state, &p, &snapshot);
    let n = snapshot.node("n1").unwrap().as_ref().clone();
    let status = VolumeZone.filter(&state, &p, &n);
    assert!(!status.is_success());
    assert!(!status.code.is_resolvable_by_preemption(), "a node's zone never changes");
}

#[test]
fn an_unbound_pvc_has_nothing_to_check_yet() {
    let mut cache = Cache::new();
    cache.upsert_node(&api_node("n1", Some("us-east-1b")));
    cache.upsert_pvc(
        "ns/claim".to_string(),
        PvcInfo { namespace: "ns".to_string(), name: "claim".to_string(), ..Default::default() },
    );
    let snapshot = cache.snapshot();

    let mut p = pod("p");
    p.namespace = "ns".to_string();
    p.pvc_names = vec!["claim".to_string()];

    let mut state = CycleState::default();
    let (status, _) = VolumeZone.pre_filter(&mut state, &p, &snapshot);
    assert!(status.is_skip());
}

#[test]
fn a_multi_zone_pv_label_is_membership_not_equality() {
    let mut cache = Cache::new();
    cache.upsert_node(&api_node("n1", Some("us-east-1b")));
    cache.upsert_pv("pv-1".to_string(), zoned_pv("pv-1", "us-east-1a__us-east-1b"));
    cache.upsert_pvc("ns/claim".to_string(), bound_pvc("ns", "claim", "pv-1"));
    let snapshot = cache.snapshot();

    let mut p = pod("p");
    p.namespace = "ns".to_string();
    p.pvc_names = vec!["claim".to_string()];

    let mut state = CycleState::default();
    VolumeZone.pre_filter(&mut state, &p, &snapshot);
    let n = snapshot.node("n1").unwrap().as_ref().clone();
    assert!(VolumeZone.filter(&state, &p, &n).is_success(), "us-east-1b is one of the PV's member zones");
}

#[test]
fn it_wakes_on_pvc_and_pv_changes() {
    let events = VolumeZone.events_to_register();
    let pvc_updated = ClusterEvent::new(EventResource::PersistentVolumeClaim, ActionType(ActionType::UPDATE));
    let pv_added = ClusterEvent::new(EventResource::PersistentVolume, ActionType(ActionType::ADD));

    assert!(events.iter().any(|e| e.event.matches(&pvc_updated)));
    assert!(events.iter().any(|e| e.event.matches(&pv_added)));
}

#[test]
fn a_region_is_compared_as_it_is() {
    let region = "topology.kubernetes.io/region";
    let verdict = |named: &str, actual: &str| {
        let mut cache = Cache::new();
        let mut node = api_node("n1", None);
        let mut labels = StrMap::new();
        labels.insert(region.to_string(), actual.to_string());
        node.metadata.labels = Some(labels);
        cache.upsert_node(&node);
        let mut pv = PvInfo { name: "pv-1".to_string(), ..Default::default() };
        pv.labels.insert(region.to_string(), named.to_string());
        cache.upsert_pv("pv-1".to_string(), pv);
        cache.upsert_pvc("ns/claim".to_string(), bound_pvc("ns", "claim", "pv-1"));
        let snapshot = cache.snapshot();
        let mut p = pod("p");
        p.namespace = "ns".to_string();
        p.pvc_names = vec!["claim".to_string()];
        let mut state = CycleState::default();
        VolumeZone.pre_filter(&mut state, &p, &snapshot);
        VolumeZone.filter(&state, &p, snapshot.node("n1").unwrap()).is_success()
    };
    assert!(verdict("a__b", "a__b"));
    assert!(!verdict("a__b", "a"));
    assert!(verdict("a", "a"));
}
