use nodescheduler::api::{Node, ObjectMeta};
use nodescheduler::cache::{
    CsiNodeInfo, NodeInfo, PodInfo, PvInfo, PvcInfo, Snapshot, StorageClassInfo,
    VolumeAttachmentInfo,
};
use nodescheduler::events::{ActionType, ClusterEvent, EventResource};
use nodescheduler::framework::plugins::node_volume_limits::{NodeVolumeLimits, NAME};
use nodescheduler::framework::{CycleState, FilterPlugin, Plugin, PreFilterPlugin};
use nodescheduler::maps::StrMap;
use std::sync::Arc;

fn pod(name: &str) -> PodInfo {
    PodInfo { name: name.to_string(), ..Default::default() }
}

/// Builds a snapshot step by step.
struct Cache {
    built: Snapshot,
}

impl Cache {
    fn new() -> Cache {
        Cache { built: Snapshot::default() }
    }

    fn upsert_node(&mut self, n: &Node) {
        let name = n.metadata.name.clone().unwrap();
        if self.built.nodes.iter().any(|known| known.name == name) {
            return;
        }
        let spec = n.spec.clone().unwrap_or_default();
        self.built.nodes.push(Arc::new(NodeInfo {
            name,
            labels: n.metadata.labels.clone().unwrap_or_default(),
            taints: spec.taints.unwrap_or_default(),
            unschedulable: spec.unschedulable.unwrap_or(false),
            allocatable_pods: 110,
            ..Default::default()
        }));
    }

    fn add_pod(&mut self, p: Arc<PodInfo>) {
        let node = p.node_name.clone().unwrap();
        for n in self.built.nodes.iter_mut() {
            if n.name == node {
                Arc::make_mut(n).add_pod(p.clone(), 1);
            }
        }
    }

    fn upsert_pvc(&mut self, key: String, value: PvcInfo) {
        self.built.pvcs.insert(key, value);
    }

    fn upsert_pv(&mut self, key: String, value: PvInfo) {
        self.built.pvs.insert(key, value);
    }

    fn upsert_csi_node(&mut self, key: String, value: CsiNodeInfo) {
        self.built.csi_nodes.insert(key, value);
    }

    fn upsert_storage_class(&mut self, key: String, value: StorageClassInfo) {
        self.built.storage_classes.insert(key, value);
    }

    fn upsert_volume_attachment(&mut self, key: String, value: VolumeAttachmentInfo) {
        self.built.volume_attachments.insert(key, value);
    }

    fn snapshot(&self) -> Snapshot {
        let mut s = self.built.clone();
        s.nodes_with_pods_with_required_anti_affinity = s
            .nodes
            .iter()
            .filter(|n| !n.pods_with_required_anti_affinity.is_empty())
            .cloned()
            .collect();
        s
    }
}

fn api_node(name: &str) -> Node {
    Node { metadata: ObjectMeta { name: Some(name.to_string()), ..Default::default() }, ..Default::default() }
}

fn bound_pvc(namespace: &str, name: &str, pv: &str) -> PvcInfo {
    PvcInfo {
        namespace: namespace.to_string(),
        name: name.to_string(),
        volume_name: Some(pv.to_string()),
        bound: true,
        ..Default::default()
    }
}

fn csi_pv(name: &str, driver: &str) -> PvInfo {
    PvInfo { name: name.to_string(), csi_driver: Some(driver.to_string()), ..Default::default() }
}

fn cluster(csi_node_limit: Option<i32>, placed: &[(&str, Arc<PodInfo>)]) -> Snapshot {
    let mut cache = Cache::new();
    cache.upsert_node(&api_node("n1"));
    let mut drivers = StrMap::new();
    drivers.insert("disk.example.com".to_string(), csi_node_limit);
    cache.upsert_csi_node("n1".to_string(), CsiNodeInfo { drivers });
    for (node_name, p) in placed {
        cache.upsert_node(&api_node(node_name));
        cache.add_pod(p.clone());
    }
    cache.snapshot()
}

fn pod_with_pvc(name: &str, uid: &str, pvc: &str) -> Arc<PodInfo> {
    let mut p = pod(name);
    p.uid = uid.to_string();
    p.namespace = "ns".to_string();
    p.pvc_names = vec![pvc.to_string()];
    p.node_name = Some("n1".to_string());
    Arc::new(p)
}

#[test]
fn a_pod_with_no_csi_volumes_skips_the_filter() {
    let mut state = CycleState::default();
    let (status, _) = NodeVolumeLimits.pre_filter(&mut state, &pod("p"), &Snapshot::default());
    assert!(status.is_skip());
    assert!(state.filter_skipped(NAME));
}

#[test]
fn a_node_under_its_reported_ceiling_admits_the_pod() {
    let mut cache = Cache::new();
    cache.upsert_node(&api_node("n1"));
    let mut drivers = StrMap::new();
    drivers.insert("disk.example.com".to_string(), Some(2));
    cache.upsert_csi_node("n1".to_string(), CsiNodeInfo { drivers });
    cache.upsert_pv("pv-1".to_string(), csi_pv("pv-1", "disk.example.com"));
    cache.upsert_pvc("ns/existing".to_string(), bound_pvc("ns", "existing", "pv-1"));
    cache.add_pod(pod_with_pvc("holder", "uid-holder", "existing"));
    cache.upsert_pv("pv-2".to_string(), csi_pv("pv-2", "disk.example.com"));
    cache.upsert_pvc("ns/newclaim".to_string(), bound_pvc("ns", "newclaim", "pv-2"));

    let incoming = {
        let mut p = pod("incoming");
        p.uid = "uid-incoming".to_string();
        p.namespace = "ns".to_string();
        p.pvc_names = vec!["newclaim".to_string()];
        p
    };

    let snapshot = cache.snapshot();
    let mut state = CycleState::default();
    let (status, _) = NodeVolumeLimits.pre_filter(&mut state, &incoming, &snapshot);
    assert!(status.is_success());
    let n = snapshot.node("n1").unwrap().as_ref().clone();
    assert!(NodeVolumeLimits.filter(&state, &incoming, &n).is_success());
}

#[test]
fn a_node_at_its_reported_ceiling_rejects_one_more() {
    let mut cache = Cache::new();
    cache.upsert_node(&api_node("n1"));
    let mut drivers = StrMap::new();
    drivers.insert("disk.example.com".to_string(), Some(1));
    cache.upsert_csi_node("n1".to_string(), CsiNodeInfo { drivers });
    cache.upsert_pv("pv-1".to_string(), csi_pv("pv-1", "disk.example.com"));
    cache.upsert_pvc("ns/existing".to_string(), bound_pvc("ns", "existing", "pv-1"));
    cache.add_pod(pod_with_pvc("holder", "uid-holder", "existing"));
    cache.upsert_pv("pv-2".to_string(), csi_pv("pv-2", "disk.example.com"));
    cache.upsert_pvc("ns/newclaim".to_string(), bound_pvc("ns", "newclaim", "pv-2"));

    let incoming = {
        let mut p = pod("incoming");
        p.uid = "uid-incoming".to_string();
        p.namespace = "ns".to_string();
        p.pvc_names = vec!["newclaim".to_string()];
        p
    };

    let snapshot = cache.snapshot();
    let mut state = CycleState::default();
    let (status, _) = NodeVolumeLimits.pre_filter(&mut state, &incoming, &snapshot);
    assert!(status.is_success(), "PreFilter itself never rejects — only Filter, per node");

    let n = snapshot.node("n1").unwrap().as_ref().clone();
    let result = NodeVolumeLimits.filter(&state, &incoming, &n);
    assert!(!result.is_success());
    assert!(result.code.is_resolvable_by_preemption());
}

#[test]
fn a_driver_with_no_reported_ceiling_is_unbounded() {
    let snapshot = cluster(None, &[]);
    let mut p = pod("incoming");
    p.namespace = "ns".to_string();
    p.uid = "uid".to_string();
    p.csi_ephemeral_drivers = vec!["disk.example.com".to_string()];

    let mut state = CycleState::default();
    NodeVolumeLimits.pre_filter(&mut state, &p, &snapshot);
    let n = snapshot.node("n1").unwrap().as_ref().clone();
    assert!(NodeVolumeLimits.filter(&state, &p, &n).is_success());
}

#[test]
fn a_node_with_no_csi_node_at_all_enforces_nothing() {
    let mut cache = Cache::new();
    cache.upsert_node(&api_node("bare"));
    let snapshot = cache.snapshot();

    let mut p = pod("incoming");
    p.namespace = "ns".to_string();
    p.uid = "uid".to_string();
    p.csi_ephemeral_drivers = vec!["disk.example.com".to_string()];

    let mut state = CycleState::default();
    NodeVolumeLimits.pre_filter(&mut state, &p, &snapshot);
    let n = snapshot.node("bare").unwrap().as_ref().clone();
    assert!(NodeVolumeLimits.filter(&state, &p, &n).is_success());
}

#[test]
fn it_wakes_on_the_events_that_can_actually_change_the_answer() {
    let events = NodeVolumeLimits.events_to_register();
    let deleted = ClusterEvent::new(EventResource::AssignedPod, ActionType(ActionType::DELETE));
    let pvc_updated = ClusterEvent::new(EventResource::PersistentVolumeClaim, ActionType(ActionType::UPDATE));
    let csi_node_added = ClusterEvent::new(EventResource::CsiNode, ActionType(ActionType::ADD));

    assert!(events.iter().any(|e| e.event.matches(&deleted)));
    assert!(events.iter().any(|e| e.event.matches(&pvc_updated)));
    assert!(events.iter().any(|e| e.event.matches(&csi_node_added)));
}

fn attached_pv(name: &str, handle: &str) -> PvInfo {
    PvInfo {
        name: name.to_string(),
        csi_driver: Some("disk.example.com".to_string()),
        csi_volume_handle: Some(handle.to_string()),
        ..Default::default()
    }
}

fn limited(limit: i32) -> Cache {
    let mut cache = Cache::new();
    cache.upsert_node(&api_node("n1"));
    let mut drivers = StrMap::new();
    drivers.insert("disk.example.com".to_string(), Some(limit));
    cache.upsert_csi_node("n1".to_string(), CsiNodeInfo { drivers });
    cache
}

fn wanting(pvc: &str) -> PodInfo {
    let mut p = pod("incoming");
    p.uid = "uid-incoming".to_string();
    p.namespace = "ns".to_string();
    p.pvc_names = vec![pvc.to_string()];
    p
}

fn fits(cache: &Cache, p: &PodInfo) -> bool {
    let snapshot = cache.snapshot();
    let mut state = CycleState::default();
    NodeVolumeLimits.pre_filter(&mut state, p, &snapshot);
    NodeVolumeLimits.filter(&state, p, snapshot.node("n1").unwrap()).is_success()
}

#[test]
fn one_volume_that_two_pods_mount_takes_one_slot() {
    let mut cache = limited(1);
    cache.upsert_pv("pv-1".to_string(), attached_pv("pv-1", "vol-1"));
    cache.upsert_pvc("ns/shared".to_string(), bound_pvc("ns", "shared", "pv-1"));
    cache.add_pod(pod_with_pvc("holder", "uid-holder", "shared"));
    assert!(fits(&cache, &wanting("shared")));
}

#[test]
fn a_volume_that_lingers_attached_takes_a_slot() {
    let mut cache = limited(1);
    cache.upsert_pv("pv-1".to_string(), attached_pv("pv-1", "vol-1"));
    cache.upsert_pv("pv-2".to_string(), attached_pv("pv-2", "vol-2"));
    cache.upsert_pvc("ns/claim".to_string(), bound_pvc("ns", "claim", "pv-2"));
    assert!(fits(&cache, &wanting("claim")));
    cache.upsert_volume_attachment(
        "att".to_string(),
        VolumeAttachmentInfo {
            pv_name: Some("pv-1".to_string()),
            attacher: "disk.example.com".to_string(),
            node_name: "n1".to_string(),
        },
    );
    assert!(!fits(&cache, &wanting("claim")));
}

#[test]
fn a_claim_that_is_not_bound_counts_for_its_provisioner() {
    let mut cache = limited(0);
    cache.upsert_storage_class(
        "fast".to_string(),
        StorageClassInfo {
            name: "fast".to_string(),
            provisioner: "disk.example.com".to_string(),
            ..Default::default()
        },
    );
    cache.upsert_pvc(
        "ns/claim".to_string(),
        PvcInfo {
            namespace: "ns".to_string(),
            name: "claim".to_string(),
            storage_class_name: Some("fast".to_string()),
            ..Default::default()
        },
    );
    let snapshot = cache.snapshot();
    let p = wanting("claim");
    let mut state = CycleState::default();
    NodeVolumeLimits.pre_filter(&mut state, &p, &snapshot);
    let status = NodeVolumeLimits.filter(&state, &p, snapshot.node("n1").unwrap());
    assert_eq!(
        status.reasons,
        vec!["node(s) exceed max volume count for driver \"disk.example.com\"".to_string()]
    );
}
