use nodescheduler::api::{
    Node, NodeSelector, NodeSelectorRequirement, NodeSelectorTerm, ObjectMeta, OwnerReference,
};
use nodescheduler::cache::{NodeInfo, PodInfo, Snapshot};
use nodescheduler::dra::{
    AllocationResult, BasicDevice, CelSelector, ConsumerReference, Device, DeviceAllocationResult,
    DeviceAttribute, DeviceCapacity, DeviceClaim, DeviceClass, DeviceClassSpec, DeviceConstraint,
    DeviceRequest, DeviceRequestAllocationResult, DeviceSelector, DeviceSubRequest,
    ExactDeviceRequest, PodClaimRef, ResourceClaim, ResourceClaimSpec, ResourceClaimStatus,
    ResourcePool, ResourceSlice, ResourceSliceSpec,
};
use nodescheduler::events::{ActionType, EventResource};
use nodescheduler::framework::plugins::allocation::{
    constraint_applies, lookup_attribute, CelAttr, DeviceId,
};
use nodescheduler::framework::plugins::dynamic_resources::{
    cel_device, claim_key_parts, committed_status, events_impl, filter_impl, post_filter_impl,
    pre_enqueue_impl, pre_filter_impl, AssumedClaim, AssumedDevices, ClaimPlan, DynamicResources,
    WantedClaims, NAME,
};
use nodescheduler::framework::status::{Code, NodeToStatus};
use nodescheduler::framework::{CycleState, PostFilterPlugin, PreFilterPlugin, ReservePlugin};
use nodescheduler::maps::StrMap;
use std::sync::Arc;

fn pod(name: &str) -> PodInfo {
    PodInfo { name: name.to_string(), ..Default::default() }
}

fn strmap<V>(entries: Vec<(String, V)>) -> StrMap<V> {
    let mut m = StrMap::new();
    for (k, v) in entries {
        m.insert(k, v);
    }
    m
}

fn some_arc<T>(list: Vec<T>) -> Option<Arc<Vec<T>>> {
    Some(Arc::new(list))
}

/// Builds a snapshot step by step.
struct Cache {
    built: Snapshot,
}

impl Cache {
    fn new() -> Cache {
        Cache { built: Snapshot::default() }
    }

    fn upsert_node(&mut self, n: &Node) {
        let name = n.metadata.name.clone().unwrap();
        if self.built.nodes.iter().any(|known| known.name == name) {
            return;
        }
        let spec = n.spec.clone().unwrap_or_default();
        self.built.nodes.push(Arc::new(NodeInfo {
            name,
            labels: n.metadata.labels.clone().unwrap_or_default(),
            taints: spec.taints.unwrap_or_default(),
            unschedulable: spec.unschedulable.unwrap_or(false),
            allocatable_pods: 110,
            ..Default::default()
        }));
    }

    fn upsert_device_class(&mut self, key: String, value: DeviceClass) {
        self.built.device_classes.insert(key, value);
    }

    fn upsert_resource_slice(&mut self, key: String, value: ResourceSlice) {
        self.built.resource_slices.insert(key, value);
    }

    fn upsert_resource_claim(&mut self, key: String, value: ResourceClaim) {
        self.built.resource_claims.insert(key, value);
    }

    fn snapshot(&self) -> Snapshot {
        let mut s = self.built.clone();
        s.nodes_with_pods_with_required_anti_affinity = s
            .nodes
            .iter()
            .filter(|n| !n.pods_with_required_anti_affinity.is_empty())
            .cloned()
            .collect();
        s
    }
}

fn api_node(name: &str) -> Node {
    Node { metadata: ObjectMeta { name: Some(name.to_string()), ..Default::default() }, ..Default::default() }
}

fn claim_meta(namespace: &str, name: &str) -> ObjectMeta {
    ObjectMeta { name: Some(name.to_string()), namespace: Some(namespace.to_string()), ..Default::default() }
}

fn class_with_cel(name: &str, expr: &str) -> DeviceClass {
    DeviceClass {
        metadata: ObjectMeta { name: Some(name.to_string()), ..Default::default() },
        spec: DeviceClassSpec {
            selectors: Some(vec![DeviceSelector { cel: Some(CelSelector { expression: expr.to_string() }) }]),
        },
    }
}

fn unbound_claim(namespace: &str, name: &str, class: &str, count: i64) -> ResourceClaim {
    ResourceClaim {
        metadata: claim_meta(namespace, name),
        spec: ResourceClaimSpec {
            devices: Some(DeviceClaim {
                requests: Some(vec![DeviceRequest {
                    name: "req".to_string(),
                    exactly: Some(ExactDeviceRequest {
                        device_class_name: Some(class.to_string()),
                        selectors: None,
                        allocation_mode: None,
                        count: Some(count),
                        admin_access: None,
                    }),
                    first_available: None,
                }]),
                constraints: None,
            }),
        },
        status: None,
    }
}

fn slice_with_devices(driver: &str, node: &str, device_names: &[&str]) -> ResourceSlice {
    ResourceSlice {
        metadata: ObjectMeta { name: Some(format!("{driver}-{node}")), ..Default::default() },
        spec: ResourceSliceSpec {
            driver: driver.to_string(),
            pool: ResourcePool { name: node.to_string(), generation: Some(1), resource_slice_count: Some(1) },
            node_name: Some(node.to_string()),
            all_nodes: None,
            node_selector: None,
            per_device_node_selection: None,
            devices: Some(
                device_names
                    .iter()
                    .map(|n| Device {
                        name: n.to_string(),
                        basic: Arc::new(BasicDevice { attributes: None, capacity: None, ..Default::default() }),
                    })
                    .collect(),
            ),
        },
    }
}

fn pod_with_claim(namespace: &str, pod_claim_name: &str, claim_name: &str) -> PodInfo {
    let mut p = pod("p");
    p.namespace = namespace.to_string();
    p.uid = "uid-p".to_string();
    p.resource_claims = vec![PodClaimRef {
        name: pod_claim_name.to_string(),
        resource_claim_name: Some(claim_name.to_string()),
        resource_claim_template_name: None,
    }];
    p
}

fn pod_with_claims(namespace: &str, claims: &[(&str, &str)]) -> PodInfo {
    let mut p = pod("p");
    p.namespace = namespace.to_string();
    p.uid = "uid-p".to_string();
    p.resource_claims = claims
        .iter()
        .map(|(pod_claim_name, claim_name)| PodClaimRef {
            name: (*pod_claim_name).to_string(),
            resource_claim_name: Some((*claim_name).to_string()),
            resource_claim_template_name: None,
        })
        .collect();
    p
}

fn no_excluded() -> Vec<DeviceId> {
    Vec::new()
}

#[test]
fn a_pod_with_no_claims_skips_the_plugin() {
    let mut state = CycleState::default();
    let (status, _) = pre_filter_impl(&mut state, &pod("p"), &Snapshot::default(), &no_excluded());
    assert!(status.is_skip());
    assert!(state.filter_skipped(NAME));
}

#[test]
fn a_claim_with_a_satisfiable_class_selector_is_allocated_on_a_matching_node() {
    let mut cache = Cache::new();
    cache.upsert_node(&api_node("n1"));
    cache.upsert_device_class("gpu.example.com".to_string(), class_with_cel("gpu.example.com", "device.driver == \"gpu.example.com\""));
    cache.upsert_resource_slice("s1".to_string(), slice_with_devices("gpu.example.com", "n1", &["gpu-0"]));
    cache.upsert_resource_claim(
        "ns/claim".to_string(),
        unbound_claim("ns", "claim", "gpu.example.com", 1),
    );
    let snapshot = cache.snapshot();

    let p = pod_with_claim("ns", "gpu", "claim");
    let mut state = CycleState::default();
    let (status, _) = pre_filter_impl(&mut state, &p, &snapshot, &no_excluded());
    assert!(status.is_success());

    let n = snapshot.node("n1").unwrap().as_ref().clone();
    assert!(filter_impl(&state, &p, &n).is_success());
}

#[test]
fn a_claim_whose_class_selector_matches_nothing_is_rejected() {
    let mut cache = Cache::new();
    cache.upsert_node(&api_node("n1"));
    cache.upsert_device_class(
        "gpu.example.com".to_string(),
        class_with_cel("gpu.example.com", "device.driver == \"nonexistent.example.com\""),
    );
    cache.upsert_resource_slice("s1".to_string(), slice_with_devices("gpu.example.com", "n1", &["gpu-0"]));
    cache.upsert_resource_claim(
        "ns/claim".to_string(),
        unbound_claim("ns", "claim", "gpu.example.com", 1),
    );
    let snapshot = cache.snapshot();

    let p = pod_with_claim("ns", "gpu", "claim");
    let mut state = CycleState::default();
    pre_filter_impl(&mut state, &p, &snapshot, &no_excluded());

    let n = snapshot.node("n1").unwrap().as_ref().clone();
    assert!(!filter_impl(&state, &p, &n).is_success());
}

#[test]
fn a_request_for_more_devices_than_exist_is_rejected() {
    let mut cache = Cache::new();
    cache.upsert_node(&api_node("n1"));
    cache.upsert_device_class("gpu.example.com".to_string(), class_with_cel("gpu.example.com", "device.driver == \"gpu.example.com\""));
    cache.upsert_resource_slice("s1".to_string(), slice_with_devices("gpu.example.com", "n1", &["gpu-0"]));
    cache.upsert_resource_claim(
        "ns/claim".to_string(),
        unbound_claim("ns", "claim", "gpu.example.com", 2),
    );
    let snapshot = cache.snapshot();

    let p = pod_with_claim("ns", "gpu", "claim");
    let mut state = CycleState::default();
    pre_filter_impl(&mut state, &p, &snapshot, &no_excluded());

    let n = snapshot.node("n1").unwrap().as_ref().clone();
    assert!(!filter_impl(&state, &p, &n).is_success());
}

#[test]
fn allocation_backtracks_when_an_early_valid_pick_is_needed_by_a_later_request() {
    let mut cache = Cache::new();
    cache.upsert_node(&api_node("n1"));
    cache.upsert_device_class("broad".to_string(), class_with_cel("broad", "true"));
    cache.upsert_device_class(
        "narrow".to_string(),
        class_with_cel(
            "narrow",
            r#"device.attributes["gpu.example.com"].kind == "narrow""#,
        ),
    );

    let mut slice = slice_with_devices("gpu.example.com", "n1", &["only-narrow", "broad-only"]);
    let devices = slice.spec.devices.as_mut().unwrap();
    Arc::make_mut(&mut devices[0].basic).attributes = Some(strmap(vec![(
        "kind".to_string(),
        DeviceAttribute {
            bool: None,
            int: None,
            string: Some("narrow".to_string()),
            version: None,
        },
    )]));
    Arc::make_mut(&mut devices[1].basic).attributes = Some(strmap(vec![(
        "kind".to_string(),
        DeviceAttribute {
            bool: None,
            int: None,
            string: Some("broad".to_string()),
            version: None,
        },
    )]));
    cache.upsert_resource_slice("s1".to_string(), slice);

    let exact = |name: &str, class: &str| DeviceRequest {
        name: name.to_string(),
        exactly: Some(ExactDeviceRequest {
            device_class_name: Some(class.to_string()),
            selectors: None,
            allocation_mode: None,
            count: Some(1),
            admin_access: None,
        }),
        first_available: None,
    };
    let claim = ResourceClaim {
        metadata: claim_meta("ns", "claim"),
        spec: ResourceClaimSpec {
            devices: Some(DeviceClaim {
                requests: Some(vec![exact("broad", "broad"), exact("narrow", "narrow")]),
                constraints: None,
            }),
        },
        status: None,
    };
    cache.upsert_resource_claim("ns/claim".to_string(), claim);
    let snapshot = cache.snapshot();

    let p = pod_with_claim("ns", "gpu", "claim");
    let mut state = CycleState::default();
    let (status, _) = pre_filter_impl(&mut state, &p, &snapshot, &no_excluded());
    assert!(status.is_success());
    assert!(filter_impl(&state, &p, snapshot.node("n1").unwrap()).is_success());

    let wanted = state.read::<WantedClaims>(NAME).unwrap();
    let ClaimPlan::Allocate { by_node, .. } = &wanted.0[0] else { panic!("expected allocation") };
    let allocation = by_node.get("n1").unwrap();
    assert_eq!(allocation[0].device, "broad-only");
    assert_eq!(allocation[1].device, "only-narrow");
}

#[test]
fn allocation_is_exclusive_and_backtracks_across_separate_claims() {
    let mut cache = Cache::new();
    cache.upsert_node(&api_node("n1"));
    cache.upsert_device_class("broad".to_string(), class_with_cel("broad", "true"));
    cache.upsert_device_class(
        "narrow".to_string(),
        class_with_cel(
            "narrow",
            r#"device.attributes["gpu.example.com"].kind == "narrow""#,
        ),
    );

    let mut slice =
        slice_with_devices("gpu.example.com", "n1", &["only-narrow", "broad-only"]);
    Arc::make_mut(&mut slice.spec.devices.as_mut().unwrap()[0].basic).attributes = Some(
        strmap(vec![(
            "kind".to_string(),
            DeviceAttribute {
                bool: None,
                int: None,
                string: Some("narrow".to_string()),
                version: None,
            },
        )]),
    );
    Arc::make_mut(&mut slice.spec.devices.as_mut().unwrap()[1].basic).attributes = Some(
        strmap(vec![(
            "kind".to_string(),
            DeviceAttribute {
                bool: None,
                int: None,
                string: Some("broad".to_string()),
                version: None,
            },
        )]),
    );
    cache.upsert_resource_slice("s1".to_string(), slice);
    cache.upsert_resource_claim(
        "ns/broad-claim".to_string(),
        unbound_claim("ns", "broad-claim", "broad", 1),
    );
    cache.upsert_resource_claim(
        "ns/narrow-claim".to_string(),
        unbound_claim("ns", "narrow-claim", "narrow", 1),
    );

    let snapshot = cache.snapshot();
    let p = pod_with_claims(
        "ns",
        &[("broad", "broad-claim"), ("narrow", "narrow-claim")],
    );
    let mut state = CycleState::default();
    let (status, _) = pre_filter_impl(&mut state, &p, &snapshot, &no_excluded());
    assert!(status.is_success());
    assert!(filter_impl(&state, &p, snapshot.node("n1").unwrap()).is_success());

    let wanted = state.read::<WantedClaims>(NAME).unwrap();
    let ClaimPlan::Allocate { by_node: broad, .. } = &wanted.0[0] else {
        panic!("expected Allocate")
    };
    let ClaimPlan::Allocate { by_node: narrow, .. } = &wanted.0[1] else {
        panic!("expected Allocate")
    };
    assert_eq!(broad.get("n1").unwrap()[0].device, "broad-only");
    assert_eq!(narrow.get("n1").unwrap()[0].device, "only-narrow");
}

#[test]
fn two_separate_claims_cannot_receive_the_same_exclusive_device() {
    let mut cache = Cache::new();
    cache.upsert_node(&api_node("n1"));
    cache.upsert_device_class("gpu".to_string(), class_with_cel("gpu", "true"));
    cache.upsert_resource_slice(
        "s1".to_string(),
        slice_with_devices("gpu.example.com", "n1", &["only-device"]),
    );
    cache.upsert_resource_claim(
        "ns/claim-a".to_string(),
        unbound_claim("ns", "claim-a", "gpu", 1),
    );
    cache.upsert_resource_claim(
        "ns/claim-b".to_string(),
        unbound_claim("ns", "claim-b", "gpu", 1),
    );

    let snapshot = cache.snapshot();
    let p = pod_with_claims("ns", &[("a", "claim-a"), ("b", "claim-b")]);
    let mut state = CycleState::default();
    pre_filter_impl(&mut state, &p, &snapshot, &no_excluded());
    assert!(
        !filter_impl(&state, &p, snapshot.node("n1").unwrap()).is_success(),
        "one exclusive device cannot satisfy two claims from the same pod"
    );
}

#[test]
fn a_template_claim_must_be_controlled_by_the_pod_that_references_it() {
    let mut cache = Cache::new();
    cache.upsert_node(&api_node("n1"));
    cache.upsert_device_class("gpu".to_string(), class_with_cel("gpu", "true"));
    cache.upsert_resource_slice(
        "s1".to_string(),
        slice_with_devices("gpu.example.com", "n1", &["gpu-0"]),
    );
    let mut claim = unbound_claim("ns", "generated", "gpu", 1);
    claim.metadata.owner_references = Some(vec![OwnerReference {
        api_version: "v1".to_string(),
        kind: "Pod".to_string(),
        name: "some-other-pod".to_string(),
        uid: "some-other-uid".to_string(),
        controller: Some(true),
        block_owner_deletion: None,
    }]);
    cache.upsert_resource_claim("ns/generated".to_string(), claim);

    let snapshot = cache.snapshot();
    let mut p = pod_with_claim("ns", "gpu", "generated");
    p.resource_claims[0].resource_claim_name = None;
    p.resource_claims[0].resource_claim_template_name = Some("gpu-template".to_string());
    p.resource_claim_statuses
        .insert("gpu".to_string(), Some("generated".to_string()));
    let mut state = CycleState::default();
    let (status, _) = pre_filter_impl(&mut state, &p, &snapshot, &no_excluded());

    assert_eq!(
        status.code,
        Code::UnschedulableAndUnresolvable
    );
    assert!(status.reasons[0].contains("pod is not owner"));
}

#[test]
fn a_device_already_assumed_by_another_pods_cycle_is_excluded() {
    let mut cache = Cache::new();
    cache.upsert_node(&api_node("n1"));
    cache.upsert_device_class("gpu.example.com".to_string(), class_with_cel("gpu.example.com", "device.driver == \"gpu.example.com\""));
    cache.upsert_resource_slice("s1".to_string(), slice_with_devices("gpu.example.com", "n1", &["gpu-0"]));
    cache.upsert_resource_claim(
        "ns/claim".to_string(),
        unbound_claim("ns", "claim", "gpu.example.com", 1),
    );
    let snapshot = cache.snapshot();

    let mut excluded = Vec::new();
    excluded.push(("gpu.example.com".to_string(), "n1".to_string(), "gpu-0".to_string()));

    let p = pod_with_claim("ns", "gpu", "claim");
    let mut state = CycleState::default();
    pre_filter_impl(&mut state, &p, &snapshot, &excluded);

    let n = snapshot.node("n1").unwrap().as_ref().clone();
    assert!(!filter_impl(&state, &p, &n).is_success(), "the only device is already assumed elsewhere");
}

#[test]
fn a_device_attribute_selector_filters_correctly() {
    let mut cache = Cache::new();
    cache.upsert_node(&api_node("n1"));
    cache.upsert_device_class("gpu.example.com".to_string(), class_with_cel("gpu.example.com", "device.driver == \"gpu.example.com\""));
    let mut slice = slice_with_devices("gpu.example.com", "n1", &["big", "small"]);
    if let Some(devices) = &mut slice.spec.devices {
        let mut attrs = StrMap::new();
        attrs.insert("size".to_string(), DeviceAttribute { bool: None, int: None, string: Some("big".to_string()), version: None });
        devices[0].basic = Arc::new(BasicDevice { attributes: Some(attrs), capacity: None, ..Default::default() });
        let mut attrs2 = StrMap::new();
        attrs2.insert("size".to_string(), DeviceAttribute { bool: None, int: None, string: Some("small".to_string()), version: None });
        devices[1].basic = Arc::new(BasicDevice { attributes: Some(attrs2), capacity: None, ..Default::default() });
    }
    cache.upsert_resource_slice("s1".to_string(), slice);

    let mut claim = unbound_claim("ns", "claim", "gpu.example.com", 1);
    if let Some(devices) = &mut claim.spec.devices {
        if let Some(requests) = &mut devices.requests {
            if let Some(exactly) = &mut requests[0].exactly {
                exactly.selectors = Some(vec![DeviceSelector {
                    cel: Some(CelSelector {
                        expression: "device.attributes[\"gpu.example.com\"].size == \"big\"".to_string(),
                    }),
                }]);
            }
        }
    }
    cache.upsert_resource_claim("ns/claim".to_string(), claim);
    let snapshot = cache.snapshot();

    let p = pod_with_claim("ns", "gpu", "claim");
    let mut state = CycleState::default();
    pre_filter_impl(&mut state, &p, &snapshot, &no_excluded());
    let n = snapshot.node("n1").unwrap().as_ref().clone();
    assert!(filter_impl(&state, &p, &n).is_success(), "exactly one device (\"big\") should satisfy the selector");
}

#[test]
fn a_capacity_selector_uses_exact_quantity_arithmetic() {
    let mut cache = Cache::new();
    cache.upsert_node(&api_node("n1"));
    cache.upsert_device_class("gpu.example.com".to_string(), class_with_cel("gpu.example.com", "true"));
    let mut slice = slice_with_devices("gpu.example.com", "n1", &["precise"]);
    Arc::make_mut(&mut slice.spec.devices.as_mut().unwrap()[0].basic).capacity = Some(
        strmap(vec![(
            "memory".to_string(),
            DeviceCapacity {
                value: "9007199254740993".to_string(),
            },
        )]),
    );
    cache.upsert_resource_slice("s1".to_string(), slice);

    let mut claim = unbound_claim("ns", "claim", "gpu.example.com", 1);
    claim.spec.devices.as_mut().unwrap().requests.as_mut().unwrap()[0]
        .exactly.as_mut().unwrap().selectors = Some(vec![DeviceSelector {
            cel: Some(CelSelector {
                expression: r#"device.capacity["gpu.example.com"].memory.isGreaterThan(quantity("9007199254740992"))"#.to_string(),
            }),
        }]);
    cache.upsert_resource_claim("ns/claim".to_string(), claim);
    let snapshot = cache.snapshot();

    let p = pod_with_claim("ns", "gpu", "claim");
    let mut state = CycleState::default();
    pre_filter_impl(&mut state, &p, &snapshot, &no_excluded());
    assert!(filter_impl(&state, &p, snapshot.node("n1").unwrap()).is_success());
}

#[test]
fn a_bound_claim_already_reserved_for_this_pod_needs_nothing_further() {
    let mut cache = Cache::new();
    cache.upsert_node(&api_node("n1"));
    let mut claim = unbound_claim("ns", "claim", "gpu.example.com", 1);
    claim.status = Some(ResourceClaimStatus {
        allocation: Some(AllocationResult { devices: None, node_selector: None }),
        reserved_for: Some(vec![ConsumerReference {
            api_group: None,
            resource: "pods".to_string(),
            name: "p".to_string(),
            uid: "uid-p".to_string(),
        }]),
    });
    cache.upsert_resource_claim("ns/claim".to_string(), claim);
    let snapshot = cache.snapshot();

    let p = pod_with_claim("ns", "gpu", "claim");
    let mut state = CycleState::default();
    let (status, _) = pre_filter_impl(&mut state, &p, &snapshot, &no_excluded());
    assert!(status.is_success());

    let n = snapshot.node("n1").unwrap().as_ref().clone();
    assert!(filter_impl(&state, &p, &n).is_success());
}

#[test]
fn admin_access_lets_two_claims_share_the_same_device() {
    let mut cache = Cache::new();
    cache.upsert_node(&api_node("n1"));
    cache.upsert_device_class(
        "gpu.example.com".to_string(),
        class_with_cel("gpu.example.com", "device.driver == \"gpu.example.com\""),
    );
    cache.upsert_resource_slice("s1".to_string(), slice_with_devices("gpu.example.com", "n1", &["gpu-0"]));

    let mut admin_claim = unbound_claim("ns", "admin-claim", "gpu.example.com", 1);
    if let Some(devices) = &mut admin_claim.spec.devices {
        if let Some(requests) = &mut devices.requests {
            if let Some(exactly) = &mut requests[0].exactly {
                exactly.admin_access = Some(true);
            }
        }
    }
    cache.upsert_resource_claim("ns/admin-claim".to_string(), admin_claim);

    let mut excluded = Vec::new();
    excluded.push(("gpu.example.com".to_string(), "n1".to_string(), "gpu-0".to_string()));

    let p = pod_with_claim("ns", "gpu", "admin-claim");
    let mut state = CycleState::default();
    let (status, _) = pre_filter_impl(&mut state, &p, &cache.snapshot(), &excluded);
    assert!(status.is_success());
    let n = cache.snapshot().node("n1").unwrap().as_ref().clone();
    assert!(filter_impl(&state, &p, &n).is_success(), "adminAccess must not be blocked by another claim's ordinary exclusive hold");
}

#[test]
fn allocation_mode_all_takes_every_matching_device() {
    let mut cache = Cache::new();
    cache.upsert_node(&api_node("n1"));
    cache.upsert_device_class("gpu.example.com".to_string(), class_with_cel("gpu.example.com", "device.driver == \"gpu.example.com\""));
    cache.upsert_resource_slice("s1".to_string(), slice_with_devices("gpu.example.com", "n1", &["gpu-0", "gpu-1"]));

    let mut claim = unbound_claim("ns", "claim", "gpu.example.com", 1);
    if let Some(devices) = &mut claim.spec.devices {
        if let Some(requests) = &mut devices.requests {
            if let Some(exactly) = &mut requests[0].exactly {
                exactly.allocation_mode = Some("All".to_string());
                exactly.count = None;
            }
        }
    }
    cache.upsert_resource_claim("ns/claim".to_string(), claim);
    let snapshot = cache.snapshot();

    let p = pod_with_claim("ns", "gpu", "claim");
    let mut state = CycleState::default();
    let (status, _) = pre_filter_impl(&mut state, &p, &snapshot, &no_excluded());
    assert!(status.is_success());
    let n = snapshot.node("n1").unwrap().as_ref().clone();
    assert!(filter_impl(&state, &p, &n).is_success());

    let wanted = state.read::<WantedClaims>(NAME).unwrap();
    let ClaimPlan::Allocate { by_node, .. } = &wanted.0[0] else { panic!("expected Allocate") };
    assert_eq!(by_node.get("n1").unwrap().len(), 2, "'All' must take every matching device, not just one");
}

#[test]
fn allocation_mode_all_fails_when_nothing_matches() {
    let mut cache = Cache::new();
    cache.upsert_node(&api_node("n1"));
    cache.upsert_device_class(
        "gpu.example.com".to_string(),
        class_with_cel("gpu.example.com", "device.driver == \"nonexistent.example.com\""),
    );
    cache.upsert_resource_slice("s1".to_string(), slice_with_devices("gpu.example.com", "n1", &["gpu-0"]));
    let mut claim = unbound_claim("ns", "claim", "gpu.example.com", 1);
    if let Some(devices) = &mut claim.spec.devices {
        if let Some(requests) = &mut devices.requests {
            if let Some(exactly) = &mut requests[0].exactly {
                exactly.allocation_mode = Some("All".to_string());
                exactly.count = None;
            }
        }
    }
    cache.upsert_resource_claim("ns/claim".to_string(), claim);
    let snapshot = cache.snapshot();

    let p = pod_with_claim("ns", "gpu", "claim");
    let mut state = CycleState::default();
    pre_filter_impl(&mut state, &p, &snapshot, &no_excluded());
    let n = snapshot.node("n1").unwrap().as_ref().clone();
    assert!(!filter_impl(&state, &p, &n).is_success(), "'All' with zero matches must not trivially succeed");
}

#[test]
fn allocation_mode_all_fails_when_one_of_the_matching_devices_is_busy() {
    let mut cache = Cache::new();
    cache.upsert_node(&api_node("n1"));
    cache.upsert_device_class("gpu.example.com".to_string(), class_with_cel("gpu.example.com", "true"));
    cache.upsert_resource_slice(
        "s1".to_string(),
        slice_with_devices("gpu.example.com", "n1", &["gpu-0", "gpu-1"]),
    );
    let mut claim = unbound_claim("ns", "claim", "gpu.example.com", 1);
    claim.spec.devices.as_mut().unwrap().requests.as_mut().unwrap()[0]
        .exactly.as_mut().unwrap().allocation_mode = Some("All".to_string());
    cache.upsert_resource_claim("ns/claim".to_string(), claim);
    let snapshot = cache.snapshot();
    let mut excluded = no_excluded();
    excluded.push(("gpu.example.com".to_string(), "n1".to_string(), "gpu-0".to_string()));

    let p = pod_with_claim("ns", "gpu", "claim");
    let mut state = CycleState::default();
    pre_filter_impl(&mut state, &p, &snapshot, &excluded);
    assert!(
        !filter_impl(&state, &p, snapshot.node("n1").unwrap()).is_success(),
        "All means every matching device, not every matching device that happens to be free"
    );
}

#[test]
fn first_available_falls_through_to_a_later_subrequest() {
    let mut cache = Cache::new();
    cache.upsert_node(&api_node("n1"));
    cache.upsert_device_class("gpu.example.com".to_string(), class_with_cel("gpu.example.com", "device.driver == \"gpu.example.com\""));
    cache.upsert_resource_slice("s1".to_string(), slice_with_devices("gpu.example.com", "n1", &["gpu-0"]));

    let claim = ResourceClaim {
        metadata: claim_meta("ns", "claim"),
        spec: ResourceClaimSpec {
            devices: Some(DeviceClaim {
                requests: Some(vec![DeviceRequest {
                    name: "req".to_string(),
                    exactly: None,
                    first_available: Some(vec![
                        DeviceSubRequest {
                            name: "primary".to_string(),
                            device_class_name: Some("nonexistent-class".to_string()),
                            selectors: None,
                            allocation_mode: None,
                            count: Some(1),
                        },
                        DeviceSubRequest {
                            name: "fallback".to_string(),
                            device_class_name: Some("gpu.example.com".to_string()),
                            selectors: None,
                            allocation_mode: None,
                            count: Some(1),
                        },
                    ]),
                }]),
                constraints: None,
            }),
        },
        status: None,
    };
    cache.upsert_resource_claim("ns/claim".to_string(), claim);
    let snapshot = cache.snapshot();

    let p = pod_with_claim("ns", "gpu", "claim");
    let mut state = CycleState::default();
    let (status, _) = pre_filter_impl(&mut state, &p, &snapshot, &no_excluded());
    assert!(status.is_success());
    let n = snapshot.node("n1").unwrap().as_ref().clone();
    assert!(filter_impl(&state, &p, &n).is_success());

    let wanted = state.read::<WantedClaims>(NAME).unwrap();
    let ClaimPlan::Allocate { by_node, .. } = &wanted.0[0] else { panic!("expected Allocate") };
    assert_eq!(by_node.get("n1").unwrap()[0].request, "req/fallback", "the fallback subrequest's own name must be recorded");
}

#[test]
fn a_match_attribute_constraint_rejects_a_device_set_with_different_values() {
    let mut cache = Cache::new();
    cache.upsert_node(&api_node("n1"));
    cache.upsert_device_class("gpu.example.com".to_string(), class_with_cel("gpu.example.com", "device.driver == \"gpu.example.com\""));
    let mut slice = slice_with_devices("gpu.example.com", "n1", &["gpu-0", "gpu-1"]);
    if let Some(devices) = &mut slice.spec.devices {
        for (i, numa) in [("gpu-0", "0"), ("gpu-1", "1")] {
            let d = devices.iter_mut().find(|d| d.name == i).unwrap();
            let mut attrs = StrMap::new();
            attrs.insert("numa".to_string(), DeviceAttribute { bool: None, int: None, string: Some(numa.to_string()), version: None });
            Arc::make_mut(&mut d.basic).attributes = Some(attrs);
        }
    }
    cache.upsert_resource_slice("s1".to_string(), slice);

    let claim = ResourceClaim {
        metadata: claim_meta("ns", "claim"),
        spec: ResourceClaimSpec {
            devices: Some(DeviceClaim {
                requests: Some(vec![
                    DeviceRequest {
                        name: "a".to_string(),
                        exactly: Some(ExactDeviceRequest {
                            device_class_name: Some("gpu.example.com".to_string()),
                            selectors: None,
                            allocation_mode: None,
                            count: Some(1),
                            admin_access: None,
                        }),
                        first_available: None,
                    },
                    DeviceRequest {
                        name: "b".to_string(),
                        exactly: Some(ExactDeviceRequest {
                            device_class_name: Some("gpu.example.com".to_string()),
                            selectors: None,
                            allocation_mode: None,
                            count: Some(1),
                            admin_access: None,
                        }),
                        first_available: None,
                    },
                ]),
                constraints: some_arc(vec![DeviceConstraint {
                    match_attribute: Some("gpu.example.com/numa".to_string()),
                    requests: vec![],
                }]),
            }),
        },
        status: None,
    };
    cache.upsert_resource_claim("ns/claim".to_string(), claim);
    let snapshot = cache.snapshot();

    let p = pod_with_claim("ns", "gpu", "claim");
    let mut state = CycleState::default();
    pre_filter_impl(&mut state, &p, &snapshot, &no_excluded());
    let n = snapshot.node("n1").unwrap().as_ref().clone();
    assert!(
        !filter_impl(&state, &p, &n).is_success(),
        "request a takes gpu-0 (numa=0); request b's only remaining device gpu-1 (numa=1) violates the constraint"
    );
}

#[test]
fn a_match_attribute_constraint_admits_a_consistent_device_set() {
    let mut cache = Cache::new();
    cache.upsert_node(&api_node("n1"));
    cache.upsert_device_class("gpu.example.com".to_string(), class_with_cel("gpu.example.com", "device.driver == \"gpu.example.com\""));
    let mut slice = slice_with_devices("gpu.example.com", "n1", &["gpu-0", "gpu-1"]);
    if let Some(devices) = &mut slice.spec.devices {
        for name in ["gpu-0", "gpu-1"] {
            let d = devices.iter_mut().find(|d| d.name == name).unwrap();
            let mut attrs = StrMap::new();
            attrs.insert("numa".to_string(), DeviceAttribute { bool: None, int: None, string: Some("0".to_string()), version: None });
            Arc::make_mut(&mut d.basic).attributes = Some(attrs);
        }
    }
    cache.upsert_resource_slice("s1".to_string(), slice);

    let claim = ResourceClaim {
        metadata: claim_meta("ns", "claim"),
        spec: ResourceClaimSpec {
            devices: Some(DeviceClaim {
                requests: Some(vec![
                    DeviceRequest {
                        name: "a".to_string(),
                        exactly: Some(ExactDeviceRequest {
                            device_class_name: Some("gpu.example.com".to_string()),
                            selectors: None,
                            allocation_mode: None,
                            count: Some(1),
                            admin_access: None,
                        }),
                        first_available: None,
                    },
                    DeviceRequest {
                        name: "b".to_string(),
                        exactly: Some(ExactDeviceRequest {
                            device_class_name: Some("gpu.example.com".to_string()),
                            selectors: None,
                            allocation_mode: None,
                            count: Some(1),
                            admin_access: None,
                        }),
                        first_available: None,
                    },
                ]),
                constraints: some_arc(vec![DeviceConstraint {
                    match_attribute: Some("gpu.example.com/numa".to_string()),
                    requests: vec![],
                }]),
            }),
        },
        status: None,
    };
    cache.upsert_resource_claim("ns/claim".to_string(), claim);
    let snapshot = cache.snapshot();

    let p = pod_with_claim("ns", "gpu", "claim");
    let mut state = CycleState::default();
    pre_filter_impl(&mut state, &p, &snapshot, &no_excluded());
    let n = snapshot.node("n1").unwrap().as_ref().clone();
    assert!(filter_impl(&state, &p, &n).is_success(), "both devices share numa=0, so the constraint is satisfiable");
}

#[test]
fn per_device_node_selection_scopes_each_device_to_its_own_node() {
    let mut cache = Cache::new();
    cache.upsert_node(&api_node("n1"));
    cache.upsert_node(&api_node("n2"));
    cache.upsert_device_class("gpu.example.com".to_string(), class_with_cel("gpu.example.com", "device.driver == \"gpu.example.com\""));

    let mut slice = ResourceSlice {
        metadata: ObjectMeta { name: Some("s1".to_string()), ..Default::default() },
        spec: ResourceSliceSpec {
            driver: "gpu.example.com".to_string(),
            pool: ResourcePool { name: "pool".to_string(), generation: Some(1), resource_slice_count: Some(1) },
            node_name: None,
            all_nodes: None,
            node_selector: None,
            per_device_node_selection: Some(true),
            devices: Some(vec![
                Device { name: "gpu-on-n1".to_string(), basic: Arc::new(BasicDevice { node_name: Some("n1".to_string()), ..Default::default() }) },
                Device { name: "gpu-on-n2".to_string(), basic: Arc::new(BasicDevice { node_name: Some("n2".to_string()), ..Default::default() }) },
            ]),
        },
    };
    slice.spec.node_name = None;
    cache.upsert_resource_slice("s1".to_string(), slice);
    cache.upsert_resource_claim("ns/claim".to_string(), unbound_claim("ns", "claim", "gpu.example.com", 1));
    let snapshot = cache.snapshot();

    let p = pod_with_claim("ns", "gpu", "claim");
    let mut state = CycleState::default();
    pre_filter_impl(&mut state, &p, &snapshot, &no_excluded());

    let wanted = state.read::<WantedClaims>(NAME).unwrap();
    let ClaimPlan::Allocate { by_node, .. } = &wanted.0[0] else { panic!("expected Allocate") };
    assert_eq!(by_node.get("n1").unwrap()[0].device, "gpu-on-n1");
    assert_eq!(by_node.get("n2").unwrap()[0].device, "gpu-on-n2");
}

#[test]
fn preenqueue_holds_a_pod_whose_template_claim_has_not_been_generated_yet() {
    let mut p = pod("p");
    p.resource_claims = vec![PodClaimRef {
        name: "gpu".to_string(),
        resource_claim_name: None,
        resource_claim_template_name: Some("gpu-template".to_string()),
    }];
    assert!(!pre_enqueue_impl(&p).is_success());
}

#[test]
fn preenqueue_admits_a_pod_whose_template_claim_has_been_generated() {
    let mut p = pod("p");
    p.resource_claims = vec![PodClaimRef {
        name: "gpu".to_string(),
        resource_claim_name: None,
        resource_claim_template_name: Some("gpu-template".to_string()),
    }];
    p.resource_claim_statuses.insert("gpu".to_string(), Some("gpu-abc123".to_string()));
    assert!(pre_enqueue_impl(&p).is_success());
}

#[test]
fn preenqueue_admits_a_pod_referencing_an_already_existing_claim_directly() {
    let p = pod_with_claim("ns", "gpu", "claim");
    assert!(pre_enqueue_impl(&p).is_success());
}


fn bound_claim_on_unreachable_topology(reserved_for: Vec<ConsumerReference>) -> ResourceClaim {
    let mut claim = unbound_claim("ns", "claim", "gpu.example.com", 1);
    claim.status = Some(ResourceClaimStatus {
        allocation: Some(AllocationResult {
            devices: None,
            node_selector: Some(Arc::new(NodeSelector {
                node_selector_terms: vec![NodeSelectorTerm {
                    match_expressions: Some(vec![NodeSelectorRequirement {
                        key: "nonexistent-label".to_string(),
                        operator: "Exists".to_string(),
                        values: None,
                    }]),
                    match_fields: None,
                }],
            })),
        }),
        reserved_for: Some(reserved_for),
    });
    claim
}

fn consumer(pod: &PodInfo) -> ConsumerReference {
    ConsumerReference {
        api_group: None,
        resource: "pods".to_string(),
        name: pod.name.clone(),
        uid: pod.uid.clone(),
    }
}

#[test]
fn post_filter_frees_a_claim_reserved_only_for_this_pod_on_an_unreachable_topology() {
    let mut cache = Cache::new();
    cache.upsert_node(&api_node("n1"));
    let p = pod_with_claim("ns", "gpu", "claim");
    cache.upsert_resource_claim("ns/claim".to_string(), bound_claim_on_unreachable_topology(vec![consumer(&p)]));
    let snapshot = cache.snapshot();

    let mut state = CycleState::default();
    pre_filter_impl(&mut state, &p, &snapshot, &no_excluded());
    let wanted = state.read::<WantedClaims>(NAME).unwrap();

    let decision = post_filter_impl(&wanted, &p, &snapshot);
    assert_eq!(decision, Some(("ns".to_string(), "claim".to_string())));
}

#[test]
fn post_filter_frees_a_claim_with_an_empty_reservation_too() {
    let mut cache = Cache::new();
    cache.upsert_node(&api_node("n1"));
    let p = pod_with_claim("ns", "gpu", "claim");
    cache.upsert_resource_claim("ns/claim".to_string(), bound_claim_on_unreachable_topology(vec![]));
    let snapshot = cache.snapshot();

    let mut state = CycleState::default();
    pre_filter_impl(&mut state, &p, &snapshot, &no_excluded());
    let wanted = state.read::<WantedClaims>(NAME).unwrap();

    assert!(post_filter_impl(&wanted, &p, &snapshot).is_some());
}

#[test]
fn post_filter_leaves_a_claim_alone_if_another_consumer_still_reserves_it() {
    let mut cache = Cache::new();
    cache.upsert_node(&api_node("n1"));
    let p = pod_with_claim("ns", "gpu", "claim");
    let other = ConsumerReference {
        api_group: None,
        resource: "pods".to_string(),
        name: "other-pod".to_string(),
        uid: "other-uid".to_string(),
    };
    cache.upsert_resource_claim("ns/claim".to_string(), bound_claim_on_unreachable_topology(vec![other]));
    let snapshot = cache.snapshot();

    let mut state = CycleState::default();
    pre_filter_impl(&mut state, &p, &snapshot, &no_excluded());
    let wanted = state.read::<WantedClaims>(NAME).unwrap();

    assert_eq!(
        post_filter_impl(&wanted, &p, &snapshot),
        None,
        "freeing a claim another pod still holds a reservation on would break that pod"
    );
}

#[test]
fn post_filter_leaves_a_claim_alone_if_some_node_can_actually_reach_it() {
    let mut cache = Cache::new();
    cache.upsert_node(&api_node("n1"));
    let p = pod_with_claim("ns", "gpu", "claim");
    let mut claim = unbound_claim("ns", "claim", "gpu.example.com", 1);
    claim.status = Some(ResourceClaimStatus {
        allocation: Some(AllocationResult { devices: None, node_selector: None }),
        reserved_for: Some(vec![consumer(&p)]),
    });
    cache.upsert_resource_claim("ns/claim".to_string(), claim);
    let snapshot = cache.snapshot();

    let mut state = CycleState::default();
    pre_filter_impl(&mut state, &p, &snapshot, &no_excluded());
    let wanted = state.read::<WantedClaims>(NAME).unwrap();

    assert_eq!(post_filter_impl(&wanted, &p, &snapshot), None, "a claim with no node_selector is reachable from any node");
}

#[test]
fn it_wakes_on_the_events_that_can_progress_a_stuck_claim() {
    let events = events_impl();
    let got: Vec<(EventResource, ActionType)> = events
        .iter()
        .map(|event| (event.event.resource, event.event.action))
        .collect();
    assert_eq!(
        got,
        vec![
            (EventResource::Node, ActionType(ActionType::ADD | ActionType::UPDATE_NODE_LABEL)),
            (EventResource::ResourceClaim, ActionType(ActionType::ADD | ActionType::UPDATE)),
            (EventResource::ResourceSlice, ActionType(ActionType::ADD | ActionType::UPDATE)),
            (EventResource::DeviceClass, ActionType(ActionType::ADD | ActionType::UPDATE)),
            (
                EventResource::UnschedulablePod,
                ActionType(ActionType::UPDATE_POD_GENERATED_RESOURCE_CLAIM),
            ),
        ]
    );
}

#[test]
fn a_device_that_a_claim_already_has_is_not_handed_out_again() {
    let mut cache = Cache::new();
    cache.upsert_node(&api_node("n1"));
    cache.upsert_device_class("gpu".to_string(), class_with_cel("gpu", "true"));
    cache.upsert_resource_slice("s1".to_string(), slice_with_devices("gpu.example.com", "n1", &["gpu-0"]));
    cache.upsert_resource_claim("ns/claim".to_string(), unbound_claim("ns", "claim", "gpu", 1));
    let p = pod_with_claim("ns", "gpu", "claim");
    let mut state = CycleState::default();
    let snapshot = cache.snapshot();
    pre_filter_impl(&mut state, &p, &snapshot, &no_excluded());
    assert!(filter_impl(&state, &p, snapshot.node("n1").unwrap()).is_success());

    let mut held = unbound_claim("ns", "held", "gpu", 1);
    held.status = Some(ResourceClaimStatus {
        allocation: Some(AllocationResult {
            devices: Some(DeviceAllocationResult {
                results: Some(vec![DeviceRequestAllocationResult {
                    request: "req".to_string(),
                    driver: "gpu.example.com".to_string(),
                    pool: "n1".to_string(),
                    device: "gpu-0".to_string(),
                    admin_access: false,
                }]),
            }),
            node_selector: None,
        }),
        reserved_for: None,
    });
    cache.upsert_resource_claim("ns/held".to_string(), held);
    let snapshot = cache.snapshot();
    pre_filter_impl(&mut state, &p, &snapshot, &no_excluded());
    assert!(!filter_impl(&state, &p, snapshot.node("n1").unwrap()).is_success());
}

#[test]
fn a_selector_that_cannot_be_evaluated_excludes_the_device() {
    for expression in ["this is not an expression", "device.nope == 1", "1 + 1", "false"] {
        let mut cache = Cache::new();
        cache.upsert_node(&api_node("n1"));
        cache.upsert_device_class("gpu".to_string(), class_with_cel("gpu", expression));
        cache.upsert_resource_slice(
            "s1".to_string(),
            slice_with_devices("gpu.example.com", "n1", &["gpu-0"]),
        );
        cache.upsert_resource_claim("ns/claim".to_string(), unbound_claim("ns", "claim", "gpu", 1));
        let snapshot = cache.snapshot();
        let p = pod_with_claim("ns", "gpu", "claim");
        let mut state = CycleState::default();
        pre_filter_impl(&mut state, &p, &snapshot, &no_excluded());
        let n = snapshot.node("n1").unwrap();
        assert!(!filter_impl(&state, &p, n).is_success(), "{expression}");
    }
}

#[test]
fn a_bare_attribute_is_seen_under_the_driver_and_under_no_domain() {
    let basic = BasicDevice {
        attributes: Some(strmap(vec![
            (
                "size".to_string(),
                DeviceAttribute { int: Some(7), ..Default::default() },
            ),
            (
                "other.example.com/size".to_string(),
                DeviceAttribute { bool: Some(true), ..Default::default() },
            ),
        ])),
        capacity: Some(strmap(vec![
            ("memory".to_string(), DeviceCapacity { value: "1Ki".to_string() }),
            ("broken".to_string(), DeviceCapacity { value: "lots".to_string() }),
        ])),
        ..Default::default()
    };
    let device = cel_device("gpu.example.com", &basic);
    assert_eq!(device.driver, "gpu.example.com");
    for domain in ["", "gpu.example.com"] {
        let inner = device.attributes.get(domain).unwrap();
        assert!(matches!(inner.get("size"), Some(CelAttr::Int(7))));
    }
    let other = device.attributes.get("other.example.com").unwrap();
    assert!(matches!(other.get("size"), Some(CelAttr::Bool(true))));
    let capacity = device.capacity.get("gpu.example.com").unwrap();
    assert!(matches!(capacity.get("memory"), Some(CelAttr::Str(s)) if s.ends_with(":1024/1")));
    assert!(matches!(capacity.get("broken"), Some(CelAttr::Str(s)) if s.ends_with(":0/1")));
    assert!(device.capacity.get("").is_none());
}

#[test]
fn an_attribute_is_found_by_its_full_name_first() {
    let basic = BasicDevice {
        attributes: Some(strmap(vec![
            (
                "numa".to_string(),
                DeviceAttribute { string: Some("bare".to_string()), ..Default::default() },
            ),
            (
                "a.example.com/numa".to_string(),
                DeviceAttribute { version: Some("1.2.3".to_string()), ..Default::default() },
            ),
        ])),
        ..Default::default()
    };
    let full = lookup_attribute(&basic, "a.example.com", "a.example.com/numa");
    assert!(matches!(full, Some(CelAttr::Str(s)) if s == "1.2.3"));
    let bare = lookup_attribute(&basic, "b.example.com", "b.example.com/numa");
    assert!(matches!(bare, Some(CelAttr::Str(s)) if s == "bare"));
    assert!(lookup_attribute(&basic, "b.example.com", "c.example.com/numa").is_none());
}

#[test]
fn a_constraint_covers_a_request_and_its_alternatives() {
    let named = vec!["req".to_string()];
    assert!(constraint_applies(&vec![], "anything"));
    assert!(constraint_applies(&named, "req"));
    assert!(constraint_applies(&named, "req/sub"));
    assert!(!constraint_applies(&named, "request"));
}

#[test]
fn malformed_requests_are_refused() {
    let mut claim = unbound_claim("ns", "claim", "gpu", 1);
    claim.spec.devices.as_mut().unwrap().requests.as_mut().unwrap()[0]
        .exactly.as_mut().unwrap().allocation_mode = Some("Most".to_string());
    let mut cache = Cache::new();
    cache.upsert_resource_claim("ns/claim".to_string(), claim);
    let mut state = CycleState::default();
    let (status, _) = pre_filter_impl(
        &mut state,
        &pod_with_claim("ns", "gpu", "claim"),
        &cache.snapshot(),
        &no_excluded(),
    );
    assert_eq!(status.code, Code::UnschedulableAndUnresolvable);
    assert!(status.reasons[0].contains("malformed device request"));

    let (status, _) = pre_filter_impl(
        &mut state,
        &pod_with_claim("ns", "gpu", "missing"),
        &cache.snapshot(),
        &no_excluded(),
    );
    assert_eq!(status.reasons, vec!["resourceclaim \"missing\" not found".to_string()]);
}

#[test]
fn what_is_promised_is_excluded_until_released_unless_shared() {
    let mut cache = Cache::new();
    cache.upsert_node(&api_node("n1"));
    cache.upsert_device_class("gpu".to_string(), class_with_cel("gpu", "true"));
    cache.upsert_resource_slice("s1".to_string(), slice_with_devices("gpu.example.com", "n1", &["gpu-0"]));
    cache.upsert_resource_claim("ns/claim".to_string(), unbound_claim("ns", "claim", "gpu", 1));
    let snapshot = cache.snapshot();
    let p = pod_with_claim("ns", "gpu", "claim");
    let mut state = CycleState::default();
    pre_filter_impl(&mut state, &p, &snapshot, &no_excluded());
    let wanted = state.read::<WantedClaims>(NAME).unwrap();

    let mut assumed = AssumedDevices::new();
    assert!(assumed.reserve(Some(wanted), "uid-p", "n1").is_success());
    assert_eq!(
        assumed.excluded(),
        vec![("gpu.example.com".to_string(), "n1".to_string(), "gpu-0".to_string())]
    );
    assert_eq!(assumed.assumed_for("uid-p").unwrap()[0].claim_key, "ns/claim");
    let refused = assumed.reserve(Some(wanted), "uid-q", "n2");
    assert_eq!(
        refused.reasons,
        vec!["internal: Filter approved node n2 with no computed allocation for ns/claim".to_string()]
    );
    assumed.release("uid-p");
    assert!(assumed.excluded().is_empty());
    assert!(assumed.assumed_for("uid-p").is_none());
    assert!(assumed.reserve(None, "uid-p", "n1").is_success());
}

#[test]
fn a_commit_adds_the_pod_and_keeps_an_allocation_that_is_there() {
    let p = pod_with_claim("ns", "gpu", "claim");
    let assumed = AssumedClaim {
        claim_key: "ns/claim".to_string(),
        new_devices: vec![DeviceRequestAllocationResult {
            request: "req".to_string(),
            driver: "gpu.example.com".to_string(),
            pool: "n1".to_string(),
            device: "gpu-0".to_string(),
            admin_access: false,
        }],
    };
    let fresh = committed_status(&unbound_claim("ns", "claim", "gpu", 1), &p, "n1", &assumed);
    let reserved = fresh.reserved_for.unwrap();
    assert_eq!((reserved[0].resource.as_str(), reserved[0].uid.as_str()), ("pods", "uid-p"));
    let allocation = fresh.allocation.unwrap();
    assert_eq!(allocation.devices.unwrap().results.unwrap()[0].device, "gpu-0");
    let selector = allocation.node_selector.unwrap();
    let expression = &selector.node_selector_terms[0].match_expressions.as_ref().unwrap()[0];
    assert_eq!(expression.key, "kubernetes.io/hostname");
    assert_eq!(expression.values, Some(vec!["n1".to_string()]));

    let again = committed_status(&bound_claim_on_unreachable_topology(vec![consumer(&p)]), &p, "n1", &assumed);
    assert_eq!(again.reserved_for.unwrap().len(), 1);
    assert!(again.allocation.unwrap().devices.is_none());

    assert!(claim_key_parts("ns/claim").is_ok());
    assert_eq!(
        claim_key_parts("nonsense").unwrap_err().reasons,
        vec!["malformed claim key \"nonsense\"".to_string()]
    );
}

#[test]
fn a_claim_named_twice_is_served_once() {
    let mut cache = Cache::new();
    cache.upsert_node(&api_node("n1"));
    cache.upsert_device_class("gpu".to_string(), class_with_cel("gpu", "true"));
    cache.upsert_resource_slice("s1".to_string(), slice_with_devices("gpu.example.com", "n1", &["gpu-0"]));
    cache.upsert_resource_claim("ns/claim".to_string(), unbound_claim("ns", "claim", "gpu", 1));
    let snapshot = cache.snapshot();
    let p = pod_with_claims("ns", &[("a", "claim"), ("b", "claim")]);
    let mut state = CycleState::default();
    pre_filter_impl(&mut state, &p, &snapshot, &no_excluded());
    assert!(filter_impl(&state, &p, snapshot.node("n1").unwrap()).is_success());
}

#[test]
fn giving_up_devices_undoes_their_reservation_however_often() {
    let mut cache = Cache::new();
    cache.upsert_node(&api_node("n1"));
    cache.upsert_device_class("gpu".to_string(), class_with_cel("gpu", "true"));
    cache.upsert_resource_slice("s1".to_string(), slice_with_devices("gpu.example.com", "n1", &["gpu-0"]));
    cache.upsert_resource_claim("ns/claim".to_string(), unbound_claim("ns", "claim", "gpu", 1));
    let snapshot = cache.snapshot();
    let mut p = pod_with_claim("ns", "gpu", "claim");
    p.uid = "uid-a".to_string();
    let mut other = pod("q");
    other.uid = "uid-b".to_string();
    let mut plugin = DynamicResources::new();
    let mut state = CycleState::default();
    assert!(plugin.pre_filter(&mut state, &p, &snapshot).0.is_success());
    assert!(plugin.reserve(&mut state, &p, "n1").is_success());
    plugin.unreserve(&mut state, &other, "n1");
    assert_eq!(plugin.assumed.excluded().len(), 1);
    plugin.unreserve(&mut state, &p, "n1");
    plugin.unreserve(&mut state, &p, "n1");
    assert!(plugin.assumed.excluded().is_empty());
}

#[test]
fn the_answer_says_whether_a_claim_was_freed() {
    let mut cache = Cache::new();
    cache.upsert_node(&api_node("n1"));
    let p = pod_with_claim("ns", "gpu", "claim");
    cache.upsert_resource_claim("ns/claim".to_string(), bound_claim_on_unreachable_topology(vec![]));
    let snapshot = cache.snapshot();
    let plugin = DynamicResources::new();
    let statuses = NodeToStatus::default();
    let mut state = CycleState::default();
    let (none, _) = plugin.post_filter(&mut state, &p, &snapshot, &statuses);
    assert_eq!(none.reasons, vec!["no claims to deallocate".to_string()]);
    pre_filter_impl(&mut state, &p, &snapshot, &no_excluded());
    let (freed, node) = plugin.post_filter(&mut state, &p, &snapshot, &statuses);
    assert_eq!(freed.reasons, vec!["deallocation of ResourceClaim completed".to_string()]);
    assert_eq!((freed.code, node), (Code::Unschedulable, None));
    let (stuck, _) = plugin.post_filter(&mut state, &p, &Snapshot::default(), &statuses);
    assert_eq!(stuck.reasons, vec!["still not schedulable".to_string()]);
}
