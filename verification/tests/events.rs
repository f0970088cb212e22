use nodescheduler::api::{
    Node, NodeCondition, NodeSpec, NodeStatus, Pod, PodSchedulingGate, PodSpec, PodStatus, Taint,
    Toleration,
};
use nodescheduler::events::{
    force_activate, node_action_types, pod_action_types, unschedulable_timeout, ActionType,
    ClusterEvent, EventResource,
};
use nodescheduler::maps::StrMap;

fn strmap<V>(entries: Vec<(String, V)>) -> StrMap<V> {
    let mut m = StrMap::new();
    for (k, v) in entries {
        m.insert(k, v);
    }
    m
}

fn ready_condition(status: &str, heartbeat_secs: i64) -> NodeCondition {
    NodeCondition {
        type_: "Ready".to_string(),
        status: status.to_string(),
        last_heartbeat_time: Some(heartbeat_secs),
    }
}

fn node_with(conditions: Vec<NodeCondition>) -> Node {
    Node {
        status: Some(NodeStatus {
            conditions: Some(conditions),
            allocatable: Some(strmap(vec![
                ("cpu".to_string(), "4".to_string()),
                ("memory".to_string(), "8Gi".to_string()),
            ])),
            ..Default::default()
        }),
        ..Default::default()
    }
}

#[test]
fn a_node_heartbeat_wakes_absolutely_nothing() {
    let old = node_with(vec![ready_condition("True", 1_000)]);
    let new = node_with(vec![ready_condition("True", 1_010)]);

    assert_eq!(
        node_action_types(&old, &new),
        ActionType(ActionType::NONE),
        "a heartbeat-only Node update must produce no action bits"
    );
}

#[test]
fn a_node_going_notready_is_a_condition_change() {
    let old = node_with(vec![ready_condition("True", 1_000)]);
    let new = node_with(vec![ready_condition("False", 1_010)]);

    assert!(node_action_types(&old, &new).contains(ActionType(ActionType::UPDATE_NODE_CONDITION)));
}

#[test]
fn reordering_conditions_is_not_a_change() {
    let a = ready_condition("True", 1_000);
    let b = NodeCondition {
        type_: "MemoryPressure".to_string(),
        status: "False".to_string(),
        ..Default::default()
    };
    let old = node_with(vec![a.clone(), b.clone()]);
    let new = node_with(vec![b, a]);

    assert_eq!(node_action_types(&old, &new), ActionType(ActionType::NONE));
}

#[test]
fn a_new_taint_sets_only_the_taint_bit() {
    let mut old = node_with(vec![ready_condition("True", 1_000)]);
    old.spec = Some(NodeSpec::default());
    let mut new = old.clone();
    new.spec = Some(NodeSpec {
        taints: Some(vec![Taint {
            key: "dedicated".to_string(),
            value: Some("gpu".to_string()),
            effect: "NoSchedule".to_string(),
            ..Default::default()
        }]),
        ..Default::default()
    });

    let action = node_action_types(&old, &new);
    assert!(action.contains(ActionType(ActionType::UPDATE_NODE_TAINT)));
    assert!(!action.contains(ActionType(ActionType::UPDATE_NODE_CONDITION)));
    assert!(!action.contains(ActionType(ActionType::UPDATE_NODE_ALLOCATABLE)));
}

#[test]
fn cordoning_a_node_counts_as_a_taint_change() {
    let mut old = node_with(vec![]);
    old.spec = Some(NodeSpec::default());
    let mut new = old.clone();
    new.spec = Some(NodeSpec {
        unschedulable: Some(true),
        ..Default::default()
    });

    assert!(node_action_types(&old, &new).contains(ActionType(ActionType::UPDATE_NODE_TAINT)));
}

#[test]
fn changed_allocatable_sets_only_the_allocatable_bit() {
    let old = node_with(vec![ready_condition("True", 1_000)]);
    let mut new = old.clone();
    new.status.as_mut().unwrap().allocatable = Some(strmap(vec![
        ("cpu".to_string(), "8".to_string()),
        ("memory".to_string(), "8Gi".to_string()),
    ]));

    let action = node_action_types(&old, &new);
    assert!(action.contains(ActionType(ActionType::UPDATE_NODE_ALLOCATABLE)));
    assert!(!action.contains(ActionType(ActionType::UPDATE_NODE_CONDITION)));
}


fn gated_pod(gates: &[&str]) -> Pod {
    Pod {
        spec: Some(PodSpec {
            scheduling_gates: Some(
                gates
                    .iter()
                    .map(|g| PodSchedulingGate { name: g.to_string() })
                    .collect(),
            ),
            ..Default::default()
        }),
        ..Default::default()
    }
}

#[test]
fn clearing_the_last_scheduling_gate_is_its_own_bit() {
    let old = gated_pod(&["example.com/hold"]);
    let new = gated_pod(&[]);

    assert!(pod_action_types(&old, &new)
        .contains(ActionType(ActionType::UPDATE_POD_SCHEDULING_GATES_ELIMINATED)));
}

#[test]
fn removing_one_of_two_gates_does_not_eliminate_them() {
    let old = gated_pod(&["a", "b"]);
    let new = gated_pod(&["b"]);

    assert!(!pod_action_types(&old, &new)
        .contains(ActionType(ActionType::UPDATE_POD_SCHEDULING_GATES_ELIMINATED)));
}

#[test]
fn a_pod_label_change_sets_only_the_label_bit() {
    let old = Pod::default();
    let mut new = Pod::default();
    new.metadata.labels = Some(strmap(vec![("app".to_string(), "web".to_string())]));

    let action = pod_action_types(&old, &new);
    assert!(action.contains(ActionType(ActionType::UPDATE_POD_LABEL)));
    assert!(!action.contains(ActionType(ActionType::UPDATE_POD_TOLERATION)));
}

#[test]
fn a_new_toleration_sets_the_toleration_bit() {
    let old = Pod {
        spec: Some(PodSpec::default()),
        ..Default::default()
    };
    let new = Pod {
        spec: Some(PodSpec {
            tolerations: Some(vec![Toleration {
                key: Some("dedicated".to_string()),
                operator: Some("Exists".to_string()),
                ..Default::default()
            }]),
            ..Default::default()
        }),
        ..Default::default()
    };

    assert!(pod_action_types(&old, &new).contains(ActionType(ActionType::UPDATE_POD_TOLERATION)));
}

#[test]
fn a_pure_status_churn_update_produces_nothing() {
    let old = Pod {
        spec: Some(PodSpec::default()),
        status: Some(PodStatus {
            phase: Some("Pending".to_string()),
            ..Default::default()
        }),
        ..Default::default()
    };
    let mut new = old.clone();
    new.status.as_mut().unwrap().phase = Some("Running".to_string());

    assert_eq!(pod_action_types(&old, &new), ActionType(ActionType::NONE));
}


#[test]
fn a_plugin_registered_for_taints_is_not_woken_by_a_label_change() {
    let registered = ClusterEvent::new(EventResource::Node, ActionType(ActionType::UPDATE_NODE_TAINT));
    let happened = ClusterEvent::new(EventResource::Node, ActionType(ActionType::UPDATE_NODE_LABEL));

    assert!(!registered.matches(&happened));
}

#[test]
fn a_plugin_registered_for_taints_is_woken_by_a_taint_change() {
    let registered = ClusterEvent::new(EventResource::Node, ActionType(ActionType::UPDATE_NODE_TAINT));
    let happened = ClusterEvent::new(
        EventResource::Node,
        ActionType(ActionType::UPDATE_NODE_TAINT | ActionType::UPDATE_NODE_LABEL),
    );

    assert!(registered.matches(&happened));
}

#[test]
fn the_timeout_safety_net_matches_everything() {
    for resource in [
        EventResource::Node,
        EventResource::Pod,
        EventResource::PersistentVolume,
        EventResource::ResourceClaim,
    ] {
        let registered = ClusterEvent::new(resource, ActionType(ActionType::ADD));
        assert!(
            registered.matches(&unschedulable_timeout()),
            "the 5-minute net has to reach a plugin registered for {resource:?}"
        );
    }
}

#[test]
fn a_generic_pod_subscription_covers_both_pod_flavours() {
    let registered = ClusterEvent::new(EventResource::Pod, ActionType(ActionType::DELETE));
    for resource in [EventResource::AssignedPod, EventResource::UnschedulablePod] {
        assert!(registered.matches(&ClusterEvent::new(resource, ActionType(ActionType::DELETE))));
    }
}

#[test]
fn an_empty_action_matches_nothing() {
    let registered = ClusterEvent::new(EventResource::Node, ActionType(ActionType::ALL));
    assert!(!registered.matches(&ClusterEvent::new(EventResource::Node, ActionType(ActionType::NONE))));
}

#[test]
fn a_forced_activation_matches_everything() {
    let registered = ClusterEvent::new(EventResource::StorageClass, ActionType(ActionType::ADD));
    assert!(registered.matches(&force_activate()));
}

#[test]
fn actions_combine_bit_by_bit() {
    let both = ActionType(ActionType::ADD) | ActionType(ActionType::DELETE);
    assert_eq!(both, ActionType(ActionType::ADD | ActionType::DELETE));
    assert!(both.intersects(ActionType(ActionType::DELETE)));
    assert!(!both.intersects(ActionType(ActionType::UPDATE_NODE_LABEL)));
    assert!(ActionType(ActionType::NONE).is_empty());
    assert!(!both.is_empty());
}

#[test]
fn resources_rank_in_the_order_they_are_declared() {
    assert_eq!(EventResource::Pod.rank(), 0);
    assert_eq!(EventResource::Node.rank(), 3);
    assert_eq!(EventResource::WildCard.rank(), 15);
}
