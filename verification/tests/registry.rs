use nodescheduler::config::{PluginConfig, TopologyDefaulting};
use nodescheduler::events::EventResource;
use nodescheduler::framework::registry::{default_registry, PluginId, Registry};

fn config() -> PluginConfig {
    PluginConfig {
        topology_defaulting: TopologyDefaulting::Off,
        volume_bind_timeout: 600_000_000_000,
    }
}

#[test]
fn the_default_profile_has_the_plugins_in_order() {
    let r = default_registry(&config(), "default-scheduler");
    assert_eq!(r.profile_name, "default-scheduler");
    assert_eq!(r.pre_enqueue, vec![PluginId::SchedulingGates, PluginId::DynamicResources]);
    assert_eq!(r.queue_sort, Some(PluginId::PrioritySort));
    assert_eq!(r.pre_filter.len(), 9);
    assert_eq!(r.filter.len(), 13);
    assert_eq!(r.filter[0], PluginId::NodeUnschedulable);
    assert_eq!(r.filter[1], PluginId::NodeName);
    assert_eq!(r.score, r.pre_score);
    assert_eq!(r.bind, vec![PluginId::DefaultBinder]);
    assert!(r.permit.is_empty());
    assert_eq!(r.reserve, r.post_bind);
    assert_eq!(PluginId::NodeResourcesFit.name(), "NodeResourcesFit");
}

#[test]
fn what_plugins_subscribe_to_is_what_is_watched() {
    assert_eq!(
        default_registry(&config(), "p").subscribed_resources(),
        vec![
            EventResource::Pod,
            EventResource::AssignedPod,
            EventResource::UnschedulablePod,
            EventResource::Node,
            EventResource::PersistentVolume,
            EventResource::PersistentVolumeClaim,
            EventResource::CsiNode,
            EventResource::CsiStorageCapacity,
            EventResource::VolumeAttachment,
            EventResource::StorageClass,
            EventResource::ResourceClaim,
            EventResource::ResourceSlice,
            EventResource::DeviceClass,
        ]
    );
}

#[test]
fn a_profile_without_storage_watches_none() {
    let mut r: Registry = default_registry(&config(), "p");
    r.pre_enqueue.clear();
    r.pre_filter.clear();
    r.post_filter.clear();
    r.reserve.clear();
    r.filter = vec![PluginId::TaintToleration, PluginId::NodeName];
    assert_eq!(r.subscribed_resources(), vec![EventResource::Pod, EventResource::Node]);
}

#[test]
fn a_profile_configures_its_plugins() {
    let r = default_registry(&config(), "p");
    assert_eq!(r.pod_topology_spread().defaulting, TopologyDefaulting::Off);
    assert_eq!(r.volume_binding().bind_timeout, 600_000_000_000);
}

#[test]
fn only_scorers_have_weights() {
    let weights: Vec<Option<i64>> =
        default_registry(&config(), "p").score.iter().map(|p| p.weight()).collect();
    assert_eq!(weights, vec![Some(3), Some(2), Some(1), Some(1), Some(1), Some(2), Some(2)]);
    assert_eq!(PluginId::NodeName.weight(), None);
}

#[test]
fn preemption_adjusts_the_plugins_whose_state_follows_the_pods() {
    let r = default_registry(&config(), "p");
    let adjusted: Vec<PluginId> =
        r.pre_filter.iter().copied().filter(|p| p.has_extensions()).collect();
    assert_eq!(
        adjusted,
        vec![
            PluginId::NodeResourcesFit,
            PluginId::VolumeRestrictions,
            PluginId::PodTopologySpread,
            PluginId::InterPodAffinity,
        ]
    );
}

#[test]
fn a_setting_turns_the_built_in_constraints_off() {
    assert_eq!(TopologyDefaulting::from_setting(Some("None")), TopologyDefaulting::Off);
    assert_eq!(TopologyDefaulting::from_setting(Some("System")), TopologyDefaulting::System);
    assert_eq!(TopologyDefaulting::from_setting(None), TopologyDefaulting::System);
}
