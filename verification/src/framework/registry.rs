//! The plugins of a profile, by extension point.

use super::plugins::{
    default_binder, dynamic_resources, image_locality, inter_pod_affinity, node_affinity,
    node_name, node_ports, node_resources_balanced_allocation, node_resources_fit,
    node_unschedulable, node_volume_limits, pod_topology_spread, priority_sort, scheduling_gates,
    taint_toleration, volume_binding, volume_restrictions, volume_zone,
};
use super::{events_of, unhinted, ClusterEventWithHint, NoHint, Plugin, ScorePlugin};
use crate::config::PluginConfig;
use crate::events::{ClusterEvent, EventResource};
use vstd::prelude::*;

verus! {

/// A plugin of the default set.
#[derive(Clone, Copy, Debug, PartialEq, Eq, Structural)]
pub enum PluginId {
    SchedulingGates,
    DynamicResources,
    PrioritySort,
    NodePorts,
    NodeResourcesFit,
    VolumeRestrictions,
    NodeVolumeLimits,
    VolumeBinding,
    VolumeZone,
    PodTopologySpread,
    InterPodAffinity,
    NodeUnschedulable,
    NodeName,
    TaintToleration,
    NodeAffinity,
    ImageLocality,
    NodeResourcesBalancedAllocation,
    DefaultBinder,
}

impl PluginId {
    /// The name that configuration knows the plugin by.
    pub open spec fn name_view(self) -> Seq<char> {
        match self {
            PluginId::SchedulingGates => scheduling_gates::NAME@,
            PluginId::DynamicResources => dynamic_resources::NAME@,
            PluginId::PrioritySort => priority_sort::NAME@,
            PluginId::NodePorts => node_ports::NAME@,
            PluginId::NodeResourcesFit => node_resources_fit::NAME@,
            PluginId::VolumeRestrictions => volume_restrictions::NAME@,
            PluginId::NodeVolumeLimits => node_volume_limits::NAME@,
            PluginId::VolumeBinding => volume_binding::NAME@,
            PluginId::VolumeZone => volume_zone::NAME@,
            PluginId::PodTopologySpread => pod_topology_spread::NAME@,
            PluginId::InterPodAffinity => inter_pod_affinity::NAME@,
            PluginId::NodeUnschedulable => node_unschedulable::NAME@,
            PluginId::NodeName => node_name::NAME@,
            PluginId::TaintToleration => taint_toleration::NAME@,
            PluginId::NodeAffinity => node_affinity::NAME@,
            PluginId::ImageLocality => image_locality::NAME@,
            PluginId::NodeResourcesBalancedAllocation => node_resources_balanced_allocation::NAME@,
            PluginId::DefaultBinder => default_binder::NAME@,
        }
    }

    /// The events that could undo a rejection by the plugin; none where it
    /// never rejects.
    pub open spec fn event_views(self) -> Seq<ClusterEvent> {
        match self {
            PluginId::SchedulingGates => scheduling_gates::subscriptions(),
            PluginId::DynamicResources => dynamic_resources::subscriptions(),
            PluginId::NodePorts => node_ports::subscriptions(),
            PluginId::NodeResourcesFit => node_resources_fit::subscriptions(),
            PluginId::VolumeRestrictions => volume_restrictions::subscriptions(),
            PluginId::NodeVolumeLimits => node_volume_limits::subscriptions(),
            PluginId::VolumeBinding => volume_binding::subscriptions(),
            PluginId::VolumeZone => volume_zone::subscriptions(),
            PluginId::PodTopologySpread => pod_topology_spread::subscriptions(),
            PluginId::InterPodAffinity => inter_pod_affinity::subscriptions(),
            PluginId::NodeUnschedulable => node_unschedulable::subscriptions(),
            PluginId::NodeName => node_name::subscriptions(),
            PluginId::TaintToleration => taint_toleration::subscriptions(),
            PluginId::NodeAffinity => node_affinity::subscriptions(),
            _ => Seq::empty(),
        }
    }

    /// What the plugin's scores are multiplied by; none where it does not score.
    pub open spec fn weight_view(self) -> Option<i64> {
        match self {
            PluginId::TaintToleration => Some(3),
            PluginId::NodeAffinity => Some(2),
            PluginId::PodTopologySpread => Some(2),
            PluginId::InterPodAffinity => Some(2),
            PluginId::ImageLocality => Some(1),
            PluginId::NodeResourcesFit => Some(1),
            PluginId::NodeResourcesBalancedAllocation => Some(1),
            _ => None,
        }
    }

    /// What the plugin keeps for a cycle depends on which pods are on the nodes,
    /// so preemption has to adjust it when it pretends that one joins or leaves.
    pub open spec fn follows_pods(self) -> bool {
        self == PluginId::NodeResourcesFit || self == PluginId::InterPodAffinity || self
            == PluginId::PodTopologySpread || self == PluginId::VolumeRestrictions
    }

    pub fn weight(self) -> (r: Option<i64>)
        ensures
            r == self.weight_view(),
    {
        match self {
            PluginId::TaintToleration => Some(taint_toleration::TaintToleration.weight()),
            PluginId::NodeAffinity => Some(
                (node_affinity::NodeAffinity { added_affinity: None }).weight(),
            ),
            PluginId::PodTopologySpread => Some(
                pod_topology_spread::PodTopologySpread::default().weight(),
            ),
            PluginId::InterPodAffinity => Some(
                inter_pod_affinity::InterPodAffinity::default().weight(),
            ),
            PluginId::ImageLocality => Some(image_locality::ImageLocality.weight()),
            PluginId::NodeResourcesFit => Some(
                node_resources_fit::NodeResourcesFit::default().weight(),
            ),
            PluginId::NodeResourcesBalancedAllocation => Some(
                node_resources_balanced_allocation::NodeResourcesBalancedAllocation::default().weight(),
            ),
            _ => None,
        }
    }

    /// Whether preemption has to adjust what the plugin keeps for a cycle.
    pub fn has_extensions(self) -> (r: bool)
        ensures
            r == self.follows_pods(),
    {
        match self {
            PluginId::NodeResourcesFit => true,
            PluginId::InterPodAffinity => true,
            PluginId::PodTopologySpread => true,
            PluginId::VolumeRestrictions => true,
            _ => false,
        }
    }

    pub fn name(self) -> (r: &'static str)
        ensures
            r@ == self.name_view(),
    {
        match self {
            PluginId::SchedulingGates => scheduling_gates::NAME,
            PluginId::DynamicResources => dynamic_resources::NAME,
            PluginId::PrioritySort => priority_sort::NAME,
            PluginId::NodePorts => node_ports::NAME,
            PluginId::NodeResourcesFit => node_resources_fit::NAME,
            PluginId::VolumeRestrictions => volume_restrictions::NAME,
            PluginId::NodeVolumeLimits => node_volume_limits::NAME,
            PluginId::VolumeBinding => volume_binding::NAME,
            PluginId::VolumeZone => volume_zone::NAME,
            PluginId::PodTopologySpread => pod_topology_spread::NAME,
            PluginId::InterPodAffinity => inter_pod_affinity::NAME,
            PluginId::NodeUnschedulable => node_unschedulable::NAME,
            PluginId::NodeName => node_name::NAME,
            PluginId::TaintToleration => taint_toleration::NAME,
            PluginId::NodeAffinity => node_affinity::NAME,
            PluginId::ImageLocality => image_locality::NAME,
            PluginId::NodeResourcesBalancedAllocation => node_resources_balanced_allocation::NAME,
            PluginId::DefaultBinder => default_binder::NAME,
        }
    }

    pub fn events_to_register(self) -> (r: Vec<ClusterEventWithHint<NoHint>>)
        ensures
            events_of(r@) == self.event_views(),
            unhinted(r@),
    {
        match self {
            PluginId::SchedulingGates => scheduling_gates::SchedulingGates.events_to_register(),
            PluginId::DynamicResources => dynamic_resources::events_impl(),
            PluginId::NodePorts => node_ports::NodePorts.events_to_register(),
            PluginId::NodeResourcesFit => node_resources_fit::NodeResourcesFit::default().events_to_register(),
            PluginId::VolumeRestrictions => volume_restrictions::VolumeRestrictions.events_to_register(),
            PluginId::NodeVolumeLimits => node_volume_limits::NodeVolumeLimits.events_to_register(),
            PluginId::VolumeBinding => volume_binding::events_impl(),
            PluginId::VolumeZone => volume_zone::VolumeZone.events_to_register(),
            PluginId::PodTopologySpread => pod_topology_spread::PodTopologySpread::default().events_to_register(),
            PluginId::InterPodAffinity => inter_pod_affinity::InterPodAffinity::default().events_to_register(),
            PluginId::NodeUnschedulable => node_unschedulable::NodeUnschedulable.events_to_register(),
            PluginId::NodeName => node_name::NodeName.events_to_register(),
            PluginId::TaintToleration => taint_toleration::TaintToleration.events_to_register(),
            PluginId::NodeAffinity => (node_affinity::NodeAffinity { added_affinity: None }).events_to_register(),
            _ => {
                let none: Vec<ClusterEventWithHint<NoHint>> = Vec::new();
                assert(events_of(none@) =~= Seq::<ClusterEvent>::empty());
                none
            },
        }
    }
}

/// Everything enabled for one profile, in execution order. A profile is
/// selected by the scheduler name of a pod.
pub struct Registry {
    pub profile_name: String,
    pub config: PluginConfig,
    pub pre_enqueue: Vec<PluginId>,
    pub queue_sort: Option<PluginId>,
    pub pre_filter: Vec<PluginId>,
    pub filter: Vec<PluginId>,
    pub post_filter: Vec<PluginId>,
    pub pre_score: Vec<PluginId>,
    pub score: Vec<PluginId>,
    pub reserve: Vec<PluginId>,
    pub permit: Vec<PluginId>,
    pub pre_bind: Vec<PluginId>,
    pub bind: Vec<PluginId>,
    pub post_bind: Vec<PluginId>,
}

/// One of the events is on the resource.
pub open spec fn names_resource(events: Seq<ClusterEvent>, r: EventResource) -> bool {
    exists|i: int| 0 <= i < events.len() && (#[trigger] events[i]).resource == r
}

/// One of the plugins subscribes to the resource.
pub open spec fn any_subscribes(plugins: Seq<PluginId>, r: EventResource) -> bool {
    exists|i: int| 0 <= i < plugins.len() && names_resource((#[trigger] plugins[i]).event_views(), r)
}

/// In the order in which resources are declared, none twice.
pub open spec fn in_order(v: Seq<EventResource>) -> bool {
    forall|i: int, j: int|
        0 <= i < j < v.len() ==> (#[trigger] v[i]).rank_of() < (#[trigger] v[j]).rank_of()
}

proof fn same_rank(a: EventResource, b: EventResource)
    ensures
        a.rank_of() == b.rank_of() <==> a == b,
{
}

/// Put a resource in its place, unless it is there already.
fn insert_resource(out: &mut Vec<EventResource>, r: EventResource)
    requires
        in_order(old(out)@),
    ensures
        in_order(final(out)@),
        forall|x: EventResource| #[trigger]
            final(out)@.contains(x) <==> old(out)@.contains(x) || x == r,
{
    let ghost before = out@;
    let mut i: usize = 0;
    while i < out.len() && out[i].rank() < r.rank()
        invariant
            i <= out@.len(),
            out@ == before,
            forall|k: int| 0 <= k < i ==> (#[trigger] before[k]).rank_of() < r.rank_of(),
        ensures
            i == before.len() || before[i as int].rank_of() >= r.rank_of(),
        decreases out@.len() - i,
    {
        i += 1;
    }
    if i < out.len() && out[i].rank() == r.rank() {
        proof {
            same_rank(before[i as int], r);
            assert(before.contains(before[i as int]));
        }
        return ;
    }
    out.insert(i, r);
    proof {
        let after = out@;
        assert(after == before.insert(i as int, r));
        assert forall|a: int, b: int| 0 <= a < b < after.len() implies (
        #[trigger] after[a]).rank_of() < (#[trigger] after[b]).rank_of() by {
            if a >= i && b > i {
                if a == i {
                    if b - 1 > i {
                        assert(before[i as int].rank_of() < before[b - 1].rank_of());
                    }
                    assert(after[b] == before[b - 1]);
                } else {
                    assert(after[a] == before[a - 1] && after[b] == before[b - 1]);
                }
            } else if b == i {
                assert(after[a] == before[a]);
            } else if a < i && b > i {
                assert(after[a] == before[a] && after[b] == before[b - 1]);
            }
        }
        assert forall|x: EventResource| #[trigger]
            after.contains(x) <==> before.contains(x) || x == r by {
            if before.contains(x) {
                let k = choose|k: int| 0 <= k < before.len() && before[k] == x;
                if k < i {
                    assert(after[k] == x);
                } else {
                    assert(after[k + 1] == x);
                }
            }
            if x == r {
                assert(after[i as int] == x);
            }
            if after.contains(x) && x != r {
                let k = choose|k: int| 0 <= k < after.len() && after[k] == x;
                if k < i {
                    assert(before[k] == x);
                } else {
                    assert(before[k - 1] == x);
                }
            }
        }
    }
}

fn add_plugin(out: &mut Vec<EventResource>, plugin: PluginId)
    requires
        in_order(old(out)@),
    ensures
        in_order(final(out)@),
        forall|x: EventResource| #[trigger]
            final(out)@.contains(x) <==> old(out)@.contains(x) || names_resource(
                plugin.event_views(),
                x,
            ),
{
    let ghost before = out@;
    let subs = plugin.events_to_register();
    let ghost events = plugin.event_views();
    let mut i: usize = 0;
    while i < subs.len()
        invariant
            i <= subs@.len(),
            in_order(out@),
            events == events_of(subs@),
            forall|x: EventResource| #[trigger]
                out@.contains(x) <==> before.contains(x) || names_resource(events.take(i as int), x),
        decreases subs@.len() - i,
    {
        let ghost prior = out@;
        insert_resource(out, subs[i].event.resource);
        i += 1;
        proof {
            let longer = events.take(i as int);
            let shorter = events.take(i - 1);
            assert forall|x: EventResource| #[trigger]
                out@.contains(x) <==> before.contains(x) || names_resource(longer, x) by {
                let was = prior.contains(x);
                if names_resource(shorter, x) {
                    let k = choose|k: int|
                        0 <= k < shorter.len() && (#[trigger] shorter[k]).resource == x;
                    assert(longer[k].resource == x);
                }
                assert(longer[i - 1] == subs@[i - 1].event);
                if names_resource(longer, x) && subs@[i - 1].event.resource != x {
                    let k = choose|k: int|
                        0 <= k < longer.len() && (#[trigger] longer[k]).resource == x;
                    assert(shorter[k].resource == x);
                }
            }
        }
    }
    assert(events.take(i as int) =~= events);
}

fn add_plugins(out: &mut Vec<EventResource>, plugins: &Vec<PluginId>)
    requires
        in_order(old(out)@),
    ensures
        in_order(final(out)@),
        forall|x: EventResource| #[trigger]
            final(out)@.contains(x) <==> old(out)@.contains(x) || any_subscribes(plugins@, x),
{
    let ghost before = out@;
    let mut i: usize = 0;
    while i < plugins.len()
        invariant
            i <= plugins@.len(),
            in_order(out@),
            forall|x: EventResource| #[trigger]
                out@.contains(x) <==> before.contains(x) || any_subscribes(
                    plugins@.take(i as int),
                    x,
                ),
        decreases plugins@.len() - i,
    {
        let ghost prior = out@;
        add_plugin(out, plugins[i]);
        i += 1;
        proof {
            let longer = plugins@.take(i as int);
            let shorter = plugins@.take(i - 1);
            assert forall|x: EventResource| #[trigger]
                out@.contains(x) <==> before.contains(x) || any_subscribes(longer, x) by {
                let was = prior.contains(x);
                if any_subscribes(shorter, x) {
                    let k = choose|k: int|
                        0 <= k < shorter.len() && names_resource(
                            (#[trigger] shorter[k]).event_views(),
                            x,
                        );
                    assert(longer[k] == shorter[k]);
                    assert(names_resource(longer[k].event_views(), x));
                }
                assert(longer[i - 1] == plugins@[i - 1]);
                if any_subscribes(longer, x) && !names_resource(plugins@[i - 1].event_views(), x) {
                    let k = choose|k: int|
                        0 <= k < longer.len() && names_resource(
                            (#[trigger] longer[k]).event_views(),
                            x,
                        );
                    assert(longer[k] == shorter[k]);
                    assert(names_resource(shorter[k].event_views(), x));
                }
            }
        }
    }
    assert(plugins@.take(i as int) =~= plugins@);
}

impl Registry {
    /// A plugin of a point at which pods are turned away subscribes to the
    /// resource.
    pub open spec fn subscribes(&self, r: EventResource) -> bool {
        any_subscribes(self.pre_enqueue@, r) || any_subscribes(self.pre_filter@, r)
            || any_subscribes(self.filter@, r) || any_subscribes(self.post_filter@, r)
            || any_subscribes(self.reserve@, r)
    }

    /// The plugin that spreads pods, as the profile configures it.
    pub fn pod_topology_spread(&self) -> (r: pod_topology_spread::PodTopologySpread)
        ensures
            r.defaulting == self.config.topology_defaulting,
    {
        pod_topology_spread::PodTopologySpread { defaulting: self.config.topology_defaulting }
    }

    /// The plugin that binds volumes, as the profile configures it and with no
    /// volume promised.
    pub fn volume_binding(&self) -> (r: volume_binding::VolumeBinding)
        ensures
            r.bind_timeout == self.config.volume_bind_timeout,
            r.assumed.by_pod.entries@.len() == 0,
    {
        volume_binding::VolumeBinding::new(self.config.volume_bind_timeout)
    }

    /// Every resource that an enabled plugin subscribes to, which is what has
    /// to be watched.
    pub fn subscribed_resources(&self) -> (r: Vec<EventResource>)
        ensures
            in_order(r@),
            forall|x: EventResource| #[trigger] r@.contains(x) <==> self.subscribes(x),
    {
        let mut out: Vec<EventResource> = Vec::new();
        add_plugins(&mut out, &self.pre_enqueue);
        let ghost one = out@;
        add_plugins(&mut out, &self.pre_filter);
        let ghost two = out@;
        add_plugins(&mut out, &self.filter);
        let ghost three = out@;
        add_plugins(&mut out, &self.post_filter);
        let ghost four = out@;
        add_plugins(&mut out, &self.reserve);
        proof {
            assert forall|x: EventResource| #[trigger]
                out@.contains(x) <==> self.subscribes(x) by {
                let a = one.contains(x);
                let b = two.contains(x);
                let c = three.contains(x);
                let d = four.contains(x);
            }
        }
        out
    }
}

/// The plugins at which pods are filtered once per node, cheapest first.
pub open spec fn default_filters() -> Seq<PluginId> {
    seq![
        PluginId::NodeUnschedulable,
        PluginId::NodeName,
        PluginId::TaintToleration,
        PluginId::NodeAffinity,
        PluginId::NodePorts,
        PluginId::NodeResourcesFit,
        PluginId::VolumeRestrictions,
        PluginId::NodeVolumeLimits,
        PluginId::VolumeBinding,
        PluginId::VolumeZone,
        PluginId::PodTopologySpread,
        PluginId::InterPodAffinity,
        PluginId::DynamicResources,
    ]
}

/// The plugins that look at a pod once before any node.
pub open spec fn default_pre_filters() -> Seq<PluginId> {
    seq![
        PluginId::NodePorts,
        PluginId::NodeResourcesFit,
        PluginId::VolumeRestrictions,
        PluginId::NodeVolumeLimits,
        PluginId::VolumeBinding,
        PluginId::VolumeZone,
        PluginId::PodTopologySpread,
        PluginId::InterPodAffinity,
        PluginId::DynamicResources,
    ]
}

/// The plugins that score nodes.
pub open spec fn default_scorers() -> Seq<PluginId> {
    seq![
        PluginId::TaintToleration,
        PluginId::NodeAffinity,
        PluginId::ImageLocality,
        PluginId::NodeResourcesFit,
        PluginId::NodeResourcesBalancedAllocation,
        PluginId::PodTopologySpread,
        PluginId::InterPodAffinity,
    ]
}

/// The default profile under a name. A plugin that keeps promises stands at
/// every point where they are made, written or dropped.
pub fn default_registry(config: &PluginConfig, profile_name: &str) -> (r: Registry)
    ensures
        r.profile_name@ == profile_name@,
        r.config == *config,
        r.pre_enqueue@ == seq![PluginId::SchedulingGates, PluginId::DynamicResources],
        r.queue_sort == Some(PluginId::PrioritySort),
        r.pre_filter@ == default_pre_filters(),
        r.filter@ == default_filters(),
        r.post_filter@ == seq![PluginId::DynamicResources],
        r.pre_score@ == default_scorers(),
        r.score@ == default_scorers(),
        r.reserve@ == seq![PluginId::VolumeBinding, PluginId::DynamicResources],
        r.permit@.len() == 0,
        r.pre_bind@ == seq![PluginId::VolumeBinding, PluginId::DynamicResources],
        r.bind@ == seq![PluginId::DefaultBinder],
        r.post_bind@ == seq![PluginId::VolumeBinding, PluginId::DynamicResources],
{
    let r = Registry {
        profile_name: profile_name.to_owned(),
        config: *config,
        pre_enqueue: vec![PluginId::SchedulingGates, PluginId::DynamicResources],
        queue_sort: Some(PluginId::PrioritySort),
        pre_filter: vec![
            PluginId::NodePorts,
            PluginId::NodeResourcesFit,
            PluginId::VolumeRestrictions,
            PluginId::NodeVolumeLimits,
            PluginId::VolumeBinding,
            PluginId::VolumeZone,
            PluginId::PodTopologySpread,
            PluginId::InterPodAffinity,
            PluginId::DynamicResources,
        ],
        filter: vec![
            PluginId::NodeUnschedulable,
            PluginId::NodeName,
            PluginId::TaintToleration,
            PluginId::NodeAffinity,
            PluginId::NodePorts,
            PluginId::NodeResourcesFit,
            PluginId::VolumeRestrictions,
            PluginId::NodeVolumeLimits,
            PluginId::VolumeBinding,
            PluginId::VolumeZone,
            PluginId::PodTopologySpread,
            PluginId::InterPodAffinity,
            PluginId::DynamicResources,
        ],
        post_filter: vec![PluginId::DynamicResources],
        pre_score: scorers(),
        score: scorers(),
        reserve: vec![PluginId::VolumeBinding, PluginId::DynamicResources],
        permit: Vec::new(),
        pre_bind: vec![PluginId::VolumeBinding, PluginId::DynamicResources],
        bind: vec![PluginId::DefaultBinder],
        post_bind: vec![PluginId::VolumeBinding, PluginId::DynamicResources],
    };
    proof {
        assert(r.pre_enqueue@ =~= seq![PluginId::SchedulingGates, PluginId::DynamicResources]);
        assert(r.pre_filter@ =~= default_pre_filters());
        assert(r.filter@ =~= default_filters());
        assert(r.post_filter@ =~= seq![PluginId::DynamicResources]);
        assert(r.reserve@ =~= seq![PluginId::VolumeBinding, PluginId::DynamicResources]);
        assert(r.pre_bind@ =~= seq![PluginId::VolumeBinding, PluginId::DynamicResources]);
        assert(r.bind@ =~= seq![PluginId::DefaultBinder]);
        assert(r.post_bind@ =~= seq![PluginId::VolumeBinding, PluginId::DynamicResources]);
    }
    r
}

fn scorers() -> (r: Vec<PluginId>)
    ensures
        r@ == default_scorers(),
{
    let r: Vec<PluginId> = vec![
        PluginId::TaintToleration,
        PluginId::NodeAffinity,
        PluginId::ImageLocality,
        PluginId::NodeResourcesFit,
        PluginId::NodeResourcesBalancedAllocation,
        PluginId::PodTopologySpread,
        PluginId::InterPodAffinity,
    ];
    assert(r@ =~= default_scorers());
    r
}

/// A plugin that looks at a pod once and can turn nodes away does so per node
/// too: every plugin before the nodes stands among those at the nodes.
pub proof fn pre_filters_filter(i: int)
    requires
        0 <= i < default_pre_filters().len(),
    ensures
        default_filters().contains(default_pre_filters()[i]),
{
    let p = default_pre_filters();
    let f = default_filters();
    assert(p.len() == 9 && f.len() == 13);
    assert(f[4] == p[0] && f[5] == p[1] && f[6] == p[2] && f[7] == p[3] && f[8] == p[4] && f[9]
        == p[5] && f[10] == p[6] && f[11] == p[7] && f[12] == p[8]);
    assert(f[i + 4] == p[i]);
}

/// Every plugin that scores by default has a weight, and no other plugin has.
pub proof fn scorers_are_weighted(p: PluginId)
    ensures
        default_scorers().contains(p) <==> p.weight_view() is Some,
{
    let d = default_scorers();
    assert(d.len() == 7);
    assert(d[0] == PluginId::TaintToleration && d[1] == PluginId::NodeAffinity && d[2]
        == PluginId::ImageLocality && d[3] == PluginId::NodeResourcesFit && d[4]
        == PluginId::NodeResourcesBalancedAllocation && d[5] == PluginId::PodTopologySpread && d[6]
        == PluginId::InterPodAffinity);
}

/// A plugin whose state follows the pods looks at a pod before any node.
pub proof fn followers_pre_filter(p: PluginId)
    requires
        p.follows_pods(),
    ensures
        default_pre_filters().contains(p),
{
    let d = default_pre_filters();
    assert(d[1] == PluginId::NodeResourcesFit && d[2] == PluginId::VolumeRestrictions && d[6]
        == PluginId::PodTopologySpread && d[7] == PluginId::InterPodAffinity);
}

} // verus!
