//! The event vocabulary, and the comparison of two versions of an object that
//! produces it.
//!
//! The most frequent event of a cluster is a node's status heartbeat, which
//! moves only the time of the last report. [`node_action_types`] answers it
//! with no bits at all, so that no plugin's subscription matches and no
//! waiting pod is reconsidered.

use crate::api::{Node, NodeCondition, Pod, Taint, Toleration};
use crate::maps::{Labels, Same, StrMap};
use vstd::prelude::*;

verus! {

/// The resources a plugin can subscribe to.
///
/// A pod with a node and a pod without one are distinct: the first affects
/// what is free, the second what waits.
#[derive(Clone, Copy, Debug, PartialEq, Eq, PartialOrd, Ord, Hash, Structural)]
pub enum EventResource {
    Pod,
    AssignedPod,
    UnschedulablePod,
    Node,
    Namespace,
    PersistentVolume,
    PersistentVolumeClaim,
    CsiNode,
    CsiDriver,
    CsiStorageCapacity,
    VolumeAttachment,
    StorageClass,
    ResourceClaim,
    ResourceSlice,
    DeviceClass,
    /// Matches every resource.
    WildCard,
}

impl EventResource {
    /// The place of a resource in the order in which they are declared.
    pub open spec fn rank_of(self) -> int {
        match self {
            EventResource::Pod => 0,
            EventResource::AssignedPod => 1,
            EventResource::UnschedulablePod => 2,
            EventResource::Node => 3,
            EventResource::Namespace => 4,
            EventResource::PersistentVolume => 5,
            EventResource::PersistentVolumeClaim => 6,
            EventResource::CsiNode => 7,
            EventResource::CsiDriver => 8,
            EventResource::CsiStorageCapacity => 9,
            EventResource::VolumeAttachment => 10,
            EventResource::StorageClass => 11,
            EventResource::ResourceClaim => 12,
            EventResource::ResourceSlice => 13,
            EventResource::DeviceClass => 14,
            EventResource::WildCard => 15,
        }
    }

    pub fn rank(self) -> (r: u8)
        ensures
            r == self.rank_of(),
    {
        match self {
            EventResource::Pod => 0,
            EventResource::AssignedPod => 1,
            EventResource::UnschedulablePod => 2,
            EventResource::Node => 3,
            EventResource::Namespace => 4,
            EventResource::PersistentVolume => 5,
            EventResource::PersistentVolumeClaim => 6,
            EventResource::CsiNode => 7,
            EventResource::CsiDriver => 8,
            EventResource::CsiStorageCapacity => 9,
            EventResource::VolumeAttachment => 10,
            EventResource::StorageClass => 11,
            EventResource::ResourceClaim => 12,
            EventResource::ResourceSlice => 13,
            EventResource::DeviceClass => 14,
            EventResource::WildCard => 15,
        }
    }
}

/// What happened to a resource, as a set of bits. An event wakes a plugin only
/// where it shares a bit with what the plugin subscribed to.
#[derive(Clone, Copy, Debug, PartialEq, Eq, PartialOrd, Ord, Hash, Default, Structural)]
pub struct ActionType(pub u32);

impl ActionType {
    pub const NONE: u32 = 0;

    pub const ADD: u32 = 1;

    pub const DELETE: u32 = 2;

    pub const UPDATE_NODE_ALLOCATABLE: u32 = 4;

    pub const UPDATE_NODE_LABEL: u32 = 8;

    pub const UPDATE_NODE_TAINT: u32 = 16;

    pub const UPDATE_NODE_CONDITION: u32 = 32;

    pub const UPDATE_NODE_ANNOTATION: u32 = 64;

    pub const UPDATE_POD_LABEL: u32 = 128;

    pub const UPDATE_POD_SCALE_DOWN: u32 = 256;

    pub const UPDATE_POD_TOLERATION: u32 = 512;

    pub const UPDATE_POD_SCHEDULING_GATES_ELIMINATED: u32 = 1024;

    pub const UPDATE_POD_GENERATED_RESOURCE_CLAIM: u32 = 2048;

    /// A pod change that is none of the above.
    pub const UPDATE_POD_OTHER: u32 = 4096;

    /// Every update bit.
    pub const UPDATE: u32 = 8188;

    /// Every bit.
    pub const ALL: u32 = 8191;

    /// Whether the two sets share a bit.
    pub fn intersects(self, other: ActionType) -> (r: bool)
        ensures
            r == (self.0 & other.0 != 0),
    {
        self.0 & other.0 != 0
    }

    pub fn is_empty(self) -> (r: bool)
        ensures
            r == (self.0 == 0),
    {
        self.0 == 0
    }

    /// Whether every bit of `other` is in this set.
    pub fn contains(self, other: ActionType) -> (r: bool)
        ensures
            r == (self.0 & other.0 == other.0),
    {
        self.0 & other.0 == other.0
    }
}

impl std::ops::BitOr<ActionType> for ActionType {
    type Output = ActionType;

    fn bitor(self, rhs: ActionType) -> (r: ActionType) {
        ActionType(self.0 | rhs.0)
    }
}

impl vstd::std_specs::ops::BitOrSpecImpl<ActionType> for ActionType {
    open spec fn obeys_bitor_spec() -> bool {
        true
    }

    open spec fn bitor_req(self, rhs: ActionType) -> bool {
        true
    }

    open spec fn bitor_spec(self, rhs: ActionType) -> ActionType {
        ActionType(self.0 | rhs.0)
    }
}

/// A resource changed: what plugins subscribe to and what the queue matches.
#[derive(Clone, Copy, Debug, PartialEq, Eq, Hash, Structural)]
pub struct ClusterEvent {
    pub resource: EventResource,
    pub action: ActionType,
}

impl ClusterEvent {
    pub fn new(resource: EventResource, action: ActionType) -> (r: Self)
        ensures
            r == (ClusterEvent { resource, action }),
    {
        Self { resource, action }
    }

    /// Whether a subscription to one resource covers another: the same one, a
    /// wildcard on either side, or any pod where either flavour is named.
    pub open spec fn covers(self, resource: EventResource) -> bool {
        ||| self.resource == EventResource::WildCard
        ||| resource == EventResource::WildCard
        ||| self.resource == resource
        ||| (self.resource == EventResource::Pod && (resource == EventResource::AssignedPod
            || resource == EventResource::UnschedulablePod))
    }

    /// Whether `event` wakes a plugin that subscribed to this.
    pub open spec fn wakes(self, event: ClusterEvent) -> bool {
        self.covers(event.resource) && self.action.0 & event.action.0 != 0
    }

    pub fn matches(&self, event: &ClusterEvent) -> (r: bool)
        ensures
            r == self.wakes(*event),
    {
        let resource_ok = self.resource == EventResource::WildCard || event.resource
            == EventResource::WildCard || self.resource == event.resource || (self.resource
            == EventResource::Pod && (event.resource == EventResource::AssignedPod
            || event.resource == EventResource::UnschedulablePod));
        resource_ok && self.action.intersects(event.action)
    }
}

/// The safety net's event, by which every stranded pod is reconsidered.
pub open spec fn timeout_event() -> ClusterEvent {
    ClusterEvent { resource: EventResource::WildCard, action: ActionType(ActionType::ALL) }
}

/// The safety net's event, by which every stranded pod is reconsidered.
pub fn unschedulable_timeout() -> (r: ClusterEvent)
    ensures
        r == timeout_event(),
{
    ClusterEvent::new(EventResource::WildCard, ActionType(ActionType::ALL))
}

/// A plugin asked for pods to be reconsidered now.
pub fn force_activate() -> (r: ClusterEvent)
    ensures
        r == (ClusterEvent {
            resource: EventResource::WildCard,
            action: ActionType(ActionType::ALL),
        }),
{
    ClusterEvent::new(EventResource::WildCard, ActionType(ActionType::ALL))
}

/// The bits of `action` where `changed`, else none.
pub open spec fn bits_if(changed: bool, action: u32) -> u32 {
    if changed {
        action
    } else {
        0
    }
}

fn when(changed: bool, action: u32) -> (r: ActionType)
    ensures
        r.0 == bits_if(changed, action),
{
    if changed {
        ActionType(action)
    } else {
        ActionType(0)
    }
}

/// The taints a node declares.
pub open spec fn taints_of(n: Node) -> Option<Vec<Taint>> {
    match n.spec {
        Some(s) => s.taints,
        None => None,
    }
}

pub open spec fn unschedulable_of(n: Node) -> Option<bool> {
    match n.spec {
        Some(s) => s.unschedulable,
        None => None,
    }
}

pub open spec fn allocatable_of(n: Node) -> Option<StrMap<String>> {
    match n.status {
        Some(s) => s.allocatable,
        None => None,
    }
}

pub open spec fn conditions_of(n: Node) -> Seq<NodeCondition> {
    match n.status {
        Some(s) => match s.conditions {
            Some(c) => c@,
            None => Seq::empty(),
        },
        None => Seq::empty(),
    }
}

/// The status a list of conditions gives a type: that of its last entry.
pub open spec fn condition_status(c: Seq<NodeCondition>, type_: Seq<char>) -> Option<Seq<char>>
    decreases c.len(),
{
    if c.len() == 0 {
        None
    } else if c.last().type_@ == type_ {
        Some(c.last().status@)
    } else {
        condition_status(c.drop_last(), type_)
    }
}

/// Two nodes give every condition type the same status, in whatever order.
pub open spec fn same_conditions(old: Node, new: Node) -> bool {
    forall|t: Seq<char>|
        #[trigger] condition_status(conditions_of(old), t) == condition_status(
            conditions_of(new),
            t,
        )
}

/// What changed between two versions of a node.
pub open spec fn node_change_bits(old: Node, new: Node) -> u32 {
    bits_if(!old.metadata.labels.same(&new.metadata.labels), ActionType::UPDATE_NODE_LABEL)
        | bits_if(
        !old.metadata.annotations.same(&new.metadata.annotations),
        ActionType::UPDATE_NODE_ANNOTATION,
    ) | bits_if(
        !taints_of(old).same(&taints_of(new)) || !unschedulable_of(old).same(
            &unschedulable_of(new),
        ),
        ActionType::UPDATE_NODE_TAINT,
    ) | bits_if(
        !allocatable_of(old).same(&allocatable_of(new)),
        ActionType::UPDATE_NODE_ALLOCATABLE,
    ) | bits_if(!same_conditions(old, new), ActionType::UPDATE_NODE_CONDITION)
}

/// What changed between two versions of a node.
///
/// Nothing, for a heartbeat. A cordon counts as a taint change, because a
/// taint usually mirrors it.
pub fn node_action_types(old: &Node, new: &Node) -> (r: ActionType)
    ensures
        r.0 == node_change_bits(*old, *new),
{
    let labels = !old.metadata.labels.is_same(&new.metadata.labels);
    let annotations = !old.metadata.annotations.is_same(&new.metadata.annotations);
    let taints = match (&old.spec, &new.spec) {
        (Some(a), Some(b)) => !a.taints.is_same(&b.taints) || !a.unschedulable.is_same(
            &b.unschedulable,
        ),
        (Some(a), None) => a.taints.is_some() || a.unschedulable.is_some(),
        (None, Some(b)) => b.taints.is_some() || b.unschedulable.is_some(),
        (None, None) => false,
    };
    let allocatable = match (&old.status, &new.status) {
        (Some(a), Some(b)) => !a.allocatable.is_same(&b.allocatable),
        (Some(a), None) => a.allocatable.is_some(),
        (None, Some(b)) => b.allocatable.is_some(),
        (None, None) => false,
    };
    let old_conditions = node_condition_statuses(old);
    let new_conditions = node_condition_statuses(new);
    let conditions = !old_conditions.is_same(&new_conditions);
    proof {
        if !conditions {
            assert forall|t: Seq<char>|
                #[trigger] condition_status(conditions_of(*old), t) == condition_status(
                    conditions_of(*new),
                    t,
                ) by {
                assert(old_conditions.at(t).same(&new_conditions.at(t)));
                assert(old_conditions.text(t) == new_conditions.text(t));
            }
        } else {
            let t = choose|t: Seq<char>|
                !(#[trigger] old_conditions.at(t)).same(&new_conditions.at(t));
            assert(old_conditions.text(t) != new_conditions.text(t));
            assert(condition_status(conditions_of(*old), t) != condition_status(
                conditions_of(*new),
                t,
            ));
        }
    }
    when(labels, ActionType::UPDATE_NODE_LABEL) | when(
        annotations,
        ActionType::UPDATE_NODE_ANNOTATION,
    ) | when(taints, ActionType::UPDATE_NODE_TAINT) | when(
        allocatable,
        ActionType::UPDATE_NODE_ALLOCATABLE,
    ) | when(conditions, ActionType::UPDATE_NODE_CONDITION)
}

/// The status of every condition type of a node. The time of the last report
/// is left out, and so is the order.
fn node_condition_statuses(node: &Node) -> (r: Labels)
    ensures
        forall|t: Seq<char>| #[trigger] r.text(t) == condition_status(conditions_of(*node), t),
{
    let mut out: Labels = StrMap::new();
    match &node.status {
        Some(s) => match &s.conditions {
            Some(c) => {
                let mut i: usize = 0;
                while i < c.len()
                    invariant
                        i <= c@.len(),
                        forall|t: Seq<char>| #[trigger]
                            out.text(t) == condition_status(c@.take(i as int), t),
                    decreases c@.len() - i,
                {
                    let ghost before = out;
                    out.insert(c[i].type_.clone(), c[i].status.clone());
                    i += 1;
                    proof {
                        assert(c@.take(i as int).drop_last() =~= c@.take(i - 1));
                        assert forall|t: Seq<char>| #[trigger]
                            out.text(t) == condition_status(c@.take(i as int), t) by {
                            assert(before.text(t) == condition_status(c@.take(i - 1), t));
                        }
                    }
                }
                assert(c@.take(c@.len() as int) =~= c@);
            },
            None => {},
        },
        None => {},
    }
    out
}

pub open spec fn tolerations_of(p: Pod) -> Option<Vec<Toleration>> {
    match p.spec {
        Some(s) => s.tolerations,
        None => None,
    }
}

/// How many scheduling gates a pod still has.
pub open spec fn gates_of(p: Pod) -> nat {
    match p.spec {
        Some(s) => match s.scheduling_gates {
            Some(g) => g@.len(),
            None => 0,
        },
        None => 0,
    }
}

/// What a pod asks for of a resource.
pub open spec fn asked_of(p: Pod, name: Seq<char>) -> int {
    match p.spec {
        Some(s) => s.requests.amount(name),
        None => 0,
    }
}

/// The resources a pod names.
pub open spec fn names_of(p: Pod) -> Seq<Seq<char>> {
    match p.spec {
        Some(s) => s.requests.name_views(),
        None => Seq::empty(),
    }
}

/// Some resource that the old version names is asked for less by the new one.
pub open spec fn shrank(old: Pod, new: Pod) -> bool {
    exists|i: int|
        0 <= i < names_of(old).len() && asked_of(new, #[trigger] names_of(old)[i]) < asked_of(
            old,
            names_of(old)[i],
        )
}

pub open spec fn claim_statuses_of(p: Pod) -> Option<Vec<crate::api::PodResourceClaimStatus>> {
    match p.status {
        Some(s) => s.resource_claim_statuses,
        None => None,
    }
}

/// Two pods have the same spec: both none, or the same serialized form.
pub open spec fn same_spec(old: Pod, new: Pod) -> bool {
    match (old.spec, new.spec) {
        (Some(a), Some(b)) => a.serialized@ == b.serialized@,
        (None, None) => true,
        _ => false,
    }
}

/// Anything else that placement could depend on.
pub open spec fn changed_otherwise(old: Pod, new: Pod) -> bool {
    ||| !same_spec(old, new)
    ||| !old.metadata.annotations.same(&new.metadata.annotations)
    ||| !old.metadata.owner_references.same(&new.metadata.owner_references)
}

/// The specific bits of a pod change.
pub open spec fn pod_specific_bits(old: Pod, new: Pod) -> u32 {
    bits_if(!old.metadata.labels.same(&new.metadata.labels), ActionType::UPDATE_POD_LABEL)
        | bits_if(
        !tolerations_of(old).same(&tolerations_of(new)),
        ActionType::UPDATE_POD_TOLERATION,
    ) | bits_if(
        gates_of(old) > 0 && gates_of(new) == 0,
        ActionType::UPDATE_POD_SCHEDULING_GATES_ELIMINATED,
    ) | bits_if(shrank(old, new), ActionType::UPDATE_POD_SCALE_DOWN) | bits_if(
        !claim_statuses_of(old).same(&claim_statuses_of(new)),
        ActionType::UPDATE_POD_GENERATED_RESOURCE_CLAIM,
    )
}

/// What changed between two versions of a pod: the specific bits, or the
/// catch-all where there is none of them and something else changed.
pub open spec fn pod_change_bits(old: Pod, new: Pod) -> u32 {
    if pod_specific_bits(old, new) == 0 {
        bits_if(changed_otherwise(old, new), ActionType::UPDATE_POD_OTHER)
    } else {
        pod_specific_bits(old, new)
    }
}

/// What changed between two versions of a pod.
pub fn pod_action_types(old: &Pod, new: &Pod) -> (r: ActionType)
    ensures
        r.0 == pod_change_bits(*old, *new),
{
    let labels = !old.metadata.labels.is_same(&new.metadata.labels);
    let tolerations = match (&old.spec, &new.spec) {
        (Some(a), Some(b)) => !a.tolerations.is_same(&b.tolerations),
        (Some(a), None) => a.tolerations.is_some(),
        (None, Some(b)) => b.tolerations.is_some(),
        (None, None) => false,
    };
    let gates = gate_count(old) > 0 && gate_count(new) == 0;
    let scaled = pod_requests_decreased(old, new);
    let claims = match (&old.status, &new.status) {
        (Some(a), Some(b)) => !a.resource_claim_statuses.is_same(&b.resource_claim_statuses),
        (Some(a), None) => a.resource_claim_statuses.is_some(),
        (None, Some(b)) => b.resource_claim_statuses.is_some(),
        (None, None) => false,
    };
    let action = when(labels, ActionType::UPDATE_POD_LABEL) | when(
        tolerations,
        ActionType::UPDATE_POD_TOLERATION,
    ) | when(gates, ActionType::UPDATE_POD_SCHEDULING_GATES_ELIMINATED) | when(
        scaled,
        ActionType::UPDATE_POD_SCALE_DOWN,
    ) | when(claims, ActionType::UPDATE_POD_GENERATED_RESOURCE_CLAIM);
    if action.is_empty() {
        when(pod_changed_otherwise(old, new), ActionType::UPDATE_POD_OTHER)
    } else {
        action
    }
}

fn gate_count(p: &Pod) -> (r: usize)
    ensures
        r == gates_of(*p),
{
    match &p.spec {
        Some(s) => match &s.scheduling_gates {
            Some(g) => g.len(),
            None => 0,
        },
        None => 0,
    }
}

/// Whether the new version asks for less of any resource the old one names; a
/// resource it no longer names is asked for none of.
fn pod_requests_decreased(old: &Pod, new: &Pod) -> (r: bool)
    ensures
        r == shrank(*old, *new),
{
    let spec = match &old.spec {
        Some(s) => s,
        None => {
            return false;
        },
    };
    let names = spec.requests.names();
    let mut i: usize = 0;
    while i < names.len()
        invariant
            i <= names@.len(),
            old.spec == Some(*spec),
            crate::text::views(names@) == names_of(*old),
            forall|k: int|
                0 <= k < i ==> asked_of(*new, #[trigger] names_of(*old)[k]) >= asked_of(
                    *old,
                    names_of(*old)[k],
                ),
        decreases names@.len() - i,
    {
        let name = names[i].as_str();
        assert(name@ == names_of(*old)[i as int]);
        let before: i64 = spec.requests.get(name);
        let after: i64 = match &new.spec {
            Some(s) => s.requests.get(name),
            None => 0,
        };
        if after < before {
            return true;
        }
        i += 1;
    }
    false
}

/// Whether anything changed that no specific bit names.
fn pod_changed_otherwise(old: &Pod, new: &Pod) -> (r: bool)
    ensures
        r == changed_otherwise(*old, *new),
{
    let spec = match (&old.spec, &new.spec) {
        (Some(a), Some(b)) => a.serialized.is_same(&b.serialized),
        (None, None) => true,
        _ => false,
    };
    !spec || !old.metadata.annotations.is_same(&new.metadata.annotations)
        || !old.metadata.owner_references.is_same(&new.metadata.owner_references)
}

/// A status heartbeat wakes nothing: two versions of a node that agree on
/// labels, annotations, taints, the cordon, what is allocatable, and the
/// status of every condition differ in no action bit.
pub proof fn heartbeat_changes_nothing(old: Node, new: Node)
    requires
        old.metadata.labels.same(&new.metadata.labels),
        old.metadata.annotations.same(&new.metadata.annotations),
        taints_of(old).same(&taints_of(new)),
        unschedulable_of(old).same(&unschedulable_of(new)),
        allocatable_of(old).same(&allocatable_of(new)),
        same_conditions(old, new),
    ensures
        node_change_bits(old, new) == ActionType::NONE,
{
    assert(0u32 | 0u32 == 0u32) by (bit_vector);
}

/// An event without bits wakes no subscription.
pub proof fn empty_action_wakes_nothing(subscription: ClusterEvent, event: ClusterEvent)
    requires
        event.action.0 == 0,
    ensures
        !subscription.wakes(event),
{
    let bits = subscription.action.0;
    assert(bits & 0u32 == 0u32) by (bit_vector);
}

/// The safety net reaches every subscription that names a declared bit.
pub proof fn timeout_wakes_every_subscription(subscription: ClusterEvent)
    requires
        subscription.action.0 & ActionType::ALL != 0,
    ensures
        subscription.wakes(timeout_event()),
{
}

/// A pod that changed in a way no specific bit names is still reported.
pub proof fn other_pod_changes_are_reported(old: Pod, new: Pod)
    requires
        changed_otherwise(old, new),
    ensures
        pod_change_bits(old, new) != 0,
{
}

/// Every change of a node that is watched sets its own bit, and nothing else
/// does.
pub proof fn each_node_change_has_its_bit(old: Node, new: Node)
    ensures
        ({
            let bits = node_change_bits(old, new);
            &&& bits & ActionType::UPDATE_NODE_LABEL != 0 <==> !old.metadata.labels.same(
                &new.metadata.labels,
            )
            &&& bits & ActionType::UPDATE_NODE_ANNOTATION != 0
                <==> !old.metadata.annotations.same(&new.metadata.annotations)
            &&& bits & ActionType::UPDATE_NODE_TAINT != 0 <==> !taints_of(old).same(
                &taints_of(new),
            ) || !unschedulable_of(old).same(&unschedulable_of(new))
            &&& bits & ActionType::UPDATE_NODE_ALLOCATABLE != 0 <==> !allocatable_of(old).same(
                &allocatable_of(new),
            )
            &&& bits & ActionType::UPDATE_NODE_CONDITION != 0 <==> exists|t: Seq<char>|
                #[trigger] condition_status(conditions_of(old), t) != condition_status(
                    conditions_of(new),
                    t,
                )
        }),
{
    let a = bits_if(
        !old.metadata.labels.same(&new.metadata.labels),
        ActionType::UPDATE_NODE_LABEL,
    );
    let b = bits_if(
        !old.metadata.annotations.same(&new.metadata.annotations),
        ActionType::UPDATE_NODE_ANNOTATION,
    );
    let c = bits_if(
        !taints_of(old).same(&taints_of(new)) || !unschedulable_of(old).same(
            &unschedulable_of(new),
        ),
        ActionType::UPDATE_NODE_TAINT,
    );
    let d = bits_if(
        !allocatable_of(old).same(&allocatable_of(new)),
        ActionType::UPDATE_NODE_ALLOCATABLE,
    );
    let e = bits_if(!same_conditions(old, new), ActionType::UPDATE_NODE_CONDITION);
    assert((a == 0 || a == 8) && (b == 0 || b == 64) && (c == 0 || c == 16) && (d == 0 || d == 4)
        && (e == 0 || e == 32) ==> ((a | b | c | d | e) & 8 == a) && ((a | b | c | d | e) & 64 == b)
        && ((a | b | c | d | e) & 16 == c) && ((a | b | c | d | e) & 4 == d) && ((a | b | c | d | e)
        & 32 == e)) by (bit_vector);
}

/// Every change of a pod that has a bit of its own sets it, and nothing else
/// does; the catch-all stands alone.
pub proof fn each_pod_change_has_its_bit(old: Pod, new: Pod)
    ensures
        ({
            let bits = pod_change_bits(old, new);
            &&& bits & ActionType::UPDATE_POD_LABEL != 0 <==> !old.metadata.labels.same(
                &new.metadata.labels,
            )
            &&& bits & ActionType::UPDATE_POD_TOLERATION != 0 <==> !tolerations_of(old).same(
                &tolerations_of(new),
            )
            &&& bits & ActionType::UPDATE_POD_SCHEDULING_GATES_ELIMINATED != 0 <==> gates_of(old)
                > 0 && gates_of(new) == 0
            &&& bits & ActionType::UPDATE_POD_SCALE_DOWN != 0 <==> exists|i: int|
                0 <= i < names_of(old).len() && asked_of(new, #[trigger] names_of(old)[i])
                    < asked_of(old, names_of(old)[i])
            &&& bits & ActionType::UPDATE_POD_GENERATED_RESOURCE_CLAIM != 0
                <==> !claim_statuses_of(old).same(&claim_statuses_of(new))
            &&& bits & ActionType::UPDATE_POD_OTHER != 0 <==> bits == ActionType::UPDATE_POD_OTHER
        }),
{
    let a = bits_if(
        !old.metadata.labels.same(&new.metadata.labels),
        ActionType::UPDATE_POD_LABEL,
    );
    let b = bits_if(
        !tolerations_of(old).same(&tolerations_of(new)),
        ActionType::UPDATE_POD_TOLERATION,
    );
    let c = bits_if(
        gates_of(old) > 0 && gates_of(new) == 0,
        ActionType::UPDATE_POD_SCHEDULING_GATES_ELIMINATED,
    );
    let d = bits_if(shrank(old, new), ActionType::UPDATE_POD_SCALE_DOWN);
    let e = bits_if(
        !claim_statuses_of(old).same(&claim_statuses_of(new)),
        ActionType::UPDATE_POD_GENERATED_RESOURCE_CLAIM,
    );
    assert((a == 0 || a == 128) && (b == 0 || b == 512) && (c == 0 || c == 1024) && (d == 0 || d
        == 256) && (e == 0 || e == 2048) ==> ((a | b | c | d | e) & 128 == a) && ((a | b | c | d
        | e) & 512 == b) && ((a | b | c | d | e) & 1024 == c) && ((a | b | c | d | e) & 256 == d)
        && ((a | b | c | d | e) & 2048 == e) && ((a | b | c | d | e) & 4096 == 0)) by (bit_vector);
    assert(0u32 & 128 == 0 && 0u32 & 512 == 0 && 0u32 & 1024 == 0 && 0u32 & 256 == 0 && 0u32 & 2048
        == 0 && 0u32 & 4096 == 0) by (bit_vector);
    assert(4096u32 & 128 == 0 && 4096u32 & 512 == 0 && 4096u32 & 1024 == 0 && 4096u32 & 256 == 0
        && 4096u32 & 2048 == 0 && 4096u32 & 4096 == 4096) by (bit_vector);
}

/// The status of a condition is that of its last entry.
pub proof fn last_condition_decides(c: Seq<NodeCondition>, i: int)
    requires
        0 <= i < c.len(),
        forall|j: int| i < j < c.len() ==> (#[trigger] c[j]).type_@ != c[i].type_@,
    ensures
        condition_status(c, c[i].type_@) == Some(c[i].status@),
    decreases c.len(),
{
    let t = c.drop_last();
    if i < t.len() {
        assert(c[c.len() - 1].type_@ != c[i].type_@);
        assert forall|j: int| i < j < t.len() implies (#[trigger] t[j]).type_@ != t[i].type_@ by {
            assert(c[j].type_@ != c[i].type_@);
        }
        last_condition_decides(t, i);
    }
}

} // verus!
