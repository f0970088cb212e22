//! The parts of the cluster's API objects that placement reads.

use crate::cache::Resources;
use crate::maps::{Labels, Same, StrMap};
use std::sync::Arc;
use vstd::prelude::*;

verus! {

#[derive(Clone, Debug, Default)]
pub struct OwnerReference {
    pub api_version: String,
    pub kind: String,
    pub name: String,
    pub uid: String,
    pub controller: Option<bool>,
    pub block_owner_deletion: Option<bool>,
}

#[derive(Clone, Debug, Default)]
pub struct ObjectMeta {
    pub name: Option<String>,
    pub namespace: Option<String>,
    pub uid: Option<String>,
    pub labels: Option<Labels>,
    pub annotations: Option<Labels>,
    pub owner_references: Option<Vec<OwnerReference>>,
}

#[derive(Clone, Debug, Default)]
pub struct Taint {
    pub key: String,
    pub value: Option<String>,
    pub effect: String,
    /// When the taint was added, in whole seconds.
    pub time_added: Option<i64>,
}

#[derive(Clone, Debug, Default)]
pub struct Toleration {
    pub key: Option<String>,
    pub operator: Option<String>,
    pub value: Option<String>,
    pub effect: Option<String>,
    pub toleration_seconds: Option<i64>,
}

#[derive(Clone, Debug, Default)]
pub struct NodeCondition {
    pub type_: String,
    pub status: String,
    /// When the node last reported, in whole seconds. Read by nothing here.
    pub last_heartbeat_time: Option<i64>,
}

#[derive(Clone, Debug, Default)]
pub struct NodeSpec {
    pub taints: Option<Vec<Taint>>,
    pub unschedulable: Option<bool>,
}

#[derive(Clone, Debug, Default)]
pub struct NodeStatus {
    /// Resource name to quantity, as written.
    pub allocatable: Option<StrMap<String>>,
    pub conditions: Option<Vec<NodeCondition>>,
}

#[derive(Clone, Debug, Default)]
pub struct Node {
    pub metadata: ObjectMeta,
    pub spec: Option<NodeSpec>,
    pub status: Option<NodeStatus>,
}

#[derive(Clone, Debug, Default)]
pub struct PodSchedulingGate {
    pub name: String,
}

#[derive(Clone, Debug, Default)]
pub struct ResourceRequirements {
    pub requests: Option<StrMap<String>>,
    pub limits: Option<StrMap<String>>,
}

#[derive(Clone, Debug, Default)]
pub struct Container {
    pub name: String,
    pub resources: Option<ResourceRequirements>,
}

#[derive(Clone, Debug, Default)]
pub struct PodSpec {
    pub node_selector: Option<Labels>,
    pub priority: Option<i32>,
    pub scheduler_name: Option<String>,
    pub tolerations: Option<Vec<Toleration>>,
    pub scheduling_gates: Option<Vec<PodSchedulingGate>>,
    pub containers: Vec<Container>,
    pub init_containers: Option<Vec<Container>>,
    /// What the containers ask for together.
    pub requests: Resources,
    /// The whole spec in its serialized form, by which two specs are compared.
    pub serialized: String,
}

#[derive(Clone, Debug, Default)]
pub struct PodResourceClaimStatus {
    pub name: String,
    pub resource_claim_name: Option<String>,
}

#[derive(Clone, Debug, Default)]
pub struct PodStatus {
    pub phase: Option<String>,
    pub resource_claim_statuses: Option<Vec<PodResourceClaimStatus>>,
}

#[derive(Clone, Debug, Default)]
pub struct Pod {
    pub metadata: ObjectMeta,
    pub spec: Option<PodSpec>,
    pub status: Option<PodStatus>,
}

#[derive(Clone, Debug, PartialEq, Default)]
pub struct LabelSelectorRequirement {
    pub key: String,
    pub operator: String,
    pub values: Option<Vec<String>>,
}

#[derive(Clone, Debug, PartialEq, Default)]
pub struct LabelSelector {
    pub match_labels: Option<Labels>,
    pub match_expressions: Option<Vec<LabelSelectorRequirement>>,
}

#[derive(Clone, Debug, Default)]
pub struct NodeSelectorRequirement {
    pub key: String,
    pub operator: String,
    pub values: Option<Vec<String>>,
}

#[derive(Clone, Debug, Default)]
pub struct NodeSelectorTerm {
    pub match_expressions: Option<Vec<NodeSelectorRequirement>>,
    pub match_fields: Option<Vec<NodeSelectorRequirement>>,
}

#[derive(Clone, Debug, Default)]
pub struct NodeSelector {
    pub node_selector_terms: Vec<NodeSelectorTerm>,
}

#[derive(Clone, Debug, Default)]
pub struct PodAffinityTerm {
    pub label_selector: Option<LabelSelector>,
    pub topology_key: String,
    pub namespaces: Option<Vec<String>>,
    pub namespace_selector: Option<LabelSelector>,
}

#[derive(Clone, Debug, Default)]
pub struct WeightedPodAffinityTerm {
    pub pod_affinity_term: PodAffinityTerm,
    pub weight: i32,
}

#[derive(Clone, Debug, Default)]
pub struct PodAffinity {
    pub required_during_scheduling_ignored_during_execution: Option<Arc<Vec<PodAffinityTerm>>>,
    pub preferred_during_scheduling_ignored_during_execution: Option<Arc<Vec<WeightedPodAffinityTerm>>>,
}

#[derive(Clone, Debug, Default)]
pub struct PodAntiAffinity {
    pub required_during_scheduling_ignored_during_execution: Option<Arc<Vec<PodAffinityTerm>>>,
    pub preferred_during_scheduling_ignored_during_execution: Option<Arc<Vec<WeightedPodAffinityTerm>>>,
}

#[derive(Clone, Debug, Default)]
pub struct Affinity {
    pub pod_affinity: Option<PodAffinity>,
    pub pod_anti_affinity: Option<PodAntiAffinity>,
}

#[derive(Clone, Debug, Default)]
pub struct TopologySpreadConstraint {
    pub max_skew: i32,
    pub topology_key: String,
    pub when_unsatisfiable: String,
    pub label_selector: Option<LabelSelector>,
    pub match_label_keys: Option<Vec<String>>,
    pub min_domains: Option<i32>,
    pub node_affinity_policy: Option<String>,
    pub node_taints_policy: Option<String>,
}

#[derive(Clone, Debug, Default)]
pub struct TopologySelectorLabelRequirement {
    pub key: String,
    pub values: Vec<String>,
}

#[derive(Clone, Debug, Default)]
pub struct TopologySelectorTerm {
    pub match_label_expressions: Option<Vec<TopologySelectorLabelRequirement>>,
}

#[derive(Clone, Debug, Default)]
pub struct PodDisruptionBudgetSpec {
    pub selector: Option<Arc<LabelSelector>>,
}

#[derive(Clone, Debug, Default)]
pub struct PodDisruptionBudgetStatus {
    pub disruptions_allowed: i32,
    /// Pod name to the time its disruption was recorded.
    pub disrupted_pods: Option<StrMap<i64>>,
}

#[derive(Clone, Debug, Default)]
pub struct PodDisruptionBudget {
    pub metadata: ObjectMeta,
    pub spec: Option<PodDisruptionBudgetSpec>,
    pub status: Option<PodDisruptionBudgetStatus>,
}

impl Same for OwnerReference {
    open spec fn same(&self, other: &Self) -> bool {
        &&& self.api_version.same(&other.api_version)
        &&& self.kind.same(&other.kind)
        &&& self.name.same(&other.name)
        &&& self.uid.same(&other.uid)
        &&& self.controller.same(&other.controller)
        &&& self.block_owner_deletion.same(&other.block_owner_deletion)
    }

    fn is_same(&self, other: &Self) -> (r: bool) {
        self.api_version.is_same(&other.api_version) && self.kind.is_same(&other.kind) && self.name.is_same(&other.name) && self.uid.is_same(&other.uid) && self.controller.is_same(&other.controller) && self.block_owner_deletion.is_same(&other.block_owner_deletion)
    }

    fn duplicate(&self) -> (r: Self) {
        OwnerReference {
            api_version: self.api_version.duplicate(),
            kind: self.kind.duplicate(),
            name: self.name.duplicate(),
            uid: self.uid.duplicate(),
            controller: self.controller.duplicate(),
            block_owner_deletion: self.block_owner_deletion.duplicate(),
        }
    }
}

impl Same for ObjectMeta {
    open spec fn same(&self, other: &Self) -> bool {
        &&& self.name.same(&other.name)
        &&& self.namespace.same(&other.namespace)
        &&& self.uid.same(&other.uid)
        &&& self.labels.same(&other.labels)
        &&& self.annotations.same(&other.annotations)
        &&& self.owner_references.same(&other.owner_references)
    }

    fn is_same(&self, other: &Self) -> (r: bool) {
        self.name.is_same(&other.name) && self.namespace.is_same(&other.namespace) && self.uid.is_same(&other.uid) && self.labels.is_same(&other.labels) && self.annotations.is_same(&other.annotations) && self.owner_references.is_same(&other.owner_references)
    }

    fn duplicate(&self) -> (r: Self) {
        ObjectMeta {
            name: self.name.duplicate(),
            namespace: self.namespace.duplicate(),
            uid: self.uid.duplicate(),
            labels: self.labels.duplicate(),
            annotations: self.annotations.duplicate(),
            owner_references: self.owner_references.duplicate(),
        }
    }
}

impl Same for Taint {
    open spec fn same(&self, other: &Self) -> bool {
        &&& self.key.same(&other.key)
        &&& self.value.same(&other.value)
        &&& self.effect.same(&other.effect)
        &&& self.time_added.same(&other.time_added)
    }

    fn is_same(&self, other: &Self) -> (r: bool) {
        self.key.is_same(&other.key) && self.value.is_same(&other.value) && self.effect.is_same(&other.effect) && self.time_added.is_same(&other.time_added)
    }

    fn duplicate(&self) -> (r: Self) {
        Taint {
            key: self.key.duplicate(),
            value: self.value.duplicate(),
            effect: self.effect.duplicate(),
            time_added: self.time_added.duplicate(),
        }
    }
}

impl Same for Toleration {
    open spec fn same(&self, other: &Self) -> bool {
        &&& self.key.same(&other.key)
        &&& self.operator.same(&other.operator)
        &&& self.value.same(&other.value)
        &&& self.effect.same(&other.effect)
        &&& self.toleration_seconds.same(&other.toleration_seconds)
    }

    fn is_same(&self, other: &Self) -> (r: bool) {
        self.key.is_same(&other.key) && self.operator.is_same(&other.operator) && self.value.is_same(&other.value) && self.effect.is_same(&other.effect) && self.toleration_seconds.is_same(&other.toleration_seconds)
    }

    fn duplicate(&self) -> (r: Self) {
        Toleration {
            key: self.key.duplicate(),
            operator: self.operator.duplicate(),
            value: self.value.duplicate(),
            effect: self.effect.duplicate(),
            toleration_seconds: self.toleration_seconds.duplicate(),
        }
    }
}

impl Same for NodeCondition {
    open spec fn same(&self, other: &Self) -> bool {
        &&& self.type_.same(&other.type_)
        &&& self.status.same(&other.status)
        &&& self.last_heartbeat_time.same(&other.last_heartbeat_time)
    }

    fn is_same(&self, other: &Self) -> (r: bool) {
        self.type_.is_same(&other.type_) && self.status.is_same(&other.status) && self.last_heartbeat_time.is_same(&other.last_heartbeat_time)
    }

    fn duplicate(&self) -> (r: Self) {
        NodeCondition {
            type_: self.type_.duplicate(),
            status: self.status.duplicate(),
            last_heartbeat_time: self.last_heartbeat_time.duplicate(),
        }
    }
}

impl Same for NodeSpec {
    open spec fn same(&self, other: &Self) -> bool {
        &&& self.taints.same(&other.taints)
        &&& self.unschedulable.same(&other.unschedulable)
    }

    fn is_same(&self, other: &Self) -> (r: bool) {
        self.taints.is_same(&other.taints) && self.unschedulable.is_same(&other.unschedulable)
    }

    fn duplicate(&self) -> (r: Self) {
        NodeSpec {
            taints: self.taints.duplicate(),
            unschedulable: self.unschedulable.duplicate(),
        }
    }
}

impl Same for NodeStatus {
    open spec fn same(&self, other: &Self) -> bool {
        &&& self.allocatable.same(&other.allocatable)
        &&& self.conditions.same(&other.conditions)
    }

    fn is_same(&self, other: &Self) -> (r: bool) {
        self.allocatable.is_same(&other.allocatable) && self.conditions.is_same(&other.conditions)
    }

    fn duplicate(&self) -> (r: Self) {
        NodeStatus {
            allocatable: self.allocatable.duplicate(),
            conditions: self.conditions.duplicate(),
        }
    }
}

impl Same for Node {
    open spec fn same(&self, other: &Self) -> bool {
        &&& self.metadata.same(&other.metadata)
        &&& self.spec.same(&other.spec)
        &&& self.status.same(&other.status)
    }

    fn is_same(&self, other: &Self) -> (r: bool) {
        self.metadata.is_same(&other.metadata) && self.spec.is_same(&other.spec) && self.status.is_same(&other.status)
    }

    fn duplicate(&self) -> (r: Self) {
        Node {
            metadata: self.metadata.duplicate(),
            spec: self.spec.duplicate(),
            status: self.status.duplicate(),
        }
    }
}

impl Same for PodSchedulingGate {
    open spec fn same(&self, other: &Self) -> bool {
        &&& self.name.same(&other.name)
    }

    fn is_same(&self, other: &Self) -> (r: bool) {
        self.name.is_same(&other.name)
    }

    fn duplicate(&self) -> (r: Self) {
        PodSchedulingGate {
            name: self.name.duplicate(),
        }
    }
}

impl Same for ResourceRequirements {
    open spec fn same(&self, other: &Self) -> bool {
        &&& self.requests.same(&other.requests)
        &&& self.limits.same(&other.limits)
    }

    fn is_same(&self, other: &Self) -> (r: bool) {
        self.requests.is_same(&other.requests) && self.limits.is_same(&other.limits)
    }

    fn duplicate(&self) -> (r: Self) {
        ResourceRequirements {
            requests: self.requests.duplicate(),
            limits: self.limits.duplicate(),
        }
    }
}

impl Same for Container {
    open spec fn same(&self, other: &Self) -> bool {
        &&& self.name.same(&other.name)
        &&& self.resources.same(&other.resources)
    }

    fn is_same(&self, other: &Self) -> (r: bool) {
        self.name.is_same(&other.name) && self.resources.is_same(&other.resources)
    }

    fn duplicate(&self) -> (r: Self) {
        Container {
            name: self.name.duplicate(),
            resources: self.resources.duplicate(),
        }
    }
}

impl Same for PodSpec {
    open spec fn same(&self, other: &Self) -> bool {
        &&& self.node_selector.same(&other.node_selector)
        &&& self.priority.same(&other.priority)
        &&& self.scheduler_name.same(&other.scheduler_name)
        &&& self.tolerations.same(&other.tolerations)
        &&& self.scheduling_gates.same(&other.scheduling_gates)
        &&& self.containers.same(&other.containers)
        &&& self.init_containers.same(&other.init_containers)
        &&& self.requests.same(&other.requests)
        &&& self.serialized.same(&other.serialized)
    }

    fn is_same(&self, other: &Self) -> (r: bool) {
        self.node_selector.is_same(&other.node_selector) && self.priority.is_same(&other.priority) && self.scheduler_name.is_same(&other.scheduler_name) && self.tolerations.is_same(&other.tolerations) && self.scheduling_gates.is_same(&other.scheduling_gates) && self.containers.is_same(&other.containers) && self.init_containers.is_same(&other.init_containers) && self.requests.is_same(&other.requests) && self.serialized.is_same(&other.serialized)
    }

    fn duplicate(&self) -> (r: Self) {
        PodSpec {
            node_selector: self.node_selector.duplicate(),
            priority: self.priority.duplicate(),
            scheduler_name: self.scheduler_name.duplicate(),
            tolerations: self.tolerations.duplicate(),
            scheduling_gates: self.scheduling_gates.duplicate(),
            containers: self.containers.duplicate(),
            init_containers: self.init_containers.duplicate(),
            requests: self.requests.duplicate(),
            serialized: self.serialized.duplicate(),
        }
    }
}

impl Same for PodResourceClaimStatus {
    open spec fn same(&self, other: &Self) -> bool {
        &&& self.name.same(&other.name)
        &&& self.resource_claim_name.same(&other.resource_claim_name)
    }

    fn is_same(&self, other: &Self) -> (r: bool) {
        self.name.is_same(&other.name) && self.resource_claim_name.is_same(&other.resource_claim_name)
    }

    fn duplicate(&self) -> (r: Self) {
        PodResourceClaimStatus {
            name: self.name.duplicate(),
            resource_claim_name: self.resource_claim_name.duplicate(),
        }
    }
}

impl Same for PodStatus {
    open spec fn same(&self, other: &Self) -> bool {
        &&& self.phase.same(&other.phase)
        &&& self.resource_claim_statuses.same(&other.resource_claim_statuses)
    }

    fn is_same(&self, other: &Self) -> (r: bool) {
        self.phase.is_same(&other.phase) && self.resource_claim_statuses.is_same(&other.resource_claim_statuses)
    }

    fn duplicate(&self) -> (r: Self) {
        PodStatus {
            phase: self.phase.duplicate(),
            resource_claim_statuses: self.resource_claim_statuses.duplicate(),
        }
    }
}

impl Same for Pod {
    open spec fn same(&self, other: &Self) -> bool {
        &&& self.metadata.same(&other.metadata)
        &&& self.spec.same(&other.spec)
        &&& self.status.same(&other.status)
    }

    fn is_same(&self, other: &Self) -> (r: bool) {
        self.metadata.is_same(&other.metadata) && self.spec.is_same(&other.spec) && self.status.is_same(&other.status)
    }

    fn duplicate(&self) -> (r: Self) {
        Pod {
            metadata: self.metadata.duplicate(),
            spec: self.spec.duplicate(),
            status: self.status.duplicate(),
        }
    }
}

impl Same for LabelSelectorRequirement {
    open spec fn same(&self, other: &Self) -> bool {
        &&& self.key.same(&other.key)
        &&& self.operator.same(&other.operator)
        &&& self.values.same(&other.values)
    }

    fn is_same(&self, other: &Self) -> (r: bool) {
        self.key.is_same(&other.key) && self.operator.is_same(&other.operator) && self.values.is_same(&other.values)
    }

    fn duplicate(&self) -> (r: Self) {
        LabelSelectorRequirement {
            key: self.key.duplicate(),
            operator: self.operator.duplicate(),
            values: self.values.duplicate(),
        }
    }
}

impl Same for LabelSelector {
    open spec fn same(&self, other: &Self) -> bool {
        &&& self.match_labels.same(&other.match_labels)
        &&& self.match_expressions.same(&other.match_expressions)
    }

    fn is_same(&self, other: &Self) -> (r: bool) {
        self.match_labels.is_same(&other.match_labels) && self.match_expressions.is_same(&other.match_expressions)
    }

    fn duplicate(&self) -> (r: Self) {
        LabelSelector {
            match_labels: self.match_labels.duplicate(),
            match_expressions: self.match_expressions.duplicate(),
        }
    }
}

impl Same for NodeSelectorRequirement {
    open spec fn same(&self, other: &Self) -> bool {
        &&& self.key.same(&other.key)
        &&& self.operator.same(&other.operator)
        &&& self.values.same(&other.values)
    }

    fn is_same(&self, other: &Self) -> (r: bool) {
        self.key.is_same(&other.key) && self.operator.is_same(&other.operator) && self.values.is_same(&other.values)
    }

    fn duplicate(&self) -> (r: Self) {
        NodeSelectorRequirement {
            key: self.key.duplicate(),
            operator: self.operator.duplicate(),
            values: self.values.duplicate(),
        }
    }
}

impl Same for NodeSelectorTerm {
    open spec fn same(&self, other: &Self) -> bool {
        &&& self.match_expressions.same(&other.match_expressions)
        &&& self.match_fields.same(&other.match_fields)
    }

    fn is_same(&self, other: &Self) -> (r: bool) {
        self.match_expressions.is_same(&other.match_expressions) && self.match_fields.is_same(&other.match_fields)
    }

    fn duplicate(&self) -> (r: Self) {
        NodeSelectorTerm {
            match_expressions: self.match_expressions.duplicate(),
            match_fields: self.match_fields.duplicate(),
        }
    }
}

impl Same for NodeSelector {
    open spec fn same(&self, other: &Self) -> bool {
        &&& self.node_selector_terms.same(&other.node_selector_terms)
    }

    fn is_same(&self, other: &Self) -> (r: bool) {
        self.node_selector_terms.is_same(&other.node_selector_terms)
    }

    fn duplicate(&self) -> (r: Self) {
        NodeSelector {
            node_selector_terms: self.node_selector_terms.duplicate(),
        }
    }
}

impl Same for PodAffinityTerm {
    open spec fn same(&self, other: &Self) -> bool {
        &&& self.label_selector.same(&other.label_selector)
        &&& self.topology_key.same(&other.topology_key)
        &&& self.namespaces.same(&other.namespaces)
        &&& self.namespace_selector.same(&other.namespace_selector)
    }

    fn is_same(&self, other: &Self) -> (r: bool) {
        self.label_selector.is_same(&other.label_selector) && self.topology_key.is_same(&other.topology_key) && self.namespaces.is_same(&other.namespaces) && self.namespace_selector.is_same(&other.namespace_selector)
    }

    fn duplicate(&self) -> (r: Self) {
        PodAffinityTerm {
            label_selector: self.label_selector.duplicate(),
            topology_key: self.topology_key.duplicate(),
            namespaces: self.namespaces.duplicate(),
            namespace_selector: self.namespace_selector.duplicate(),
        }
    }
}

impl Same for WeightedPodAffinityTerm {
    open spec fn same(&self, other: &Self) -> bool {
        &&& self.pod_affinity_term.same(&other.pod_affinity_term)
        &&& self.weight.same(&other.weight)
    }

    fn is_same(&self, other: &Self) -> (r: bool) {
        self.pod_affinity_term.is_same(&other.pod_affinity_term) && self.weight.is_same(&other.weight)
    }

    fn duplicate(&self) -> (r: Self) {
        WeightedPodAffinityTerm {
            pod_affinity_term: self.pod_affinity_term.duplicate(),
            weight: self.weight.duplicate(),
        }
    }
}

impl Same for PodAffinity {
    open spec fn same(&self, other: &Self) -> bool {
        &&& self.required_during_scheduling_ignored_during_execution.same(&other.required_during_scheduling_ignored_during_execution)
        &&& self.preferred_during_scheduling_ignored_during_execution.same(&other.preferred_during_scheduling_ignored_during_execution)
    }

    fn is_same(&self, other: &Self) -> (r: bool) {
        self.required_during_scheduling_ignored_during_execution.is_same(&other.required_during_scheduling_ignored_during_execution) && self.preferred_during_scheduling_ignored_during_execution.is_same(&other.preferred_during_scheduling_ignored_during_execution)
    }

    fn duplicate(&self) -> (r: Self) {
        PodAffinity {
            required_during_scheduling_ignored_during_execution: self.required_during_scheduling_ignored_during_execution.duplicate(),
            preferred_during_scheduling_ignored_during_execution: self.preferred_during_scheduling_ignored_during_execution.duplicate(),
        }
    }
}

impl Same for PodAntiAffinity {
    open spec fn same(&self, other: &Self) -> bool {
        &&& self.required_during_scheduling_ignored_during_execution.same(&other.required_during_scheduling_ignored_during_execution)
        &&& self.preferred_during_scheduling_ignored_during_execution.same(&other.preferred_during_scheduling_ignored_during_execution)
    }

    fn is_same(&self, other: &Self) -> (r: bool) {
        self.required_during_scheduling_ignored_during_execution.is_same(&other.required_during_scheduling_ignored_during_execution) && self.preferred_during_scheduling_ignored_during_execution.is_same(&other.preferred_during_scheduling_ignored_during_execution)
    }

    fn duplicate(&self) -> (r: Self) {
        PodAntiAffinity {
            required_during_scheduling_ignored_during_execution: self.required_during_scheduling_ignored_during_execution.duplicate(),
            preferred_during_scheduling_ignored_during_execution: self.preferred_during_scheduling_ignored_during_execution.duplicate(),
        }
    }
}

impl Same for Affinity {
    open spec fn same(&self, other: &Self) -> bool {
        &&& self.pod_affinity.same(&other.pod_affinity)
        &&& self.pod_anti_affinity.same(&other.pod_anti_affinity)
    }

    fn is_same(&self, other: &Self) -> (r: bool) {
        self.pod_affinity.is_same(&other.pod_affinity) && self.pod_anti_affinity.is_same(&other.pod_anti_affinity)
    }

    fn duplicate(&self) -> (r: Self) {
        Affinity {
            pod_affinity: self.pod_affinity.duplicate(),
            pod_anti_affinity: self.pod_anti_affinity.duplicate(),
        }
    }
}

impl Same for TopologySpreadConstraint {
    open spec fn same(&self, other: &Self) -> bool {
        &&& self.max_skew.same(&other.max_skew)
        &&& self.topology_key.same(&other.topology_key)
        &&& self.when_unsatisfiable.same(&other.when_unsatisfiable)
        &&& self.label_selector.same(&other.label_selector)
        &&& self.match_label_keys.same(&other.match_label_keys)
        &&& self.min_domains.same(&other.min_domains)
        &&& self.node_affinity_policy.same(&other.node_affinity_policy)
        &&& self.node_taints_policy.same(&other.node_taints_policy)
    }

    fn is_same(&self, other: &Self) -> (r: bool) {
        self.max_skew.is_same(&other.max_skew) && self.topology_key.is_same(&other.topology_key) && self.when_unsatisfiable.is_same(&other.when_unsatisfiable) && self.label_selector.is_same(&other.label_selector) && self.match_label_keys.is_same(&other.match_label_keys) && self.min_domains.is_same(&other.min_domains) && self.node_affinity_policy.is_same(&other.node_affinity_policy) && self.node_taints_policy.is_same(&other.node_taints_policy)
    }

    fn duplicate(&self) -> (r: Self) {
        TopologySpreadConstraint {
            max_skew: self.max_skew.duplicate(),
            topology_key: self.topology_key.duplicate(),
            when_unsatisfiable: self.when_unsatisfiable.duplicate(),
            label_selector: self.label_selector.duplicate(),
            match_label_keys: self.match_label_keys.duplicate(),
            min_domains: self.min_domains.duplicate(),
            node_affinity_policy: self.node_affinity_policy.duplicate(),
            node_taints_policy: self.node_taints_policy.duplicate(),
        }
    }
}

impl Same for TopologySelectorLabelRequirement {
    open spec fn same(&self, other: &Self) -> bool {
        &&& self.key.same(&other.key)
        &&& self.values.same(&other.values)
    }

    fn is_same(&self, other: &Self) -> (r: bool) {
        self.key.is_same(&other.key) && self.values.is_same(&other.values)
    }

    fn duplicate(&self) -> (r: Self) {
        TopologySelectorLabelRequirement {
            key: self.key.duplicate(),
            values: self.values.duplicate(),
        }
    }
}

impl Same for TopologySelectorTerm {
    open spec fn same(&self, other: &Self) -> bool {
        &&& self.match_label_expressions.same(&other.match_label_expressions)
    }

    fn is_same(&self, other: &Self) -> (r: bool) {
        self.match_label_expressions.is_same(&other.match_label_expressions)
    }

    fn duplicate(&self) -> (r: Self) {
        TopologySelectorTerm {
            match_label_expressions: self.match_label_expressions.duplicate(),
        }
    }
}

impl Same for PodDisruptionBudgetSpec {
    open spec fn same(&self, other: &Self) -> bool {
        &&& self.selector.same(&other.selector)
    }

    fn is_same(&self, other: &Self) -> (r: bool) {
        self.selector.is_same(&other.selector)
    }

    fn duplicate(&self) -> (r: Self) {
        PodDisruptionBudgetSpec {
            selector: self.selector.duplicate(),
        }
    }
}

impl Same for PodDisruptionBudgetStatus {
    open spec fn same(&self, other: &Self) -> bool {
        &&& self.disruptions_allowed.same(&other.disruptions_allowed)
        &&& self.disrupted_pods.same(&other.disrupted_pods)
    }

    fn is_same(&self, other: &Self) -> (r: bool) {
        self.disruptions_allowed.is_same(&other.disruptions_allowed) && self.disrupted_pods.is_same(&other.disrupted_pods)
    }

    fn duplicate(&self) -> (r: Self) {
        PodDisruptionBudgetStatus {
            disruptions_allowed: self.disruptions_allowed.duplicate(),
            disrupted_pods: self.disrupted_pods.duplicate(),
        }
    }
}

impl Same for PodDisruptionBudget {
    open spec fn same(&self, other: &Self) -> bool {
        &&& self.metadata.same(&other.metadata)
        &&& self.spec.same(&other.spec)
        &&& self.status.same(&other.status)
    }

    fn is_same(&self, other: &Self) -> (r: bool) {
        self.metadata.is_same(&other.metadata) && self.spec.is_same(&other.spec) && self.status.is_same(&other.status)
    }

    fn duplicate(&self) -> (r: Self) {
        PodDisruptionBudget {
            metadata: self.metadata.duplicate(),
            spec: self.spec.duplicate(),
            status: self.status.duplicate(),
        }
    }
}

impl Taint {
    /// An equal taint.
    pub fn copy(&self) -> (r: Self)
        ensures
            r == *self,
    {
        Taint {
            key: self.key.clone(),
            value: copy_text(&self.value),
            effect: self.effect.clone(),
            time_added: self.time_added,
        }
    }
}

impl Toleration {
    /// An equal toleration.
    pub fn copy(&self) -> (r: Self)
        ensures
            r == *self,
    {
        Toleration {
            key: copy_text(&self.key),
            operator: copy_text(&self.operator),
            value: copy_text(&self.value),
            effect: copy_text(&self.effect),
            toleration_seconds: self.toleration_seconds,
        }
    }
}

pub fn copy_text(t: &Option<String>) -> (r: Option<String>)
    ensures
        r == *t,
{
    match t {
        Some(s) => Some(s.clone()),
        None => None,
    }
}

/// A list of equal strings.
pub fn copy_texts(v: &Vec<String>) -> (r: Vec<String>)
    ensures
        r@ == v@,
{
    let mut out: Vec<String> = Vec::new();
    let mut i: usize = 0;
    while i < v.len()
        invariant
            i <= v@.len(),
            out@ == v@.take(i as int),
        decreases v@.len() - i,
    {
        out.push(v[i].clone());
        i += 1;
        proof {
            assert(v@.take(i as int) =~= v@.take(i - 1).push(v@[i - 1]));
        }
    }
    assert(v@.take(v@.len() as int) =~= v@);
    out
}

/// A map with the same pairs in the same order.
pub fn copy_labels(m: &Labels) -> (r: Labels)
    ensures
        r.entries@ == m.entries@,
{
    let mut out: Vec<(String, String)> = Vec::new();
    let mut i: usize = 0;
    while i < m.entries.len()
        invariant
            i <= m.entries@.len(),
            out@ == m.entries@.take(i as int),
        decreases m.entries@.len() - i,
    {
        out.push((m.entries[i].0.clone(), m.entries[i].1.clone()));
        i += 1;
        proof {
            assert(m.entries@.take(i as int) =~= m.entries@.take(i - 1).push(m.entries@[i - 1]));
        }
    }
    assert(m.entries@.take(m.entries@.len() as int) =~= m.entries@);
    StrMap { entries: out }
}

} // verus!
