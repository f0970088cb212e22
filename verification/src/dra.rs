//! Claims for devices and the inventory they are met from.

use crate::api::{NodeSelector, ObjectMeta};
use crate::maps::{Same, StrMap};
use crate::text::joined;
use std::sync::Arc;
use vstd::prelude::*;

verus! {

/// A pod's reference to a claim: by name, or by the template one is made from.
#[derive(Clone, Debug, Default)]
pub struct PodClaimRef {
    pub name: String,
    pub resource_claim_name: Option<String>,
    pub resource_claim_template_name: Option<String>,
}

impl PodClaimRef {
    /// The name of the claim object: the one referred to, else the one
    /// generated for this reference, else none.
    pub open spec fn object_name_view(&self, statuses: StrMap<Option<String>>) -> Option<
        Seq<char>,
    > {
        match self.resource_claim_name {
            Some(n) => Some(n@),
            None => match statuses.at(self.name@) {
                Some(Some(n)) => Some(n@),
                _ => None,
            },
        }
    }

    pub fn object_name(&self, statuses: &StrMap<Option<String>>) -> (r: Option<String>)
        ensures
            match self.object_name_view(*statuses) {
                Some(n) => r is Some && r->Some_0@ == n,
                None => r is None,
            },
    {
        match &self.resource_claim_name {
            Some(n) => Some(n.clone()),
            None => match statuses.get(self.name.as_str()) {
                Some(Some(n)) => Some(n.clone()),
                _ => None,
            },
        }
    }
}

#[derive(Clone, Debug, Default)]
pub struct CelSelector {
    pub expression: String,
}

#[derive(Clone, Debug, Default)]
pub struct DeviceSelector {
    pub cel: Option<CelSelector>,
}

#[derive(Clone, Debug, Default)]
pub struct DeviceClassSpec {
    pub selectors: Option<Vec<DeviceSelector>>,
}

#[derive(Clone, Debug, Default)]
pub struct DeviceClass {
    pub metadata: ObjectMeta,
    pub spec: DeviceClassSpec,
}

#[derive(Clone, Debug, Default)]
pub struct ExactDeviceRequest {
    pub device_class_name: Option<String>,
    pub selectors: Option<Vec<DeviceSelector>>,
    pub allocation_mode: Option<String>,
    pub count: Option<i64>,
    pub admin_access: Option<bool>,
}

/// One alternative of a request. It never carries admin access.
#[derive(Clone, Debug, Default)]
pub struct DeviceSubRequest {
    pub name: String,
    pub device_class_name: Option<String>,
    pub selectors: Option<Vec<DeviceSelector>>,
    pub allocation_mode: Option<String>,
    pub count: Option<i64>,
}

#[derive(Clone, Debug, Default)]
pub struct DeviceRequest {
    pub name: String,
    pub exactly: Option<ExactDeviceRequest>,
    pub first_available: Option<Vec<DeviceSubRequest>>,
}

/// Devices picked for the named requests (all, if it names none) must report
/// one value for an attribute.
#[derive(Clone, Debug, Default)]
pub struct DeviceConstraint {
    pub match_attribute: Option<String>,
    pub requests: Vec<String>,
}

#[derive(Clone, Debug, Default)]
pub struct DeviceClaim {
    pub requests: Option<Vec<DeviceRequest>>,
    pub constraints: Option<Arc<Vec<DeviceConstraint>>>,
}

#[derive(Clone, Debug, Default)]
pub struct ResourceClaimSpec {
    pub devices: Option<DeviceClaim>,
}

/// A pod or other object that a claim is reserved for.
#[derive(Clone, Debug, Default)]
pub struct ConsumerReference {
    pub api_group: Option<String>,
    pub resource: String,
    pub name: String,
    pub uid: String,
}

/// One device handed to one request.
#[derive(Clone, Debug, Default)]
pub struct DeviceRequestAllocationResult {
    pub request: String,
    pub driver: String,
    pub pool: String,
    pub device: String,
    pub admin_access: bool,
}

#[derive(Clone, Debug, Default)]
pub struct DeviceAllocationResult {
    pub results: Option<Vec<DeviceRequestAllocationResult>>,
}

#[derive(Clone, Debug, Default)]
pub struct AllocationResult {
    pub devices: Option<DeviceAllocationResult>,
    pub node_selector: Option<Arc<NodeSelector>>,
}

#[derive(Clone, Debug, Default)]
pub struct ResourceClaimStatus {
    pub allocation: Option<AllocationResult>,
    pub reserved_for: Option<Vec<ConsumerReference>>,
}

#[derive(Clone, Debug, Default)]
pub struct ResourceClaim {
    pub metadata: ObjectMeta,
    pub spec: ResourceClaimSpec,
    pub status: Option<ResourceClaimStatus>,
}

impl Same for PodClaimRef {
    open spec fn same(&self, other: &Self) -> bool {
        &&& self.name.same(&other.name)
        &&& self.resource_claim_name.same(&other.resource_claim_name)
        &&& self.resource_claim_template_name.same(&other.resource_claim_template_name)
    }

    fn is_same(&self, other: &Self) -> (r: bool) {
        self.name.is_same(&other.name) && self.resource_claim_name.is_same(&other.resource_claim_name) && self.resource_claim_template_name.is_same(&other.resource_claim_template_name)
    }

    fn duplicate(&self) -> (r: Self) {
        PodClaimRef {
            name: self.name.duplicate(),
            resource_claim_name: self.resource_claim_name.duplicate(),
            resource_claim_template_name: self.resource_claim_template_name.duplicate(),
        }
    }
}

impl Same for ConsumerReference {
    open spec fn same(&self, other: &Self) -> bool {
        &&& self.api_group.same(&other.api_group)
        &&& self.resource.same(&other.resource)
        &&& self.name.same(&other.name)
        &&& self.uid.same(&other.uid)
    }

    fn is_same(&self, other: &Self) -> (r: bool) {
        self.api_group.is_same(&other.api_group) && self.resource.is_same(&other.resource) && self.name.is_same(&other.name) && self.uid.is_same(&other.uid)
    }

    fn duplicate(&self) -> (r: Self) {
        ConsumerReference {
            api_group: self.api_group.duplicate(),
            resource: self.resource.duplicate(),
            name: self.name.duplicate(),
            uid: self.uid.duplicate(),
        }
    }
}

impl Same for DeviceRequestAllocationResult {
    open spec fn same(&self, other: &Self) -> bool {
        &&& self.request.same(&other.request)
        &&& self.driver.same(&other.driver)
        &&& self.pool.same(&other.pool)
        &&& self.device.same(&other.device)
        &&& self.admin_access.same(&other.admin_access)
    }

    fn is_same(&self, other: &Self) -> (r: bool) {
        self.request.is_same(&other.request) && self.driver.is_same(&other.driver) && self.pool.is_same(&other.pool) && self.device.is_same(&other.device) && self.admin_access.is_same(&other.admin_access)
    }

    fn duplicate(&self) -> (r: Self) {
        DeviceRequestAllocationResult {
            request: self.request.duplicate(),
            driver: self.driver.duplicate(),
            pool: self.pool.duplicate(),
            device: self.device.duplicate(),
            admin_access: self.admin_access.duplicate(),
        }
    }
}

impl Same for DeviceAllocationResult {
    open spec fn same(&self, other: &Self) -> bool {
        &&& self.results.same(&other.results)
    }

    fn is_same(&self, other: &Self) -> (r: bool) {
        self.results.is_same(&other.results)
    }

    fn duplicate(&self) -> (r: Self) {
        DeviceAllocationResult {
            results: self.results.duplicate(),
        }
    }
}

impl Same for AllocationResult {
    open spec fn same(&self, other: &Self) -> bool {
        &&& self.devices.same(&other.devices)
        &&& self.node_selector.same(&other.node_selector)
    }

    fn is_same(&self, other: &Self) -> (r: bool) {
        self.devices.is_same(&other.devices) && self.node_selector.is_same(&other.node_selector)
    }

    fn duplicate(&self) -> (r: Self) {
        AllocationResult {
            devices: self.devices.duplicate(),
            node_selector: self.node_selector.duplicate(),
        }
    }
}

/// A text, empty where there is none.
pub open spec fn text_or_empty(t: Option<String>) -> Seq<char> {
    match t {
        Some(s) => s@,
        None => Seq::empty(),
    }
}

impl ResourceClaim {
    /// Whether devices have been allocated to the claim.
    pub open spec fn is_allocated(&self) -> bool {
        match self.status {
            Some(s) => s.allocation is Some,
            None => false,
        }
    }

    pub fn bound(&self) -> (r: bool)
        ensures
            r == self.is_allocated(),
    {
        match &self.status {
            Some(s) => s.allocation.is_some(),
            None => false,
        }
    }

    /// `namespace/name`.
    pub open spec fn key_view(&self) -> Seq<char> {
        text_or_empty(self.metadata.namespace) + "/"@ + text_or_empty(self.metadata.name)
    }

    pub fn key(&self) -> (r: String)
        ensures
            r@ == self.key_view(),
    {
        let namespace = match &self.metadata.namespace {
            Some(s) => s.clone(),
            None => String::new(),
        };
        let name = match &self.metadata.name {
            Some(s) => s.clone(),
            None => String::new(),
        };
        let head = joined(namespace.as_str(), "/");
        joined(head.as_str(), name.as_str())
    }
}

/// An attribute value; the first field set counts, in this order.
#[derive(Clone, Debug, Default)]
pub struct DeviceAttribute {
    pub bool: Option<bool>,
    pub int: Option<i64>,
    pub string: Option<String>,
    pub version: Option<String>,
}

#[derive(Clone, Debug, Default)]
pub struct DeviceCapacity {
    /// A quantity, as written.
    pub value: String,
}

#[derive(Clone, Debug, Default)]
pub struct BasicDevice {
    pub attributes: Option<StrMap<DeviceAttribute>>,
    pub capacity: Option<StrMap<DeviceCapacity>>,
    pub node_name: Option<String>,
    pub node_selector: Option<NodeSelector>,
    pub all_nodes: Option<bool>,
}

#[derive(Clone, Debug, Default)]
pub struct Device {
    pub name: String,
    pub basic: Arc<BasicDevice>,
}

#[derive(Clone, Debug, Default)]
pub struct ResourcePool {
    pub name: String,
    pub generation: Option<i64>,
    pub resource_slice_count: Option<i64>,
}

#[derive(Clone, Debug, Default)]
pub struct ResourceSliceSpec {
    pub driver: String,
    pub pool: ResourcePool,
    pub node_name: Option<String>,
    pub all_nodes: Option<bool>,
    pub node_selector: Option<NodeSelector>,
    pub per_device_node_selection: Option<bool>,
    pub devices: Option<Vec<Device>>,
}

#[derive(Clone, Debug, Default)]
pub struct ResourceSlice {
    pub metadata: ObjectMeta,
    pub spec: ResourceSliceSpec,
}

} // verus!
