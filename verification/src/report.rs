//! Telling the cluster why a pod is pending: a condition that tools match on,
//! and an event that people read.

use crate::cache::PodInfo;
use crate::text::joined;
use vstd::prelude::*;

verus! {

/// The name under which fields of a pod's status are managed.
pub const FIELD_MANAGER: &'static str = "nodescheduler";

/// What becomes of the status of a pod that cannot be placed.
pub struct UnschedulableStatus {
    pub type_: String,
    pub status: String,
    /// For tools.
    pub reason: String,
    /// For people.
    pub message: String,
    /// The node that is being freed for the pod, if one is.
    pub nominated_node_name: Option<String>,
}

pub fn unschedulable_status(reason: &str, nominated_node: Option<&str>) -> (r: UnschedulableStatus)
    ensures
        r.type_@ == "PodScheduled"@,
        r.status@ == "False"@,
        r.reason@ == "Unschedulable"@,
        r.message@ == reason@,
        match nominated_node {
            Some(n) => r.nominated_node_name is Some && r.nominated_node_name->Some_0@ == n@,
            None => r.nominated_node_name is None,
        },
{
    UnschedulableStatus {
        type_: "PodScheduled".to_owned(),
        status: "False".to_owned(),
        reason: "Unschedulable".to_owned(),
        message: reason.to_owned(),
        nominated_node_name: match nominated_node {
            Some(n) => Some(n.to_owned()),
            None => None,
        },
    }
}

/// An event about a pod that could not be placed.
pub struct FailedScheduling {
    pub generate_name: String,
    pub namespace: String,
    pub pod_name: String,
    /// Keeps the event from being taken for one of a later pod of the name.
    pub pod_uid: String,
    pub reason: String,
    pub message: String,
    pub type_: String,
    pub component: String,
    pub count: u32,
}

pub fn failed_scheduling(pod: &PodInfo, reason: &str, scheduler_name: &str) -> (r: FailedScheduling)
    ensures
        r.generate_name@ == pod.name@ + "."@,
        r.namespace@ == pod.namespace@,
        r.pod_name@ == pod.name@,
        r.pod_uid@ == pod.uid@,
        r.reason@ == "FailedScheduling"@,
        r.message@ == reason@,
        r.type_@ == "Warning"@,
        r.component@ == scheduler_name@,
        r.count == 1,
{
    FailedScheduling {
        generate_name: joined(pod.name.as_str(), "."),
        namespace: pod.namespace.clone(),
        pod_name: pod.name.clone(),
        pod_uid: pod.uid.clone(),
        reason: "FailedScheduling".to_owned(),
        message: reason.to_owned(),
        type_: "Warning".to_owned(),
        component: scheduler_name.to_owned(),
        count: 1,
    }
}

/// Where events about a pod are posted.
pub fn events_uri(pod: &PodInfo) -> (r: String)
    ensures
        r@ == "/api/v1/namespaces/"@ + pod.namespace@ + "/events"@,
{
    let text = joined("/api/v1/namespaces/", pod.namespace.as_str());
    joined(text.as_str(), "/events")
}

} // verus!
