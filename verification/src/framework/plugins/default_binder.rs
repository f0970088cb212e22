//! `DefaultBinder`: the binding that places a pod.
//!
//! What is bound carries the pod's uid, so that a later pod of the same name
//! does not inherit a placement. The caller sends it; here is what is sent and
//! what the answers mean.

use crate::cache::PodInfo;
use crate::framework::status::{failure, success, Status};
use crate::text::{decimal, decimal_text, joined, text_eq};
use vstd::prelude::*;

verus! {

pub const NAME: &'static str = "DefaultBinder";

/// How long a binding may take, in seconds.
pub const BIND_TIMEOUT_SECONDS: u64 = 30;

/// A pod's placement on a node.
pub struct Binding {
    pub name: String,
    pub namespace: String,
    pub uid: String,
    pub target_api_version: String,
    pub target_kind: String,
    pub target_name: String,
}

pub fn binding(pod: &PodInfo, node: &str) -> (r: Binding)
    ensures
        r.name@ == pod.name@,
        r.namespace@ == pod.namespace@,
        r.uid@ == pod.uid@,
        r.target_api_version@ == "v1"@,
        r.target_kind@ == "Node"@,
        r.target_name@ == node@,
{
    Binding {
        name: pod.name.clone(),
        namespace: pod.namespace.clone(),
        uid: pod.uid.clone(),
        target_api_version: "v1".to_owned(),
        target_kind: "Node".to_owned(),
        target_name: node.to_owned(),
    }
}

/// Where a pod's binding is posted: below the pod.
pub fn binding_uri(pod: &PodInfo) -> (r: String)
    ensures
        r@ == "/api/v1/namespaces/"@ + pod.namespace@ + "/pods/"@ + pod.name@ + "/binding"@,
{
    let text = joined("/api/v1/namespaces/", pod.namespace.as_str());
    let text = joined(text.as_str(), "/pods/");
    let text = joined(text.as_str(), pod.name.as_str());
    joined(text.as_str(), "/binding")
}

/// The answer to a binding.
pub enum BindReply {
    Accepted,
    /// Refused with an HTTP code, and why.
    Refused(u16, String),
    /// It failed otherwise, and why.
    Failed(String),
    TimedOut,
}

/// What to do about the answer.
pub enum BindStep {
    Done(Status),
    /// Read the pod again to see whether it has a node.
    Reread,
}

pub open spec fn failed_text(pod: PodInfo, node: Seq<char>, why: Seq<char>) -> Seq<char> {
    "binding "@ + pod.key_view() + " to "@ + node + ": "@ + why
}

pub open spec fn timed_out_text(pod: PodInfo, node: Seq<char>) -> Seq<char> {
    "binding "@ + pod.key_view() + " to "@ + node + " did not respond within "@ + decimal(
        BIND_TIMEOUT_SECONDS as nat,
    ) + "s"@
}

fn failed(pod: &PodInfo, node: &str, why: &str) -> (r: Status)
    ensures
        r@ == failure(NAME@, failed_text(*pod, node@, why@)),
{
    let key = pod.key();
    let text = joined("binding ", key.as_str());
    let text = joined(text.as_str(), " to ");
    let text = joined(text.as_str(), node);
    let text = joined(text.as_str(), ": ");
    let text = joined(text.as_str(), why);
    Status::error(NAME, text.as_str())
}

/// What an answer to a binding means. A conflict may be because the pod has a
/// node already, which has to be looked up.
pub fn after_bind(pod: &PodInfo, node: &str, reply: &BindReply) -> (r: BindStep)
    ensures
        match *reply {
            BindReply::Accepted => r matches BindStep::Done(s) && s@ == success(),
            BindReply::Refused(code, why) => if code == 409 {
                r is Reread
            } else {
                r matches BindStep::Done(s) && s@ == failure(
                    NAME@,
                    failed_text(*pod, node@, why@),
                )
            },
            BindReply::Failed(why) => r matches BindStep::Done(s) && s@ == failure(
                NAME@,
                failed_text(*pod, node@, why@),
            ),
            BindReply::TimedOut => r matches BindStep::Done(s) && s@ == failure(
                NAME@,
                timed_out_text(*pod, node@),
            ),
        },
{
    match reply {
        BindReply::Accepted => BindStep::Done(Status::success()),
        BindReply::Refused(code, why) => if *code == 409 {
            BindStep::Reread
        } else {
            BindStep::Done(failed(pod, node, why.as_str()))
        },
        BindReply::Failed(why) => BindStep::Done(failed(pod, node, why.as_str())),
        BindReply::TimedOut => {
            let key = pod.key();
            let seconds = decimal_text(BIND_TIMEOUT_SECONDS);
            let text = joined("binding ", key.as_str());
            let text = joined(text.as_str(), " to ");
            let text = joined(text.as_str(), node);
            let text = joined(text.as_str(), " did not respond within ");
            let text = joined(text.as_str(), seconds.as_str());
            let text = joined(text.as_str(), "s");
            BindStep::Done(Status::error(NAME, text.as_str()))
        },
    }
}

/// What a conflict comes to once the pod was read again: a pod that has a node
/// is placed for good, and nothing is left to do. `current` is the node of the
/// pod as read, `None` where it has none or could not be read.
pub fn after_conflict(pod: &PodInfo, node: &str, why: &str, current: Option<&str>) -> (r: Status)
    ensures
        r@ == if current is Some && current->Some_0@ != ""@ {
            success()
        } else {
            failure(NAME@, failed_text(*pod, node@, why@))
        },
{
    match current {
        Some(n) => if text_eq(n, "") {
            failed(pod, node, why)
        } else {
            Status::success()
        },
        None => failed(pod, node, why),
    }
}

} // verus!
