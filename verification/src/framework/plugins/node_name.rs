//! `NodeName`: a pod that names its node runs on no other.

use super::{always_on, event_on};
use crate::cache::{NodeInfo, PodInfo};
use crate::events::{ActionType, ClusterEvent, EventResource};
use crate::framework::status::{success, unresolvable, Status, StatusView};
use crate::framework::{events_of, ClusterEventWithHint, CycleState, FilterPlugin, NoHint, Plugin};
use crate::text::text_eq;
use vstd::prelude::*;

verus! {

pub const NAME: &'static str = "NodeName";

pub struct NodeName;

pub open spec fn subscriptions() -> Seq<ClusterEvent> {
    seq![event_on(EventResource::Node, ActionType::ADD)]
}

impl Plugin for NodeName {
    type Hint = NoHint;

    open spec fn name_view(&self) -> Seq<char> {
        NAME@
    }

    fn name(&self) -> (r: &'static str) {
        NAME
    }

    fn events_to_register(&self) -> (r: Vec<ClusterEventWithHint<NoHint>>)
        ensures
            events_of(r@) == subscriptions(),
            crate::framework::unhinted(r@),
    {
        let mut out: Vec<ClusterEventWithHint<NoHint>> = Vec::new();
        out.push(always_on(EventResource::Node, ActionType::ADD));
        assert(events_of(out@) =~= subscriptions());
        out
    }
}

impl FilterPlugin for NodeName {
    open spec fn filter_view(&self, state: CycleState, pod: PodInfo, node: NodeInfo) -> StatusView {
        match pod.node_name {
            Some(wanted) => if wanted@ == node.name@ {
                success()
            } else {
                unresolvable(NAME@, "node(s) didn't match the requested node name"@)
            },
            None => success(),
        }
    }

    fn filter(&self, state: &CycleState, pod: &PodInfo, node: &NodeInfo) -> (r: Status) {
        match &pod.node_name {
            None => Status::success(),
            Some(wanted) => if text_eq(wanted.as_str(), node.name.as_str()) {
                Status::success()
            } else {
                Status::unresolvable(NAME, "node(s) didn't match the requested node name")
            },
        }
    }
}

} // verus!
