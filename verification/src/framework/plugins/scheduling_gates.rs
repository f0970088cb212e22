//! `SchedulingGates`: hold a pod out of the queue until every gate is gone.
//!
//! A gated pod is not a rejected pod: it has not entered scheduling.

use super::{always_on, event_on};
use crate::api::PodSchedulingGate;
use crate::cache::PodInfo;
use crate::events::{ActionType, ClusterEvent, EventResource};
use crate::framework::status::{success, unschedulable, Status, StatusView};
use crate::framework::{events_of, ClusterEventWithHint, NoHint, Plugin, PreEnqueuePlugin};
use crate::text::{join, join_views, joined, views};
use vstd::prelude::*;

verus! {

pub const NAME: &'static str = "SchedulingGates";

pub struct SchedulingGates;

pub open spec fn subscriptions() -> Seq<ClusterEvent> {
    seq![event_on(EventResource::Pod, ActionType::UPDATE_POD_SCHEDULING_GATES_ELIMINATED)]
}

impl Plugin for SchedulingGates {
    type Hint = NoHint;

    open spec fn name_view(&self) -> Seq<char> {
        NAME@
    }

    fn name(&self) -> (r: &'static str) {
        NAME
    }

    fn events_to_register(&self) -> (r: Vec<ClusterEventWithHint<NoHint>>)
        ensures
            events_of(r@) == subscriptions(),
            crate::framework::unhinted(r@),
    {
        let mut out: Vec<ClusterEventWithHint<NoHint>> = Vec::new();
        out.push(always_on(EventResource::Pod, ActionType::UPDATE_POD_SCHEDULING_GATES_ELIMINATED));
        assert(events_of(out@) =~= subscriptions());
        out
    }
}

/// The names of a list of gates.
pub open spec fn gate_names(gates: Seq<PodSchedulingGate>) -> Seq<Seq<char>> {
    gates.map_values(|g: PodSchedulingGate| g.name@)
}

impl PreEnqueuePlugin for SchedulingGates {
    open spec fn pre_enqueue_view(&self, pod: PodInfo) -> StatusView {
        if pod.scheduling_gates@.len() == 0 {
            success()
        } else {
            unschedulable(
                NAME@,
                "waiting for scheduling gates: "@ + join_views(
                    gate_names(pod.scheduling_gates@),
                    ", "@,
                ),
            )
        }
    }

    fn pre_enqueue(&self, pod: &PodInfo) -> (r: Status) {
        let gates = &pod.scheduling_gates;
        if gates.len() == 0 {
            return Status::success();
        }
        let mut names: Vec<String> = Vec::new();
        let mut i: usize = 0;
        while i < gates.len()
            invariant
                i <= gates@.len(),
                names@.len() == i,
                forall|k: int| 0 <= k < i ==> (#[trigger] names@[k])@ == gates@[k].name@,
            decreases gates@.len() - i,
        {
            names.push(gates[i].name.clone());
            i += 1;
        }
        assert(views(names@) =~= gate_names(gates@));
        let list = join(&names, ", ");
        let reason = joined("waiting for scheduling gates: ", list.as_str());
        Status::unschedulable(NAME, reason.as_str())
    }
}

} // verus!
