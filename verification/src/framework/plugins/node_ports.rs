//! `NodePorts`: no two pods on the same host port.

use super::{always_on, event_on};
use crate::cache::{wildcard, HostPort, NodeInfo, PodInfo, Snapshot};
use crate::events::{ActionType, ClusterEvent, EventResource};
use crate::framework::status::{skip, success, unschedulable, Status, StatusView};
use crate::framework::{
    events_of, filter_switched_off, ClusterEventWithHint, CycleState, FilterPlugin, NoHint, Plugin,
    PreFilterPlugin,
};
use vstd::prelude::*;

verus! {

pub const NAME: &'static str = "NodePorts";

/// The pod's host-port claims, collected once per cycle.
pub struct WantedPorts(pub Vec<HostPort>);

pub struct NodePorts;

pub open spec fn subscriptions() -> Seq<ClusterEvent> {
    seq![
        event_on(EventResource::AssignedPod, ActionType::DELETE),
        event_on(EventResource::Node, ActionType::ADD),
    ]
}

impl Plugin for NodePorts {
    type Hint = NoHint;

    open spec fn name_view(&self) -> Seq<char> {
        NAME@
    }

    fn name(&self) -> (r: &'static str) {
        NAME
    }

    fn events_to_register(&self) -> (r: Vec<ClusterEventWithHint<NoHint>>)
        ensures
            events_of(r@) == subscriptions(),
            crate::framework::unhinted(r@),
    {
        let mut out: Vec<ClusterEventWithHint<NoHint>> = Vec::new();
        out.push(always_on(EventResource::AssignedPod, ActionType::DELETE));
        out.push(always_on(EventResource::Node, ActionType::ADD));
        assert(events_of(out@) =~= subscriptions());
        out
    }
}

fn copy_ports(ports: &Vec<HostPort>) -> (r: Vec<HostPort>)
    ensures
        r@ == ports@,
{
    let mut out: Vec<HostPort> = Vec::new();
    let mut i: usize = 0;
    while i < ports.len()
        invariant
            i <= ports@.len(),
            out@ == ports@.take(i as int),
        decreases ports@.len() - i,
    {
        out.push(ports[i].copy());
        i += 1;
        assert(ports@.take(i as int) =~= ports@.take(i - 1).push(ports@[i - 1]));
    }
    assert(ports@.take(i as int) =~= ports@);
    out
}

impl PreFilterPlugin for NodePorts {
    open spec fn pre_filter_view(
        &self,
        before: CycleState,
        pod: PodInfo,
        snapshot: Snapshot,
        after: CycleState,
        status: StatusView,
    ) -> bool {
        if pod.host_ports@.len() == 0 {
            status == skip() && filter_switched_off(before, after, NAME@)
        } else {
            &&& status == success()
            &&& after.only_slot(&before, NAME@)
            &&& after.same_skips(&before)
            &&& after.value::<WantedPorts>(NAME@) matches Some(w) && w.0@ == pod.host_ports@
        }
    }

    fn pre_filter(&self, state: &mut CycleState, pod: &PodInfo, snapshot: &Snapshot) -> (r: (
        Status,
        Option<Vec<String>>,
    ))
        ensures
            r.1 is None,
    {
        if pod.host_ports.len() == 0 {
            state.skip_filter(NAME);
            return (Status::skip(), None);
        }
        state.write(NAME, WantedPorts(copy_ports(&pod.host_ports)));
        (Status::success(), None)
    }
}

/// The claims to check: those collected, or the pod's own where none were.
pub open spec fn claims(state: CycleState, pod: PodInfo) -> Seq<HostPort> {
    match state.value::<WantedPorts>(NAME@) {
        Some(w) => w.0@,
        None => pod.host_ports@,
    }
}

/// Some claim collides with a port in use on the node.
pub open spec fn any_taken(wanted: Seq<HostPort>, node: NodeInfo) -> bool {
    exists|i: int| 0 <= i < wanted.len() && node.port_taken(#[trigger] wanted[i])
}

impl FilterPlugin for NodePorts {
    open spec fn filter_view(&self, state: CycleState, pod: PodInfo, node: NodeInfo) -> StatusView {
        if any_taken(claims(state, pod), node) {
            unschedulable(NAME@, "node(s) didn't have free ports for the requested pod ports"@)
        } else {
            success()
        }
    }

    fn filter(&self, state: &CycleState, pod: &PodInfo, node: &NodeInfo) -> (r: Status) {
        let wanted = match state.read::<WantedPorts>(NAME) {
            Some(w) => &w.0,
            None => &pod.host_ports,
        };
        let mut i: usize = 0;
        while i < wanted.len()
            invariant
                i <= wanted@.len(),
                wanted@ == claims(*state, *pod),
                forall|k: int| 0 <= k < i ==> !node.port_taken(#[trigger] wanted@[k]),
            decreases wanted@.len() - i,
        {
            if node.port_conflicts(&wanted[i]) {
                assert(node.port_taken(wanted@[i as int]));
                return Status::unschedulable(
                    NAME,
                    "node(s) didn't have free ports for the requested pod ports",
                );
            }
            i += 1;
        }
        Status::success()
    }
}

/// A node passes exactly where no port that the pod claims, wherever in its list,
/// is in use there: for the same protocol and number, on the same address or on
/// all of them.
pub proof fn passing_means_free_ports(
    plugin: NodePorts,
    before: CycleState,
    pod: PodInfo,
    snapshot: Snapshot,
    state: CycleState,
    status: StatusView,
    node: NodeInfo,
)
    requires
        plugin.pre_filter_view(before, pod, snapshot, state, status),
        status == success(),
    ensures
        plugin.filter_view(state, pod, node) == success() <==> forall|i: int, j: int|
            0 <= i < pod.host_ports@.len() && 0 <= j < node.used_ports@.len() ==> !((
            #[trigger] pod.host_ports@[i]).protocol@ == (#[trigger] node.used_ports@[j]).protocol@
                && pod.host_ports@[i].port == node.used_ports@[j].port && (wildcard(
                pod.host_ports@[i].ip@,
            ) || wildcard(node.used_ports@[j].ip@) || pod.host_ports@[i].ip@
                == node.used_ports@[j].ip@)),
{
    if !any_taken(pod.host_ports@, node) {
        assert forall|i: int, j: int|
            #![trigger pod.host_ports@[i], node.used_ports@[j]]
            0 <= i < pod.host_ports@.len() && 0 <= j
                < node.used_ports@.len() implies !pod.host_ports@[i].collides(
            &node.used_ports@[j],
        ) by {
            assert(!node.port_taken(pod.host_ports@[i]));
        }
    } else {
        let i = choose|i: int|
            0 <= i < pod.host_ports@.len() && node.port_taken(#[trigger] pod.host_ports@[i]);
        let j = choose|j: int|
            0 <= j < node.used_ports@.len() && pod.host_ports@[i].collides(
                &#[trigger] node.used_ports@[j],
            );
        assert(pod.host_ports@[i].collides(&node.used_ports@[j]));
    }
}

} // verus!
