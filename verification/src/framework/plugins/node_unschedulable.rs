//! `NodeUnschedulable`: respect a cordon, unless the pod tolerates its taint.

use super::taint_toleration::{covers, covered, is_covered};
use super::{always_on, event_on};
use crate::api::{Taint, Toleration};
use crate::cache::{NodeInfo, PodInfo};
use crate::events::{ActionType, ClusterEvent, EventResource};
use crate::framework::status::{success, unresolvable, Status, StatusView};
use crate::framework::{events_of, ClusterEventWithHint, CycleState, FilterPlugin, NoHint, Plugin};
use vstd::prelude::*;

verus! {

pub const NAME: &'static str = "NodeUnschedulable";

/// The taint a cordon is mirrored into, by which a pod opts back in.
pub const UNSCHEDULABLE_TAINT: &'static str = "node.kubernetes.io/unschedulable";

pub struct NodeUnschedulable;

pub open spec fn subscriptions() -> Seq<ClusterEvent> {
    seq![event_on(EventResource::Node, ActionType::ADD | ActionType::UPDATE_NODE_TAINT)]
}

impl Plugin for NodeUnschedulable {
    type Hint = NoHint;

    open spec fn name_view(&self) -> Seq<char> {
        NAME@
    }

    fn name(&self) -> (r: &'static str) {
        NAME
    }

    fn events_to_register(&self) -> (r: Vec<ClusterEventWithHint<NoHint>>)
        ensures
            events_of(r@) == subscriptions(),
            crate::framework::unhinted(r@),
    {
        let mut out: Vec<ClusterEventWithHint<NoHint>> = Vec::new();
        out.push(
            always_on(EventResource::Node, ActionType::ADD | ActionType::UPDATE_NODE_TAINT),
        );
        assert(events_of(out@) =~= subscriptions());
        out
    }
}

/// The taint of a cordon.
pub open spec fn is_cordon(taint: Taint) -> bool {
    &&& taint.key@ == UNSCHEDULABLE_TAINT@
    &&& taint.value is None
    &&& taint.effect@ == "NoSchedule"@
}

/// The pod tolerates a cordon.
pub open spec fn tolerates_cordon(tolerations: Seq<Toleration>) -> bool {
    exists|taint: Taint| is_cordon(taint) && #[trigger] covered(tolerations, taint)
}

impl FilterPlugin for NodeUnschedulable {
    open spec fn filter_view(&self, state: CycleState, pod: PodInfo, node: NodeInfo) -> StatusView {
        if !node.unschedulable || tolerates_cordon(pod.tolerations@) {
            success()
        } else {
            unresolvable(NAME@, "node(s) were unschedulable"@)
        }
    }

    fn filter(&self, state: &CycleState, pod: &PodInfo, node: &NodeInfo) -> (r: Status) {
        if !node.unschedulable {
            return Status::success();
        }
        let cordon = Taint {
            key: UNSCHEDULABLE_TAINT.to_owned(),
            value: None,
            effect: "NoSchedule".to_owned(),
            time_added: None,
        };
        let tolerated = is_covered(&pod.tolerations, &cordon);
        proof {
            assert(is_cordon(cordon));
            if tolerates_cordon(pod.tolerations@) {
                let other = choose|taint: Taint|
                    is_cordon(taint) && #[trigger] covered(pod.tolerations@, taint);
                let i = choose|i: int|
                    0 <= i < pod.tolerations@.len() && super::taint_toleration::covers(
                        #[trigger] pod.tolerations@[i],
                        other,
                    );
                assert(super::taint_toleration::covers(pod.tolerations@[i], cordon));
            }
        }
        if tolerated {
            Status::success()
        } else {
            Status::unresolvable(NAME, "node(s) were unschedulable")
        }
    }
}

/// A cordoned node takes only pods with a toleration of the cordon, wherever in
/// their list; every other node takes every pod.
pub proof fn cordons_keep_pods_off(
    plugin: NodeUnschedulable,
    state: CycleState,
    pod: PodInfo,
    node: NodeInfo,
)
    ensures
        !node.unschedulable ==> plugin.filter_view(state, pod, node) == success(),
        node.unschedulable && pod.tolerations@.len() == 0 ==> plugin.filter_view(state, pod, node)
            != success(),
        node.unschedulable && plugin.filter_view(state, pod, node) == success() ==> exists|
            i: int,
            taint: Taint,
        |
            0 <= i < pod.tolerations@.len() && is_cordon(taint) && #[trigger] covers(
                pod.tolerations@[i],
                taint,
            ),
{
    if node.unschedulable && plugin.filter_view(state, pod, node) == success() {
        let taint = choose|taint: Taint|
            is_cordon(taint) && #[trigger] covered(pod.tolerations@, taint);
        let i = choose|i: int|
            0 <= i < pod.tolerations@.len() && covers(#[trigger] pod.tolerations@[i], taint);
        assert(covers(pod.tolerations@[i], taint));
    }
}

} // verus!
