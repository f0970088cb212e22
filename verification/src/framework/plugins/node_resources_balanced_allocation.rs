//! `NodeResourcesBalancedAllocation`: prefer nodes whose resources are used
//! evenly. The measure of evenness takes real arithmetic; what it is taken of,
//! the use of each resource with the incoming pod in place, is decided here.

use crate::cache::{clamp64, scoring_amount, sum64, NodeInfo, PodInfo};
use crate::framework::status::{success, Status, StatusView};
use crate::framework::{
    CycleState, NoHint, Plugin, PreScorePlugin,
};
use std::sync::Arc;
use vstd::prelude::*;

verus! {

pub const NAME: &'static str = "NodeResourcesBalancedAllocation";

pub struct NodeResourcesBalancedAllocation {
    pub resources: Vec<String>,
}

impl Default for NodeResourcesBalancedAllocation {
    fn default() -> (r: Self)
        ensures
            r.resources@.len() == 2,
            r.resources@[0]@ == "cpu"@,
            r.resources@[1]@ == "memory"@,
    {
        let mut resources: Vec<String> = Vec::new();
        resources.push("cpu".to_owned());
        resources.push("memory".to_owned());
        Self { resources }
    }
}

impl Plugin for NodeResourcesBalancedAllocation {
    type Hint = NoHint;

    open spec fn name_view(&self) -> Seq<char> {
        NAME@
    }

    fn name(&self) -> (r: &'static str) {
        NAME
    }
}

impl PreScorePlugin for NodeResourcesBalancedAllocation {
    open spec fn pre_score_view(
        &self,
        before: CycleState,
        pod: PodInfo,
        nodes: Seq<Arc<NodeInfo>>,
        after: CycleState,
        status: StatusView,
    ) -> bool {
        status == success() && after == before
    }

    fn pre_score(&self, state: &mut CycleState, pod: &PodInfo, nodes: &Vec<Arc<NodeInfo>>) -> (r:
        Status) {
        Status::success()
    }
}

/// What of a resource would be used, and what there is.
#[derive(Clone, Copy, Debug, PartialEq, Eq, Structural)]
pub struct Usage {
    pub used: i64,
    pub allocatable: i64,
}

/// The use of each listed resource that the node has, with the incoming pod in
/// place.
pub open spec fn usage_of(resources: Seq<String>, pod: PodInfo, node: NodeInfo) -> Seq<Usage>
    decreases resources.len(),
{
    if resources.len() == 0 {
        Seq::empty()
    } else {
        let rest = usage_of(resources.drop_last(), pod, node);
        let name = resources.last()@;
        if node.allocatable.amount(name) <= 0 {
            rest
        } else {
            rest.push(
                Usage {
                    used: clamp64(
                        node.non_zero_requested.amount(name) + scoring_amount(
                            name,
                            pod.requests.amount(name),
                        ),
                    ) as i64,
                    allocatable: node.allocatable.amount(name) as i64,
                },
            )
        }
    }
}

impl NodeResourcesBalancedAllocation {
    /// The use of each resource that takes part in the balance.
    pub fn usage(&self, pod: &PodInfo, node: &NodeInfo) -> (r: Vec<Usage>)
        ensures
            r@ == usage_of(self.resources@, *pod, *node),
    {
        let requests = pod.non_zero_requests();
        let mut out: Vec<Usage> = Vec::new();
        let mut i: usize = 0;
        while i < self.resources.len()
            invariant
                i <= self.resources@.len(),
                forall|n: Seq<char>| #[trigger]
                    requests.amount(n) == scoring_amount(n, pod.requests.amount(n)),
                out@ == usage_of(self.resources@.take(i as int), *pod, *node),
            decreases self.resources@.len() - i,
        {
            let name = self.resources[i].as_str();
            let allocatable: i64 = node.allocatable.get(name);
            if allocatable > 0 {
                let used: i64 = sum64(node.non_zero_requested.get(name), requests.get(name));
                out.push(Usage { used, allocatable });
            }
            i += 1;
            assert(self.resources@.take(i as int).drop_last() =~= self.resources@.take(i - 1));
        }
        assert(self.resources@.take(i as int) =~= self.resources@);
        out
    }

    pub fn weight(&self) -> (r: i64)
        ensures
            r == 1,
    {
        1
    }
}

/// A resource that the node does not have changes nothing.
pub proof fn absent_resources_are_left_out(
    resources: Seq<String>,
    extra: String,
    pod: PodInfo,
    node: NodeInfo,
)
    requires
        node.allocatable.amount(extra@) <= 0,
    ensures
        usage_of(resources.push(extra), pod, node) == usage_of(resources, pod, node),
{
    assert(resources.push(extra).drop_last() =~= resources);
}

/// Every listed resource that the node has takes part once, wherever in the list
/// it stands, with what would be used of it and what there is.
pub proof fn every_resource_takes_part(resources: Seq<String>, pod: PodInfo, node: NodeInfo, i: int)
    requires
        0 <= i < resources.len(),
    ensures
        ({
            let name = resources[i]@;
            let all = usage_of(resources, pod, node);
            let others = usage_of(resources.remove(i), pod, node);
            if node.allocatable.amount(name) > 0 {
                &&& all.len() == others.len() + 1
                &&& exists|k: int|
                    0 <= k < all.len() && all.remove(k) == others && (#[trigger] all[k]).allocatable
                        == node.allocatable.amount(name) as i64 && all[k].used == clamp64(
                        node.non_zero_requested.amount(name) + scoring_amount(
                            name,
                            pod.requests.amount(name),
                        ),
                    ) as i64
            } else {
                all == others
            }
        }),
    decreases resources.len(),
{
    let t = resources.drop_last();
    let last = resources.len() - 1;
    let name = resources[i]@;
    let all = usage_of(resources, pod, node);
    let others = usage_of(resources.remove(i), pod, node);
    if i == last {
        assert(resources.remove(i) =~= t);
        if node.allocatable.amount(name) > 0 {
            let k = all.len() - 1;
            assert(all.remove(k) =~= others);
            assert(all[k].allocatable == node.allocatable.amount(name) as i64);
        }
    } else {
        every_resource_takes_part(t, pod, node, i);
        assert(resources.remove(i).drop_last() =~= t.remove(i));
        assert(resources.remove(i).last() == resources.last());
        assert(t[i] == resources[i]);
        let ta = usage_of(t, pod, node);
        let to = usage_of(t.remove(i), pod, node);
        if node.allocatable.amount(name) > 0 {
            let k = choose|k: int|
                0 <= k < ta.len() && ta.remove(k) == to && (#[trigger] ta[k]).allocatable
                    == node.allocatable.amount(name) as i64 && ta[k].used == clamp64(
                    node.non_zero_requested.amount(name) + scoring_amount(
                        name,
                        pod.requests.amount(name),
                    ),
                ) as i64;
            assert(all[k] == ta[k]);
            assert(all.remove(k) =~= others);
        }
    }
}

} // verus!
