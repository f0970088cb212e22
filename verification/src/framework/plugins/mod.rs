//! The default plugin set, one file per plugin.
//!
//! Everything here is a function of the snapshot and the pod. A plugin that
//! can reject registers the events that could undo the rejection.

pub mod allocation;
pub mod default_binder;
pub mod dynamic_resources;
pub mod image_locality;
pub mod inter_pod_affinity;
pub mod node_affinity;
pub mod node_name;
pub mod node_ports;
pub mod node_resources_balanced_allocation;
pub mod node_resources_fit;
pub mod node_unschedulable;
pub mod node_volume_limits;
pub mod pod_topology_spread;
pub mod priority_sort;
pub mod quantity;
pub mod scheduling_gates;
pub mod selector;
pub mod taint_toleration;
pub mod volume_binding;
pub mod volume_restrictions;
pub mod volume_zone;

use crate::cache::clamp64;
use crate::events::{ActionType, ClusterEvent, EventResource};
use crate::framework::{ClusterEventWithHint, NoHint, MAX_NODE_SCORE};
use crate::numbers::{divide, largest, largest_of, narrow, trunc_div};
use vstd::prelude::*;

verus! {

/// An event on a resource.
pub open spec fn event_on(resource: EventResource, bits: u32) -> ClusterEvent {
    ClusterEvent { resource, action: ActionType(bits) }
}

/// A subscription to every such event.
pub fn always_on(resource: EventResource, bits: u32) -> (r: ClusterEventWithHint<NoHint>)
    ensures
        r.event == event_on(resource, bits),
        r.hint is None,
{
    ClusterEventWithHint::always(ClusterEvent::new(resource, ActionType(bits)))
}

/// A score as a share of the largest, on the common range.
pub open spec fn share_of(score: int, max: int, reverse: bool) -> int {
    let scaled = clamp64(trunc_div(MAX_NODE_SCORE * score, max));
    if reverse {
        clamp64(MAX_NODE_SCORE - scaled)
    } else {
        scaled
    }
}

/// Scores divided by the largest among them and, for a plugin that counts
/// something bad, turned round. Where none is positive there is nothing to
/// divide by: turned round, every node is perfect; else they stay.
pub open spec fn normalized(reverse: bool, scores: Seq<i64>) -> Seq<i64> {
    let max = largest(scores);
    if max <= 0 {
        if reverse {
            scores.map_values(|s: i64| MAX_NODE_SCORE)
        } else {
            scores
        }
    } else {
        scores.map_values(|s: i64| share_of(s as int, max, reverse) as i64)
    }
}

pub fn default_normalize_score(reverse: bool, scores: &mut Vec<i64>)
    ensures
        final(scores)@ == normalized(reverse, old(scores)@),
{
    let ghost before = scores@;
    let max: i64 = largest_of(scores);
    let n: usize = scores.len();
    let mut i: usize = 0;
    if max <= 0 {
        if reverse {
            while i < n
                invariant
                    i <= n == scores@.len() == before.len(),
                    forall|k: int| 0 <= k < i ==> scores@[k] == MAX_NODE_SCORE,
                decreases n - i,
            {
                scores.set(i, MAX_NODE_SCORE);
                i += 1;
            }
        }
        assert(scores@ =~= normalized(reverse, before));
        return ;
    }
    while i < n
        invariant
            i <= n == scores@.len() == before.len(),
            max > 0,
            forall|k: int|
                0 <= k < i ==> scores@[k] == share_of(before[k] as int, max as int, reverse),
            forall|k: int| i <= k < n ==> scores@[k] == before[k],
        decreases n - i,
    {
        let scaled: i64 = narrow(divide((MAX_NODE_SCORE as i128) * (scores[i] as i128), max as i128));
        let value: i64 = if reverse {
            narrow((MAX_NODE_SCORE as i128) - (scaled as i128))
        } else {
            scaled
        };
        scores.set(i, value);
        i += 1;
    }
    assert(scores@ =~= normalized(reverse, before));
}

/// On non-negative scores the result lies within the common range, and the
/// largest score gets its top, or its bottom where the scale is turned round.
pub proof fn normalized_in_range(reverse: bool, scores: Seq<i64>, i: int)
    requires
        0 <= i < scores.len(),
        forall|k: int| 0 <= k < scores.len() ==> #[trigger] scores[k] >= 0,
    ensures
        0 <= normalized(reverse, scores)[i] <= MAX_NODE_SCORE,
        scores[i] == largest(scores) && scores[i] > 0 ==> normalized(reverse, scores)[i] == (
        if reverse {
            0
        } else {
            MAX_NODE_SCORE as int
        }),
{
    crate::numbers::largest_bounds(scores);
    let max = largest(scores);
    let s = scores[i] as int;
    assert(s >= 0 && s <= max);
    if max > 0 {
        assert(0 <= (100 * s) / max <= 100) by (nonlinear_arith)
            requires
                0 <= s <= max,
                max > 0,
        ;
        if s == max {
            assert((100 * s) / max == 100) by (nonlinear_arith)
                requires
                    s == max,
                    max > 0,
            ;
        }
    } else {
        assert(s == 0);
    }
}

/// Normalizing keeps the order of non-negative scores, or turns it round, keeps
/// equal scores equal, and each score keeps its place.
pub proof fn normalizing_keeps_order(reverse: bool, scores: Seq<i64>, i: int, j: int)
    requires
        0 <= i < scores.len(),
        0 <= j < scores.len(),
        forall|k: int| 0 <= k < scores.len() ==> #[trigger] scores[k] >= 0,
        scores[i] <= scores[j],
    ensures
        normalized(reverse, scores).len() == scores.len(),
        !reverse ==> normalized(reverse, scores)[i] <= normalized(reverse, scores)[j],
        reverse ==> normalized(reverse, scores)[i] >= normalized(reverse, scores)[j],
        scores[i] == 0 ==> normalized(reverse, scores)[i] == (if reverse {
            MAX_NODE_SCORE as int
        } else {
            0
        }),
{
    crate::numbers::largest_bounds(scores);
    normalized_in_range(reverse, scores, i);
    normalized_in_range(reverse, scores, j);
    let max = largest(scores);
    let a = scores[i] as int;
    let b = scores[j] as int;
    if max > 0 {
        assert(0 <= (100 * a) / max <= (100 * b) / max <= 100) by (nonlinear_arith)
            requires
                0 <= a <= b <= max,
                max > 0,
        ;
        if a == 0 {
            assert((100 * a) / max == 0) by (nonlinear_arith)
                requires
                    a == 0,
                    max > 0,
            ;
        }
    }
}

} // verus!
