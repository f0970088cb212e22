//! `PrioritySort`: higher priority first, then whoever entered the queue first.
//!
//! The tiebreak is the time of first entry, which a failed attempt keeps.

use crate::cache::PodInfo;
use crate::framework::{NoHint, Plugin, QueueSortPlugin};
use vstd::prelude::*;

verus! {

pub const NAME: &'static str = "PrioritySort";

pub struct PrioritySort;

impl Plugin for PrioritySort {
    type Hint = NoHint;

    open spec fn name_view(&self) -> Seq<char> {
        NAME@
    }

    fn name(&self) -> (r: &'static str) {
        NAME
    }
}

/// Whether `a` goes before `b`.
pub open spec fn goes_first(a: PodInfo, b: PodInfo) -> bool {
    a.priority > b.priority || (a.priority == b.priority && a.queued_at.before(b.queued_at))
}

impl QueueSortPlugin for PrioritySort {
    open spec fn less_view(&self, a: PodInfo, b: PodInfo) -> bool {
        goes_first(a, b)
    }

    fn less(&self, a: &PodInfo, b: &PodInfo) -> (r: bool) {
        if a.priority != b.priority {
            return a.priority > b.priority;
        }
        a.queued_at.is_before(&b.queued_at)
    }
}

/// The order is strict: nothing goes before itself, two pods do not each go
/// before the other, and it carries over.
pub proof fn order_is_strict(a: PodInfo, b: PodInfo, c: PodInfo)
    ensures
        !goes_first(a, a),
        goes_first(a, b) ==> !goes_first(b, a),
        goes_first(a, b) && goes_first(b, c) ==> goes_first(a, c),
        !goes_first(a, b) && !goes_first(b, c) ==> !goes_first(a, c),
{
}

/// A failed attempt costs a pod no place: the number of attempts does not
/// enter into the order.
pub proof fn attempts_keep_their_place(a: PodInfo, b: PodInfo, attempts: u32)
    ensures
        goes_first(PodInfo { attempts, ..a }, b) == goes_first(a, b),
        goes_first(b, PodInfo { attempts, ..a }) == goes_first(b, a),
{
}

/// Of two pods the one of higher priority goes first, whenever they came; of two
/// of the same priority the one that came earlier.
pub proof fn priority_outweighs_age(plugin: PrioritySort, a: PodInfo, b: PodInfo)
    ensures
        a.priority > b.priority ==> plugin.less_view(a, b),
        a.priority < b.priority ==> !plugin.less_view(a, b),
        a.priority == b.priority ==> (plugin.less_view(a, b) <==> a.queued_at.before(b.queued_at)),
{
}

} // verus!
