//! `NodeResourcesFit`: does the pod's request fit in what the node has left,
//! and how good a fit is it.
//!
//! Filtering uses the pod's own requests, so a pod that asks for nothing fits
//! anywhere. Scoring uses them with defaults for CPU and memory, so that pods
//! which ask for nothing do not all pile onto one node.

use super::{always_on, event_on};
use crate::cache::{
    clamp64, scoring_amount, sum64, taken, NodeInfo, PodInfo, Resources, Snapshot,
};
use crate::events::{ActionType, ClusterEvent, EventResource};
use crate::framework::status::{success, unschedulable, Status, StatusView};
use crate::framework::{
    events_of, ClusterEventWithHint, CycleState, FilterPlugin, NoHint, Plugin,
    PreFilterExtensions, PreFilterPlugin, PreScorePlugin, ScorePlugin, MAX_NODE_SCORE,
};
use crate::numbers::{divide, narrow, trunc_div};
use crate::text::{contains_text, has_text, joined, views};
use std::sync::Arc;
use vstd::prelude::*;

verus! {

pub const NAME: &'static str = "NodeResourcesFit";

/// How to turn utilisation into a score.
#[derive(Clone, Debug, PartialEq)]
pub enum ScoringStrategy {
    /// Emptier nodes score higher.
    LeastAllocated,
    /// Fuller nodes score higher.
    MostAllocated,
    /// A piecewise-linear curve of points (utilisation, score).
    RequestedToCapacityRatio { shape: Vec<(i64, i64)> },
}

impl Default for ScoringStrategy {
    fn default() -> (r: Self)
        ensures
            r is LeastAllocated,
    {
        ScoringStrategy::LeastAllocated
    }
}

/// Scoring weights by resource name.
#[derive(Clone, Debug)]
pub struct ResourceWeights(pub Vec<(String, i64)>);

impl Default for ResourceWeights {
    fn default() -> (r: Self)
        ensures
            r.0@.len() == 2,
            r.0@[0].0@ == "cpu"@ && r.0@[0].1 == 1,
            r.0@[1].0@ == "memory"@ && r.0@[1].1 == 1,
    {
        let mut w: Vec<(String, i64)> = Vec::new();
        w.push(("cpu".to_owned(), 1));
        w.push(("memory".to_owned(), 1));
        ResourceWeights(w)
    }
}

/// The pod's requests, and what preemption pretends to add and remove.
pub struct FitState {
    pub requests: Resources,
    pub non_zero: Resources,
    /// Requests of pods that joined.
    pub delta: Resources,
    /// Requests of pods that left.
    pub freed: Resources,
    /// Pods that joined less pods that left.
    pub pod_count_delta: i64,
}

pub struct NodeResourcesFit {
    pub strategy: ScoringStrategy,
    pub weights: ResourceWeights,
    /// Resources whose fit an extender decides.
    pub ignored_resources: Vec<String>,
}

impl Default for NodeResourcesFit {
    fn default() -> (r: Self)
        ensures
            r.strategy is LeastAllocated,
            r.weights.0@.len() == 2,
            r.weights.0@[0].0@ == "cpu"@ && r.weights.0@[0].1 == 1,
            r.weights.0@[1].0@ == "memory"@ && r.weights.0@[1].1 == 1,
            r.ignored_resources@.len() == 0,
    {
        NodeResourcesFit {
            strategy: ScoringStrategy::default(),
            weights: ResourceWeights::default(),
            ignored_resources: Vec::new(),
        }
    }
}

pub open spec fn subscriptions() -> Seq<ClusterEvent> {
    seq![
        event_on(
            EventResource::AssignedPod,
            ActionType::DELETE | ActionType::UPDATE_POD_SCALE_DOWN,
        ),
        event_on(EventResource::Node, ActionType::ADD | ActionType::UPDATE_NODE_ALLOCATABLE),
    ]
}

impl Plugin for NodeResourcesFit {
    type Hint = NoHint;

    open spec fn name_view(&self) -> Seq<char> {
        NAME@
    }

    fn name(&self) -> (r: &'static str) {
        NAME
    }

    fn events_to_register(&self) -> (r: Vec<ClusterEventWithHint<NoHint>>)
        ensures
            events_of(r@) == subscriptions(),
            crate::framework::unhinted(r@),
    {
        let mut out: Vec<ClusterEventWithHint<NoHint>> = Vec::new();
        out.push(
            always_on(
                EventResource::AssignedPod,
                ActionType::DELETE | ActionType::UPDATE_POD_SCALE_DOWN,
            ),
        );
        out.push(
            always_on(EventResource::Node, ActionType::ADD | ActionType::UPDATE_NODE_ALLOCATABLE),
        );
        assert(events_of(out@) =~= subscriptions());
        out
    }
}

/// The state of a pod with nothing pretended.
pub open spec fn fresh(s: FitState, pod: PodInfo) -> bool {
    &&& s.requests.same_amounts(&pod.requests)
    &&& forall|n: Seq<char>| #[trigger]
        s.non_zero.amount(n) == scoring_amount(n, pod.requests.amount(n))
    &&& forall|n: Seq<char>| #[trigger] s.delta.amount(n) == 0
    &&& forall|n: Seq<char>| #[trigger] s.freed.amount(n) == 0
    &&& s.pod_count_delta == 0
}

fn fresh_state(pod: &PodInfo) -> (r: FitState)
    ensures
        fresh(r, *pod),
{
    FitState {
        requests: pod.requests.copy(),
        non_zero: pod.non_zero_requests(),
        delta: Resources::none(),
        freed: Resources::none(),
        pod_count_delta: 0,
    }
}

impl PreFilterPlugin for NodeResourcesFit {
    open spec fn pre_filter_view(
        &self,
        before: CycleState,
        pod: PodInfo,
        snapshot: Snapshot,
        after: CycleState,
        status: StatusView,
    ) -> bool {
        &&& status == success()
        &&& after.only_slot(&before, NAME@)
        &&& after.same_skips(&before)
        &&& after.value::<FitState>(NAME@) matches Some(s) && fresh(s, pod)
    }

    fn pre_filter(&self, state: &mut CycleState, pod: &PodInfo, snapshot: &Snapshot) -> (r: (
        Status,
        Option<Vec<String>>,
    ))
        ensures
            r.1 is None,
    {
        state.write(NAME, fresh_state(pod));
        (Status::success(), None)
    }
}

/// The amounts of a cycle before a pretended change; nothing of anything where
/// the plugin has no state.
pub open spec fn amounts_before(state: CycleState, which: int, n: Seq<char>) -> int {
    match state.value::<FitState>(NAME@) {
        Some(s) => if which == 0 {
            s.requests.amount(n)
        } else if which == 1 {
            s.non_zero.amount(n)
        } else if which == 2 {
            s.delta.amount(n)
        } else {
            s.freed.amount(n)
        },
        None => 0,
    }
}

pub open spec fn names_before(state: CycleState) -> Seq<Seq<char>> {
    match state.value::<FitState>(NAME@) {
        Some(s) => s.requests.name_views(),
        None => Seq::empty(),
    }
}

pub open spec fn count_before(state: CycleState) -> int {
    match state.value::<FitState>(NAME@) {
        Some(s) => s.pod_count_delta as int,
        None => 0,
    }
}

/// What the state becomes when a pod joins or leaves.
pub open spec fn state_adjusted(before: CycleState, t: FitState, other: PodInfo, joins: bool) -> bool {
    &&& t.requests.name_views() == names_before(before)
    &&& forall|n: Seq<char>| #[trigger] t.requests.amount(n) == amounts_before(before, 0, n)
    &&& forall|n: Seq<char>| #[trigger] t.non_zero.amount(n) == amounts_before(before, 1, n)
    &&& forall|n: Seq<char>| #[trigger]
        t.delta.amount(n) == if joins {
            clamp64(amounts_before(before, 2, n) + other.requests.amount(n))
        } else {
            amounts_before(before, 2, n)
        }
    &&& forall|n: Seq<char>| #[trigger]
        t.freed.amount(n) == if joins {
            amounts_before(before, 3, n)
        } else {
            clamp64(amounts_before(before, 3, n) + other.requests.amount(n))
        }
    &&& t.pod_count_delta == clamp64(
        count_before(before) + if joins {
            1int
        } else {
            -1int
        },
    )
}

pub open spec fn slot_adjusted(
    before: CycleState,
    other: PodInfo,
    joins: bool,
    after: CycleState,
) -> bool {
    &&& after.only_slot(&before, NAME@)
    &&& after.same_skips(&before)
    &&& after.value::<FitState>(NAME@) matches Some(t) && state_adjusted(before, t, other, joins)
}

proof fn same_names(a: Resources, b: Resources)
    requires
        a.same_amounts(&b),
    ensures
        a.name_views() == b.name_views(),
        forall|n: Seq<char>| #[trigger] a.amount(n) == b.amount(n),
{
}

fn adjust(state: &mut CycleState, other: &PodInfo, joins: bool)
    ensures
        slot_adjusted(*old(state), *other, joins, *final(state)),
{
    let mut fit = match state.read::<FitState>(NAME) {
        Some(s) => {
            let copy = FitState {
                requests: s.requests.copy(),
                non_zero: s.non_zero.copy(),
                delta: s.delta.copy(),
                freed: s.freed.copy(),
                pod_count_delta: s.pod_count_delta,
            };
            proof {
                same_names(copy.requests, s.requests);
                same_names(copy.non_zero, s.non_zero);
                same_names(copy.delta, s.delta);
                same_names(copy.freed, s.freed);
            }
            copy
        },
        None => {
            let empty = FitState {
                requests: Resources::none(),
                non_zero: Resources::none(),
                delta: Resources::none(),
                freed: Resources::none(),
                pod_count_delta: 0,
            };
            assert(empty.requests.name_views() =~= Seq::<Seq<char>>::empty());
            empty
        },
    };
    let ghost prior = fit;
    if joins {
        fit.delta.add(&other.requests);
        fit.pod_count_delta = sum64(fit.pod_count_delta, 1);
    } else {
        fit.freed.add(&other.requests);
        fit.pod_count_delta = sum64(fit.pod_count_delta, -1);
    }
    state.write(NAME, fit);
}

impl PreFilterExtensions for NodeResourcesFit {
    open spec fn adjusted_view(
        &self,
        before: CycleState,
        pod: PodInfo,
        other: PodInfo,
        node: NodeInfo,
        joins: bool,
        after: CycleState,
    ) -> bool {
        slot_adjusted(before, other, joins, after)
    }

    fn add_pod(
        &self,
        state: &mut CycleState,
        pod: &PodInfo,
        pod_to_add: &PodInfo,
        node: &NodeInfo,
    ) -> (r: Status)
        ensures
            r@ == success(),
    {
        adjust(state, pod_to_add, true);
        Status::success()
    }

    fn remove_pod(
        &self,
        state: &mut CycleState,
        pod: &PodInfo,
        pod_to_remove: &PodInfo,
        node: &NodeInfo,
    ) -> (r: Status)
        ensures
            r@ == success(),
    {
        adjust(state, pod_to_remove, false);
        Status::success()
    }
}

/// What the node has committed of a resource, with what is pretended.
pub open spec fn committed(node: NodeInfo, delta: int, freed: int, name: Seq<char>) -> int {
    taken(clamp64(node.requested.amount(name) + delta), freed)
}

/// The node lacks room for a resource: it has none of it at all, or too little
/// beside what is committed.
pub open spec fn lacks(node: NodeInfo, delta: int, freed: int, want: int, name: Seq<char>) -> bool {
    node.allocatable.amount(name) == 0 || committed(node, delta, freed, name) + want
        > node.allocatable.amount(name)
}

/// What a cycle wants of a resource: what it keeps, or what the pod asks.
pub open spec fn wanted(state: CycleState, pod: PodInfo, name: Seq<char>) -> int {
    match state.value::<FitState>(NAME@) {
        Some(s) => s.requests.amount(name),
        None => pod.requests.amount(name),
    }
}

pub open spec fn wanted_names(state: CycleState, pod: PodInfo) -> Seq<Seq<char>> {
    match state.value::<FitState>(NAME@) {
        Some(s) => s.requests.name_views(),
        None => pod.requests.name_views(),
    }
}

/// The first resource of a list that the node lacks room for and that is not
/// ignored.
pub open spec fn first_lack(
    names: Seq<Seq<char>>,
    state: CycleState,
    pod: PodInfo,
    node: NodeInfo,
    ignored: Seq<String>,
) -> Option<Seq<char>>
    decreases names.len(),
{
    if names.len() == 0 {
        None
    } else {
        match first_lack(names.drop_last(), state, pod, node, ignored) {
            Some(n) => Some(n),
            None => if !has_text(ignored, names.last()) && lacks(
                node,
                amounts_before(state, 2, names.last()),
                amounts_before(state, 3, names.last()),
                wanted(state, pod, names.last()),
                names.last(),
            ) {
                Some(names.last())
            } else {
                None
            },
        }
    }
}

proof fn lack_stands(
    names: Seq<Seq<char>>,
    state: CycleState,
    pod: PodInfo,
    node: NodeInfo,
    ignored: Seq<String>,
    n: int,
)
    requires
        0 <= n <= names.len(),
        first_lack(names.take(n), state, pod, node, ignored) is Some,
    ensures
        first_lack(names, state, pod, node, ignored) == first_lack(
            names.take(n),
            state,
            pod,
            node,
            ignored,
        ),
    decreases names.len() - n,
{
    if n == names.len() {
        assert(names.take(n) =~= names);
    } else {
        assert(names.take(n + 1).drop_last() =~= names.take(n));
        lack_stands(names, state, pod, node, ignored, n + 1);
    }
}

impl FilterPlugin for NodeResourcesFit {
    open spec fn filter_view(&self, state: CycleState, pod: PodInfo, node: NodeInfo) -> StatusView {
        if node.allocatable_pods > 0 && node.pods@.len() + count_before(state)
            >= node.allocatable_pods {
            unschedulable(NAME@, "Too many pods"@)
        } else {
            match first_lack(
                wanted_names(state, pod),
                state,
                pod,
                node,
                self.ignored_resources@,
            ) {
                Some(name) => unschedulable(NAME@, "Insufficient "@ + name),
                None => success(),
            }
        }
    }

    fn filter(&self, state: &CycleState, pod: &PodInfo, node: &NodeInfo) -> (r: Status) {
        let spare = fresh_state(pod);
        proof {
            same_names(spare.requests, pod.requests);
        }
        let fit = match state.read::<FitState>(NAME) {
            Some(s) => s,
            None => &spare,
        };
        let count: i128 = (node.pod_count() as i128) + (fit.pod_count_delta as i128);
        if node.allocatable_pods > 0 && count >= node.allocatable_pods as i128 {
            return Status::unschedulable(NAME, "Too many pods");
        }
        let mut used = node.requested.copy();
        proof {
            same_names(used, node.requested);
        }
        used.add(&fit.delta);
        let ghost mid = used;
        used.sub(&fit.freed);
        let names = fit.requests.names();
        let ghost all = wanted_names(*state, *pod);
        proof {
            assert(views(names@) == all);
            assert forall|n: Seq<char>| #[trigger]
                used.amount(n) == committed(
                    *node,
                    amounts_before(*state, 2, n),
                    amounts_before(*state, 3, n),
                    n,
                ) by {
                let m = mid.amount(n);
                let d = fit.delta.amount(n);
                let f = fit.freed.amount(n);
            }
        }
        let mut i: usize = 0;
        while i < names.len()
            invariant
                i <= names@.len(),
                views(names@) == all,
                all == wanted_names(*state, *pod),
                forall|n: Seq<char>| #[trigger]
                    fit.requests.amount(n) == wanted(*state, *pod, n),
                forall|n: Seq<char>| #[trigger]
                    used.amount(n) == committed(
                        *node,
                        amounts_before(*state, 2, n),
                        amounts_before(*state, 3, n),
                        n,
                    ),
                first_lack(all.take(i as int), *state, *pod, *node, self.ignored_resources@)
                    is None,
                !(node.allocatable_pods > 0 && node.pods@.len() + count_before(*state)
                    >= node.allocatable_pods),
            decreases names@.len() - i,
        {
            let name = names[i].as_str();
            proof {
                assert(all.take(i + 1).drop_last() =~= all.take(i as int));
                assert(all.take(i + 1).last() == name@);
            }
            if !contains_text(&self.ignored_resources, name) {
                let want: i64 = fit.requests.get(name);
                let allocatable: i64 = node.allocatable.get(name);
                let busy: i64 = used.get(name);
                if allocatable == 0 || (busy as i128) + (want as i128) > allocatable as i128 {
                    proof {
                        lack_stands(all, *state, *pod, *node, self.ignored_resources@, i + 1);
                    }
                    let text = joined("Insufficient ", name);
                    return Status::unschedulable(NAME, text.as_str());
                }
            }
            i += 1;
        }
        assert(all.take(i as int) =~= all);
        Status::success()
    }
}

impl PreScorePlugin for NodeResourcesFit {
    open spec fn pre_score_view(
        &self,
        before: CycleState,
        pod: PodInfo,
        nodes: Seq<Arc<NodeInfo>>,
        after: CycleState,
        status: StatusView,
    ) -> bool {
        status == success() && after == before
    }

    fn pre_score(&self, state: &mut CycleState, pod: &PodInfo, nodes: &Vec<Arc<NodeInfo>>) -> (r:
        Status) {
        Status::success()
    }
}

/// Utilisation in percent, at most all of it. A resource the node has none of
/// counts as used up.
pub open spec fn utilisation_of(requested: int, allocatable: int) -> int {
    if allocatable <= 0 {
        MAX_NODE_SCORE as int
    } else {
        let percent = trunc_div(requested * 100, allocatable);
        if percent < 0 {
            0
        } else if percent > MAX_NODE_SCORE {
            MAX_NODE_SCORE as int
        } else {
            percent
        }
    }
}

fn utilisation(requested: i64, allocatable: i64) -> (r: i64)
    ensures
        r == utilisation_of(requested as int, allocatable as int),
        0 <= r <= MAX_NODE_SCORE,
{
    if allocatable <= 0 {
        return MAX_NODE_SCORE;
    }
    let percent: i128 = divide((requested as i128) * 100, allocatable as i128);
    if percent < 0 {
        0
    } else if percent > MAX_NODE_SCORE as i128 {
        MAX_NODE_SCORE
    } else {
        percent as i64
    }
}

/// Where a point belongs in a curve ordered by utilisation: behind those of
/// the same.
pub open spec fn point_place(shape: Seq<(i64, i64)>, u: i64) -> int
    decreases shape.len(),
{
    if shape.len() == 0 || u < shape[0].0 {
        0
    } else {
        1 + point_place(shape.skip(1), u)
    }
}

proof fn point_place_is(shape: Seq<(i64, i64)>, u: i64, i: int)
    requires
        0 <= i <= shape.len(),
        forall|k: int| 0 <= k < i ==> (#[trigger] shape[k]).0 <= u,
        i < shape.len() ==> u < shape[i].0,
    ensures
        point_place(shape, u) == i,
    decreases shape.len(),
{
    if shape.len() > 0 && i > 0 {
        assert(shape[0].0 <= u);
        assert forall|k: int| 0 <= k < i - 1 implies (#[trigger] shape.skip(1)[k]).0 <= u by {
            assert(shape[k + 1].0 <= u);
        }
        point_place_is(shape.skip(1), u, i - 1);
    }
}

/// The points of a curve by utilisation.
pub open spec fn curve(shape: Seq<(i64, i64)>) -> Seq<(i64, i64)>
    decreases shape.len(),
{
    if shape.len() == 0 {
        Seq::empty()
    } else {
        let rest = curve(shape.drop_last());
        rest.insert(point_place(rest, shape.last().0), shape.last())
    }
}

fn sorted_curve(shape: &Vec<(i64, i64)>) -> (r: Vec<(i64, i64)>)
    ensures
        r@ == curve(shape@),
{
    let mut out: Vec<(i64, i64)> = Vec::new();
    let mut i: usize = 0;
    while i < shape.len()
        invariant
            i <= shape@.len(),
            out@ == curve(shape@.take(i as int)),
        decreases shape@.len() - i,
    {
        let mut at: usize = 0;
        while at < out.len() && out[at].0 <= shape[i].0
            invariant
                i < shape@.len(),
                at <= out@.len(),
                forall|k: int| 0 <= k < at ==> (#[trigger] out@[k]).0 <= shape@[i as int].0,
            decreases out@.len() - at,
        {
            at += 1;
        }
        proof {
            point_place_is(out@, shape@[i as int].0, at as int);
        }
        out.insert(at, shape[i]);
        i += 1;
        assert(shape@.take(i as int).drop_last() =~= shape@.take(i - 1));
    }
    assert(shape@.take(i as int) =~= shape@);
    out
}

/// The score on the line between two points.
pub open spec fn on_line(u0: int, s0: int, u1: int, s1: int, util: int) -> int {
    if u1 == u0 {
        s1
    } else {
        s0 + trunc_div((s1 - s0) * (util - u0), u1 - u0)
    }
}

fn line(p: (i64, i64), q: (i64, i64), util: i64) -> (r: i64)
    requires
        p.0 <= util <= q.0,
    ensures
        r == on_line(p.0 as int, p.1 as int, q.0 as int, q.1 as int, util as int),
{
    if q.0 == p.0 {
        return q.1;
    }
    let rises = q.1 >= p.1;
    let span: i128 = (q.1 as i128) - (p.1 as i128);
    let height: u128 = if rises {
        span as u128
    } else {
        (-span) as u128
    };
    let along: u128 = ((util as i128) - (p.0 as i128)) as u128;
    let width: u128 = ((q.0 as i128) - (p.0 as i128)) as u128;
    proof {
        assert(height * along <= 0xffff_ffff_ffff_ffff * 0xffff_ffff_ffff_ffff)
            by (nonlinear_arith)
            requires
                0 <= height <= 0xffff_ffff_ffff_ffff,
                0 <= along <= 0xffff_ffff_ffff_ffff,
        ;
        assert((height * along) / (width as int) <= height) by (nonlinear_arith)
            requires
                0 <= along <= width,
                width > 0,
                height >= 0,
        ;
        assert((height * along) / (width as int) >= 0) by (nonlinear_arith)
            requires
                height * along >= 0,
                width > 0,
        ;
        let s = span as int;
        let h = height as int;
        let a = along as int;
        assert(height * along >= 0) by (nonlinear_arith)
            requires
                height >= 0,
                along >= 0,
        ;
        if rises {
            assert(s * a == h * a);
        } else {
            assert(s * a == -(h * a)) by (nonlinear_arith)
                requires
                    s == -h,
            ;
        }
    }
    let step: u128 = (height * along) / width;
    let r: i128 = if rises {
        (p.1 as i128) + (step as i128)
    } else {
        (p.1 as i128) - (step as i128)
    };
    r as i64
}

/// The first segment of an ordered curve that a utilisation lies on.
pub open spec fn first_segment(c: Seq<(i64, i64)>, util: int) -> Option<int>
    decreases c.len(),
{
    if c.len() < 2 {
        None
    } else if c[0].0 <= util <= c[1].0 {
        Some(0)
    } else {
        match first_segment(c.skip(1), util) {
            Some(i) => Some(i + 1),
            None => None,
        }
    }
}

proof fn first_segment_at(c: Seq<(i64, i64)>, util: int, i: int)
    requires
        0 <= i,
        i + 1 < c.len() ==> c[i].0 <= util <= c[i + 1].0,
        i + 1 <= c.len() || c.len() < 2,
        forall|k: int| 0 <= k < i && k + 1 < c.len() ==> !((#[trigger] c[k]).0 <= util <= c[k + 1].0),
    ensures
        first_segment(c, util) == if i + 1 < c.len() {
            Some(i)
        } else {
            None
        },
    decreases c.len(),
{
    if c.len() >= 2 && i > 0 {
        assert(!(c[0].0 <= util <= c[1].0));
        assert forall|k: int| 0 <= k < i - 1 && k + 1 < c.skip(1).len() implies !((
        #[trigger] c.skip(1)[k]).0 <= util <= c.skip(1)[k + 1].0) by {
            assert(!(c[k + 1].0 <= util <= c[k + 2].0));
        }
        first_segment_at(c.skip(1), util, i - 1);
    }
}

/// The score of a utilisation on a curve: flat outside its range, and linear
/// between its points.
pub open spec fn on_curve(shape: Seq<(i64, i64)>, util: int) -> int {
    let c = curve(shape);
    if c.len() == 0 {
        0
    } else if util <= c[0].0 {
        c[0].1 as int
    } else if util >= c.last().0 {
        c.last().1 as int
    } else {
        match first_segment(c, util) {
            Some(i) => on_line(
                c[i].0 as int,
                c[i].1 as int,
                c[i + 1].0 as int,
                c[i + 1].1 as int,
                util,
            ),
            None => 0,
        }
    }
}

/// Piecewise-linear interpolation over a curve.
pub fn interpolate_shape(shape: &Vec<(i64, i64)>, util: i64) -> (r: i64)
    ensures
        r == on_curve(shape@, util as int),
{
    let c = sorted_curve(shape);
    if c.len() == 0 {
        return 0;
    }
    if util <= c[0].0 {
        return c[0].1;
    }
    let n: usize = c.len();
    if util >= c[n - 1].0 {
        return c[n - 1].1;
    }
    let mut i: usize = 0;
    while i < n - 1 && !(c[i].0 <= util && util <= c[i + 1].0)
        invariant
            n == c@.len(),
            n > 0,
            i <= n - 1,
            forall|k: int|
                0 <= k < i && k + 1 < n ==> !((#[trigger] c@[k]).0 <= util <= c@[k + 1].0),
        decreases n - i,
    {
        i += 1;
    }
    proof {
        first_segment_at(c@, util as int, i as int);
    }
    if i < n - 1 {
        line(c[i], c[i + 1], util)
    } else {
        0
    }
}

/// What a resource's utilisation is worth.
pub open spec fn resource_score(strategy: ScoringStrategy, util: int) -> int {
    match strategy {
        ScoringStrategy::LeastAllocated => MAX_NODE_SCORE - util,
        ScoringStrategy::MostAllocated => util,
        ScoringStrategy::RequestedToCapacityRatio { shape } => on_curve(shape@, util),
    }
}

/// What scoring counts of a resource for the incoming pod.
pub open spec fn scored_request(state: CycleState, pod: PodInfo, name: Seq<char>) -> int {
    match state.value::<FitState>(NAME@) {
        Some(s) => s.non_zero.amount(name),
        None => scoring_amount(name, pod.requests.amount(name)),
    }
}

/// The utilisation of a resource with the incoming pod in place.
pub open spec fn util_after(state: CycleState, pod: PodInfo, node: NodeInfo, name: Seq<char>) -> int {
    utilisation_of(
        clamp64(node.non_zero_requested.amount(name) + scored_request(state, pod, name)),
        node.allocatable.amount(name),
    )
}

/// The weighted scores of the resources the node has, summed within `i64`.
pub open spec fn weighted_sum(
    weights: Seq<(String, i64)>,
    strategy: ScoringStrategy,
    state: CycleState,
    pod: PodInfo,
    node: NodeInfo,
) -> int
    decreases weights.len(),
{
    if weights.len() == 0 {
        0
    } else {
        let rest = weighted_sum(weights.drop_last(), strategy, state, pod, node);
        let name = weights.last().0@;
        if node.allocatable.amount(name) == 0 {
            rest
        } else {
            clamp64(
                rest + clamp64(
                    resource_score(strategy, util_after(state, pod, node, name))
                        * weights.last().1,
                ),
            )
        }
    }
}

/// The weights of the resources the node has, summed within `i64`.
pub open spec fn weight_total(weights: Seq<(String, i64)>, node: NodeInfo) -> int
    decreases weights.len(),
{
    if weights.len() == 0 {
        0
    } else {
        let rest = weight_total(weights.drop_last(), node);
        if node.allocatable.amount(weights.last().0@) == 0 {
            rest
        } else {
            clamp64(rest + weights.last().1)
        }
    }
}

/// The mean: the sum over the total, rounded towards zero.
pub open spec fn mean(sum: int, total: int) -> int {
    if total == 0 {
        0
    } else if total > 0 {
        clamp64(trunc_div(sum, total))
    } else {
        clamp64(trunc_div(-sum, -total))
    }
}

impl ScorePlugin for NodeResourcesFit {
    open spec fn score_view(&self, state: CycleState, pod: PodInfo, node: NodeInfo) -> int {
        mean(
            weighted_sum(self.weights.0@, self.strategy, state, pod, node),
            weight_total(self.weights.0@, node),
        )
    }

    fn score(&self, state: &CycleState, pod: &PodInfo, node: &NodeInfo) -> (r: Result<i64, Status>)
        ensures
            r is Ok,
    {
        let spare = fresh_state(pod);
        let non_zero = match state.read::<FitState>(NAME) {
            Some(s) => &s.non_zero,
            None => &spare.non_zero,
        };
        let weights = &self.weights.0;
        let mut sum: i64 = 0;
        let mut total: i64 = 0;
        let mut i: usize = 0;
        while i < weights.len()
            invariant
                i <= weights@.len(),
                weights@ == self.weights.0@,
                forall|n: Seq<char>| #[trigger]
                    non_zero.amount(n) == scored_request(*state, *pod, n),
                sum == weighted_sum(
                    weights@.take(i as int),
                    self.strategy,
                    *state,
                    *pod,
                    *node,
                ),
                total == weight_total(weights@.take(i as int), *node),
            decreases weights@.len() - i,
        {
            let name = weights[i].0.as_str();
            let weight: i64 = weights[i].1;
            let allocatable: i64 = node.allocatable.get(name);
            if allocatable != 0 {
                let requested: i64 = sum64(node.non_zero_requested.get(name), non_zero.get(name));
                let util: i64 = utilisation(requested, allocatable);
                let score: i64 = match &self.strategy {
                    ScoringStrategy::LeastAllocated => MAX_NODE_SCORE - util,
                    ScoringStrategy::MostAllocated => util,
                    ScoringStrategy::RequestedToCapacityRatio { shape } => interpolate_shape(
                        shape,
                        util,
                    ),
                };
                proof {
                    let s = score as int;
                    let w = weight as int;
                    assert(-0x4000_0000_0000_0000_0000_0000_0000_0000 <= s * w
                        <= 0x4000_0000_0000_0000_0000_0000_0000_0000) by (nonlinear_arith)
                        requires
                            -0x8000_0000_0000_0000 <= s <= 0x7fff_ffff_ffff_ffff,
                            -0x8000_0000_0000_0000 <= w <= 0x7fff_ffff_ffff_ffff,
                    ;
                }
                let weighted: i64 = narrow((score as i128) * (weight as i128));
                sum = sum64(sum, weighted);
                total = sum64(total, weight);
            }
            i += 1;
            assert(weights@.take(i as int).drop_last() =~= weights@.take(i - 1));
        }
        assert(weights@.take(i as int) =~= weights@);
        if total == 0 {
            return Ok(0);
        }
        let quotient: i128 = if total > 0 {
            divide(sum as i128, total as i128)
        } else {
            divide(-(sum as i128), -(total as i128))
        };
        Ok(narrow(quotient))
    }
}

/// A pod that asks for nothing fits however full the node is, short of the
/// limit on its pods.
pub proof fn asking_nothing_fits(plugin: NodeResourcesFit, state: CycleState, pod: PodInfo, node: NodeInfo)
    requires
        wanted_names(state, pod).len() == 0,
        node.allocatable_pods <= 0 || node.pods@.len() + count_before(state)
            < node.allocatable_pods,
    ensures
        plugin.filter_view(state, pod, node) == success(),
{
}

/// Pretending that a pod left never takes room away: what is committed of a
/// resource does not grow, for requests that are not negative.
pub proof fn leaving_frees(node: NodeInfo, delta: int, freed: int, more: int, name: Seq<char>)
    requires
        freed >= 0,
        more >= 0,
        committed(node, delta, 0, name) >= 0,
    ensures
        committed(node, delta, clamp64(freed + more), name) <= committed(node, delta, freed, name),
{
}

proof fn point_place_bounds(shape: Seq<(i64, i64)>, u: i64)
    ensures
        0 <= point_place(shape, u) <= shape.len(),
    decreases shape.len(),
{
    if shape.len() > 0 && u >= shape[0].0 {
        point_place_bounds(shape.skip(1), u);
    }
}

proof fn curve_points(shape: Seq<(i64, i64)>)
    ensures
        curve(shape).len() == shape.len(),
        forall|i: int| 0 <= i < curve(shape).len() ==> shape.contains(#[trigger] curve(shape)[i]),
    decreases shape.len(),
{
    if shape.len() > 0 {
        let t = shape.drop_last();
        curve_points(t);
        let rest = curve(t);
        let at = point_place(rest, shape.last().0);
        point_place_bounds(rest, shape.last().0);
        let c = curve(shape);
        assert(c == rest.insert(at, shape.last()));
        assert forall|i: int| 0 <= i < c.len() implies shape.contains(#[trigger] c[i]) by {
            if i == at {
                assert(shape[shape.len() - 1] == c[i]);
            } else {
                let j = if i < at {
                    i
                } else {
                    i - 1
                };
                assert(c[i] == rest[j]);
                assert(t.contains(rest[j]));
                let k = choose|k: int| 0 <= k < t.len() && t[k] == rest[j];
                assert(shape[k] == c[i]);
            }
        }
    }
}

proof fn on_line_between(u0: int, s0: int, u1: int, s1: int, util: int)
    requires
        u0 <= util <= u1,
        0 <= s0 <= MAX_NODE_SCORE,
        0 <= s1 <= MAX_NODE_SCORE,
    ensures
        0 <= on_line(u0, s0, u1, s1, util) <= MAX_NODE_SCORE,
{
    if u1 != u0 {
        let a = util - u0;
        let b = u1 - u0;
        let rise = if s1 >= s0 {
            s1 - s0
        } else {
            s0 - s1
        };
        assert(0 <= rise * a && 0 <= (rise * a) / b <= rise) by (nonlinear_arith)
            requires
                0 <= a <= b,
                b > 0,
                rise >= 0,
        ;
        if s1 < s0 {
            assert((s1 - s0) * a == -(rise * a)) by (nonlinear_arith)
                requires
                    rise == s0 - s1,
            ;
        }
    }
}

proof fn segment_found(c: Seq<(i64, i64)>, util: int)
    ensures
        first_segment(c, util) matches Some(i) ==> 0 <= i < c.len() - 1 && c[i].0 <= util
            && util <= c[i + 1].0,
    decreases c.len(),
{
    if c.len() >= 2 && !(c[0].0 <= util <= c[1].0) {
        segment_found(c.skip(1), util);
    }
}

/// The strategy scores within the common range: where it is a curve, so do
/// its points.
pub open spec fn in_range(strategy: ScoringStrategy) -> bool {
    strategy matches ScoringStrategy::RequestedToCapacityRatio { shape } ==> forall|i: int|
        0 <= i < shape@.len() ==> 0 <= (#[trigger] shape@[i]).1 <= MAX_NODE_SCORE
}

proof fn resource_score_in_range(strategy: ScoringStrategy, util: int)
    requires
        in_range(strategy),
        0 <= util <= MAX_NODE_SCORE,
    ensures
        0 <= resource_score(strategy, util) <= MAX_NODE_SCORE,
{
    match strategy {
        ScoringStrategy::RequestedToCapacityRatio { shape } => {
            let c = curve(shape@);
            curve_points(shape@);
            assert forall|i: int| 0 <= i < c.len() implies 0 <= (#[trigger] c[i]).1
                <= MAX_NODE_SCORE by {
                assert(shape@.contains(c[i]));
                let k = choose|k: int| 0 <= k < shape@.len() && shape@[k] == c[i];
                assert(0 <= shape@[k].1 <= MAX_NODE_SCORE);
            }
            if c.len() > 0 {
                assert(0 <= c[0].1 <= MAX_NODE_SCORE);
                assert(0 <= c[c.len() - 1].1 <= MAX_NODE_SCORE);
                segment_found(c, util);
                match first_segment(c, util) {
                    Some(i) => {
                        assert(0 <= c[i].1 <= MAX_NODE_SCORE);
                        assert(0 <= c[i + 1].1 <= MAX_NODE_SCORE);
                        on_line_between(
                            c[i].0 as int,
                            c[i].1 as int,
                            c[i + 1].0 as int,
                            c[i + 1].1 as int,
                            util,
                        );
                    },
                    None => {},
                }
            }
        },
        _ => {},
    }
}

proof fn sum_within_total(
    weights: Seq<(String, i64)>,
    strategy: ScoringStrategy,
    state: CycleState,
    pod: PodInfo,
    node: NodeInfo,
)
    requires
        in_range(strategy),
        forall|i: int| 0 <= i < weights.len() ==> (#[trigger] weights[i]).1 >= 0,
    ensures
        0 <= weight_total(weights, node) <= i64::MAX,
        0 <= weighted_sum(weights, strategy, state, pod, node) <= MAX_NODE_SCORE * weight_total(
            weights,
            node,
        ),
    decreases weights.len(),
{
    if weights.len() > 0 {
        let t = weights.drop_last();
        assert forall|i: int| 0 <= i < t.len() implies (#[trigger] t[i]).1 >= 0 by {
            assert(weights[i].1 >= 0);
        }
        sum_within_total(t, strategy, state, pod, node);
        let name = weights.last().0@;
        let w = weights.last().1 as int;
        assert(weights[weights.len() - 1].1 >= 0);
        if node.allocatable.amount(name) != 0 {
            let s = resource_score(strategy, util_after(state, pod, node, name));
            resource_score_in_range(strategy, util_after(state, pod, node, name));
            assert(0 <= s * w <= 100 * w) by (nonlinear_arith)
                requires
                    0 <= s <= 100,
                    w >= 0,
            ;
        }
    }
}

/// The score stays in the common range without being normalized: the weighted
/// mean of values in that range is in it.
pub proof fn scores_stay_in_range(
    plugin: NodeResourcesFit,
    state: CycleState,
    pod: PodInfo,
    node: NodeInfo,
)
    requires
        in_range(plugin.strategy),
        forall|i: int|
            0 <= i < plugin.weights.0@.len() ==> (#[trigger] plugin.weights.0@[i]).1 >= 0,
    ensures
        0 <= plugin.score_view(state, pod, node) <= MAX_NODE_SCORE,
{
    let weights = plugin.weights.0@;
    sum_within_total(weights, plugin.strategy, state, pod, node);
    let sum = weighted_sum(weights, plugin.strategy, state, pod, node);
    let total = weight_total(weights, node);
    if total > 0 {
        assert(0 <= sum / total <= 100) by (nonlinear_arith)
            requires
                0 <= sum <= 100 * total,
                total > 0,
        ;
    }
}

proof fn no_lack(
    names: Seq<Seq<char>>,
    state: CycleState,
    pod: PodInfo,
    node: NodeInfo,
    ignored: Seq<String>,
)
    ensures
        first_lack(names, state, pod, node, ignored) is None <==> forall|i: int|
            0 <= i < names.len() ==> has_text(ignored, #[trigger] names[i]) || !lacks(
                node,
                amounts_before(state, 2, names[i]),
                amounts_before(state, 3, names[i]),
                wanted(state, pod, names[i]),
                names[i],
            ),
        first_lack(names, state, pod, node, ignored) matches Some(n) ==> names.contains(n),
    decreases names.len(),
{
    if names.len() > 0 {
        let t = names.drop_last();
        no_lack(t, state, pod, node, ignored);
        if first_lack(t, state, pod, node, ignored) is None {
            assert forall|i: int| 0 <= i < t.len() implies #[trigger] names[i] == t[i] by {}
            assert(names[names.len() - 1] == names.last());
        } else {
            let n = first_lack(t, state, pod, node, ignored)->Some_0;
            let j = choose|j: int| 0 <= j < t.len() && t[j] == n;
            assert(names[j] == n);
            if forall|i: int|
                0 <= i < names.len() ==> has_text(ignored, #[trigger] names[i]) || !lacks(
                    node,
                    amounts_before(state, 2, names[i]),
                    amounts_before(state, 3, names[i]),
                    wanted(state, pod, names[i]),
                    names[i],
                ) {
                assert forall|i: int| 0 <= i < t.len() implies has_text(ignored, #[trigger] t[i])
                    || !lacks(
                    node,
                    amounts_before(state, 2, t[i]),
                    amounts_before(state, 3, t[i]),
                    wanted(state, pod, t[i]),
                    t[i],
                ) by {
                    assert(names[i] == t[i]);
                }
            }
        }
    }
}

/// The node has room for a pod beside an amount in use: it has some of every
/// resource that the pod names and the plugin does not ignore, and what is in
/// use and what the pod asks for are no more than that.
pub open spec fn has_room(
    plugin: NodeResourcesFit,
    pod: PodInfo,
    node: NodeInfo,
    in_use: spec_fn(Seq<char>) -> int,
) -> bool {
    forall|n: Seq<char>|
        #![trigger pod.requests.name_views().contains(n)]
        pod.requests.name_views().contains(n) && !has_text(plugin.ignored_resources@, n) ==> {
            &&& node.allocatable.amount(n) != 0
            &&& in_use(n) + pod.requests.amount(n) <= node.allocatable.amount(n)
        }
}

proof fn room_decides(
    plugin: NodeResourcesFit,
    state: CycleState,
    pod: PodInfo,
    node: NodeInfo,
    in_use: spec_fn(Seq<char>) -> int,
)
    requires
        wanted_names(state, pod) == pod.requests.name_views(),
        forall|n: Seq<char>| #[trigger] wanted(state, pod, n) == pod.requests.amount(n),
        forall|n: Seq<char>| #[trigger]
            in_use(n) == committed(
                node,
                amounts_before(state, 2, n),
                amounts_before(state, 3, n),
                n,
            ),
    ensures
        plugin.filter_view(state, pod, node) == success() <==> {
            &&& node.allocatable_pods <= 0 || node.pods@.len() + count_before(state)
                < node.allocatable_pods
            &&& has_room(plugin, pod, node, in_use)
        },
{
    let names = pod.requests.name_views();
    let ignored = plugin.ignored_resources@;
    no_lack(names, state, pod, node, ignored);
    if first_lack(names, state, pod, node, ignored) is None {
        assert forall|n: Seq<char>|
            #![trigger names.contains(n)]
            names.contains(n) && !has_text(ignored, n) implies node.allocatable.amount(n) != 0
            && in_use(n) + pod.requests.amount(n) <= node.allocatable.amount(n) by {
            let i = choose|i: int| 0 <= i < names.len() && names[i] == n;
            assert(!lacks(
                node,
                amounts_before(state, 2, names[i]),
                amounts_before(state, 3, names[i]),
                wanted(state, pod, names[i]),
                names[i],
            ));
        }
    }
    if has_room(plugin, pod, node, in_use) {
        assert forall|i: int| 0 <= i < names.len() implies has_text(ignored, #[trigger] names[i])
            || !lacks(
            node,
            amounts_before(state, 2, names[i]),
            amounts_before(state, 3, names[i]),
            wanted(state, pod, names[i]),
            names[i],
        ) by {
            let n = names[i];
            assert(names.contains(n));
            assert(in_use(n) == committed(
                node,
                amounts_before(state, 2, n),
                amounts_before(state, 3, n),
                n,
            ));
        }
    }
}

/// With nothing pretended, a node passes exactly where it is below its limit of
/// pods and has room for what the pod asks for of every resource alike, beside
/// what the placed pods ask for.
pub proof fn passing_means_room(
    plugin: NodeResourcesFit,
    before: CycleState,
    pod: PodInfo,
    snapshot: Snapshot,
    state: CycleState,
    status: StatusView,
    node: NodeInfo,
)
    requires
        plugin.pre_filter_view(before, pod, snapshot, state, status),
    ensures
        plugin.filter_view(state, pod, node) == success() <==> {
            &&& node.allocatable_pods <= 0 || node.pods@.len() < node.allocatable_pods
            &&& has_room(plugin, pod, node, |n: Seq<char>| node.requested.amount(n))
        },
        plugin.filter_view(state, pod, node) == success() ==> forall|n: Seq<char>|
            #![trigger pod.requests.amount(n)]
            pod.requests.amount(n) != 0 && !has_text(plugin.ignored_resources@, n)
                ==> node.requested.amount(n) + pod.requests.amount(n) <= node.allocatable.amount(n),
{
    let s = state.value::<FitState>(NAME@)->Some_0;
    let in_use = |n: Seq<char>| node.requested.amount(n);
    assert forall|n: Seq<char>| #[trigger] wanted(state, pod, n) == pod.requests.amount(n) by {
        assert(s.requests.amount(n) == pod.requests.amount(n));
    }
    assert(s.requests.name_views() == pod.requests.name_views());
    assert forall|n: Seq<char>| #[trigger]
        in_use(n) == committed(
            node,
            amounts_before(state, 2, n),
            amounts_before(state, 3, n),
            n,
        ) by {
        assert(s.delta.amount(n) == 0 && s.freed.amount(n) == 0);
        amount_in_range(node.requested, n);
    }
    room_decides(plugin, state, pod, node, in_use);
    if plugin.filter_view(state, pod, node) == success() {
        assert forall|n: Seq<char>|
            #![trigger pod.requests.amount(n)]
            pod.requests.amount(n) != 0 && !has_text(plugin.ignored_resources@, n)
                implies node.requested.amount(n) + pod.requests.amount(n)
            <= node.allocatable.amount(n) by {
            crate::cache::every_resource_is_named(pod.requests, n);
            assert(in_use(n) == node.requested.amount(n));
        }
    }
}

proof fn amount_in_range(r: Resources, n: Seq<char>)
    ensures
        i64::MIN <= r.amount(n) <= i64::MAX,
{
}

/// Pretending that a pod left (or joined) changes what is in use by what that
/// pod asks for, of every resource alike and never below nothing, and the number
/// of pods by one; nothing else decides.
pub proof fn pretending_moves_what_is_in_use(
    plugin: NodeResourcesFit,
    before: CycleState,
    pod: PodInfo,
    snapshot: Snapshot,
    state: CycleState,
    status: StatusView,
    other: PodInfo,
    joins: bool,
    after: CycleState,
    node: NodeInfo,
)
    requires
        plugin.pre_filter_view(before, pod, snapshot, state, status),
        plugin.adjusted_view(state, pod, other, node, joins, after),
        forall|n: Seq<char>|
            0 <= #[trigger] other.requests.amount(n) && node.requested.amount(n) >= 0
                && node.requested.amount(n) + other.requests.amount(n) <= i64::MAX,
    ensures
        plugin.filter_view(after, pod, node) == success() <==> {
            &&& node.allocatable_pods <= 0 || node.pods@.len() + (if joins {
                1int
            } else {
                -1int
            }) < node.allocatable_pods
            &&& has_room(
                plugin,
                pod,
                node,
                |n: Seq<char>|
                    if joins {
                        node.requested.amount(n) + other.requests.amount(n)
                    } else if node.requested.amount(n) > other.requests.amount(n) {
                        node.requested.amount(n) - other.requests.amount(n)
                    } else {
                        0
                    },
            )
        },
{
    let s = state.value::<FitState>(NAME@)->Some_0;
    let t = after.value::<FitState>(NAME@)->Some_0;
    let in_use = |n: Seq<char>|
        if joins {
            node.requested.amount(n) + other.requests.amount(n)
        } else if node.requested.amount(n) > other.requests.amount(n) {
            node.requested.amount(n) - other.requests.amount(n)
        } else {
            0
        };
    assert(s.requests.name_views() == pod.requests.name_views());
    assert forall|n: Seq<char>| #[trigger] wanted(after, pod, n) == pod.requests.amount(n) by {
        assert(s.requests.amount(n) == pod.requests.amount(n));
        assert(t.requests.amount(n) == amounts_before(state, 0, n));
    }
    assert forall|n: Seq<char>| #[trigger]
        in_use(n) == committed(
            node,
            amounts_before(after, 2, n),
            amounts_before(after, 3, n),
            n,
        ) by {
        assert(s.delta.amount(n) == 0 && s.freed.amount(n) == 0);
        let a = t.delta.amount(n);
        let b = t.freed.amount(n);
        let c = other.requests.amount(n);
        assert(0 <= c);
        amount_in_range(node.requested, n);
        amount_in_range(other.requests, n);
    }
    room_decides(plugin, after, pod, node, in_use);
}

/// With one resource to score by, the score of an unfilled node says how much of
/// it would be free, in percent and rounded up, or in use, rounded down.
pub proof fn one_resource_scores_its_share(
    plugin: NodeResourcesFit,
    state: CycleState,
    pod: PodInfo,
    node: NodeInfo,
)
    requires
        plugin.weights.0@.len() == 1,
        plugin.weights.0@[0].1 == 1,
        0 <= node.non_zero_requested.amount(plugin.weights.0@[0].0@),
        0 <= scored_request(state, pod, plugin.weights.0@[0].0@),
        node.allocatable.amount(plugin.weights.0@[0].0@) > 0,
        node.non_zero_requested.amount(plugin.weights.0@[0].0@) + scored_request(
            state,
            pod,
            plugin.weights.0@[0].0@,
        ) <= node.allocatable.amount(plugin.weights.0@[0].0@),
    ensures
        ({
            let name = plugin.weights.0@[0].0@;
            let used = node.non_zero_requested.amount(name) + scored_request(state, pod, name);
            let all = node.allocatable.amount(name);
            let s = plugin.score_view(state, pod, node);
            &&& plugin.strategy is LeastAllocated ==> (100 - s) * all <= 100 * used && 100 * used < (
            101 - s) * all
            &&& plugin.strategy is MostAllocated ==> s * all <= 100 * used && 100 * used < (s + 1)
                * all
        }),
{
    let w = plugin.weights.0@;
    let name = w[0].0@;
    let used = node.non_zero_requested.amount(name) + scored_request(state, pod, name);
    let all = node.allocatable.amount(name);
    amount_in_range(node.allocatable, name);
    assert(w.drop_last().len() == 0);
    let u = (100 * used) / all;
    assert(u * all <= 100 * used && 100 * used < (u + 1) * all && 0 <= u <= 100)
        by (nonlinear_arith)
        requires
            u == (100 * used) / all,
            0 <= used <= all,
            all > 0,
    ;
    assert(used * 100 == 100 * used);
    assert(util_after(state, pod, node, name) == u);
    let s = resource_score(plugin.strategy, u);
    reveal_with_fuel(weighted_sum, 2);
    reveal_with_fuel(weight_total, 2);
    if plugin.strategy is LeastAllocated || plugin.strategy is MostAllocated {
        assert(0 <= s <= 100);
        assert(weighted_sum(w, plugin.strategy, state, pod, node) == s);
        assert(weight_total(w, node) == 1);
        assert(s / 1 == s) by (nonlinear_arith);
    }
}

proof fn sums_between(
    weights: Seq<(String, i64)>,
    strategy: ScoringStrategy,
    state: CycleState,
    pod: PodInfo,
    node: NodeInfo,
    low: int,
    high: int,
)
    requires
        0 <= low <= high <= 100,
        forall|i: int| 0 <= i < weights.len() ==> (#[trigger] weights[i]).1 >= 0,
        forall|i: int|
            0 <= i < weights.len() && node.allocatable.amount((#[trigger] weights[i]).0@) != 0 ==> low
                <= resource_score(strategy, util_after(state, pod, node, weights[i].0@)) <= high,
        weight_total(weights, node) * 100 < i64::MAX,
    ensures
        0 <= weight_total(weights, node),
        low * weight_total(weights, node) <= weighted_sum(weights, strategy, state, pod, node)
            <= high * weight_total(weights, node),
    decreases weights.len(),
{
    if weights.len() > 0 {
        let t = weights.drop_last();
        assert forall|i: int| 0 <= i < t.len() implies (#[trigger] t[i]).1 >= 0 by {
            assert(weights[i].1 >= 0);
        }
        assert forall|i: int|
            0 <= i < t.len() && node.allocatable.amount((#[trigger] t[i]).0@) != 0 implies low
            <= resource_score(strategy, util_after(state, pod, node, t[i].0@)) <= high by {
            assert(weights[i] == t[i]);
        }
        let last = weights[weights.len() - 1];
        let w = last.1 as int;
        assert(w >= 0);
        total_grows(weights, node);
        sums_between(t, strategy, state, pod, node, low, high);
        if node.allocatable.amount(last.0@) != 0 {
            let s = resource_score(strategy, util_after(state, pod, node, last.0@));
            let sum = weighted_sum(t, strategy, state, pod, node);
            let total = weight_total(t, node);
            assert(low * w <= s * w <= high * w && s * w <= 100 * w && 0 <= s * w)
                by (nonlinear_arith)
                requires
                    0 <= low <= s <= high <= 100,
                    w >= 0,
            ;
            assert(low * (total + w) == low * total + low * w) by (nonlinear_arith);
            assert(high * (total + w) == high * total + high * w) by (nonlinear_arith);
            assert(0 <= low * total && high * total <= 100 * total) by (nonlinear_arith)
                requires
                    0 <= low,
                    high <= 100,
                    total >= 0,
            ;
        }
    }
}

proof fn total_grows(weights: Seq<(String, i64)>, node: NodeInfo)
    requires
        weights.len() > 0,
        forall|i: int| 0 <= i < weights.len() ==> (#[trigger] weights[i]).1 >= 0,
    ensures
        0 <= weight_total(weights.drop_last(), node) <= weight_total(weights, node) <= i64::MAX,
    decreases weights.len(),
{
    let t = weights.drop_last();
    assert(weights[weights.len() - 1].1 >= 0);
    if t.len() > 0 {
        assert forall|i: int| 0 <= i < t.len() implies (#[trigger] t[i]).1 >= 0 by {
            assert(weights[i].1 >= 0);
        }
        total_grows(t, node);
    }
}

/// The score is a mean over every resource to score by that the node has: it
/// lies between the lowest and the highest of their scores.
pub proof fn score_lies_between(
    plugin: NodeResourcesFit,
    state: CycleState,
    pod: PodInfo,
    node: NodeInfo,
    low: int,
    high: int,
)
    requires
        0 <= low <= high <= 100,
        forall|i: int|
            0 <= i < plugin.weights.0@.len() ==> (#[trigger] plugin.weights.0@[i]).1 >= 0,
        forall|i: int|
            0 <= i < plugin.weights.0@.len() && node.allocatable.amount(
                (#[trigger] plugin.weights.0@[i]).0@,
            ) != 0 ==> low <= resource_score(
                plugin.strategy,
                util_after(state, pod, node, plugin.weights.0@[i].0@),
            ) <= high,
        0 < weight_total(plugin.weights.0@, node),
        weight_total(plugin.weights.0@, node) * 100 < i64::MAX,
    ensures
        low <= plugin.score_view(state, pod, node) <= high,
{
    let w = plugin.weights.0@;
    sums_between(w, plugin.strategy, state, pod, node, low, high);
    let sum = weighted_sum(w, plugin.strategy, state, pod, node);
    let total = weight_total(w, node);
    assert(0 <= low * total) by (nonlinear_arith)
        requires
            0 <= low,
            total > 0,
    ;
    assert(low <= sum / total <= high) by (nonlinear_arith)
        requires
            low * total <= sum <= high * total,
            total > 0,
    ;
}

} // verus!
