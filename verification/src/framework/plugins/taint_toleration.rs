//! `TaintToleration`: filter on `NoSchedule` and `NoExecute`, score on
//! `PreferNoSchedule`.

use super::{always_on, default_normalize_score, event_on, normalized};
use crate::api::{Taint, Toleration};
use crate::cache::{clamp64, NodeInfo, PodInfo};
use crate::events::{ActionType, ClusterEvent, EventResource};
use crate::framework::status::{success, unschedulable, Status, StatusView};
use crate::framework::{
    events_of, wrote, ClusterEventWithHint, CycleState, FilterPlugin, NoHint, Plugin,
    PreScorePlugin, ScorePlugin,
};
use crate::numbers::narrow;
use crate::text::{joined, text_eq};
use std::sync::Arc;
use vstd::prelude::*;

verus! {

pub const NAME: &'static str = "TaintToleration";

/// A text, empty where it is absent.
pub open spec fn or_empty(t: Option<String>) -> Seq<char> {
    match t {
        Some(s) => s@,
        None => ""@,
    }
}

fn text_or_empty(t: &Option<String>) -> (r: &str)
    ensures
        r@ == or_empty(*t),
{
    match t {
        Some(s) => s.as_str(),
        None => "",
    }
}

/// Whether one toleration covers one taint: an empty effect covers every
/// effect, `Exists` with an empty key every key, and an absent operator is
/// `Equal`.
pub open spec fn covers(tol: Toleration, taint: Taint) -> bool {
    &&& or_empty(tol.effect) == ""@ || or_empty(tol.effect) == taint.effect@
    &&& if or_empty(tol.operator) == "Exists"@ && tol.operator is Some {
        or_empty(tol.key) == ""@ || or_empty(tol.key) == taint.key@
    } else {
        or_empty(tol.key) == taint.key@ && or_empty(tol.value) == or_empty(taint.value)
    }
}

pub fn toleration_tolerates_taint(tol: &Toleration, taint: &Taint) -> (r: bool)
    ensures
        r == covers(*tol, *taint),
{
    let effect = text_or_empty(&tol.effect);
    if !text_eq(effect, "") && !text_eq(effect, taint.effect.as_str()) {
        return false;
    }
    let key = text_or_empty(&tol.key);
    let exists = match &tol.operator {
        Some(op) => text_eq(op.as_str(), "Exists"),
        None => false,
    };
    if exists {
        text_eq(key, "") || text_eq(key, taint.key.as_str())
    } else {
        text_eq(key, taint.key.as_str()) && text_eq(
            text_or_empty(&tol.value),
            text_or_empty(&taint.value),
        )
    }
}

/// Some toleration of a list covers the taint.
pub open spec fn covered(tolerations: Seq<Toleration>, taint: Taint) -> bool {
    exists|i: int| 0 <= i < tolerations.len() && covers(#[trigger] tolerations[i], taint)
}

pub fn is_covered(tolerations: &Vec<Toleration>, taint: &Taint) -> (r: bool)
    ensures
        r == covered(tolerations@, *taint),
{
    let mut i: usize = 0;
    while i < tolerations.len()
        invariant
            i <= tolerations@.len(),
            forall|k: int| 0 <= k < i ==> !covers(#[trigger] tolerations@[k], *taint),
        decreases tolerations@.len() - i,
    {
        if toleration_tolerates_taint(&tolerations[i], taint) {
            assert(covers(tolerations@[i as int], *taint));
            return true;
        }
        i += 1;
    }
    false
}

/// An effect that keeps pods off a node.
pub open spec fn repels(effect: Seq<char>) -> bool {
    effect == "NoSchedule"@ || effect == "NoExecute"@
}

/// A taint of one of the effects that nothing covers.
pub open spec fn untolerated(
    taint: Taint,
    tolerations: Seq<Toleration>,
    effects: Seq<&str>,
) -> bool {
    (exists|e: int| 0 <= e < effects.len() && (#[trigger] effects[e])@ == taint.effect@)
        && !covered(tolerations, taint)
}

/// The first taint of a listed effect that nothing in `tolerations` covers.
pub fn find_untolerated_taint<'a>(
    taints: &'a Vec<Taint>,
    tolerations: &Vec<Toleration>,
    effects: &Vec<&str>,
) -> (r: Option<&'a Taint>)
    ensures
        match r {
            Some(t) => exists|i: int|
                0 <= i < taints@.len() && #[trigger] taints@[i] == *t && untolerated(
                    *t,
                    tolerations@,
                    effects@,
                ) && forall|k: int|
                    0 <= k < i ==> !untolerated(#[trigger] taints@[k], tolerations@, effects@),
            None => forall|k: int|
                0 <= k < taints@.len() ==> !untolerated(
                    #[trigger] taints@[k],
                    tolerations@,
                    effects@,
                ),
        },
{
    let mut i: usize = 0;
    while i < taints.len()
        invariant
            i <= taints@.len(),
            forall|k: int|
                0 <= k < i ==> !untolerated(#[trigger] taints@[k], tolerations@, effects@),
        decreases taints@.len() - i,
    {
        if effect_listed(effects, taints[i].effect.as_str()) && !is_covered(
            tolerations,
            &taints[i],
        ) {
            assert(untolerated(taints@[i as int], tolerations@, effects@));
            return Some(&taints[i]);
        }
        i += 1;
    }
    None
}

fn effect_listed(effects: &Vec<&str>, effect: &str) -> (r: bool)
    ensures
        r == (exists|e: int| 0 <= e < effects@.len() && (#[trigger] effects@[e])@ == effect@),
{
    let mut i: usize = 0;
    while i < effects.len()
        invariant
            i <= effects@.len(),
            forall|k: int| 0 <= k < i ==> (#[trigger] effects@[k])@ != effect@,
        decreases effects@.len() - i,
    {
        if text_eq(effects[i], effect) {
            assert(effects@[i as int]@ == effect@);
            return true;
        }
        i += 1;
    }
    false
}

/// A taint that keeps the pod off.
pub open spec fn blocks(taint: Taint, tolerations: Seq<Toleration>) -> bool {
    repels(taint.effect@) && !covered(tolerations, taint)
}

/// The index of the first taint that keeps the pod off.
pub open spec fn first_block(taints: Seq<Taint>, tolerations: Seq<Toleration>) -> Option<int>
    decreases taints.len(),
{
    if taints.len() == 0 {
        None
    } else if blocks(taints[0], tolerations) {
        Some(0)
    } else {
        match first_block(taints.skip(1), tolerations) {
            Some(i) => Some(i + 1),
            None => None,
        }
    }
}

proof fn first_block_at(taints: Seq<Taint>, tolerations: Seq<Toleration>, i: int)
    requires
        0 <= i <= taints.len(),
        forall|k: int| 0 <= k < i ==> !blocks(#[trigger] taints[k], tolerations),
        i < taints.len() ==> blocks(taints[i], tolerations),
    ensures
        first_block(taints, tolerations) == if i < taints.len() {
            Some(i)
        } else {
            None
        },
    decreases taints.len(),
{
    if taints.len() > 0 && i > 0 {
        assert(!blocks(taints[0], tolerations));
        assert forall|k: int| 0 <= k < i - 1 implies !blocks(
            #[trigger] taints.skip(1)[k],
            tolerations,
        ) by {
            assert(!blocks(taints[k + 1], tolerations));
        }
        first_block_at(taints.skip(1), tolerations, i - 1);
    }
}

/// The first of a node's taints that keeps a pod off it.
pub fn blocking_taint<'a>(taints: &'a Vec<Taint>, tolerations: &Vec<Toleration>) -> (r: Option<
    &'a Taint,
>)
    ensures
        match first_block(taints@, tolerations@) {
            Some(i) => 0 <= i < taints@.len() && r == Some(&taints@[i]),
            None => r is None,
        },
{
    let mut effects: Vec<&str> = Vec::new();
    effects.push("NoSchedule");
    effects.push("NoExecute");
    let found = find_untolerated_taint(taints, tolerations, &effects);
    proof {
        assert forall|t: Taint| #[trigger]
            untolerated(t, tolerations@, effects@) <==> blocks(t, tolerations@) by {
            if repels(t.effect@) {
                assert(effects@[0]@ == "NoSchedule"@);
                assert(effects@[1]@ == "NoExecute"@);
                assert(effects@[0]@ == t.effect@ || effects@[1]@ == t.effect@);
            }
        }
        match found {
            Some(t) => {
                let i = choose|i: int|
                    0 <= i < taints@.len() && #[trigger] taints@[i] == *t && untolerated(
                        *t,
                        tolerations@,
                        effects@,
                    ) && forall|k: int|
                        0 <= k < i ==> !untolerated(#[trigger] taints@[k], tolerations@, effects@);
                assert forall|k: int| 0 <= k < i implies !blocks(
                    #[trigger] taints@[k],
                    tolerations@,
                ) by {
                    assert(!untolerated(taints@[k], tolerations@, effects@));
                }
                first_block_at(taints@, tolerations@, i);
            },
            None => {
                assert forall|k: int| 0 <= k < taints@.len() implies !blocks(
                    #[trigger] taints@[k],
                    tolerations@,
                ) by {
                    assert(!untolerated(taints@[k], tolerations@, effects@));
                }
                first_block_at(taints@, tolerations@, taints@.len() as int);
            },
        }
    }
    found
}

pub struct TaintToleration;

pub open spec fn subscriptions() -> Seq<ClusterEvent> {
    seq![
        event_on(EventResource::Node, ActionType::ADD | ActionType::UPDATE_NODE_TAINT),
        event_on(EventResource::Pod, ActionType::UPDATE_POD_TOLERATION),
    ]
}

impl Plugin for TaintToleration {
    type Hint = NoHint;

    open spec fn name_view(&self) -> Seq<char> {
        NAME@
    }

    fn name(&self) -> (r: &'static str) {
        NAME
    }

    fn events_to_register(&self) -> (r: Vec<ClusterEventWithHint<NoHint>>)
        ensures
            events_of(r@) == subscriptions(),
            crate::framework::unhinted(r@),
    {
        let mut out: Vec<ClusterEventWithHint<NoHint>> = Vec::new();
        out.push(
            always_on(EventResource::Node, ActionType::ADD | ActionType::UPDATE_NODE_TAINT),
        );
        out.push(always_on(EventResource::Pod, ActionType::UPDATE_POD_TOLERATION));
        assert(events_of(out@) =~= subscriptions());
        out
    }
}

/// Why a taint keeps a pod off.
pub open spec fn taint_reason(taint: Taint) -> Seq<char> {
    "node(s) had untolerated taint {"@ + taint.key@ + ": "@ + or_empty(taint.value) + "}"@
}

impl FilterPlugin for TaintToleration {
    open spec fn filter_view(&self, state: CycleState, pod: PodInfo, node: NodeInfo) -> StatusView {
        match first_block(node.taints@, pod.tolerations@) {
            None => success(),
            Some(i) => unschedulable(NAME@, taint_reason(node.taints@[i])),
        }
    }

    fn filter(&self, state: &CycleState, pod: &PodInfo, node: &NodeInfo) -> (r: Status) {
        match blocking_taint(&node.taints, &pod.tolerations) {
            None => Status::success(),
            Some(taint) => {
                let reason = joined("node(s) had untolerated taint {", taint.key.as_str());
                let reason = joined(reason.as_str(), ": ");
                let reason = joined(reason.as_str(), text_or_empty(&taint.value));
                let reason = joined(reason.as_str(), "}");
                Status::unschedulable(NAME, reason.as_str())
            },
        }
    }
}

/// How many `PreferNoSchedule` taints nothing covers.
pub open spec fn discouraging(taints: Seq<Taint>, tolerations: Seq<Toleration>) -> nat
    decreases taints.len(),
{
    if taints.len() == 0 {
        0
    } else {
        discouraging(taints.drop_last(), tolerations) + if taints.last().effect@
            == "PreferNoSchedule"@ && !covered(tolerations, taints.last()) {
            1nat
        } else {
            0nat
        }
    }
}

fn count_intolerable_prefer_no_schedule(pod: &PodInfo, node: &NodeInfo) -> (r: i64)
    ensures
        r == clamp64(discouraging(node.taints@, pod.tolerations@) as int),
{
    let mut n: usize = 0;
    let mut i: usize = 0;
    while i < node.taints.len()
        invariant
            i <= node.taints@.len(),
            n <= i,
            n == discouraging(node.taints@.take(i as int), pod.tolerations@),
        decreases node.taints@.len() - i,
    {
        if text_eq(node.taints[i].effect.as_str(), "PreferNoSchedule") && !is_covered(
            &pod.tolerations,
            &node.taints[i],
        ) {
            n += 1;
        }
        i += 1;
        assert(node.taints@.take(i as int).drop_last() =~= node.taints@.take(i - 1));
    }
    assert(node.taints@.take(i as int) =~= node.taints@);
    narrow(n as i128)
}

impl PreScorePlugin for TaintToleration {
    open spec fn pre_score_view(
        &self,
        before: CycleState,
        pod: PodInfo,
        nodes: Seq<Arc<NodeInfo>>,
        after: CycleState,
        status: StatusView,
    ) -> bool {
        status == success() && wrote(before, after, NAME@, ())
    }

    fn pre_score(&self, state: &mut CycleState, pod: &PodInfo, nodes: &Vec<Arc<NodeInfo>>) -> (r:
        Status) {
        state.write(NAME, ());
        Status::success()
    }
}

impl ScorePlugin for TaintToleration {
    open spec fn score_view(&self, state: CycleState, pod: PodInfo, node: NodeInfo) -> int {
        clamp64(discouraging(node.taints@, pod.tolerations@) as int)
    }

    fn score(&self, state: &CycleState, pod: &PodInfo, node: &NodeInfo) -> (r: Result<i64, Status>)
        ensures
            r is Ok,
    {
        Ok(count_intolerable_prefer_no_schedule(pod, node))
    }

    fn normalize(&self, state: &CycleState, pod: &PodInfo, scores: &mut Vec<i64>) -> (r: Status)
        ensures
            r@ == success(),
            final(scores)@ == normalized(true, old(scores)@),
    {
        default_normalize_score(true, scores);
        Status::success()
    }

    fn weight(&self) -> (r: i64)
        ensures
            r == 3,
    {
        3
    }
}

/// A preference never rejects: only `NoSchedule` and `NoExecute` taints do.
pub proof fn preferences_never_reject(plugin: TaintToleration, state: CycleState, pod: PodInfo, node: NodeInfo)
    requires
        forall|i: int| 0 <= i < node.taints@.len() ==> !repels((#[trigger] node.taints@[i]).effect@),
    ensures
        plugin.filter_view(state, pod, node) == success(),
{
    first_block_at(node.taints@, pod.tolerations@, node.taints@.len() as int);
}

/// A toleration that says no more than `Exists` covers every taint; with a key
/// it covers every effect of that key.
pub proof fn bare_exists_covers_everything(tol: Toleration, taint: Taint)
    requires
        tol.operator is Some,
        tol.operator->Some_0@ == "Exists"@,
        or_empty(tol.effect) == ""@,
    ensures
        or_empty(tol.key) == ""@ ==> covers(tol, taint),
        or_empty(tol.key) == taint.key@ ==> covers(tol, taint),
{
}

proof fn first_block_is_first(taints: Seq<Taint>, tolerations: Seq<Toleration>)
    ensures
        match first_block(taints, tolerations) {
            None => forall|i: int| 0 <= i < taints.len() ==> !blocks(#[trigger] taints[i], tolerations),
            Some(i) => 0 <= i < taints.len() && blocks(taints[i], tolerations) && forall|j: int|
                0 <= j < i ==> !blocks(#[trigger] taints[j], tolerations),
        },
    decreases taints.len(),
{
    if taints.len() > 0 && !blocks(taints[0], tolerations) {
        let t = taints.skip(1);
        first_block_is_first(t, tolerations);
        match first_block(t, tolerations) {
            None => {
                assert forall|i: int| 0 <= i < taints.len() implies !blocks(
                    #[trigger] taints[i],
                    tolerations,
                ) by {
                    if i > 0 {
                        assert(t[i - 1] == taints[i]);
                    }
                }
            },
            Some(k) => {
                assert forall|i: int| 0 <= i < k + 1 implies !blocks(
                    #[trigger] taints[i],
                    tolerations,
                ) by {
                    if i > 0 {
                        assert(t[i - 1] == taints[i]);
                    }
                }
            },
        }
    }
}

/// A pod passes a node exactly where it has a toleration for every taint,
/// wherever in the list, whose effect is `NoSchedule` or `NoExecute`.
pub proof fn passing_means_tolerated(
    plugin: TaintToleration,
    state: CycleState,
    pod: PodInfo,
    node: NodeInfo,
)
    ensures
        plugin.filter_view(state, pod, node) == success() <==> forall|i: int|
            0 <= i < node.taints@.len() && ((#[trigger] node.taints@[i]).effect@ == "NoSchedule"@
                || node.taints@[i].effect@ == "NoExecute"@) ==> exists|t: int|
                0 <= t < pod.tolerations@.len() && covers(
                    #[trigger] pod.tolerations@[t],
                    node.taints@[i],
                ),
{
    first_block_is_first(node.taints@, pod.tolerations@);
    match first_block(node.taints@, pod.tolerations@) {
        None => {
            assert forall|i: int|
                0 <= i < node.taints@.len() && ((#[trigger] node.taints@[i]).effect@
                    == "NoSchedule"@ || node.taints@[i].effect@ == "NoExecute"@) implies exists|t: int|
                0 <= t < pod.tolerations@.len() && covers(
                    #[trigger] pod.tolerations@[t],
                    node.taints@[i],
                ) by {
                assert(!blocks(node.taints@[i], pod.tolerations@));
            }
        },
        Some(i) => {
            assert(blocks(node.taints@[i], pod.tolerations@));
        },
    }
}

/// Every taint counts once: dropping one from anywhere lowers the count by one
/// where it is a `PreferNoSchedule` taint that nothing covers, else by nothing.
pub proof fn every_taint_counts(taints: Seq<Taint>, tolerations: Seq<Toleration>, i: int)
    requires
        0 <= i < taints.len(),
    ensures
        discouraging(taints, tolerations) == discouraging(taints.remove(i), tolerations) + if (
        taints[i].effect@ == "PreferNoSchedule"@ && forall|t: int|
            0 <= t < tolerations.len() ==> !covers(#[trigger] tolerations[t], taints[i])) {
            1nat
        } else {
            0nat
        },
    decreases taints.len(),
{
    let t = taints.drop_last();
    if i == taints.len() - 1 {
        assert(taints.remove(i) =~= t);
    } else {
        every_taint_counts(t, tolerations, i);
        assert(taints.remove(i).drop_last() =~= t.remove(i));
        assert(taints.remove(i).last() == taints.last());
    }
}

/// A toleration never covers a taint of another effect than the one it names, of
/// another key, or, unless its operator is `Exists`, of another value.
pub proof fn tolerations_are_specific(tol: Toleration, taint: Taint)
    requires
        covers(tol, taint),
    ensures
        tol.effect is Some && tol.effect->Some_0@.len() > 0 ==> tol.effect->Some_0@ == taint.effect@,
        tol.key is Some && tol.key->Some_0@.len() > 0 ==> tol.key->Some_0@ == taint.key@,
        (tol.operator is None || tol.operator->Some_0@ != "Exists"@) ==> or_empty(tol.key)
            == taint.key@ && or_empty(tol.value) == or_empty(taint.value),
{
    reveal_strlit("");
    assert(or_empty(tol.effect) == ""@ ==> or_empty(tol.effect).len() == 0);
    assert(or_empty(tol.key) == ""@ ==> or_empty(tol.key).len() == 0);
}

} // verus!
