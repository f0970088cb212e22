//! `NodeAffinity`: the node selector and the node affinity of a pod.
//!
//! The terms of a selector are alternatives; the requirements within a term
//! must all hold. An empty list of terms matches no node, an absent affinity
//! every node, and an empty term every node.

use super::selector::{carries_all, has_every_pair, set_operator, set_operator_holds, value_list};
use super::{always_on, default_normalize_score, event_on, normalized};
use crate::api::{NodeSelector, NodeSelectorRequirement, NodeSelectorTerm};
use crate::cache::{clamp64, NodeInfo, PodInfo, PreferredTerm};
use crate::events::{ActionType, ClusterEvent, EventResource};
use crate::framework::status::{skip, success, unresolvable, Status, StatusView};
use crate::framework::{
    events_of, score_switched_off, ClusterEventWithHint, CycleState, FilterPlugin, NoHint, Plugin,
    PreScorePlugin, ScorePlugin,
};
use crate::maps::Labels;
use crate::numbers::narrow;
use crate::text::{i64_of, parse_i64, text_eq};
use std::sync::Arc;
use vstd::prelude::*;

verus! {

pub const NAME: &'static str = "NodeAffinity";

/// The first value of a requirement, as an integer.
pub open spec fn first_number(values: Option<Vec<String>>) -> Option<int> {
    if value_list(values).len() > 0 {
        i64_of(value_list(values)[0]@)
    } else {
        None
    }
}

/// Whether a label's value satisfies one requirement. The order operators
/// compare as integers; what is not one does not satisfy them.
pub open spec fn value_satisfies(req: NodeSelectorRequirement, actual: Option<Seq<char>>) -> bool {
    if req.operator@ == "Gt"@ || req.operator@ == "Lt"@ {
        match (
            match actual {
                Some(a) => i64_of(a),
                None => None,
            },
            first_number(req.values),
        ) {
            (Some(a), Some(w)) => if req.operator@ == "Gt"@ {
                a > w
            } else {
                a < w
            },
            _ => false,
        }
    } else {
        set_operator_holds(req.operator@, actual, value_list(req.values))
    }
}

/// Whether a map of values satisfies one requirement.
pub fn matches_requirement(req: &NodeSelectorRequirement, values: &Labels) -> (r: bool)
    ensures
        r == value_satisfies(*req, values.text(req.key@)),
{
    let actual = values.get(req.key.as_str());
    satisfies(req, actual)
}

fn satisfies(req: &NodeSelectorRequirement, actual: Option<&String>) -> (r: bool)
    ensures
        r == value_satisfies(
            *req,
            match actual {
                Some(a) => Some(a@),
                None => None,
            },
        ),
{
    let greater = text_eq(req.operator.as_str(), "Gt");
    if greater || text_eq(req.operator.as_str(), "Lt") {
        let a: i64 = match actual {
            Some(text) => match parse_i64(text.as_str()) {
                Some(n) => n,
                None => {
                    return false;
                },
            },
            None => {
                return false;
            },
        };
        let w: i64 = match &req.values {
            Some(list) => if list.len() > 0 {
                match parse_i64(list[0].as_str()) {
                    Some(n) => n,
                    None => {
                        return false;
                    },
                }
            } else {
                return false;
            },
            None => {
                return false;
            },
        };
        if greater {
            a > w
        } else {
            a < w
        }
    } else {
        set_operator(req.operator.as_str(), actual, &req.values)
    }
}

pub open spec fn requirement_list(reqs: Option<Vec<NodeSelectorRequirement>>) -> Seq<
    NodeSelectorRequirement,
> {
    match reqs {
        Some(r) => r@,
        None => Seq::empty(),
    }
}

/// The value of a node field: only the name is one.
pub open spec fn field_of(node: NodeInfo, key: Seq<char>) -> Option<Seq<char>> {
    if key == "metadata.name"@ {
        Some(node.name@)
    } else {
        None
    }
}

/// Whether a node satisfies one term: all of its requirements on labels and
/// all of those on fields.
pub open spec fn term_holds(term: NodeSelectorTerm, node: NodeInfo) -> bool {
    &&& forall|i: int|
        0 <= i < requirement_list(term.match_expressions).len() ==> value_satisfies(
            #[trigger] requirement_list(term.match_expressions)[i],
            node.labels.text(requirement_list(term.match_expressions)[i].key@),
        )
    &&& forall|i: int|
        0 <= i < requirement_list(term.match_fields).len() ==> value_satisfies(
            #[trigger] requirement_list(term.match_fields)[i],
            field_of(node, requirement_list(term.match_fields)[i].key@),
        )
}

pub fn matches_term(term: &NodeSelectorTerm, node: &NodeInfo) -> (r: bool)
    ensures
        r == term_holds(*term, *node),
{
    match &term.match_expressions {
        Some(reqs) => {
            let mut i: usize = 0;
            while i < reqs.len()
                invariant
                    i <= reqs@.len(),
                    requirement_list(term.match_expressions) == reqs@,
                    forall|k: int|
                        0 <= k < i ==> value_satisfies(
                            #[trigger] reqs@[k],
                            node.labels.text(reqs@[k].key@),
                        ),
                decreases reqs@.len() - i,
            {
                if !matches_requirement(&reqs[i], &node.labels) {
                    assert(!value_satisfies(
                        requirement_list(term.match_expressions)[i as int],
                        node.labels.text(reqs@[i as int].key@),
                    ));
                    return false;
                }
                i += 1;
            }
        },
        None => {},
    }
    match &term.match_fields {
        Some(reqs) => {
            let mut i: usize = 0;
            while i < reqs.len()
                invariant
                    i <= reqs@.len(),
                    requirement_list(term.match_fields) == reqs@,
                    forall|k: int|
                        0 <= k < i ==> value_satisfies(
                            #[trigger] reqs@[k],
                            field_of(*node, reqs@[k].key@),
                        ),
                decreases reqs@.len() - i,
            {
                let actual = if text_eq(reqs[i].key.as_str(), "metadata.name") {
                    Some(&node.name)
                } else {
                    None
                };
                if !satisfies(&reqs[i], actual) {
                    assert(!value_satisfies(
                        requirement_list(term.match_fields)[i as int],
                        field_of(*node, reqs@[i as int].key@),
                    ));
                    return false;
                }
                i += 1;
            }
        },
        None => {},
    }
    true
}

/// Whether a node satisfies a selector: any of its terms.
pub open spec fn selector_holds(selector: NodeSelector, node: NodeInfo) -> bool {
    exists|i: int|
        0 <= i < selector.node_selector_terms@.len() && term_holds(
            #[trigger] selector.node_selector_terms@[i],
            node,
        )
}

pub fn matches_node_selector(selector: &NodeSelector, node: &NodeInfo) -> (r: bool)
    ensures
        r == selector_holds(*selector, *node),
{
    let mut i: usize = 0;
    while i < selector.node_selector_terms.len()
        invariant
            i <= selector.node_selector_terms@.len(),
            forall|k: int|
                0 <= k < i ==> !term_holds(#[trigger] selector.node_selector_terms@[k], *node),
        decreases selector.node_selector_terms@.len() - i,
    {
        if matches_term(&selector.node_selector_terms[i], node) {
            assert(term_holds(selector.node_selector_terms@[i as int], *node));
            return true;
        }
        i += 1;
    }
    false
}

/// Whether a node satisfies an optional selector.
pub open spec fn optional_selector_holds(selector: Option<NodeSelector>, node: NodeInfo) -> bool {
    match selector {
        Some(s) => selector_holds(s, node),
        None => true,
    }
}

/// Whether a node satisfies what the pod itself demands of nodes.
pub open spec fn pod_accepts(pod: PodInfo, node: NodeInfo) -> bool {
    carries_all(pod.node_selector, node.labels) && optional_selector_holds(pod.node_affinity, node)
}

pub fn pod_accepts_node(pod: &PodInfo, node: &NodeInfo) -> (r: bool)
    ensures
        r == pod_accepts(*pod, *node),
{
    if !has_every_pair(&pod.node_selector, &node.labels) {
        return false;
    }
    match &pod.node_affinity {
        Some(required) => matches_node_selector(required, node),
        None => true,
    }
}

#[derive(Default)]
pub struct NodeAffinity {
    /// An affinity that every pod of the profile has besides its own.
    pub added_affinity: Option<NodeSelector>,
}

pub open spec fn subscriptions() -> Seq<ClusterEvent> {
    seq![event_on(EventResource::Node, ActionType::ADD | ActionType::UPDATE_NODE_LABEL)]
}

impl Plugin for NodeAffinity {
    type Hint = NoHint;

    open spec fn name_view(&self) -> Seq<char> {
        NAME@
    }

    fn name(&self) -> (r: &'static str) {
        NAME
    }

    fn events_to_register(&self) -> (r: Vec<ClusterEventWithHint<NoHint>>)
        ensures
            events_of(r@) == subscriptions(),
            crate::framework::unhinted(r@),
    {
        let mut out: Vec<ClusterEventWithHint<NoHint>> = Vec::new();
        out.push(
            always_on(EventResource::Node, ActionType::ADD | ActionType::UPDATE_NODE_LABEL),
        );
        assert(events_of(out@) =~= subscriptions());
        out
    }
}

impl FilterPlugin for NodeAffinity {
    open spec fn filter_view(&self, state: CycleState, pod: PodInfo, node: NodeInfo) -> StatusView {
        if !pod_accepts(pod, node) {
            unresolvable(NAME@, "node(s) didn't match Pod's node affinity/selector"@)
        } else if !optional_selector_holds(self.added_affinity, node) {
            unresolvable(NAME@, "node(s) didn't match the profile's addedAffinity"@)
        } else {
            success()
        }
    }

    fn filter(&self, state: &CycleState, pod: &PodInfo, node: &NodeInfo) -> (r: Status) {
        if !pod_accepts_node(pod, node) {
            return Status::unresolvable(
                NAME,
                "node(s) didn't match Pod's node affinity/selector",
            );
        }
        match &self.added_affinity {
            Some(added) => {
                if !matches_node_selector(added, node) {
                    return Status::unresolvable(
                        NAME,
                        "node(s) didn't match the profile's addedAffinity",
                    );
                }
            },
            None => {},
        }
        Status::success()
    }
}

impl PreScorePlugin for NodeAffinity {
    open spec fn pre_score_view(
        &self,
        before: CycleState,
        pod: PodInfo,
        nodes: Seq<Arc<NodeInfo>>,
        after: CycleState,
        status: StatusView,
    ) -> bool {
        if pod.preferred_node_affinity@.len() == 0 {
            status == skip() && score_switched_off(before, after, NAME@)
        } else {
            status == success() && after == before
        }
    }

    fn pre_score(&self, state: &mut CycleState, pod: &PodInfo, nodes: &Vec<Arc<NodeInfo>>) -> (r:
        Status) {
        if pod.preferred_node_affinity.len() == 0 {
            state.skip_score(NAME);
            return Status::skip();
        }
        Status::success()
    }
}

/// The weights of the preferences that a node satisfies, summed.
pub open spec fn preference_sum(terms: Seq<PreferredTerm>, node: NodeInfo) -> int
    decreases terms.len(),
{
    if terms.len() == 0 {
        0
    } else {
        preference_sum(terms.drop_last(), node) + if term_holds(terms.last().selector, node) {
            terms.last().weight as int
        } else {
            0
        }
    }
}

impl ScorePlugin for NodeAffinity {
    open spec fn score_view(&self, state: CycleState, pod: PodInfo, node: NodeInfo) -> int {
        clamp64(preference_sum(pod.preferred_node_affinity@, node))
    }

    fn score(&self, state: &CycleState, pod: &PodInfo, node: &NodeInfo) -> (r: Result<i64, Status>)
        ensures
            r is Ok,
    {
        let terms = &pod.preferred_node_affinity;
        let mut total: i128 = 0;
        let mut i: usize = 0;
        while i < terms.len()
            invariant
                i <= terms@.len(),
                total == preference_sum(terms@.take(i as int), *node),
                -(i as int) * 0x8000_0000 <= total <= i as int * 0x8000_0000,
            decreases terms@.len() - i,
        {
            if matches_term(&terms[i].selector, node) {
                total = total + terms[i].weight as i128;
            }
            i += 1;
            assert(terms@.take(i as int).drop_last() =~= terms@.take(i - 1));
        }
        assert(terms@.take(i as int) =~= terms@);
        Ok(narrow(total))
    }

    fn normalize(&self, state: &CycleState, pod: &PodInfo, scores: &mut Vec<i64>) -> (r: Status)
        ensures
            r@ == success(),
            final(scores)@ == normalized(false, old(scores)@),
    {
        default_normalize_score(false, scores);
        Status::success()
    }

    fn weight(&self) -> (r: i64)
        ensures
            r == 2,
    {
        2
    }
}

/// An empty list of alternatives is satisfied by no node, an absent selector
/// by every one.
pub proof fn empty_terms_match_nothing(selector: NodeSelector, node: NodeInfo)
    requires
        selector.node_selector_terms@.len() == 0,
    ensures
        !optional_selector_holds(Some(selector), node),
        optional_selector_holds(None, node),
{
}

proof fn terms_rest_on_labels(term: NodeSelectorTerm, a: NodeInfo, b: NodeInfo)
    requires
        a.labels == b.labels,
        a.name@ == b.name@,
    ensures
        term_holds(term, a) == term_holds(term, b),
{
}

/// Whether a pod accepts a node rests on the node's labels and name alone.
pub proof fn acceptance_rests_on_labels(pod: PodInfo, a: NodeInfo, b: NodeInfo)
    requires
        a.labels == b.labels,
        a.name@ == b.name@,
    ensures
        pod_accepts(pod, a) == pod_accepts(pod, b),
{
    match pod.node_affinity {
        Some(s) => {
            assert forall|i: int|
                0 <= i < s.node_selector_terms@.len() implies term_holds(
                #[trigger] s.node_selector_terms@[i],
                a,
            ) == term_holds(s.node_selector_terms@[i], b) by {
                terms_rest_on_labels(s.node_selector_terms@[i], a, b);
            }
        },
        None => {},
    }
}

/// A node passes exactly where it carries every label of the pod's selector with
/// its value, meets every requirement of some term of the pod's affinity, if the
/// pod has one, and of some term of the profile's, if that has one.
pub proof fn passing_means_accepted(
    plugin: NodeAffinity,
    state: CycleState,
    pod: PodInfo,
    node: NodeInfo,
)
    ensures
        plugin.filter_view(state, pod, node) == success() <==> {
            &&& carries_all(pod.node_selector, node.labels)
            &&& pod.node_affinity matches Some(s) ==> exists|t: int|
                0 <= t < s.node_selector_terms@.len() && meets_all(
                    #[trigger] s.node_selector_terms@[t],
                    node,
                )
            &&& plugin.added_affinity matches Some(s) ==> exists|t: int|
                0 <= t < s.node_selector_terms@.len() && meets_all(
                    #[trigger] s.node_selector_terms@[t],
                    node,
                )
        },
{
    if let Some(s) = pod.node_affinity {
        terms_meet_all(s, node);
    }
    if let Some(s) = plugin.added_affinity {
        terms_meet_all(s, node);
    }
}

/// A node meets every requirement of a term, on labels and on fields.
pub open spec fn meets_all(term: NodeSelectorTerm, node: NodeInfo) -> bool {
    &&& term.match_expressions matches Some(reqs) ==> forall|i: int|
        0 <= i < reqs@.len() ==> value_satisfies(
            #[trigger] reqs@[i],
            node.labels.text(reqs@[i].key@),
        )
    &&& term.match_fields matches Some(reqs) ==> forall|i: int|
        0 <= i < reqs@.len() ==> value_satisfies(
            #[trigger] reqs@[i],
            if reqs@[i].key@ == "metadata.name"@ {
                Some(node.name@)
            } else {
                None
            },
        )
}

proof fn terms_meet_all(s: NodeSelector, node: NodeInfo)
    ensures
        selector_holds(s, node) <==> exists|t: int|
            0 <= t < s.node_selector_terms@.len() && meets_all(
                #[trigger] s.node_selector_terms@[t],
                node,
            ),
{
    assert forall|t: int| 0 <= t < s.node_selector_terms@.len() implies term_holds(
        #[trigger] s.node_selector_terms@[t],
        node,
    ) == meets_all(s.node_selector_terms@[t], node) by {
        term_meets_all(s.node_selector_terms@[t], node);
    }
}

proof fn term_meets_all(term: NodeSelectorTerm, node: NodeInfo)
    ensures
        term_holds(term, node) == meets_all(term, node),
{
    let e = requirement_list(term.match_expressions);
    let f = requirement_list(term.match_fields);
    if meets_all(term, node) {
        assert forall|i: int| 0 <= i < e.len() implies value_satisfies(
            #[trigger] e[i],
            node.labels.text(e[i].key@),
        ) by {}
        assert forall|i: int| 0 <= i < f.len() implies value_satisfies(
            #[trigger] f[i],
            field_of(node, f[i].key@),
        ) by {}
    }
    if term_holds(term, node) {
        if let Some(reqs) = term.match_expressions {
            assert(e == reqs@);
        }
        if let Some(reqs) = term.match_fields {
            assert(f == reqs@);
            assert forall|i: int| 0 <= i < reqs@.len() implies value_satisfies(
                #[trigger] reqs@[i],
                if reqs@[i].key@ == "metadata.name"@ {
                    Some(node.name@)
                } else {
                    None
                },
            ) by {
                assert(value_satisfies(f[i], field_of(node, f[i].key@)));
            }
        }
    }
}

/// Every preference counts: dropping one from anywhere lowers the sum by its
/// weight where the node meets its term, else by nothing.
pub proof fn every_preference_counts(terms: Seq<PreferredTerm>, node: NodeInfo, i: int)
    requires
        0 <= i < terms.len(),
    ensures
        preference_sum(terms, node) == preference_sum(terms.remove(i), node) + if meets_all(
            terms[i].selector,
            node,
        ) {
            terms[i].weight as int
        } else {
            0
        },
    decreases terms.len(),
{
    let t = terms.drop_last();
    term_meets_all(terms[i].selector, node);
    if i == terms.len() - 1 {
        assert(terms.remove(i) =~= t);
    } else {
        every_preference_counts(t, node, i);
        assert(terms.remove(i).drop_last() =~= t.remove(i));
        assert(terms.remove(i).last() == terms.last());
    }
}

/// A requirement `Gt` or `Lt` holds only of a label that is there and a number,
/// and holds of it as the numbers compare.
pub proof fn order_requirements_compare(req: NodeSelectorRequirement, actual: Option<Seq<char>>)
    ensures
        req.operator@ == "Gt"@ ==> (value_satisfies(req, actual) <==> (actual matches Some(a)
            && i64_of(a) is Some && first_number(req.values) is Some && i64_of(a)->Some_0
            > first_number(req.values)->Some_0)),
        req.operator@ == "Lt"@ ==> (value_satisfies(req, actual) <==> (actual matches Some(a)
            && i64_of(a) is Some && first_number(req.values) is Some && i64_of(a)->Some_0
            < first_number(req.values)->Some_0)),
{
    reveal_strlit("Gt");
    reveal_strlit("Lt");
    assert("Gt"@[0] != "Lt"@[0]);
}

} // verus!
