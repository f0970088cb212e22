//! `PodTopologySpread`: keep a workload's pods evenly spread over domains.
//!
//! The skew of a placement is the count its domain would then have, less the
//! smallest count among the eligible domains. A hard constraint rejects a node
//! where the skew would pass its limit; a soft one only scores. With fewer
//! domains than a constraint asks for, the smallest count is taken as zero, so
//! that the constraint keeps biting on a narrow cluster.
//!
//! A pod without constraints of its own, which some workload selects, gets two
//! soft ones: at most three apart across zones, five across hosts.

use super::inter_pod_affinity::{placed_sum, placed_sum_without, pod_sum, without_pod};
use super::node_affinity::{pod_accepts, pod_accepts_node};
use super::selector::{
    asks_nothing, matches_selector, requirement_holds, requirements, selected, selects, value_list,
    wanted_labels,
};
use super::taint_toleration::{blocking_taint, first_block};
use super::{always_on, event_on};
use crate::api::{copy_texts, LabelSelector, LabelSelectorRequirement, TopologySpreadConstraint};
use crate::cache::{clamp64, copy_amounts, sum64, NodeInfo, PodInfo, Snapshot, WorkloadSelector};
use crate::config::TopologyDefaulting;
use crate::events::{ActionType, ClusterEvent, EventResource};
use crate::framework::status::{skip, success, unresolvable, unschedulable, Status, StatusView};
use crate::framework::{
    events_of, score_switched_off, ClusterEventWithHint, CycleState, FilterPlugin, NoHint, Plugin,
    PreFilterExtensions, PreFilterPlugin, PreScorePlugin, MAX_NODE_SCORE,
};
use crate::maps::{find_key_index, Labels, StrMap};
use crate::numbers::{divide, largest, largest_of, smallest, smallest_of, trunc_div};
use crate::preempt::selector_of;
use crate::text::{has_text, joined, text_eq};
use std::sync::Arc;
use vstd::prelude::*;

verus! {

pub const NAME: &'static str = "PodTopologySpread";

pub const ZONE_KEY: &'static str = "topology.kubernetes.io/zone";

pub const HOSTNAME_KEY: &'static str = "kubernetes.io/hostname";

/// One constraint, with the count of every eligible domain.
pub struct ResolvedConstraint {
    pub max_skew: i32,
    pub topology_key: String,
    /// Rejects nodes; else it only scores.
    pub hard: bool,
    pub min_domains: i32,
    pub selector: Option<Arc<LabelSelector>>,
    /// Domain to the matching pods in it. Ineligible domains do not appear.
    pub counts: StrMap<i64>,
}

pub struct SpreadState {
    pub constraints: Vec<ResolvedConstraint>,
}

pub struct PodTopologySpread {
    pub defaulting: TopologyDefaulting,
}

impl Default for PodTopologySpread {
    fn default() -> (r: Self)
        ensures
            r.defaulting == TopologyDefaulting::System,
    {
        PodTopologySpread { defaulting: TopologyDefaulting::System }
    }
}

/// The pairs are all carried and the requirements all hold.
pub open spec fn holds(
    pairs: Seq<(String, String)>,
    reqs: Seq<LabelSelectorRequirement>,
    labels: Labels,
) -> bool {
    &&& forall|i: int|
        0 <= i < pairs.len() ==> labels.carries((#[trigger] pairs[i]).0@, pairs[i].1@)
    &&& forall|i: int| 0 <= i < reqs.len() ==> requirement_holds(#[trigger] reqs[i], labels)
}

/// What the keys of `matchLabelKeys` ask: the incoming pod's own value of each
/// key that it carries.
pub open spec fn own_values_carried(keys: Seq<String>, own: Labels, labels: Labels) -> bool {
    forall|i: int|
        0 <= i < keys.len() ==> match own.text((#[trigger] keys[i])@) {
            Some(v) => labels.carries(keys[i]@, v),
            None => true,
        }
}

/// Whether a constraint of a pod counts pods with the labels.
pub open spec fn spread_selects(c: TopologySpreadConstraint, pod: PodInfo, labels: Labels) -> bool {
    selected(c.label_selector, labels) && own_values_carried(
        value_list(c.match_label_keys),
        pod.labels,
        labels,
    )
}

fn copy_requirement(req: &LabelSelectorRequirement) -> (r: LabelSelectorRequirement)
    ensures
        r.key == req.key,
        r.operator == req.operator,
        value_list(r.values) == value_list(req.values),
{
    LabelSelectorRequirement {
        key: req.key.clone(),
        operator: req.operator.clone(),
        values: match &req.values {
            Some(v) => Some(copy_texts(v)),
            None => None,
        },
    }
}

/// Add what a selector asks to a list of pairs and one of requirements.
fn add_selector(
    pairs: &mut StrMap<String>,
    reqs: &mut Vec<LabelSelectorRequirement>,
    sel: &LabelSelector,
)
    ensures
        forall|labels: Labels| #[trigger]
            holds(final(pairs).entries@, final(reqs)@, labels) == (holds(
                old(pairs).entries@,
                old(reqs)@,
                labels,
            ) && selects(*sel, labels)),
        final(pairs).entries@.len() > 0 || final(reqs)@.len() > 0 <==> old(pairs).entries@.len() > 0
            || old(reqs)@.len() > 0 || !asks_nothing(*sel),
{
    let ghost p0 = pairs.entries@;
    let ghost r0 = reqs@;
    let ghost wanted = wanted_labels(*sel);
    match &sel.match_labels {
        Some(m) => {
            let mut i: usize = 0;
            while i < m.entries.len()
                invariant
                    i <= m.entries@.len(),
                    wanted == m.entries@,
                    forall|labels: Labels| #[trigger]
                        holds(pairs.entries@, r0, labels) == (holds(p0, r0, labels) && holds(
                            wanted.take(i as int),
                            Seq::empty(),
                            labels,
                        )),
                    pairs.entries@.len() > 0 <==> p0.len() > 0 || i > 0,
                decreases m.entries@.len() - i,
            {
                let ghost before = pairs.entries@;
                let k = m.entries[i].0.as_str();
                let v = m.entries[i].1.as_str();
                let present = pairs.carries_pair(k, v);
                if !present {
                    pairs.entries.push((m.entries[i].0.clone(), m.entries[i].1.clone()));
                }
                i += 1;
                proof {
                    let pair = wanted[i - 1];
                    if present {
                        let j = find_key_index(before, k@);
                        assert(before[j].0@ == pair.0@ && before[j].1@ == pair.1@);
                    }
                    assert forall|labels: Labels| #[trigger]
                        holds(pairs.entries@, r0, labels) == (holds(p0, r0, labels) && holds(
                            wanted.take(i as int),
                            Seq::empty(),
                            labels,
                        )) by {
                        assert(holds(before, r0, labels) == (holds(p0, r0, labels) && holds(
                            wanted.take(i - 1),
                            Seq::empty(),
                            labels,
                        )));
                        holds_step(wanted, i - 1, labels);
                        if present {
                            assert(pairs.entries@ == before);
                            if holds(before, r0, labels) {
                                let j = find_key_index(before, k@);
                                assert(labels.carries(before[j].0@, before[j].1@));
                            }
                        } else {
                            assert(pairs.entries@ == before.push(pair));
                            holds_push(before, r0, pair, labels);
                        }
                    }
                }
            }
            assert(wanted.take(i as int) =~= wanted);
        },
        None => {
            assert forall|labels: Labels| #[trigger]
                holds(pairs.entries@, r0, labels) == (holds(p0, r0, labels) && holds(
                    wanted,
                    Seq::empty(),
                    labels,
                )) by {}
        },
    }
    let ghost p1 = pairs.entries@;
    let ghost asked = requirements(*sel);
    match &sel.match_expressions {
        Some(e) => {
            let mut i: usize = 0;
            while i < e.len()
                invariant
                    i <= e@.len(),
                    asked == e@,
                    pairs.entries@ == p1,
                    forall|labels: Labels| #[trigger]
                        holds(p1, reqs@, labels) == (holds(p1, r0, labels) && holds(
                            Seq::empty(),
                            asked.take(i as int),
                            labels,
                        )),
                    reqs@.len() == r0.len() + i,
                decreases e@.len() - i,
            {
                let ghost before = reqs@;
                reqs.push(copy_requirement(&e[i]));
                i += 1;
                proof {
                    let req = reqs@.last();
                    assert(reqs@ == before.push(req));
                    assert forall|labels: Labels| #[trigger]
                        holds(p1, reqs@, labels) == (holds(p1, r0, labels) && holds(
                            Seq::empty(),
                            asked.take(i as int),
                            labels,
                        )) by {
                        assert(holds(p1, before, labels) == (holds(p1, r0, labels) && holds(
                            Seq::empty(),
                            asked.take(i - 1),
                            labels,
                        )));
                        assert(requirement_holds(req, labels) == requirement_holds(
                            asked[i - 1],
                            labels,
                        ));
                        holds_req_push(p1, before, req, labels);
                        assert(asked.take(i as int) =~= asked.take(i - 1).push(asked[i - 1]));
                        holds_req_push(Seq::empty(), asked.take(i - 1), asked[i - 1], labels);
                    }
                }
            }
            assert(asked.take(i as int) =~= asked);
        },
        None => {
            assert forall|labels: Labels| #[trigger]
                holds(p1, reqs@, labels) == (holds(p1, r0, labels) && holds(
                    Seq::empty(),
                    asked,
                    labels,
                )) by {}
        },
    }
    proof {
        assert forall|labels: Labels| #[trigger]
            holds(pairs.entries@, reqs@, labels) == (holds(p0, r0, labels) && selects(
                *sel,
                labels,
            )) by {
            assert(holds(p1, reqs@, labels) == (holds(p1, r0, labels) && holds(
                Seq::empty(),
                asked,
                labels,
            )));
            assert(holds(p1, r0, labels) == (holds(p0, r0, labels) && holds(
                wanted,
                Seq::empty(),
                labels,
            )));
        }
    }
}

proof fn holds_push(
    pairs: Seq<(String, String)>,
    reqs: Seq<LabelSelectorRequirement>,
    pair: (String, String),
    labels: Labels,
)
    ensures
        holds(pairs.push(pair), reqs, labels) == (holds(pairs, reqs, labels) && labels.carries(
            pair.0@,
            pair.1@,
        )),
{
    let all = pairs.push(pair);
    if holds(all, reqs, labels) {
        assert forall|i: int| 0 <= i < pairs.len() implies labels.carries(
            (#[trigger] pairs[i]).0@,
            pairs[i].1@,
        ) by {
            assert(all[i] == pairs[i]);
        }
        assert(all[pairs.len() as int] == pair);
    }
}

proof fn holds_step(wanted: Seq<(String, String)>, n: int, labels: Labels)
    requires
        0 <= n < wanted.len(),
    ensures
        holds(wanted.take(n + 1), Seq::empty(), labels) == (holds(
            wanted.take(n),
            Seq::empty(),
            labels,
        ) && labels.carries(wanted[n].0@, wanted[n].1@)),
{
    assert(wanted.take(n + 1) =~= wanted.take(n).push(wanted[n]));
    holds_push(wanted.take(n), Seq::empty(), wanted[n], labels);
}

proof fn holds_req_push(
    pairs: Seq<(String, String)>,
    reqs: Seq<LabelSelectorRequirement>,
    req: LabelSelectorRequirement,
    labels: Labels,
)
    ensures
        holds(pairs, reqs.push(req), labels) == (holds(pairs, reqs, labels) && requirement_holds(
            req,
            labels,
        )),
{
    let all = reqs.push(req);
    if holds(pairs, all, labels) {
        assert forall|i: int| 0 <= i < reqs.len() implies requirement_holds(
            #[trigger] reqs[i],
            labels,
        ) by {
            assert(all[i] == reqs[i]);
        }
        assert(all[reqs.len() as int] == req);
    }
}

/// A constraint's selector with its `matchLabelKeys` folded in. A key that the
/// pod does not carry is left out.
pub fn effective_selector(constraint: &TopologySpreadConstraint, pod: &PodInfo) -> (r: Option<
    Arc<LabelSelector>,
>)
    ensures
        r is Some <==> constraint.label_selector is Some,
        forall|labels: Labels| #[trigger]
            selected(selector_of(r), labels) == spread_selects(*constraint, *pod, labels),
{
    let base = match &constraint.label_selector {
        Some(b) => b,
        None => {
            return None;
        },
    };
    let mut pairs: StrMap<String> = StrMap::new();
    let mut reqs: Vec<LabelSelectorRequirement> = Vec::new();
    add_selector(&mut pairs, &mut reqs, base);
    let ghost p = pairs.entries@;
    let ghost r0 = reqs@;
    let ghost keys = value_list(constraint.match_label_keys);
    match &constraint.match_label_keys {
        Some(list) => {
            let mut i: usize = 0;
            proof {
                assert forall|labels: Labels| #[trigger]
                    holds(p, reqs@, labels) == (holds(p, r0, labels) && own_values_carried(
                        keys.take(0),
                        pod.labels,
                        labels,
                    )) by {}
            }
            while i < list.len()
                invariant
                    i <= list@.len(),
                    keys == list@,
                    forall|labels: Labels| #[trigger]
                        holds(p, reqs@, labels) == (holds(p, r0, labels) && own_values_carried(
                            keys.take(i as int),
                            pod.labels,
                            labels,
                        )),
                decreases list@.len() - i,
            {
                let ghost before = reqs@;
                let key = list[i].as_str();
                match pod.labels.get(key) {
                    Some(value) => {
                        let mut values: Vec<String> = Vec::new();
                        values.push(value.clone());
                        let req = LabelSelectorRequirement {
                            key: list[i].clone(),
                            operator: "In".to_owned(),
                            values: Some(values),
                        };
                        proof {
                            assert forall|labels: Labels| #[trigger]
                                requirement_holds(req, labels) == labels.carries(key@, value@) by {
                                let vs = value_list(req.values);
                                assert(vs[0]@ == value@);
                                assert forall|t: Seq<char>| #[trigger]
                                    has_text(vs, t) <==> t == value@ by {
                                    if has_text(vs, t) {
                                        let q = choose|q: int|
                                            0 <= q < vs.len() && (#[trigger] vs[q])@ == t;
                                    }
                                }
                            }
                        }
                        reqs.push(req);
                        proof {
                            assert forall|labels: Labels| #[trigger]
                                holds(p, reqs@, labels) == (holds(p, before, labels)
                                    && labels.carries(key@, value@)) by {
                                holds_req_push(p, before, req, labels);
                            }
                        }
                    },
                    None => {},
                }
                i += 1;
                proof {
                    assert forall|labels: Labels| #[trigger]
                        holds(p, reqs@, labels) == (holds(p, r0, labels) && own_values_carried(
                            keys.take(i as int),
                            pod.labels,
                            labels,
                        )) by {
                        assert(holds(p, before, labels) == (holds(p, r0, labels)
                            && own_values_carried(keys.take(i - 1), pod.labels, labels)));
                        own_step(keys, i - 1, pod.labels, labels);
                    }
                }
            }
            assert(keys.take(i as int) =~= keys);
        },
        None => {},
    }
    let sel = LabelSelector { match_labels: Some(pairs), match_expressions: Some(reqs) };
    proof {
        assert forall|labels: Labels| #[trigger]
            selected(Some(sel), labels) == spread_selects(*constraint, *pod, labels) by {
            assert(wanted_labels(sel) == p && requirements(sel) == reqs@);
            assert(selects(sel, labels) == holds(p, reqs@, labels));
            assert(holds(p, r0, labels) == selects(*base, labels));
            assert(holds(p, reqs@, labels) == (holds(p, r0, labels) && own_values_carried(
                keys,
                pod.labels,
                labels,
            )));
        }
    }
    Some(Arc::new(sel))
}

proof fn own_step(keys: Seq<String>, n: int, own: Labels, labels: Labels)
    requires
        0 <= n < keys.len(),
    ensures
        own_values_carried(keys.take(n + 1), own, labels) == (own_values_carried(
            keys.take(n),
            own,
            labels,
        ) && match own.text(keys[n]@) {
            Some(v) => labels.carries(keys[n]@, v),
            None => true,
        }),
{
    let a = keys.take(n + 1);
    let b = keys.take(n);
    if own_values_carried(a, own, labels) {
        assert forall|i: int| 0 <= i < b.len() implies match own.text((#[trigger] b[i])@) {
            Some(v) => labels.carries(b[i]@, v),
            None => true,
        } by {
            assert(a[i] == b[i]);
        }
        assert(a[n] == keys[n]);
    }
    if own_values_carried(b, own, labels) {
        assert forall|i: int| 0 <= i < n implies match own.text((#[trigger] a[i])@) {
            Some(v) => labels.carries(a[i]@, v),
            None => true,
        } by {
            assert(a[i] == b[i]);
        }
        assert(a[n] == keys[n]);
    }
}

/// Whether a node's domain takes part: it suits the pod's own demands, unless
/// the constraint ignores them, and its taints, where the constraint asks.
pub open spec fn eligible(c: TopologySpreadConstraint, pod: PodInfo, node: NodeInfo) -> bool {
    &&& (c.node_affinity_policy is Some && c.node_affinity_policy->Some_0@ != "Honor"@)
        || pod_accepts(pod, node)
    &&& !(c.node_taints_policy is Some && c.node_taints_policy->Some_0@ == "Honor"@)
        || first_block(node.taints@, pod.tolerations@) is None
}

pub fn node_is_eligible(constraint: &TopologySpreadConstraint, pod: &PodInfo, node: &NodeInfo) -> (r:
    bool)
    ensures
        r == eligible(*constraint, *pod, *node),
{
    let honor_affinity = match &constraint.node_affinity_policy {
        Some(p) => text_eq(p.as_str(), "Honor"),
        None => true,
    };
    if honor_affinity && !pod_accepts_node(pod, node) {
        return false;
    }
    let honor_taints = match &constraint.node_taints_policy {
        Some(p) => text_eq(p.as_str(), "Honor"),
        None => false,
    };
    if honor_taints && blocking_taint(&node.taints, &pod.tolerations).is_some() {
        return false;
    }
    true
}

/// How many of the pods are in the incoming pod's namespace and counted.
pub open spec fn matching(
    pods: Seq<Arc<PodInfo>>,
    c: TopologySpreadConstraint,
    pod: PodInfo,
) -> nat
    decreases pods.len(),
{
    if pods.len() == 0 {
        0
    } else {
        matching(pods.drop_last(), c, pod) + if pods.last().namespace@ == pod.namespace@
            && spread_selects(c, pod, pods.last().labels) {
            1nat
        } else {
            0nat
        }
    }
}

/// A node in a domain that takes part.
pub open spec fn in_domain(
    c: TopologySpreadConstraint,
    pod: PodInfo,
    node: NodeInfo,
    value: Seq<char>,
) -> bool {
    node.labels.text(c.topology_key@) == Some(value) && eligible(c, pod, node)
}

/// The counted pods on the nodes of a domain.
pub open spec fn domain_total(
    nodes: Seq<Arc<NodeInfo>>,
    c: TopologySpreadConstraint,
    pod: PodInfo,
    value: Seq<char>,
) -> nat
    decreases nodes.len(),
{
    if nodes.len() == 0 {
        0
    } else {
        domain_total(nodes.drop_last(), c, pod, value) + if in_domain(
            c,
            pod,
            *nodes.last(),
            value,
        ) {
            matching(nodes.last().pods@, c, pod)
        } else {
            0
        }
    }
}

/// Some node is in the domain.
pub open spec fn domain_exists(
    nodes: Seq<Arc<NodeInfo>>,
    c: TopologySpreadConstraint,
    pod: PodInfo,
    value: Seq<char>,
) -> bool {
    exists|i: int| 0 <= i < nodes.len() && in_domain(c, pod, *#[trigger] nodes[i], value)
}

/// The count of each domain that takes part, empty ones included.
pub open spec fn counted(
    counts: StrMap<i64>,
    nodes: Seq<Arc<NodeInfo>>,
    c: TopologySpreadConstraint,
    pod: PodInfo,
) -> bool {
    &&& counts.ordered()
    &&& forall|v: Seq<char>| #[trigger]
        counts.at(v) == if domain_exists(nodes, c, pod, v) {
            Some(clamp64(domain_total(nodes, c, pod, v) as int) as i64)
        } else {
            None::<i64>
        }
}

/// A constraint of a pod, resolved against a cluster.
pub open spec fn resolves(
    r: ResolvedConstraint,
    c: TopologySpreadConstraint,
    pod: PodInfo,
    nodes: Seq<Arc<NodeInfo>>,
) -> bool {
    &&& r.max_skew == if c.max_skew < 1 {
        1
    } else {
        c.max_skew as int
    }
    &&& r.topology_key@ == c.topology_key@
    &&& r.hard == (c.when_unsatisfiable@ == "DoNotSchedule"@)
    &&& r.min_domains == match c.min_domains {
        Some(n) => n,
        None => 1,
    }
    &&& r.selector is Some <==> c.label_selector is Some
    &&& forall|labels: Labels| #[trigger]
        selected(selector_of(r.selector), labels) == spread_selects(c, pod, labels)
    &&& counted(r.counts, nodes, c, pod)
}

fn count_matching(
    pods: &Vec<Arc<PodInfo>>,
    selector: &Option<Arc<LabelSelector>>,
    pod: &PodInfo,
    Ghost(c): Ghost<TopologySpreadConstraint>,
) -> (r: i64)
    requires
        forall|labels: Labels| #[trigger]
            selected(selector_of(*selector), labels) == spread_selects(c, *pod, labels),
    ensures
        r == clamp64(matching(pods@, c, *pod) as int),
{
    let mut n: i64 = 0;
    let mut i: usize = 0;
    while i < pods.len()
        invariant
            i <= pods@.len(),
            n == clamp64(matching(pods@.take(i as int), c, *pod) as int),
            forall|labels: Labels| #[trigger]
                selected(selector_of(*selector), labels) == spread_selects(c, *pod, labels),
        decreases pods@.len() - i,
    {
        let chosen = match selector {
            Some(s) => matches_selector(Some(&**s), &pods[i].labels),
            None => matches_selector(None, &pods[i].labels),
        };
        proof {
            assert(selected(selector_of(*selector), pods@[i as int].labels) == spread_selects(
                c,
                *pod,
                pods@[i as int].labels,
            ));
        }
        if text_eq(pods[i].namespace.as_str(), pod.namespace.as_str()) && chosen {
            n = sum64(n, 1);
        }
        i += 1;
        assert(pods@.take(i as int).drop_last() =~= pods@.take(i - 1));
    }
    assert(pods@.take(i as int) =~= pods@);
    n
}

proof fn domain_step(
    nodes: Seq<Arc<NodeInfo>>,
    n: int,
    c: TopologySpreadConstraint,
    pod: PodInfo,
    v: Seq<char>,
)
    requires
        0 <= n < nodes.len(),
    ensures
        domain_exists(nodes.take(n + 1), c, pod, v) == (domain_exists(nodes.take(n), c, pod, v)
            || in_domain(c, pod, *nodes[n], v)),
        domain_total(nodes.take(n + 1), c, pod, v) == domain_total(nodes.take(n), c, pod, v)
            + if in_domain(c, pod, *nodes[n], v) {
            matching(nodes[n].pods@, c, pod)
        } else {
            0
        },
        !domain_exists(nodes.take(n), c, pod, v) ==> domain_total(nodes.take(n), c, pod, v) == 0,
    decreases n,
{
    let a = nodes.take(n + 1);
    let b = nodes.take(n);
    assert(a.drop_last() =~= b);
    assert(a.last() == nodes[n]);
    if domain_exists(a, c, pod, v) {
        let k = choose|k: int| 0 <= k < a.len() && in_domain(c, pod, *#[trigger] a[k], v);
        if k < n {
            assert(b[k] == a[k]);
        }
    }
    if domain_exists(b, c, pod, v) {
        let k = choose|k: int| 0 <= k < b.len() && in_domain(c, pod, *#[trigger] b[k], v);
        assert(a[k] == b[k]);
    }
    if in_domain(c, pod, crate::maps::shared(nodes[n]), v) {
        assert(a[n] == nodes[n]);
    }
    if n > 0 {
        domain_step(nodes, n - 1, c, pod, v);
    }
}

/// Resolve one constraint against the cluster.
fn resolve(c: &TopologySpreadConstraint, pod: &PodInfo, snapshot: &Snapshot) -> (r:
    ResolvedConstraint)
    ensures
        resolves(r, *c, *pod, snapshot.nodes@),
{
    let selector = effective_selector(c, pod);
    let nodes = &snapshot.nodes;
    let mut counts: StrMap<i64> = StrMap::new();
    let mut i: usize = 0;
    while i < nodes.len()
        invariant
            i <= nodes@.len(),
            nodes@ == snapshot.nodes@,
            forall|labels: Labels| #[trigger]
                selected(selector_of(selector), labels) == spread_selects(*c, *pod, labels),
            counted(counts, nodes@.take(i as int), *c, *pod),
        decreases nodes@.len() - i,
    {
        let ghost before = counts;
        let node = &nodes[i];
        match node.labels.get(c.topology_key.as_str()) {
            Some(value) => {
                if node_is_eligible(c, pod, node) {
                    let here: i64 = count_matching(&node.pods, &selector, pod, Ghost(*c));
                    let base: i64 = match counts.get(value.as_str()) {
                        Some(n) => *n,
                        None => 0,
                    };
                    counts.insert(value.clone(), sum64(base, here));
                }
            },
            None => {},
        }
        i += 1;
        proof {
            assert forall|v: Seq<char>| #[trigger]
                counts.at(v) == if domain_exists(nodes@.take(i as int), *c, *pod, v) {
                    Some(clamp64(domain_total(nodes@.take(i as int), *c, *pod, v) as int) as i64)
                } else {
                    None::<i64>
                } by {
                domain_step(nodes@, i - 1, *c, *pod, v);
                let was = before.at(v);
            }
        }
    }
    assert(nodes@.take(i as int) =~= nodes@);
    ResolvedConstraint {
        max_skew: if c.max_skew < 1 {
            1
        } else {
            c.max_skew
        },
        topology_key: c.topology_key.clone(),
        hard: text_eq(c.when_unsatisfiable.as_str(), "DoNotSchedule"),
        min_domains: match c.min_domains {
            Some(n) => n,
            None => 1,
        },
        selector,
        counts,
    }
}

/// Constraints of a pod, each resolved.
pub open spec fn all_resolve(
    r: Seq<ResolvedConstraint>,
    c: Seq<TopologySpreadConstraint>,
    pod: PodInfo,
    nodes: Seq<Arc<NodeInfo>>,
) -> bool {
    r.len() == c.len() && forall|i: int|
        0 <= i < r.len() ==> resolves(#[trigger] r[i], c[i], pod, nodes)
}

fn resolve_all(constraints: &Vec<TopologySpreadConstraint>, pod: &PodInfo, snapshot: &Snapshot) -> (r:
    Vec<ResolvedConstraint>)
    ensures
        all_resolve(r@, constraints@, *pod, snapshot.nodes@),
{
    let mut out: Vec<ResolvedConstraint> = Vec::new();
    let mut i: usize = 0;
    while i < constraints.len()
        invariant
            i <= constraints@.len(),
            out@.len() == i,
            forall|k: int|
                0 <= k < i ==> resolves(
                    #[trigger] out@[k],
                    constraints@[k],
                    *pod,
                    snapshot.nodes@,
                ),
        decreases constraints@.len() - i,
    {
        out.push(resolve(&constraints[i], pod, snapshot));
        i += 1;
    }
    out
}

/// A workload of the pod's namespace selects the pod.
pub open spec fn owns(w: WorkloadSelector, pod: PodInfo) -> bool {
    w.namespace@ == pod.namespace@ && selects(w.selector, pod.labels)
}

/// Every workload that selects the pod would select these labels.
pub open spec fn peer_labels(
    workloads: Seq<(String, WorkloadSelector)>,
    pod: PodInfo,
    labels: Labels,
) -> bool {
    forall|i: int|
        0 <= i < workloads.len() && owns((#[trigger] workloads[i]).1, pod) ==> selects(
            workloads[i].1.selector,
            labels,
        )
}

/// Some workload that asks for anything selects the pod.
pub open spec fn owned(workloads: Seq<(String, WorkloadSelector)>, pod: PodInfo) -> bool {
    exists|i: int|
        0 <= i < workloads.len() && owns((#[trigger] workloads[i]).1, pod) && !asks_nothing(
            workloads[i].1.selector,
        )
}

/// The selector of a pod's peers: what all workloads that select the pod ask.
/// None where no workload does, or those that do ask nothing.
fn peer_selector(pod: &PodInfo, snapshot: &Snapshot) -> (r: Option<LabelSelector>)
    ensures
        r is Some <==> owned(snapshot.workloads.entries@, *pod),
        r is Some ==> forall|labels: Labels| #[trigger]
            selects(r->Some_0, labels) == peer_labels(
                snapshot.workloads.entries@,
                *pod,
                labels,
            ),
{
    let workloads = &snapshot.workloads.entries;
    let mut pairs: StrMap<String> = StrMap::new();
    let mut reqs: Vec<LabelSelectorRequirement> = Vec::new();
    let mut i: usize = 0;
    while i < workloads.len()
        invariant
            i <= workloads@.len(),
            workloads@ == snapshot.workloads.entries@,
            forall|labels: Labels| #[trigger]
                holds(pairs.entries@, reqs@, labels) == peer_labels(
                    workloads@.take(i as int),
                    *pod,
                    labels,
                ),
            pairs.entries@.len() > 0 || reqs@.len() > 0 <==> owned(workloads@.take(i as int), *pod),
        decreases workloads@.len() - i,
    {
        let ghost p0 = pairs.entries@;
        let ghost r0 = reqs@;
        let w = &workloads[i].1;
        let mine = text_eq(w.namespace.as_str(), pod.namespace.as_str()) && matches_selector(
            Some(&w.selector),
            &pod.labels,
        );
        if mine {
            add_selector(&mut pairs, &mut reqs, &w.selector);
        }
        i += 1;
        proof {
            assert forall|labels: Labels| #[trigger]
                holds(pairs.entries@, reqs@, labels) == peer_labels(
                    workloads@.take(i as int),
                    *pod,
                    labels,
                ) by {
                assert(holds(p0, r0, labels) == peer_labels(workloads@.take(i - 1), *pod, labels));
                peer_step(workloads@, i - 1, *pod, labels);
            }
            owned_step(workloads@, i - 1, *pod);
        }
    }
    assert(workloads@.take(i as int) =~= workloads@);
    if pairs.entries.len() == 0 && reqs.len() == 0 {
        return None;
    }
    let sel = LabelSelector { match_labels: Some(pairs), match_expressions: Some(reqs) };
    proof {
        assert forall|labels: Labels| #[trigger] selects(sel, labels) == peer_labels(
            workloads@,
            *pod,
            labels,
        ) by {
            assert(wanted_labels(sel) == pairs.entries@ && requirements(sel) == reqs@);
            assert(selects(sel, labels) == holds(pairs.entries@, reqs@, labels));
        }
    }
    Some(sel)
}

proof fn peer_step(w: Seq<(String, WorkloadSelector)>, n: int, pod: PodInfo, labels: Labels)
    requires
        0 <= n < w.len(),
    ensures
        peer_labels(w.take(n + 1), pod, labels) == (peer_labels(w.take(n), pod, labels) && (owns(
            w[n].1,
            pod,
        ) ==> selects(w[n].1.selector, labels))),
{
    let a = w.take(n + 1);
    let b = w.take(n);
    if peer_labels(a, pod, labels) {
        assert forall|i: int| 0 <= i < b.len() && owns((#[trigger] b[i]).1, pod) implies selects(
            b[i].1.selector,
            labels,
        ) by {
            assert(a[i] == b[i]);
        }
        assert(a[n] == w[n]);
    }
    if peer_labels(b, pod, labels) && (owns(w[n].1, pod) ==> selects(w[n].1.selector, labels)) {
        assert forall|i: int| 0 <= i < a.len() && owns((#[trigger] a[i]).1, pod) implies selects(
            a[i].1.selector,
            labels,
        ) by {
            if i < n {
                assert(a[i] == b[i]);
            } else {
                assert(a[i] == w[n]);
            }
        }
    }
}

proof fn owned_step(w: Seq<(String, WorkloadSelector)>, n: int, pod: PodInfo)
    requires
        0 <= n < w.len(),
    ensures
        owned(w.take(n + 1), pod) == (owned(w.take(n), pod) || (owns(w[n].1, pod) && !asks_nothing(
            w[n].1.selector,
        ))),
{
    let a = w.take(n + 1);
    let b = w.take(n);
    if owned(a, pod) {
        let i = choose|i: int|
            0 <= i < a.len() && owns((#[trigger] a[i]).1, pod) && !asks_nothing(a[i].1.selector);
        if i < n {
            assert(b[i] == a[i]);
        }
    }
    if owned(b, pod) {
        let i = choose|i: int|
            0 <= i < b.len() && owns((#[trigger] b[i]).1, pod) && !asks_nothing(b[i].1.selector);
        assert(a[i] == b[i]);
    }
    assert(a[n] == w[n]);
}

/// A built-in constraint: soft, over the pod's peers.
pub open spec fn built_in(
    c: TopologySpreadConstraint,
    key: Seq<char>,
    max_skew: int,
    pod: PodInfo,
    snapshot: Snapshot,
) -> bool {
    &&& c.topology_key@ == key
    &&& c.max_skew == max_skew
    &&& c.when_unsatisfiable@ == "ScheduleAnyway"@
    &&& c.match_label_keys is None
    &&& c.min_domains is None
    &&& c.node_affinity_policy is None
    &&& c.node_taints_policy is None
    &&& c.label_selector is Some
    &&& forall|labels: Labels| #[trigger]
        selects(c.label_selector->Some_0, labels) == peer_labels(
            snapshot.workloads.entries@,
            pod,
            labels,
        )
}

/// The built-in constraints: across zones, then across hosts.
pub open spec fn built_ins(
    c: Seq<TopologySpreadConstraint>,
    pod: PodInfo,
    snapshot: Snapshot,
) -> bool {
    &&& c.len() == 2
    &&& built_in(c[0], ZONE_KEY@, 3, pod, snapshot)
    &&& built_in(c[1], HOSTNAME_KEY@, 5, pod, snapshot)
}

fn default_constraint(key: &str, max_skew: i32, selector: LabelSelector) -> (r:
    TopologySpreadConstraint)
    ensures
        r.topology_key@ == key@,
        r.max_skew == max_skew,
        r.when_unsatisfiable@ == "ScheduleAnyway"@,
        r.match_label_keys is None,
        r.min_domains is None,
        r.node_affinity_policy is None,
        r.node_taints_policy is None,
        r.label_selector == Some(selector),
{
    TopologySpreadConstraint {
        max_skew,
        topology_key: key.to_owned(),
        when_unsatisfiable: "ScheduleAnyway".to_owned(),
        label_selector: Some(selector),
        match_label_keys: None,
        min_domains: None,
        node_affinity_policy: None,
        node_taints_policy: None,
    }
}

/// The built-in constraints, where some workload selects the pod.
fn default_constraints(pod: &PodInfo, snapshot: &Snapshot) -> (r: Vec<TopologySpreadConstraint>)
    ensures
        if owned(snapshot.workloads.entries@, *pod) {
            built_ins(r@, *pod, *snapshot)
        } else {
            r@.len() == 0
        },
{
    let mut out: Vec<TopologySpreadConstraint> = Vec::new();
    match peer_selector(pod, snapshot) {
        Some(zones) => {
            match peer_selector(pod, snapshot) {
                Some(hosts) => {
                    out.push(default_constraint(ZONE_KEY, 3, zones));
                    out.push(default_constraint(HOSTNAME_KEY, 5, hosts));
                },
                None => {},
            }
        },
        None => {},
    }
    out
}

pub open spec fn subscriptions() -> Seq<ClusterEvent> {
    seq![
        event_on(
            EventResource::AssignedPod,
            ActionType::ADD | ActionType::DELETE | ActionType::UPDATE_POD_LABEL,
        ),
        event_on(
            EventResource::Node,
            ActionType::ADD | ActionType::DELETE | ActionType::UPDATE_NODE_LABEL
                | ActionType::UPDATE_NODE_TAINT,
        ),
    ]
}

impl Plugin for PodTopologySpread {
    type Hint = NoHint;

    open spec fn name_view(&self) -> Seq<char> {
        NAME@
    }

    fn name(&self) -> (r: &'static str) {
        NAME
    }

    fn events_to_register(&self) -> (r: Vec<ClusterEventWithHint<NoHint>>)
        ensures
            events_of(r@) == subscriptions(),
            crate::framework::unhinted(r@),
    {
        let mut out: Vec<ClusterEventWithHint<NoHint>> = Vec::new();
        out.push(
            always_on(
                EventResource::AssignedPod,
                ActionType::ADD | ActionType::DELETE | ActionType::UPDATE_POD_LABEL,
            ),
        );
        out.push(
            always_on(
                EventResource::Node,
                ActionType::ADD | ActionType::DELETE | ActionType::UPDATE_NODE_LABEL
                    | ActionType::UPDATE_NODE_TAINT,
            ),
        );
        assert(events_of(out@) =~= subscriptions());
        out
    }
}

/// The first hard constraint without a domain.
pub open spec fn domainless(r: Seq<ResolvedConstraint>) -> Option<int>
    decreases r.len(),
{
    if r.len() == 0 {
        None
    } else {
        match domainless(r.drop_last()) {
            Some(i) => Some(i),
            None => if r.last().hard && r.last().counts.entries@.len() == 0 {
                Some(r.len() - 1)
            } else {
                None
            },
        }
    }
}

proof fn domainless_at(r: Seq<ResolvedConstraint>, n: int)
    requires
        0 <= n <= r.len(),
        forall|k: int|
            0 <= k < n ==> !((#[trigger] r[k]).hard && r[k].counts.entries@.len() == 0),
        n < r.len() ==> r[n].hard && r[n].counts.entries@.len() == 0,
    ensures
        domainless(r) == if n < r.len() {
            Some(n)
        } else {
            None
        },
    decreases r.len(),
{
    if r.len() > 0 {
        let t = r.drop_last();
        if n < r.len() - 1 {
            assert forall|k: int| 0 <= k < n implies !((#[trigger] t[k]).hard
                && t[k].counts.entries@.len() == 0) by {
                assert(t[k] == r[k]);
            }
            assert(t[n] == r[n]);
            domainless_at(t, n);
        } else {
            assert forall|k: int| 0 <= k < t.len() implies !((#[trigger] t[k]).hard
                && t[k].counts.entries@.len() == 0) by {
                assert(t[k] == r[k]);
            }
            domainless_at(t, t.len() as int);
            assert(r[r.len() - 1] == r.last());
        }
    }
}

/// The status of a pod whose constraints are resolved: no eviction can create
/// a domain, so a hard constraint without one is not resolvable.
pub open spec fn resolved_status(r: Seq<ResolvedConstraint>) -> StatusView {
    match domainless(r) {
        Some(i) => unresolvable(
            NAME@,
            "no eligible domain for topology key "@ + r[i].topology_key@,
        ),
        None => success(),
    }
}

impl PreFilterPlugin for PodTopologySpread {
    open spec fn pre_filter_view(
        &self,
        before: CycleState,
        pod: PodInfo,
        snapshot: Snapshot,
        after: CycleState,
        status: StatusView,
    ) -> bool {
        let own = pod.topology_spread_constraints@;
        if own.len() == 0 && !(self.defaulting == TopologyDefaulting::System && owned(
            snapshot.workloads.entries@,
            pod,
        )) {
            &&& status == skip()
            &&& after.slots == before.slots
            &&& forall|p: Seq<char>| #[trigger]
                after.no_filter(p) <==> before.no_filter(p) || p == NAME@
            &&& forall|p: Seq<char>| #[trigger]
                after.no_score(p) <==> before.no_score(p) || p == NAME@
        } else {
            &&& after.only_slot(&before, NAME@)
            &&& after.same_skips(&before)
            &&& after.value::<SpreadState>(NAME@) matches Some(s) && {
                &&& status == resolved_status(s.constraints@)
                &&& exists|c: Seq<TopologySpreadConstraint>|
                    (if own.len() > 0 {
                        c == own
                    } else {
                        built_ins(c, pod, snapshot)
                    }) && #[trigger] all_resolve(s.constraints@, c, pod, snapshot.nodes@)
            }
        }
    }

    fn pre_filter(&self, state: &mut CycleState, pod: &PodInfo, snapshot: &Snapshot) -> (r: (
        Status,
        Option<Vec<String>>,
    ))
        ensures
            r.1 is None,
    {
        let resolved = if pod.topology_spread_constraints.len() > 0 {
            resolve_all(&pod.topology_spread_constraints, pod, snapshot)
        } else {
            let defaults = if self.defaulting == TopologyDefaulting::System {
                default_constraints(pod, snapshot)
            } else {
                Vec::new()
            };
            if defaults.len() == 0 {
                state.skip_filter(NAME);
                let ghost mid = *state;
                state.skip_score(NAME);
                proof {
                    assert forall|p: Seq<char>| #[trigger]
                        state.no_filter(p) <==> old(state).no_filter(p) || p == NAME@ by {
                        assert(mid.no_filter(p) == state.no_filter(p));
                    }
                }
                return (Status::skip(), None);
            }
            let r = resolve_all(&defaults, pod, snapshot);
            assert(built_ins(defaults@, *pod, *snapshot));
            assert(all_resolve(r@, defaults@, *pod, snapshot.nodes@));
            r
        };
        let mut i: usize = 0;
        let mut reason: Option<String> = None;
        while i < resolved.len() && !(resolved[i].hard && resolved[i].counts.entries.len() == 0)
            invariant
                i <= resolved@.len(),
                forall|k: int|
                    0 <= k < i ==> !((#[trigger] resolved@[k]).hard
                        && resolved@[k].counts.entries@.len() == 0),
            decreases resolved@.len() - i,
        {
            i += 1;
        }
        proof {
            domainless_at(resolved@, i as int);
        }
        let status = if i < resolved.len() {
            let text = joined(
                "no eligible domain for topology key ",
                resolved[i].topology_key.as_str(),
            );
            Status::unresolvable(NAME, text.as_str())
        } else {
            Status::success()
        };
        state.write(NAME, SpreadState { constraints: resolved });
        (status, None)
    }
}

/// A constraint's counts after a pod joins or leaves a node. Only a domain
/// that takes part is adjusted.
pub open spec fn constraint_adjusted(
    r: ResolvedConstraint,
    t: ResolvedConstraint,
    pod: PodInfo,
    other: PodInfo,
    node: NodeInfo,
    joins: bool,
) -> bool {
    let hit = other.namespace@ == pod.namespace@ && selected(selector_of(r.selector), other.labels);
    &&& t.max_skew == r.max_skew
    &&& t.topology_key == r.topology_key
    &&& t.hard == r.hard
    &&& t.min_domains == r.min_domains
    &&& t.selector == r.selector
    &&& t.counts.entries@.len() == r.counts.entries@.len()
    &&& r.counts.ordered() ==> t.counts.ordered()
    &&& forall|v: Seq<char>| #[trigger]
        t.counts.at(v) == match r.counts.at(v) {
            Some(n) => if hit && node.labels.text(r.topology_key@) == Some(v) {
                Some(
                    clamp64(
                        n + if joins {
                            1int
                        } else {
                            -1int
                        },
                    ) as i64,
                )
            } else {
                Some(n)
            },
            None => None,
        }
}

/// What the plugin's slot becomes when a pod joins or leaves a node.
pub open spec fn slot_adjusted(
    before: CycleState,
    pod: PodInfo,
    other: PodInfo,
    node: NodeInfo,
    joins: bool,
    after: CycleState,
) -> bool {
    match before.value::<SpreadState>(NAME@) {
        None => after == before,
        Some(s) => {
            &&& after.only_slot(&before, NAME@)
            &&& after.same_skips(&before)
            &&& after.value::<SpreadState>(NAME@) matches Some(t) && {
                &&& t.constraints@.len() == s.constraints@.len()
                &&& forall|i: int|
                    0 <= i < s.constraints@.len() ==> constraint_adjusted(
                        #[trigger] s.constraints@[i],
                        t.constraints@[i],
                        pod,
                        other,
                        node,
                        joins,
                    )
            }
        },
    }
}

fn adjust_constraint(
    r: &ResolvedConstraint,
    pod: &PodInfo,
    other: &PodInfo,
    node: &NodeInfo,
    joins: bool,
) -> (t: ResolvedConstraint)
    ensures
        constraint_adjusted(*r, t, *pod, *other, *node, joins),
{
    let mut counts = copy_amounts(&r.counts);
    let same_namespace = text_eq(other.namespace.as_str(), pod.namespace.as_str());
    let chosen = match &r.selector {
        Some(s) => matches_selector(Some(&**s), &other.labels),
        None => matches_selector(None, &other.labels),
    };
    if same_namespace && chosen {
        match node.labels.get(r.topology_key.as_str()) {
            Some(value) => {
                let current: Option<i64> = match counts.get(value.as_str()) {
                    Some(n) => Some(*n),
                    None => None,
                };
                match current {
                    Some(n) => {
                        let next: i64 = if joins {
                            sum64(n, 1)
                        } else {
                            sum64(n, -1)
                        };
                        counts.insert(value.clone(), next);
                    },
                    None => {},
                }
            },
            None => {},
        }
    }
    ResolvedConstraint {
        max_skew: r.max_skew,
        topology_key: r.topology_key.clone(),
        hard: r.hard,
        min_domains: r.min_domains,
        selector: match &r.selector {
            Some(s) => Some(s.clone()),
            None => None,
        },
        counts,
    }
}

fn adjust(state: &mut CycleState, pod: &PodInfo, other: &PodInfo, node: &NodeInfo, joins: bool)
    ensures
        slot_adjusted(*old(state), *pod, *other, *node, joins, *final(state)),
{
    let mut next: Vec<ResolvedConstraint> = Vec::new();
    match state.read::<SpreadState>(NAME) {
        Some(s) => {
            let mut i: usize = 0;
            while i < s.constraints.len()
                invariant
                    i <= s.constraints@.len(),
                    next@.len() == i,
                    forall|k: int|
                        0 <= k < i ==> constraint_adjusted(
                            #[trigger] s.constraints@[k],
                            next@[k],
                            *pod,
                            *other,
                            *node,
                            joins,
                        ),
                decreases s.constraints@.len() - i,
            {
                next.push(adjust_constraint(&s.constraints[i], pod, other, node, joins));
                i += 1;
            }
        },
        None => {
            return ;
        },
    }
    state.write(NAME, SpreadState { constraints: next });
}

impl PreFilterExtensions for PodTopologySpread {
    open spec fn adjusted_view(
        &self,
        before: CycleState,
        pod: PodInfo,
        other: PodInfo,
        node: NodeInfo,
        joins: bool,
        after: CycleState,
    ) -> bool {
        slot_adjusted(before, pod, other, node, joins, after)
    }

    fn add_pod(
        &self,
        state: &mut CycleState,
        pod: &PodInfo,
        pod_to_add: &PodInfo,
        node: &NodeInfo,
    ) -> (r: Status)
        ensures
            r@ == success(),
    {
        adjust(state, pod, pod_to_add, node, true);
        Status::success()
    }

    fn remove_pod(
        &self,
        state: &mut CycleState,
        pod: &PodInfo,
        pod_to_remove: &PodInfo,
        node: &NodeInfo,
    ) -> (r: Status)
        ensures
            r@ == success(),
    {
        adjust(state, pod, pod_to_remove, node, false);
        Status::success()
    }
}

/// The counts of a list of domains.
pub open spec fn count_values(e: Seq<(String, i64)>) -> Seq<i64> {
    e.map_values(|p: (String, i64)| p.1)
}

impl ResolvedConstraint {
    /// The smallest count among the domains, or zero where there are fewer
    /// domains than the constraint asks for.
    pub open spec fn least(&self) -> int {
        if self.counts.entries@.len() < self.min_domains {
            0
        } else {
            smallest(count_values(self.counts.entries@))
        }
    }

    pub fn global_min(&self) -> (r: i64)
        ensures
            r == self.least(),
    {
        if (self.counts.entries.len() as i128) < self.min_domains as i128 {
            return 0;
        }
        let mut values: Vec<i64> = Vec::new();
        let mut i: usize = 0;
        while i < self.counts.entries.len()
            invariant
                i <= self.counts.entries@.len(),
                values@ == count_values(self.counts.entries@).take(i as int),
            decreases self.counts.entries@.len() - i,
        {
            values.push(self.counts.entries[i].1);
            i += 1;
            assert(count_values(self.counts.entries@).take(i as int) =~= count_values(
                self.counts.entries@,
            ).take(i - 1).push(self.counts.entries@[i - 1].1));
        }
        assert(count_values(self.counts.entries@).take(i as int) =~= count_values(
            self.counts.entries@,
        ));
        smallest_of(&values)
    }
}

/// A hard constraint's verdict on a node.
pub open spec fn constraint_verdict(r: ResolvedConstraint, node: NodeInfo) -> Option<StatusView> {
    match node.labels.text(r.topology_key@) {
        None => Some(unresolvable(NAME@, "node(s) didn't have label "@ + r.topology_key@)),
        Some(value) => match r.counts.at(value) {
            None => Some(
                unschedulable(NAME@, "node(s) didn't match pod topology spread constraints"@),
            ),
            Some(current) => if (current + 1) - r.least() > r.max_skew {
                Some(
                    unschedulable(
                        NAME@,
                        "node(s) didn't satisfy pod topology spread constraints (maxSkew exceeded)"@,
                    ),
                )
            } else {
                None
            },
        },
    }
}

/// The verdict of the first hard constraint that turns the node away.
pub open spec fn spread_verdict(r: Seq<ResolvedConstraint>, node: NodeInfo) -> Option<StatusView>
    decreases r.len(),
{
    if r.len() == 0 {
        None
    } else {
        match spread_verdict(r.drop_last(), node) {
            Some(s) => Some(s),
            None => if r.last().hard {
                constraint_verdict(r.last(), node)
            } else {
                None
            },
        }
    }
}

proof fn verdict_stands(r: Seq<ResolvedConstraint>, node: NodeInfo, n: int)
    requires
        0 <= n <= r.len(),
        spread_verdict(r.take(n), node) is Some,
    ensures
        spread_verdict(r, node) == spread_verdict(r.take(n), node),
    decreases r.len() - n,
{
    if n == r.len() {
        assert(r.take(n) =~= r);
    } else {
        assert(r.take(n + 1).drop_last() =~= r.take(n));
        verdict_stands(r, node, n + 1);
    }
}

fn check_constraint(r: &ResolvedConstraint, node: &NodeInfo) -> (s: Option<Status>)
    ensures
        match constraint_verdict(*r, *node) {
            Some(v) => s is Some && s->Some_0@ == v,
            None => s is None,
        },
{
    match node.labels.get(r.topology_key.as_str()) {
        None => {
            let text = joined("node(s) didn't have label ", r.topology_key.as_str());
            Some(Status::unresolvable(NAME, text.as_str()))
        },
        Some(value) => match r.counts.get(value.as_str()) {
            None => Some(
                Status::unschedulable(NAME, "node(s) didn't match pod topology spread constraints"),
            ),
            Some(current) => {
                let skew: i128 = (*current as i128) + 1 - (r.global_min() as i128);
                if skew > r.max_skew as i128 {
                    Some(
                        Status::unschedulable(
                            NAME,
                            "node(s) didn't satisfy pod topology spread constraints (maxSkew exceeded)",
                        ),
                    )
                } else {
                    None
                }
            },
        },
    }
}

impl FilterPlugin for PodTopologySpread {
    open spec fn filter_view(&self, state: CycleState, pod: PodInfo, node: NodeInfo) -> StatusView {
        match state.value::<SpreadState>(NAME@) {
            None => success(),
            Some(s) => match spread_verdict(s.constraints@, node) {
                Some(v) => v,
                None => success(),
            },
        }
    }

    fn filter(&self, state: &CycleState, pod: &PodInfo, node: &NodeInfo) -> (r: Status) {
        let s = match state.read::<SpreadState>(NAME) {
            Some(s) => s,
            None => {
                return Status::success();
            },
        };
        let ghost all = s.constraints@;
        let mut i: usize = 0;
        while i < s.constraints.len()
            invariant
                i <= s.constraints@.len(),
                all == s.constraints@,
                state.value::<SpreadState>(NAME@) == Some(*s),
                spread_verdict(all.take(i as int), *node) is None,
            decreases s.constraints@.len() - i,
        {
            assert(all.take(i + 1).drop_last() =~= all.take(i as int));
            if s.constraints[i].hard {
                match check_constraint(&s.constraints[i], node) {
                    Some(status) => {
                        proof {
                            verdict_stands(all, *node, i + 1);
                        }
                        return status;
                    },
                    None => {},
                }
            }
            i += 1;
        }
        assert(all.take(i as int) =~= all);
        Status::success()
    }
}

/// Some constraint only scores.
pub open spec fn any_soft(r: Seq<ResolvedConstraint>) -> bool {
    exists|i: int| 0 <= i < r.len() && !(#[trigger] r[i]).hard
}

impl PreScorePlugin for PodTopologySpread {
    open spec fn pre_score_view(
        &self,
        before: CycleState,
        pod: PodInfo,
        nodes: Seq<Arc<NodeInfo>>,
        after: CycleState,
        status: StatusView,
    ) -> bool {
        let scorable = match before.value::<SpreadState>(NAME@) {
            Some(s) => any_soft(s.constraints@),
            None => false,
        };
        if scorable {
            status == success() && after == before
        } else {
            status == skip() && score_switched_off(before, after, NAME@)
        }
    }

    fn pre_score(&self, state: &mut CycleState, pod: &PodInfo, nodes: &Vec<Arc<NodeInfo>>) -> (r:
        Status) {
        let mut scorable = false;
        match state.read::<SpreadState>(NAME) {
            Some(s) => {
                let mut i: usize = 0;
                while i < s.constraints.len() && s.constraints[i].hard
                    invariant
                        i <= s.constraints@.len(),
                        forall|k: int| 0 <= k < i ==> (#[trigger] s.constraints@[k]).hard,
                    decreases s.constraints@.len() - i,
                {
                    i += 1;
                }
                scorable = i < s.constraints.len();
                assert(scorable == any_soft(s.constraints@));
            },
            None => {},
        }
        if !scorable {
            state.skip_score(NAME);
            return Status::skip();
        }
        Status::success()
    }
}

/// What one soft constraint adds to a node's raw score: the count of the
/// node's domain, weighted by how many domains there are, and its skew limit.
#[derive(Clone, Copy, Debug, PartialEq, Eq, Structural)]
pub struct SpreadTerm {
    pub count: i64,
    pub domains: usize,
    pub max_skew: i32,
}

/// The terms of a node's raw score, one for each soft constraint in whose
/// domains the node is.
pub open spec fn score_terms_of(r: Seq<ResolvedConstraint>, node: NodeInfo) -> Seq<SpreadTerm>
    decreases r.len(),
{
    if r.len() == 0 {
        Seq::empty()
    } else {
        let rest = score_terms_of(r.drop_last(), node);
        let c = r.last();
        if c.hard {
            rest
        } else {
            match node.labels.text(c.topology_key@) {
                Some(value) => match c.counts.at(value) {
                    Some(count) => rest.push(
                        SpreadTerm {
                            count,
                            domains: c.counts.entries@.len() as usize,
                            max_skew: c.max_skew,
                        },
                    ),
                    None => rest,
                },
                None => rest,
            }
        }
    }
}

impl PodTopologySpread {
    /// The terms of a node's raw score.
    pub fn score_terms(&self, state: &CycleState, node: &NodeInfo) -> (r: Vec<SpreadTerm>)
        ensures
            r@ == match state.value::<SpreadState>(NAME@) {
                Some(s) => score_terms_of(s.constraints@, *node),
                None => Seq::empty(),
            },
    {
        let mut out: Vec<SpreadTerm> = Vec::new();
        match state.read::<SpreadState>(NAME) {
            Some(s) => {
                let ghost all = s.constraints@;
                let mut i: usize = 0;
                while i < s.constraints.len()
                    invariant
                        i <= s.constraints@.len(),
                        all == s.constraints@,
                        out@ == score_terms_of(all.take(i as int), *node),
                    decreases s.constraints@.len() - i,
                {
                    let c = &s.constraints[i];
                    if !c.hard {
                        match node.labels.get(c.topology_key.as_str()) {
                            Some(value) => {
                                match c.counts.get(value.as_str()) {
                                    Some(count) => {
                                        out.push(
                                            SpreadTerm {
                                                count: *count,
                                                domains: c.counts.entries.len(),
                                                max_skew: c.max_skew,
                                            },
                                        );
                                    },
                                    None => {},
                                }
                            },
                            None => {},
                        }
                    }
                    i += 1;
                    assert(all.take(i as int).drop_last() =~= all.take(i - 1));
                }
                assert(all.take(i as int) =~= all);
            },
            None => {},
        }
        assert(out@ =~= match state.value::<SpreadState>(NAME@) {
            Some(s) => score_terms_of(s.constraints@, *node),
            None => Seq::empty(),
        });
        out
    }

    /// Raw scores count occupancy, so the emptiest domain ends up highest.
    pub fn normalize(&self, scores: &mut Vec<i64>) -> (r: Status)
        ensures
            r@ == success(),
            final(scores)@ == normalized_spread(old(scores)@),
    {
        let ghost before = scores@;
        let max: i64 = largest_of(scores);
        let min: i64 = smallest_of(scores);
        let n: usize = scores.len();
        let mut i: usize = 0;
        if max <= 0 {
            while i < n
                invariant
                    i <= n == scores@.len() == before.len(),
                    forall|k: int| 0 <= k < i ==> scores@[k] == MAX_NODE_SCORE,
                decreases n - i,
            {
                scores.set(i, MAX_NODE_SCORE);
                i += 1;
            }
            assert(scores@ =~= normalized_spread(before));
            return Status::success();
        }
        while i < n
            invariant
                i <= n == scores@.len() == before.len(),
                max > 0,
                forall|k: int|
                    0 <= k < i ==> scores@[k] == inverted(
                        before[k] as int,
                        min as int,
                        max as int,
                    ),
                forall|k: int| i <= k < n ==> scores@[k] == before[k],
            decreases n - i,
        {
            let above: i128 = (max as i128) + (min as i128) - (scores[i] as i128);
            assert(-0x4_0000_0000_0000_0000 < above < 0x4_0000_0000_0000_0000);
            let scaled: i128 = divide(100 * above, max as i128);
            let value: i64 = if scaled < 0 {
                0
            } else if scaled > MAX_NODE_SCORE as i128 {
                MAX_NODE_SCORE
            } else {
                scaled as i64
            };
            scores.set(i, value);
            i += 1;
        }
        assert(scores@ =~= normalized_spread(before));
        Status::success()
    }

    pub fn weight(&self) -> (r: i64)
        ensures
            r == 2,
    {
        2
    }
}

/// A raw score turned round, within the common range.
pub open spec fn inverted(s: int, min: int, max: int) -> int {
    let scaled = trunc_div(MAX_NODE_SCORE * (max + min - s), max);
    if scaled < 0 {
        0
    } else if scaled > MAX_NODE_SCORE {
        MAX_NODE_SCORE as int
    } else {
        scaled
    }
}

/// Raw scores on the common range, the lowest highest. Where none is positive
/// every node gets the top.
pub open spec fn normalized_spread(scores: Seq<i64>) -> Seq<i64> {
    let max = largest(scores);
    let min = smallest(scores);
    if max <= 0 {
        scores.map_values(|s: i64| MAX_NODE_SCORE)
    } else {
        scores.map_values(|s: i64| inverted(s as int, min, max) as i64)
    }
}

/// The emptiest domain scores the top, and no emptier node scores lower.
pub proof fn emptier_scores_higher(scores: Seq<i64>, i: int, j: int)
    requires
        0 <= i < scores.len(),
        0 <= j < scores.len(),
        scores[i] <= scores[j],
    ensures
        normalized_spread(scores)[i] >= normalized_spread(scores)[j],
        0 <= normalized_spread(scores)[i] <= MAX_NODE_SCORE,
        scores[i] == smallest(scores) ==> normalized_spread(scores)[i] == MAX_NODE_SCORE,
{
    let max = largest(scores);
    let min = smallest(scores);
    if max > 0 {
        let a = max + min - scores[i];
        let b = max + min - scores[j];
        assert(a >= b);
        if b >= 0 {
            assert((100 * a) / max >= (100 * b) / max) by (nonlinear_arith)
                requires
                    a >= b,
                    b >= 0,
                    max > 0,
            ;
        } else if a < 0 {
            assert((100 * (-a)) / max <= (100 * (-b)) / max) by (nonlinear_arith)
                requires
                    a >= b,
                    a < 0,
                    max > 0,
            ;
        } else {
            crate::numbers::quotient_bound(100 * a, max);
            crate::numbers::quotient_bound(100 * (-b), max);
        }
        if scores[i] == min {
            assert((100 * a) / max == 100) by (nonlinear_arith)
                requires
                    a == max,
                    max > 0,
            ;
        }
    }
}

/// A soft constraint never turns a node away.
pub proof fn soft_constraints_never_reject(r: Seq<ResolvedConstraint>, node: NodeInfo)
    requires
        forall|i: int| 0 <= i < r.len() ==> !(#[trigger] r[i]).hard,
    ensures
        spread_verdict(r, node) is None,
    decreases r.len(),
{
    if r.len() > 0 {
        assert forall|i: int| 0 <= i < r.drop_last().len() implies !(
        #[trigger] r.drop_last()[i]).hard by {
            assert(r.drop_last()[i] == r[i]);
        }
        soft_constraints_never_reject(r.drop_last(), node);
        assert(!r[r.len() - 1].hard);
    }
}

/// The built-in constraints never make a node infeasible.
pub proof fn built_ins_never_reject(
    r: Seq<ResolvedConstraint>,
    c: Seq<TopologySpreadConstraint>,
    pod: PodInfo,
    snapshot: Snapshot,
    node: NodeInfo,
)
    requires
        built_ins(c, pod, snapshot),
        all_resolve(r, c, pod, snapshot.nodes@),
    ensures
        spread_verdict(r, node) is None,
        domainless(r) is None,
{
    reveal_strlit("ScheduleAnyway");
    reveal_strlit("DoNotSchedule");
    assert("ScheduleAnyway"@.len() == 14);
    assert("DoNotSchedule"@.len() == 13);
    assert forall|i: int| 0 <= i < r.len() implies !(#[trigger] r[i]).hard by {
        assert(resolves(r[i], c[i], pod, snapshot.nodes@));
    }
    soft_constraints_never_reject(r, node);
    domainless_at(r, r.len() as int);
}

/// A pod that leaves undoes its joining, where no count reached the end of its
/// type.
pub proof fn leaving_undoes_joining(
    r: ResolvedConstraint,
    joined: ResolvedConstraint,
    left: ResolvedConstraint,
    pod: PodInfo,
    other: PodInfo,
    node: NodeInfo,
    v: Seq<char>,
)
    requires
        constraint_adjusted(r, joined, pod, other, node, true),
        constraint_adjusted(joined, left, pod, other, node, false),
        joined.counts.at(v) is Some ==> joined.counts.at(v)->Some_0 < i64::MAX,
    ensures
        left.counts.at(v) == r.counts.at(v),
{
}

proof fn no_verdict(r: Seq<ResolvedConstraint>, node: NodeInfo)
    ensures
        spread_verdict(r, node) is None <==> forall|i: int|
            0 <= i < r.len() && (#[trigger] r[i]).hard ==> constraint_verdict(r[i], node) is None,
        spread_verdict(r, node) matches Some(v) ==> v != success(),
    decreases r.len(),
{
    if r.len() > 0 {
        let t = r.drop_last();
        no_verdict(t, node);
        assert forall|i: int| 0 <= i < t.len() implies #[trigger] t[i] == r[i] by {}
        if spread_verdict(r, node) is None {
            assert forall|i: int|
                0 <= i < r.len() && (#[trigger] r[i]).hard implies constraint_verdict(r[i], node)
                is None by {
                if i < t.len() {
                    assert(t[i] == r[i]);
                }
            }
        }
        if forall|i: int|
            0 <= i < r.len() && (#[trigger] r[i]).hard ==> constraint_verdict(r[i], node) is None {
            assert forall|i: int|
                0 <= i < t.len() && (#[trigger] t[i]).hard implies constraint_verdict(t[i], node)
                is None by {
                assert(r[i].hard);
            }
            assert(r[r.len() - 1] == r.last());
        }
    }
}

/// The values of a topology key that name a domain of eligible nodes.
pub open spec fn domains(
    c: TopologySpreadConstraint,
    pod: PodInfo,
    nodes: Seq<Arc<NodeInfo>>,
) -> Set<Seq<char>> {
    Set::new(|v: Seq<char>| domain_exists(nodes, c, pod, v))
}

/// Placing the pod on the node keeps a constraint: the node is in a domain that
/// takes part, and with the pod that domain holds at most so many more counted
/// pods than any other that takes part; than none at all, where there are fewer
/// domains than the constraint asks for.
pub open spec fn spreads(
    c: TopologySpreadConstraint,
    pod: PodInfo,
    nodes: Seq<Arc<NodeInfo>>,
    node: NodeInfo,
) -> bool {
    let skew = if c.max_skew < 1 {
        1
    } else {
        c.max_skew as int
    };
    let asked = match c.min_domains {
        Some(n) => n as int,
        None => 1,
    };
    node.labels.text(c.topology_key@) matches Some(v) && {
        &&& domain_exists(nodes, c, pod, v)
        &&& if domains(c, pod, nodes).len() < asked {
            domain_total(nodes, c, pod, v) + 1 <= skew
        } else {
            forall|w: Seq<char>|
                domain_exists(nodes, c, pod, w) ==> domain_total(nodes, c, pod, v) + 1
                    - #[trigger] domain_total(nodes, c, pod, w) <= skew
        }
    }
}

proof fn constraint_decides(
    r: ResolvedConstraint,
    c: TopologySpreadConstraint,
    pod: PodInfo,
    nodes: Seq<Arc<NodeInfo>>,
    node: NodeInfo,
)
    requires
        resolves(r, c, pod, nodes),
        forall|v: Seq<char>| #[trigger] domain_total(nodes, c, pod, v) < i64::MAX,
    ensures
        constraint_verdict(r, node) is None <==> spreads(c, pod, nodes, node),
{
    let key = c.topology_key@;
    match node.labels.text(key) {
        None => {},
        Some(v) => {
            let e = r.counts.entries@;
            let values = count_values(e);
            crate::maps::keys_are_counted(r.counts);
            assert(domains(c, pod, nodes) =~= Set::new(
                |k: Seq<char>| r.counts.at(k) is Some,
            )) by {
                assert forall|k: Seq<char>| domains(c, pod, nodes).contains(k) <==> r.counts.at(k)
                    is Some by {}
            }
            let at = r.counts.at(v);
            if domain_exists(nodes, c, pod, v) {
                let here = domain_total(nodes, c, pod, v) as int;
                assert(r.counts.at(v) == Some(here as i64));
                find_key_index(e, v);
                assert(e.len() > 0);
                crate::numbers::smallest_bounds(values);
                let k = choose|k: int|
                    0 <= k < values.len() && #[trigger] values[k] == smallest(values);
                assert(values[k] == e[k].1);
                let w = e[k].0@;
                ordered_at(e, k);
                assert(r.counts.at(w) == Some(e[k].1));
                assert(domain_exists(nodes, c, pod, w));
                assert(domain_total(nodes, c, pod, w) == smallest(values));
                if e.len() >= r.min_domains {
                    assert forall|x: Seq<char>|
                        domain_exists(nodes, c, pod, x) implies smallest(values)
                        <= #[trigger] domain_total(nodes, c, pod, x) by {
                        assert(r.counts.at(x) is Some);
                        let j = find_key_index(e, x);
                        assert(values[j] == e[j].1);
                    }
                }
            }
        },
    }
}

proof fn ordered_at(e: Seq<(String, i64)>, k: int)
    requires
        crate::maps::keys_ascending(e),
        0 <= k < e.len(),
    ensures
        crate::maps::find_key(e, e[k].0@) == Some(e[k].1),
{
    assert forall|j: int| 0 <= j < k implies (#[trigger] e[j]).0@ != e[k].0@ by {
        crate::text::text_less_irreflexive(e[k].0@);
    }
    crate::maps::find_key_at(e, e[k].0@, k);
}

/// A node passes exactly where every hard constraint of the pod, wherever it
/// stands in the list, is kept by placing the pod there.
pub proof fn passing_means_spread(
    plugin: PodTopologySpread,
    before: CycleState,
    pod: PodInfo,
    snapshot: Snapshot,
    state: CycleState,
    status: StatusView,
    node: NodeInfo,
)
    requires
        plugin.pre_filter_view(before, pod, snapshot, state, status),
        pod.topology_spread_constraints@.len() > 0,
        forall|c: TopologySpreadConstraint, v: Seq<char>| #[trigger]
            domain_total(snapshot.nodes@, c, pod, v) < i64::MAX,
    ensures
        plugin.filter_view(state, pod, node) == success() <==> forall|i: int|
            0 <= i < pod.topology_spread_constraints@.len() && (
            #[trigger] pod.topology_spread_constraints@[i]).when_unsatisfiable@ == "DoNotSchedule"@
                ==> spreads(
                pod.topology_spread_constraints@[i],
                pod,
                snapshot.nodes@,
                node,
            ),
        status == success() <==> forall|i: int|
            0 <= i < pod.topology_spread_constraints@.len() && (
            #[trigger] pod.topology_spread_constraints@[i]).when_unsatisfiable@ == "DoNotSchedule"@
                ==> exists|v: Seq<char>| domain_exists(
                snapshot.nodes@,
                pod.topology_spread_constraints@[i],
                pod,
                v,
            ),
{
    let s = state.value::<SpreadState>(NAME@)->Some_0;
    let r = s.constraints@;
    let own = pod.topology_spread_constraints@;
    let nodes = snapshot.nodes@;
    assert(all_resolve(r, own, pod, nodes));
    no_verdict(r, node);
    assert forall|i: int| 0 <= i < own.len() implies (constraint_verdict(#[trigger] r[i], node)
        is None <==> spreads(own[i], pod, nodes, node)) && (r[i].hard <==> own[i].when_unsatisfiable@
        == "DoNotSchedule"@) by {
        constraint_decides(r[i], own[i], pod, nodes, node);
    }
    if forall|i: int|
        0 <= i < own.len() && (#[trigger] own[i]).when_unsatisfiable@ == "DoNotSchedule"@ ==> spreads(
            own[i],
            pod,
            nodes,
            node,
        ) {
        assert forall|i: int| 0 <= i < r.len() && (#[trigger] r[i]).hard implies constraint_verdict(
            r[i],
            node,
        ) is None by {
            assert(spreads(own[i], pod, nodes, node));
        }
    }
    if spread_verdict(r, node) is None {
        assert forall|i: int|
            0 <= i < own.len() && (#[trigger] own[i]).when_unsatisfiable@ == "DoNotSchedule"@
                implies spreads(own[i], pod, nodes, node) by {
            assert(r[i].hard);
        }
    }
    no_domainless(r);
    assert forall|i: int| 0 <= i < own.len() implies ((#[trigger] r[i]).counts.entries@.len() > 0
        <==> exists|v: Seq<char>| domain_exists(nodes, own[i], pod, v)) by {
        let e = r[i].counts.entries@;
        if e.len() > 0 {
            ordered_at(e, 0);
            assert(r[i].counts.at(e[0].0@) is Some);
            assert(domain_exists(nodes, own[i], pod, e[0].0@));
        }
        if exists|v: Seq<char>| domain_exists(nodes, own[i], pod, v) {
            let v = choose|v: Seq<char>| domain_exists(nodes, own[i], pod, v);
            assert(r[i].counts.at(v) is Some);
            find_key_index(e, v);
        }
    }
    if status == success() {
        assert forall|i: int|
            0 <= i < own.len() && (#[trigger] own[i]).when_unsatisfiable@ == "DoNotSchedule"@
                implies exists|v: Seq<char>| domain_exists(nodes, own[i], pod, v) by {
            assert(r[i].hard);
        }
    }
    if forall|i: int|
        0 <= i < own.len() && (#[trigger] own[i]).when_unsatisfiable@ == "DoNotSchedule"@ ==> exists|
            v: Seq<char>,
        | domain_exists(nodes, own[i], pod, v) {
        assert forall|i: int| 0 <= i < r.len() && (#[trigger] r[i]).hard implies r[i].counts.entries@.len()
            > 0 by {
            assert(own[i].when_unsatisfiable@ == "DoNotSchedule"@);
        }
    }
}

proof fn no_domainless(r: Seq<ResolvedConstraint>)
    ensures
        domainless(r) is None <==> forall|i: int|
            0 <= i < r.len() && (#[trigger] r[i]).hard ==> r[i].counts.entries@.len() > 0,
    decreases r.len(),
{
    if r.len() > 0 {
        let t = r.drop_last();
        no_domainless(t);
        if domainless(r) is None {
            assert forall|i: int| 0 <= i < r.len() && (#[trigger] r[i]).hard implies r[i].counts.entries@.len()
                > 0 by {
                if i < t.len() {
                    assert(t[i] == r[i]);
                }
            }
        }
        if forall|i: int|
            0 <= i < r.len() && (#[trigger] r[i]).hard ==> r[i].counts.entries@.len() > 0 {
            assert forall|i: int| 0 <= i < t.len() && (#[trigger] t[i]).hard implies t[i].counts.entries@.len()
                > 0 by {
                assert(r[i] == t[i]);
            }
            assert(r[r.len() - 1] == r.last());
        }
    }
}

/// One for a pod of the incoming pod's namespace that a constraint counts, on a
/// node of the domain.
pub open spec fn counts_one(
    c: TopologySpreadConstraint,
    pod: PodInfo,
    value: Seq<char>,
) -> spec_fn(NodeInfo, PodInfo) -> nat {
    |n: NodeInfo, p: PodInfo|
        if in_domain(c, pod, n, value) && p.namespace@ == pod.namespace@ && spread_selects(
            c,
            pod,
            p.labels,
        ) {
            1nat
        } else {
            0nat
        }
}

proof fn matching_sums(
    pods: Seq<Arc<PodInfo>>,
    c: TopologySpreadConstraint,
    pod: PodInfo,
    n: NodeInfo,
    value: Seq<char>,
)
    ensures
        pod_sum(pods, n, counts_one(c, pod, value)) == if in_domain(c, pod, n, value) {
            matching(pods, c, pod)
        } else {
            0
        },
    decreases pods.len(),
{
    if pods.len() > 0 {
        matching_sums(pods.drop_last(), c, pod, n, value);
    }
}

proof fn totals_sum(
    nodes: Seq<Arc<NodeInfo>>,
    c: TopologySpreadConstraint,
    pod: PodInfo,
    value: Seq<char>,
)
    ensures
        domain_total(nodes, c, pod, value) == placed_sum(nodes, counts_one(c, pod, value)),
    decreases nodes.len(),
{
    if nodes.len() > 0 {
        totals_sum(nodes.drop_last(), c, pod, value);
        matching_sums(nodes.last().pods@, c, pod, crate::maps::shared(nodes.last()), value);
    }
}

/// Every placed pod counts once in its domain, wherever it is placed: without it
/// the total of the domain is one less where it is of the incoming pod's
/// namespace and selected on an eligible node, and the same elsewhere.
pub proof fn every_pod_counts_once(
    snapshot: Snapshot,
    rest: Snapshot,
    n: int,
    p: int,
    c: TopologySpreadConstraint,
    pod: PodInfo,
    value: Seq<char>,
)
    requires
        without_pod(snapshot, rest, n, p),
        rest.nodes@[n].name@ == snapshot.nodes@[n].name@,
        rest.nodes@[n].taints@ == snapshot.nodes@[n].taints@,
    ensures
        ({
            let on = *snapshot.nodes@[n];
            let v = *on.pods@[p];
            domain_total(snapshot.nodes@, c, pod, value) == domain_total(
                rest.nodes@,
                c,
                pod,
                value,
            ) + if on.labels.text(c.topology_key@) == Some(value) && eligible(c, pod, on)
                && v.namespace@ == pod.namespace@ && spread_selects(c, pod, v.labels) {
                1nat
            } else {
                0nat
            }
        }),
{
    let f = counts_one(c, pod, value);
    totals_sum(snapshot.nodes@, c, pod, value);
    totals_sum(rest.nodes@, c, pod, value);
    let a = crate::maps::shared(snapshot.nodes@[n]);
    let b = crate::maps::shared(rest.nodes@[n]);
    same_eligible(c, pod, a, b);
    assert forall|x: PodInfo| #[trigger] f(a, x) == f(b, x) by {}
    placed_sum_without(snapshot.nodes@, rest.nodes@, n, p, f);
}

proof fn same_eligible(c: TopologySpreadConstraint, pod: PodInfo, a: NodeInfo, b: NodeInfo)
    requires
        a.labels == b.labels,
        a.name@ == b.name@,
        a.taints@ == b.taints@,
    ensures
        eligible(c, pod, a) == eligible(c, pod, b),
{
    super::node_affinity::acceptance_rests_on_labels(pod, a, b);
}

/// Where no pod is placed, nothing is counted.
pub proof fn empty_clusters_count_nothing(
    nodes: Seq<Arc<NodeInfo>>,
    c: TopologySpreadConstraint,
    pod: PodInfo,
    value: Seq<char>,
)
    requires
        forall|i: int| 0 <= i < nodes.len() ==> (#[trigger] nodes[i]).pods@.len() == 0,
    ensures
        domain_total(nodes, c, pod, value) == 0,
    decreases nodes.len(),
{
    if nodes.len() > 0 {
        let t = nodes.drop_last();
        assert forall|i: int| 0 <= i < t.len() implies (#[trigger] t[i]).pods@.len() == 0 by {
            assert(nodes[i].pods@.len() == 0);
        }
        assert(nodes[nodes.len() - 1].pods@.len() == 0);
        empty_clusters_count_nothing(t, c, pod, value);
    }
}

/// Every soft constraint in whose domains the node is counts once, wherever in
/// the list it stands, with the count of the node's domain.
pub proof fn every_soft_constraint_counts(r: Seq<ResolvedConstraint>, node: NodeInfo, i: int)
    requires
        0 <= i < r.len(),
    ensures
        ({
            let all = score_terms_of(r, node);
            let others = score_terms_of(r.remove(i), node);
            match node.labels.text(r[i].topology_key@) {
                Some(value) => if !r[i].hard && r[i].counts.at(value) is Some {
                    &&& all.len() == others.len() + 1
                    &&& exists|k: int|
                        0 <= k < all.len() && all.remove(k) == others && (#[trigger] all[k]).count
                            == r[i].counts.at(value)->Some_0 && all[k].max_skew == r[i].max_skew
                            && all[k].domains == r[i].counts.entries@.len() as usize
                } else {
                    all == others
                },
                None => all == others,
            }
        }),
    decreases r.len(),
{
    let t = r.drop_last();
    let last = r.len() - 1;
    let all = score_terms_of(r, node);
    let others = score_terms_of(r.remove(i), node);
    let value = node.labels.text(r[i].topology_key@);
    let counts = !r[i].hard && value is Some && r[i].counts.at(value->Some_0) is Some;
    if i == last {
        assert(r.remove(i) =~= t);
        if counts {
            let k = all.len() - 1;
            assert(all.remove(k) =~= others);
            assert(all[k].max_skew == r[i].max_skew);
        }
    } else {
        every_soft_constraint_counts(t, node, i);
        assert(r.remove(i).drop_last() =~= t.remove(i));
        assert(r.remove(i).last() == r.last());
        assert(t[i] == r[i]);
        let ta = score_terms_of(t, node);
        let to = score_terms_of(t.remove(i), node);
        if counts {
            let k = choose|k: int|
                0 <= k < ta.len() && ta.remove(k) == to && (#[trigger] ta[k]).count
                    == r[i].counts.at(value->Some_0)->Some_0 && ta[k].max_skew == r[i].max_skew
                    && ta[k].domains == r[i].counts.entries@.len() as usize;
            assert(all[k] == ta[k]);
            assert(all.remove(k) =~= others);
        }
    }
}

} // verus!
