//! `InterPodAffinity`: place a pod near, or away from, other pods.
//!
//! Every rule is about a domain: the nodes that share a value for the label
//! that a term names. An affinity is satisfied where at least one matching pod
//! is in the node's domain, an anti-affinity where none is, and a node without
//! the label satisfies neither. Every term is counted for itself: a pod that
//! matches one of two terms does nothing for the other. The rules of pods that
//! already run bind the incoming pod as well, and their required affinity for
//! it makes their domain more attractive.
//!
//! The cluster is walked before any node is looked at, into counts by domain;
//! the per-node questions are lookups.

use super::selector::{
    in_scope, matches_selector, namespace_in_scope, namespace_scope, selected,
};
use super::{always_on, event_on};
use crate::api::{PodAffinityTerm, WeightedPodAffinityTerm};
use crate::cache::{clamp64, declares_anti_affinity, sum64, NodeInfo, PodInfo, Snapshot};
use crate::events::{ActionType, ClusterEvent, EventResource};
use crate::framework::status::{skip, success, unschedulable, Status, StatusView};
use crate::framework::{
    events_of, score_switched_off, ClusterEventWithHint, CycleState, FilterPlugin, NoHint, Plugin,
    PreFilterExtensions, PreFilterPlugin, PreScorePlugin, ScorePlugin, MAX_NODE_SCORE,
};
use crate::maps::{shared, Labels, StrMap};
use crate::numbers::{divide, largest, largest_of, narrow, smallest, smallest_of, trunc_div};
use crate::text::{joined, text_eq};
use std::sync::Arc;
use vstd::prelude::*;

verus! {

pub const NAME: &'static str = "InterPodAffinity";

/// A count for each domain: topology key, value, count.
pub struct Domains {
    pub entries: Vec<(String, String, i64)>,
}

/// The entry of a domain is the one with its key and value.
pub open spec fn is_domain(e: (String, String, i64), key: Seq<char>, value: Seq<char>) -> bool {
    e.0@ == key && e.1@ == value
}

/// The count of the first entry of a domain.
pub open spec fn domain_count(e: Seq<(String, String, i64)>, key: Seq<char>, value: Seq<char>) -> int
    decreases e.len(),
{
    if e.len() == 0 {
        0
    } else if is_domain(e[0], key, value) {
        e[0].2 as int
    } else {
        domain_count(e.skip(1), key, value)
    }
}

proof fn domain_count_at(e: Seq<(String, String, i64)>, key: Seq<char>, value: Seq<char>, i: int)
    requires
        0 <= i <= e.len(),
        forall|j: int| 0 <= j < i ==> !is_domain(#[trigger] e[j], key, value),
        i < e.len() ==> is_domain(e[i], key, value),
    ensures
        domain_count(e, key, value) == if i < e.len() {
            e[i].2 as int
        } else {
            0
        },
    decreases e.len(),
{
    if e.len() > 0 && i > 0 {
        assert(!is_domain(e[0], key, value));
        assert forall|j: int| 0 <= j < i - 1 implies !is_domain(
            #[trigger] e.skip(1)[j],
            key,
            value,
        ) by {
            assert(!is_domain(e[j + 1], key, value));
        }
        domain_count_at(e.skip(1), key, value, i - 1);
    }
}

impl Domains {
    pub open spec fn count(&self, key: Seq<char>, value: Seq<char>) -> int {
        domain_count(self.entries@, key, value)
    }

    pub fn new() -> (r: Self)
        ensures
            r.entries@.len() == 0,
            forall|k: Seq<char>, v: Seq<char>| #[trigger] r.count(k, v) == 0,
    {
        Domains { entries: Vec::new() }
    }

    fn find(&self, key: &str, value: &str) -> (i: usize)
        ensures
            i <= self.entries@.len(),
            forall|j: int| 0 <= j < i ==> !is_domain(#[trigger] self.entries@[j], key@, value@),
            i < self.entries@.len() ==> is_domain(self.entries@[i as int], key@, value@),
    {
        let mut i: usize = 0;
        while i < self.entries.len() && !(text_eq(self.entries[i].0.as_str(), key) && text_eq(
            self.entries[i].1.as_str(),
            value,
        ))
            invariant
                i <= self.entries@.len(),
                forall|j: int|
                    0 <= j < i ==> !is_domain(#[trigger] self.entries@[j], key@, value@),
            decreases self.entries@.len() - i,
        {
            i += 1;
        }
        i
    }

    pub fn get(&self, key: &str, value: &str) -> (r: i64)
        ensures
            r == self.count(key@, value@),
    {
        let i = self.find(key, value);
        proof {
            domain_count_at(self.entries@, key@, value@, i as int);
        }
        if i < self.entries.len() {
            self.entries[i].2
        } else {
            0
        }
    }

    /// Add to the count of one domain.
    pub fn bump(&mut self, key: &str, value: &str, sign: i64)
        ensures
            final(self).entries@.len() > 0,
            forall|k: Seq<char>, v: Seq<char>| #[trigger]
                final(self).count(k, v) == if k == key@ && v == value@ {
                    clamp64(old(self).count(k, v) + sign)
                } else {
                    old(self).count(k, v)
                },
    {
        let i = self.find(key, value);
        let ghost before = self.entries@;
        proof {
            domain_count_at(before, key@, value@, i as int);
        }
        if i < self.entries.len() {
            let n: i64 = sum64(self.entries[i].2, sign);
            let entry = (key.to_owned(), value.to_owned(), n);
            self.entries.set(i, entry);
        } else {
            self.entries.push((key.to_owned(), value.to_owned(), sum64(0, sign)));
        }
        proof {
            bumped(before, self.entries@, key@, value@, i as int);
        }
    }

    /// An equal map.
    pub fn copy(&self) -> (r: Self)
        ensures
            r.entries@ == self.entries@,
    {
        let mut out: Vec<(String, String, i64)> = Vec::new();
        let mut i: usize = 0;
        while i < self.entries.len()
            invariant
                i <= self.entries@.len(),
                out@ == self.entries@.take(i as int),
            decreases self.entries@.len() - i,
        {
            let e = &self.entries[i];
            out.push((e.0.clone(), e.1.clone(), e.2));
            i += 1;
            assert(self.entries@.take(i as int) =~= self.entries@.take(i - 1).push(
                self.entries@[i - 1],
            ));
        }
        assert(self.entries@.take(i as int) =~= self.entries@);
        Domains { entries: out }
    }
}

proof fn bumped(
    before: Seq<(String, String, i64)>,
    after: Seq<(String, String, i64)>,
    key: Seq<char>,
    value: Seq<char>,
    i: int,
)
    requires
        0 <= i <= before.len(),
        forall|j: int| 0 <= j < i ==> !is_domain(#[trigger] before[j], key, value),
        i < before.len() ==> is_domain(before[i], key, value),
        after.len() == if i < before.len() {
            before.len()
        } else {
            before.len() + 1
        },
        is_domain(after[i], key, value),
        forall|j: int| 0 <= j < before.len() && j != i ==> #[trigger] after[j] == before[j],
    ensures
        forall|k: Seq<char>, v: Seq<char>| #[trigger]
            domain_count(after, k, v) == if k == key && v == value {
                after[i].2 as int
            } else {
                domain_count(before, k, v)
            },
{
    assert forall|k: Seq<char>, v: Seq<char>| #[trigger]
        domain_count(after, k, v) == if k == key && v == value {
            after[i].2 as int
        } else {
            domain_count(before, k, v)
        } by {
        if k == key && v == value {
            assert forall|j: int| 0 <= j < i implies !is_domain(#[trigger] after[j], k, v) by {
                assert(after[j] == before[j]);
            }
            domain_count_at(after, k, v, i);
        } else {
            let m = first_domain(before, k, v);
            domain_count_at(before, k, v, m);
            if m < before.len() {
                assert(m != i);
                assert forall|j: int| 0 <= j < m implies !is_domain(
                    #[trigger] after[j],
                    k,
                    v,
                ) by {
                    if j != i {
                        assert(after[j] == before[j]);
                    }
                }
                assert(after[m] == before[m]);
                domain_count_at(after, k, v, m);
            } else {
                assert forall|j: int| 0 <= j < after.len() implies !is_domain(
                    #[trigger] after[j],
                    k,
                    v,
                ) by {
                    if j != i {
                        assert(after[j] == before[j]);
                    }
                }
                domain_count_at(after, k, v, after.len() as int);
            }
        }
    }
}

proof fn first_domain(e: Seq<(String, String, i64)>, key: Seq<char>, value: Seq<char>) -> (m: int)
    ensures
        0 <= m <= e.len(),
        forall|j: int| 0 <= j < m ==> !is_domain(#[trigger] e[j], key, value),
        m < e.len() ==> is_domain(e[m], key, value),
    decreases e.len(),
{
    if e.len() == 0 || is_domain(e[0], key, value) {
        0
    } else {
        let n = first_domain(e.skip(1), key, value);
        assert forall|j: int| 0 <= j < n + 1 implies !is_domain(#[trigger] e[j], key, value) by {
            if j > 0 {
                assert(!is_domain(e.skip(1)[j - 1], key, value));
            }
        }
        n + 1
    }
}

/// Whether a pod matches a term that a pod in `own` declares.
pub open spec fn term_matches(
    term: PodAffinityTerm,
    target: PodInfo,
    own: Seq<char>,
    known: StrMap<Labels>,
) -> bool {
    in_scope(term.namespaces, term.namespace_selector, own, target.namespace@, known) && selected(
        term.label_selector,
        target.labels,
    )
}

fn pod_matches_term(
    term: &PodAffinityTerm,
    target: &PodInfo,
    own_namespace: &str,
    namespace_labels: &StrMap<Labels>,
) -> (r: bool)
    ensures
        r == term_matches(*term, *target, own_namespace@, *namespace_labels),
{
    let scope = namespace_scope(term.namespaces.as_ref(), term.namespace_selector.as_ref());
    namespace_in_scope(
        &scope,
        own_namespace,
        target.namespace.as_str(),
        namespace_labels,
    ) && matches_selector(term.label_selector.as_ref(), &target.labels)
}

/// Whether a term of a pod in `own` counts a target on a node in a domain.
pub open spec fn counts_in(
    term: PodAffinityTerm,
    target: PodInfo,
    node: NodeInfo,
    own: Seq<char>,
    known: StrMap<Labels>,
    key: Seq<char>,
    value: Seq<char>,
) -> bool {
    term.topology_key@ == key && node.labels.carries(key, value) && term_matches(
        term,
        target,
        own,
        known,
    )
}

/// How many of the terms count the target in the domain.
pub open spec fn hits(
    terms: Seq<PodAffinityTerm>,
    target: PodInfo,
    node: NodeInfo,
    own: Seq<char>,
    known: StrMap<Labels>,
    key: Seq<char>,
    value: Seq<char>,
) -> nat
    decreases terms.len(),
{
    if terms.len() == 0 {
        0
    } else {
        hits(terms.drop_last(), target, node, own, known, key, value) + if counts_in(
            terms.last(),
            target,
            node,
            own,
            known,
            key,
            value,
        ) {
            1nat
        } else {
            0nat
        }
    }
}

/// A sum over the pods of a list, as pods of a node.
pub open spec fn pod_sum(
    pods: Seq<Arc<PodInfo>>,
    node: NodeInfo,
    f: spec_fn(NodeInfo, PodInfo) -> nat,
) -> nat
    decreases pods.len(),
{
    if pods.len() == 0 {
        0
    } else {
        pod_sum(pods.drop_last(), node, f) + f(node, *pods.last())
    }
}

/// A sum over the pods placed on the nodes of a cluster.
pub open spec fn placed_sum(
    nodes: Seq<Arc<NodeInfo>>,
    f: spec_fn(NodeInfo, PodInfo) -> nat,
) -> nat
    decreases nodes.len(),
{
    if nodes.len() == 0 {
        0
    } else {
        placed_sum(nodes.drop_last(), f) + pod_sum(nodes.last().pods@, *nodes.last(), f)
    }
}

/// One for a pod that a term counts in a domain.
pub open spec fn hit_of(
    term: PodAffinityTerm,
    own: Seq<char>,
    known: StrMap<Labels>,
    key: Seq<char>,
    value: Seq<char>,
) -> spec_fn(NodeInfo, PodInfo) -> nat {
    |n: NodeInfo, p: PodInfo|
        if counts_in(term, p, n, own, known, key, value) {
            1nat
        } else {
            0nat
        }
}

/// How many placed pods a term counts in a domain.
pub open spec fn cluster_hits(
    term: PodAffinityTerm,
    nodes: Seq<Arc<NodeInfo>>,
    own: Seq<char>,
    known: StrMap<Labels>,
    key: Seq<char>,
    value: Seq<char>,
) -> nat {
    placed_sum(nodes, hit_of(term, own, known, key, value))
}

/// A list of required terms, none where it is absent.
pub open spec fn required_terms(terms: Option<Arc<Vec<PodAffinityTerm>>>) -> Seq<PodAffinityTerm> {
    match terms {
        Some(t) => t@,
        None => Seq::empty(),
    }
}

/// A list of preferred terms, none where it is absent.
pub open spec fn preferred_terms(terms: Option<Arc<Vec<WeightedPodAffinityTerm>>>) -> Seq<
    WeightedPodAffinityTerm,
> {
    match terms {
        Some(t) => t@,
        None => Seq::empty(),
    }
}

/// The terms of weighted terms.
pub open spec fn bare_terms(terms: Seq<WeightedPodAffinityTerm>) -> Seq<PodAffinityTerm> {
    terms.map_values(|w: WeightedPodAffinityTerm| w.pod_affinity_term)
}

pub open spec fn affinity_of(pod: PodInfo) -> Seq<PodAffinityTerm> {
    match pod.affinity {
        Some(a) => match a.pod_affinity {
            Some(p) => required_terms(p.required_during_scheduling_ignored_during_execution),
            None => Seq::empty(),
        },
        None => Seq::empty(),
    }
}

pub open spec fn anti_affinity_of(pod: PodInfo) -> Seq<PodAffinityTerm> {
    match pod.affinity {
        Some(a) => match a.pod_anti_affinity {
            Some(p) => required_terms(p.required_during_scheduling_ignored_during_execution),
            None => Seq::empty(),
        },
        None => Seq::empty(),
    }
}

pub open spec fn preferred_affinity_of(pod: PodInfo) -> Seq<WeightedPodAffinityTerm> {
    match pod.affinity {
        Some(a) => match a.pod_affinity {
            Some(p) => preferred_terms(p.preferred_during_scheduling_ignored_during_execution),
            None => Seq::empty(),
        },
        None => Seq::empty(),
    }
}

pub open spec fn preferred_anti_affinity_of(pod: PodInfo) -> Seq<WeightedPodAffinityTerm> {
    match pod.affinity {
        Some(a) => match a.pod_anti_affinity {
            Some(p) => preferred_terms(p.preferred_during_scheduling_ignored_during_execution),
            None => Seq::empty(),
        },
        None => Seq::empty(),
    }
}

/// How many anti-affinity terms of a placed pod forbid the incoming pod in a
/// domain.
pub open spec fn forbid_of(
    pod: PodInfo,
    known: StrMap<Labels>,
    key: Seq<char>,
    value: Seq<char>,
) -> spec_fn(NodeInfo, PodInfo) -> nat {
    |n: NodeInfo, p: PodInfo|
        hits(anti_affinity_of(p), pod, n, p.namespace@, known, key, value)
}

/// The same, over the nodes that hold pods with such terms.
pub open spec fn cluster_forbids(
    nodes: Seq<Arc<NodeInfo>>,
    pod: PodInfo,
    known: StrMap<Labels>,
    key: Seq<char>,
    value: Seq<char>,
) -> nat
    decreases nodes.len(),
{
    if nodes.len() == 0 {
        0
    } else {
        cluster_forbids(nodes.drop_last(), pod, known, key, value) + pod_sum(
            nodes.last().pods_with_required_anti_affinity@,
            *nodes.last(),
            forbid_of(pod, known, key, value),
        )
    }
}

/// How many required affinity terms of a placed pod ask for the incoming pod in
/// a domain.
pub open spec fn attract_of(
    pod: PodInfo,
    known: StrMap<Labels>,
    key: Seq<char>,
    value: Seq<char>,
) -> spec_fn(NodeInfo, PodInfo) -> nat {
    |n: NodeInfo, p: PodInfo| hits(affinity_of(p), pod, n, p.namespace@, known, key, value)
}

/// The same, over the nodes of the cluster.
pub open spec fn cluster_attracts(
    nodes: Seq<Arc<NodeInfo>>,
    pod: PodInfo,
    known: StrMap<Labels>,
    key: Seq<char>,
    value: Seq<char>,
) -> nat {
    placed_sum(nodes, attract_of(pod, known, key, value))
}

/// Counts computed once per cycle, then read per node.
pub struct AffinityState {
    pub required_affinity: Arc<Vec<PodAffinityTerm>>,
    pub required_anti_affinity: Arc<Vec<PodAffinityTerm>>,
    pub preferred_affinity: Arc<Vec<WeightedPodAffinityTerm>>,
    pub preferred_anti_affinity: Arc<Vec<WeightedPodAffinityTerm>>,
    /// Pods that match each of the incoming pod's affinity terms.
    pub affinity_counts: Vec<Domains>,
    /// Pods that match each of its anti-affinity terms.
    pub anti_affinity_counts: Vec<Domains>,
    /// Anti-affinity terms of placed pods that match the incoming pod.
    pub existing_anti_affinity: Domains,
    /// Required affinity terms of placed pods that match the incoming pod.
    pub existing_affinity: Domains,
    pub preferred_affinity_counts: Vec<Domains>,
    pub preferred_anti_affinity_counts: Vec<Domains>,
    /// Namespace labels, for terms that select namespaces.
    pub namespace_labels: Arc<StrMap<Labels>>,
}

impl AffinityState {
    pub open spec fn requires_any(&self) -> bool {
        self.required_affinity@.len() > 0 || self.required_anti_affinity@.len() > 0
    }

    pub open spec fn prefers_any(&self) -> bool {
        self.preferred_affinity@.len() > 0 || self.preferred_anti_affinity@.len() > 0
    }

    /// There is anything to score by.
    pub open spec fn scores_any(&self) -> bool {
        self.prefers_any() || self.existing_affinity.entries@.len() > 0
    }

    fn has_required(&self) -> (r: bool)
        ensures
            r == self.requires_any(),
    {
        self.required_affinity.len() > 0 || self.required_anti_affinity.len() > 0
    }

    fn has_preferred(&self) -> (r: bool)
        ensures
            r == self.prefers_any(),
    {
        self.preferred_affinity.len() > 0 || self.preferred_anti_affinity.len() > 0
    }
}

fn shared_required(terms: &Option<Arc<Vec<PodAffinityTerm>>>) -> (r: Arc<Vec<PodAffinityTerm>>)
    ensures
        r@ == required_terms(*terms),
{
    match terms {
        Some(t) => t.clone(),
        None => {
            let empty: Vec<PodAffinityTerm> = Vec::new();
            assert(empty@ =~= Seq::empty());
            Arc::new(empty)
        },
    }
}

fn shared_preferred(terms: &Option<Arc<Vec<WeightedPodAffinityTerm>>>) -> (r: Arc<
    Vec<WeightedPodAffinityTerm>,
>)
    ensures
        r@ == preferred_terms(*terms),
{
    match terms {
        Some(t) => t.clone(),
        None => {
            let empty: Vec<WeightedPodAffinityTerm> = Vec::new();
            assert(empty@ =~= Seq::empty());
            Arc::new(empty)
        },
    }
}

/// A pod's own required anti-affinity terms.
fn required_anti_affinity_of(pod: &PodInfo) -> (r: Arc<Vec<PodAffinityTerm>>)
    ensures
        r@ == anti_affinity_of(*pod),
{
    match &pod.affinity {
        Some(a) => match &a.pod_anti_affinity {
            Some(p) => shared_required(&p.required_during_scheduling_ignored_during_execution),
            None => shared_required(&None),
        },
        None => shared_required(&None),
    }
}

fn required_affinity_of(pod: &PodInfo) -> (r: Arc<Vec<PodAffinityTerm>>)
    ensures
        r@ == affinity_of(*pod),
{
    match &pod.affinity {
        Some(a) => match &a.pod_affinity {
            Some(p) => shared_required(&p.required_during_scheduling_ignored_during_execution),
            None => shared_required(&None),
        },
        None => shared_required(&None),
    }
}

fn preferred_affinity_terms_of(pod: &PodInfo) -> (r: Arc<Vec<WeightedPodAffinityTerm>>)
    ensures
        r@ == preferred_affinity_of(*pod),
{
    match &pod.affinity {
        Some(a) => match &a.pod_affinity {
            Some(p) => shared_preferred(&p.preferred_during_scheduling_ignored_during_execution),
            None => shared_preferred(&None),
        },
        None => shared_preferred(&None),
    }
}

fn preferred_anti_affinity_terms_of(pod: &PodInfo) -> (r: Arc<Vec<WeightedPodAffinityTerm>>)
    ensures
        r@ == preferred_anti_affinity_of(*pod),
{
    match &pod.affinity {
        Some(a) => match &a.pod_anti_affinity {
            Some(p) => shared_preferred(&p.preferred_during_scheduling_ignored_during_execution),
            None => shared_preferred(&None),
        },
        None => shared_preferred(&None),
    }
}

/// The sign of a change: a pod joins or leaves.
pub open spec fn signed(joins: bool, n: nat) -> int {
    if joins {
        n as int
    } else {
        -(n as int)
    }
}

/// Every count moved by the hits of the terms.
pub open spec fn tallied(
    before: Domains,
    after: Domains,
    terms: Seq<PodAffinityTerm>,
    target: PodInfo,
    node: NodeInfo,
    own: Seq<char>,
    known: StrMap<Labels>,
    joins: bool,
) -> bool {
    forall|k: Seq<char>, v: Seq<char>| #[trigger]
        after.count(k, v) == clamp64(
            before.count(k, v) + signed(joins, hits(terms, target, node, own, known, k, v)),
        )
}

/// One term's share of a tally.
fn tally_term(
    counts: &mut Domains,
    term: &PodAffinityTerm,
    target: &PodInfo,
    node: &NodeInfo,
    own_namespace: &str,
    namespace_labels: &StrMap<Labels>,
    joins: bool,
)
    ensures
        old(counts).entries@.len() > 0 ==> final(counts).entries@.len() > 0,
        final(counts).entries@.len() > 0 && old(counts).entries@.len() == 0 ==> exists|
            k: Seq<char>,
            v: Seq<char>,
        |
            counts_in(*term, *target, *node, own_namespace@, *namespace_labels, k, v),
        forall|k: Seq<char>, v: Seq<char>| #[trigger]
            final(counts).count(k, v) == clamp64(
                old(counts).count(k, v) + if counts_in(
                    *term,
                    *target,
                    *node,
                    own_namespace@,
                    *namespace_labels,
                    k,
                    v,
                ) {
                    signed(joins, 1)
                } else {
                    0
                },
            ),
{
    let ghost before = *counts;
    proof {
        assert forall|k: Seq<char>, v: Seq<char>| #[trigger] counts.count(k, v) == clamp64(
            counts.count(k, v),
        ) by {
            count_is_i64(counts.entries@, k, v);
        }
    }
    match node.labels.get(term.topology_key.as_str()) {
        Some(value) => {
            if pod_matches_term(term, target, own_namespace, namespace_labels) {
                let sign: i64 = if joins {
                    1
                } else {
                    -1
                };
                counts.bump(term.topology_key.as_str(), value.as_str(), sign);
                proof {
                    assert(counts_in(
                        *term,
                        *target,
                        *node,
                        own_namespace@,
                        *namespace_labels,
                        term.topology_key@,
                        value@,
                    ));
                }
            }
        },
        None => {},
    }
}

proof fn count_is_i64(e: Seq<(String, String, i64)>, k: Seq<char>, v: Seq<char>)
    ensures
        i64::MIN <= domain_count(e, k, v) <= i64::MAX,
    decreases e.len(),
{
    if e.len() > 0 && !is_domain(e[0], k, v) {
        count_is_i64(e.skip(1), k, v);
    }
}

/// Move every domain in which `node` sits for the given terms, where the
/// target matches.
pub fn tally(
    counts: &mut Domains,
    terms: &Vec<PodAffinityTerm>,
    target: &PodInfo,
    node: &NodeInfo,
    own_namespace: &str,
    namespace_labels: &StrMap<Labels>,
    joins: bool,
)
    ensures
        tallied(
            *old(counts),
            *final(counts),
            terms@,
            *target,
            *node,
            own_namespace@,
            *namespace_labels,
            joins,
        ),
        old(counts).entries@.len() > 0 ==> final(counts).entries@.len() > 0,
        final(counts).entries@.len() > 0 && old(counts).entries@.len() == 0 ==> exists|
            k: Seq<char>,
            v: Seq<char>,
        |
            hits(terms@, *target, *node, own_namespace@, *namespace_labels, k, v) > 0,
{
    let ghost before = *counts;
    let ghost own = own_namespace@;
    let ghost known = *namespace_labels;
    let mut i: usize = 0;
    proof {
        assert(terms@.take(0) =~= Seq::empty());
        assert forall|k: Seq<char>, v: Seq<char>| #[trigger] counts.count(k, v) == clamp64(
            counts.count(k, v) + signed(joins, 0),
        ) by {
            count_is_i64(counts.entries@, k, v);
        }
    }
    while i < terms.len()
        invariant
            i <= terms@.len(),
            own == own_namespace@,
            known == *namespace_labels,
            tallied(before, *counts, terms@.take(i as int), *target, *node, own, known, joins),
            before.entries@.len() > 0 ==> counts.entries@.len() > 0,
            counts.entries@.len() > 0 && before.entries@.len() == 0 ==> exists|
                k: Seq<char>,
                v: Seq<char>,
            |
                hits(terms@.take(i as int), *target, *node, own, known, k, v) > 0,
        decreases terms@.len() - i,
    {
        let ghost prior = *counts;
        tally_term(counts, &terms[i], target, node, own_namespace, namespace_labels, joins);
        i += 1;
        proof {
            let longer = terms@.take(i as int);
            let shorter = terms@.take(i - 1);
            assert(longer.drop_last() =~= shorter);
            assert forall|k: Seq<char>, v: Seq<char>| #[trigger]
                counts.count(k, v) == clamp64(
                    before.count(k, v) + signed(
                        joins,
                        hits(longer, *target, *node, own, known, k, v),
                    ),
                ) by {
                assert(prior.count(k, v) == clamp64(
                    before.count(k, v) + signed(
                        joins,
                        hits(shorter, *target, *node, own, known, k, v),
                    ),
                ));
                count_is_i64(before.entries@, k, v);
            }
            if counts.entries@.len() > 0 && before.entries@.len() == 0 {
                if prior.entries@.len() > 0 {
                    let (k, v) = choose|k: Seq<char>, v: Seq<char>|
                        hits(shorter, *target, *node, own, known, k, v) > 0;
                    assert(hits(longer, *target, *node, own, known, k, v) > 0);
                } else {
                    let last = terms@[i - 1];
                    let (k, v) = choose|k: Seq<char>, v: Seq<char>|
                        counts_in(last, *target, *node, own, known, k, v);
                    assert(hits(longer, *target, *node, own, known, k, v) > 0);
                }
            }
        }
    }
    assert(terms@.take(i as int) =~= terms@);
}

/// The count of the term `i` in a domain; none where the term has no counts.
pub open spec fn count_of(counts: Seq<Domains>, i: int, key: Seq<char>, value: Seq<char>) -> int {
    if 0 <= i < counts.len() {
        counts[i].count(key, value)
    } else {
        0
    }
}

/// Every term has its own counts, moved where it counts the target.
pub open spec fn all_tallied(
    before: Seq<Domains>,
    after: Seq<Domains>,
    terms: Seq<PodAffinityTerm>,
    target: PodInfo,
    node: NodeInfo,
    own: Seq<char>,
    known: StrMap<Labels>,
    joins: bool,
) -> bool {
    &&& after.len() == terms.len()
    &&& forall|i: int, k: Seq<char>, v: Seq<char>|
        0 <= i < terms.len() ==> #[trigger] count_of(after, i, k, v) == clamp64(
            count_of(before, i, k, v) + signed(
                joins,
                hit_of(terms[i], own, known, k, v)(node, target),
            ),
        )
}

/// The counts of a term, moved where it counts the target.
fn tally_copy(
    counts: &Vec<Domains>,
    i: usize,
    term: &PodAffinityTerm,
    target: &PodInfo,
    node: &NodeInfo,
    own_namespace: &str,
    namespace_labels: &StrMap<Labels>,
    joins: bool,
) -> (r: Domains)
    ensures
        forall|k: Seq<char>, v: Seq<char>| #[trigger]
            r.count(k, v) == clamp64(
                count_of(counts@, i as int, k, v) + signed(
                    joins,
                    hit_of(*term, own_namespace@, *namespace_labels, k, v)(*node, *target),
                ),
            ),
{
    let mut out = if i < counts.len() {
        counts[i].copy()
    } else {
        Domains::new()
    };
    assert forall|k: Seq<char>, v: Seq<char>| #[trigger]
        out.count(k, v) == count_of(counts@, i as int, k, v) by {}
    tally_term(&mut out, term, target, node, own_namespace, namespace_labels, joins);
    out
}

/// Move the counts of every required term.
fn tally_required(
    counts: &Vec<Domains>,
    terms: &Vec<PodAffinityTerm>,
    target: &PodInfo,
    node: &NodeInfo,
    own_namespace: &str,
    namespace_labels: &StrMap<Labels>,
    joins: bool,
) -> (r: Vec<Domains>)
    ensures
        all_tallied(
            counts@,
            r@,
            terms@,
            *target,
            *node,
            own_namespace@,
            *namespace_labels,
            joins,
        ),
{
    let mut out: Vec<Domains> = Vec::new();
    let mut i: usize = 0;
    while i < terms.len()
        invariant
            i <= terms@.len(),
            out@.len() == i,
            forall|x: int, k: Seq<char>, v: Seq<char>|
                0 <= x < i ==> #[trigger] count_of(out@, x, k, v) == clamp64(
                    count_of(counts@, x, k, v) + signed(
                        joins,
                        hit_of(terms@[x], own_namespace@, *namespace_labels, k, v)(*node, *target),
                    ),
                ),
        decreases terms@.len() - i,
    {
        let ghost before = out@;
        let next = tally_copy(
            counts,
            i,
            &terms[i],
            target,
            node,
            own_namespace,
            namespace_labels,
            joins,
        );
        out.push(next);
        i += 1;
        proof {
            assert forall|x: int, k: Seq<char>, v: Seq<char>|
                0 <= x < i implies #[trigger] count_of(out@, x, k, v) == clamp64(
                count_of(counts@, x, k, v) + signed(
                    joins,
                    hit_of(terms@[x], own_namespace@, *namespace_labels, k, v)(*node, *target),
                ),
            ) by {
                if x < i - 1 {
                    assert(count_of(out@, x, k, v) == count_of(before, x, k, v));
                } else {
                    assert(count_of(out@, x, k, v) == next.count(k, v));
                }
            }
        }
    }
    out
}

/// Move the counts of every preferred term.
fn tally_preferred(
    counts: &Vec<Domains>,
    terms: &Vec<WeightedPodAffinityTerm>,
    target: &PodInfo,
    node: &NodeInfo,
    own_namespace: &str,
    namespace_labels: &StrMap<Labels>,
    joins: bool,
) -> (r: Vec<Domains>)
    ensures
        all_tallied(
            counts@,
            r@,
            bare_terms(terms@),
            *target,
            *node,
            own_namespace@,
            *namespace_labels,
            joins,
        ),
{
    let ghost bare = bare_terms(terms@);
    let mut out: Vec<Domains> = Vec::new();
    let mut i: usize = 0;
    while i < terms.len()
        invariant
            i <= terms@.len(),
            bare == bare_terms(terms@),
            out@.len() == i,
            forall|x: int, k: Seq<char>, v: Seq<char>|
                0 <= x < i ==> #[trigger] count_of(out@, x, k, v) == clamp64(
                    count_of(counts@, x, k, v) + signed(
                        joins,
                        hit_of(bare[x], own_namespace@, *namespace_labels, k, v)(*node, *target),
                    ),
                ),
        decreases terms@.len() - i,
    {
        let ghost before = out@;
        let next = tally_copy(
            counts,
            i,
            &terms[i].pod_affinity_term,
            target,
            node,
            own_namespace,
            namespace_labels,
            joins,
        );
        out.push(next);
        i += 1;
        proof {
            assert forall|x: int, k: Seq<char>, v: Seq<char>|
                0 <= x < i implies #[trigger] count_of(out@, x, k, v) == clamp64(
                count_of(counts@, x, k, v) + signed(
                    joins,
                    hit_of(bare[x], own_namespace@, *namespace_labels, k, v)(*node, *target),
                ),
            ) by {
                if x < i - 1 {
                    assert(count_of(out@, x, k, v) == count_of(before, x, k, v));
                } else {
                    assert(count_of(out@, x, k, v) == next.count(k, v));
                }
            }
        }
    }
    out
}

pub struct InterPodAffinity {
    /// What an existing pod's required affinity is worth when scoring.
    pub hard_pod_affinity_weight: i32,
}

impl Default for InterPodAffinity {
    fn default() -> (r: Self)
        ensures
            r.hard_pod_affinity_weight == 1,
    {
        Self { hard_pod_affinity_weight: 1 }
    }
}

pub open spec fn subscriptions() -> Seq<ClusterEvent> {
    seq![
        event_on(
            EventResource::AssignedPod,
            ActionType::ADD | ActionType::DELETE | ActionType::UPDATE_POD_LABEL,
        ),
        event_on(EventResource::Node, ActionType::ADD | ActionType::UPDATE_NODE_LABEL),
    ]
}

impl Plugin for InterPodAffinity {
    type Hint = NoHint;

    open spec fn name_view(&self) -> Seq<char> {
        NAME@
    }

    fn name(&self) -> (r: &'static str) {
        NAME
    }

    fn events_to_register(&self) -> (r: Vec<ClusterEventWithHint<NoHint>>)
        ensures
            events_of(r@) == subscriptions(),
            crate::framework::unhinted(r@),
    {
        let mut out: Vec<ClusterEventWithHint<NoHint>> = Vec::new();
        out.push(
            always_on(
                EventResource::AssignedPod,
                ActionType::ADD | ActionType::DELETE | ActionType::UPDATE_POD_LABEL,
            ),
        );
        out.push(
            always_on(EventResource::Node, ActionType::ADD | ActionType::UPDATE_NODE_LABEL),
        );
        assert(events_of(out@) =~= subscriptions());
        out
    }
}

/// Every term has its own counts: the placed pods that match this term, by
/// domain.
pub open spec fn counted(
    counts: Seq<Domains>,
    terms: Seq<PodAffinityTerm>,
    pod: PodInfo,
    snapshot: Snapshot,
) -> bool {
    &&& counts.len() == terms.len()
    &&& forall|i: int, k: Seq<char>, v: Seq<char>|
        0 <= i < terms.len() ==> #[trigger] count_of(counts, i, k, v) == clamp64(
            cluster_hits(
                terms[i],
                snapshot.nodes@,
                pod.namespace@,
                *snapshot.namespaces,
                k,
                v,
            ) as int,
        )
}

/// What the cycle keeps of a pod's affinity and of the cluster.
pub open spec fn surveyed(s: AffinityState, pod: PodInfo, snapshot: Snapshot) -> bool {
    &&& s.required_affinity@ == affinity_of(pod)
    &&& s.required_anti_affinity@ == anti_affinity_of(pod)
    &&& s.preferred_affinity@ == preferred_affinity_of(pod)
    &&& s.preferred_anti_affinity@ == preferred_anti_affinity_of(pod)
    &&& s.namespace_labels == snapshot.namespaces
    &&& counted(s.affinity_counts@, affinity_of(pod), pod, snapshot)
    &&& counted(s.anti_affinity_counts@, anti_affinity_of(pod), pod, snapshot)
    &&& counted(
        s.preferred_affinity_counts@,
        bare_terms(preferred_affinity_of(pod)),
        pod,
        snapshot,
    )
    &&& counted(
        s.preferred_anti_affinity_counts@,
        bare_terms(preferred_anti_affinity_of(pod)),
        pod,
        snapshot,
    )
    &&& forall|k: Seq<char>, v: Seq<char>| #[trigger]
        s.existing_anti_affinity.count(k, v) == clamp64(
            cluster_forbids(
                snapshot.nodes_with_pods_with_required_anti_affinity@,
                pod,
                *snapshot.namespaces,
                k,
                v,
            ) as int,
        )
    &&& forall|k: Seq<char>, v: Seq<char>| #[trigger]
        s.existing_affinity.count(k, v) == clamp64(
            cluster_attracts(snapshot.nodes@, pod, *snapshot.namespaces, k, v) as int,
        )
}

/// Some placed pod's required affinity asks for the incoming pod somewhere.
pub open spec fn attracted_somewhere(pod: PodInfo, snapshot: Snapshot) -> bool {
    exists|k: Seq<char>, v: Seq<char>|
        cluster_attracts(snapshot.nodes@, pod, *snapshot.namespaces, k, v) > 0
}

/// Some rule of a pod that already runs forbids the incoming pod somewhere.
pub open spec fn forbidden_somewhere(pod: PodInfo, snapshot: Snapshot) -> bool {
    exists|k: Seq<char>, v: Seq<char>|
        cluster_forbids(
            snapshot.nodes_with_pods_with_required_anti_affinity@,
            pod,
            *snapshot.namespaces,
            k,
            v,
        ) > 0
}

/// The pod has required terms of its own.
pub open spec fn pod_requires(pod: PodInfo) -> bool {
    affinity_of(pod).len() > 0 || anti_affinity_of(pod).len() > 0
}

/// The pod has preferences of its own.
pub open spec fn pod_prefers(pod: PodInfo) -> bool {
    preferred_affinity_of(pod).len() > 0 || preferred_anti_affinity_of(pod).len() > 0
}

/// Count the rules of running pods that forbid this one. They apply to every
/// pod, also to one without rules of its own.
fn survey_forbidding(pod: &PodInfo, snapshot: &Snapshot) -> (r: Domains)
    ensures
        forall|k: Seq<char>, v: Seq<char>| #[trigger]
            r.count(k, v) == clamp64(
                cluster_forbids(
                    snapshot.nodes_with_pods_with_required_anti_affinity@,
                    *pod,
                    *snapshot.namespaces,
                    k,
                    v,
                ) as int,
            ),
        r.entries@.len() > 0 <==> forbidden_somewhere(*pod, *snapshot),
{
    let nodes = &snapshot.nodes_with_pods_with_required_anti_affinity;
    let ghost known = shared(snapshot.namespaces);
    let mut out = Domains::new();
    let mut i: usize = 0;
    while i < nodes.len()
        invariant
            i <= nodes@.len(),
            nodes@ == snapshot.nodes_with_pods_with_required_anti_affinity@,
            known == *snapshot.namespaces,
            forall|k: Seq<char>, v: Seq<char>| #[trigger]
                out.count(k, v) == clamp64(
                    cluster_forbids(nodes@.take(i as int), *pod, known, k, v) as int,
                ),
            out.entries@.len() > 0 ==> exists|k: Seq<char>, v: Seq<char>|
                cluster_forbids(nodes@.take(i as int), *pod, known, k, v) > 0,
        decreases nodes@.len() - i,
    {
        let node = &nodes[i];
        let holders = &node.pods_with_required_anti_affinity;
        let ghost prior = out;
        let ghost base = nodes@.take(i as int);
        let mut j: usize = 0;
        while j < holders.len()
            invariant
                j <= holders@.len(),
                i < nodes@.len(),
                base == nodes@.take(i as int),
                holders@ == node.pods_with_required_anti_affinity@,
                known == *snapshot.namespaces,
                forall|k: Seq<char>, v: Seq<char>| #[trigger]
                    out.count(k, v) == clamp64((cluster_forbids(base, *pod, known, k, v) + pod_sum(holders@.take(j as int), **node, forbid_of(*pod, known, k, v))) as int),
                out.entries@.len() > 0 ==> exists|k: Seq<char>, v: Seq<char>|
                    cluster_forbids(base, *pod, known, k, v) + pod_sum(holders@.take(j as int), **node, forbid_of(*pod, known, k, v)) > 0,
            decreases holders@.len() - j,
        {
            let existing = &holders[j];
            let terms = required_anti_affinity_of(existing);
            let ghost earlier = out;
            tally(
                &mut out,
                &terms,
                pod,
                node,
                existing.namespace.as_str(),
                &snapshot.namespaces,
                true,
            );
            j += 1;
            proof {
                let longer = holders@.take(j as int);
                let shorter = holders@.take(j - 1);
                assert(longer.drop_last() =~= shorter);
                assert forall|k: Seq<char>, v: Seq<char>| #[trigger]
                    out.count(k, v) == clamp64((cluster_forbids(base, *pod, known, k, v) + pod_sum(longer, **node, forbid_of(*pod, known, k, v))) as int) by {
                    assert(earlier.count(k, v) == clamp64((cluster_forbids(base, *pod, known, k, v) + pod_sum(shorter, **node, forbid_of(*pod, known, k, v))) as int));
                }
                if out.entries@.len() > 0 {
                    if earlier.entries@.len() > 0 {
                        let (k, v) = choose|k: Seq<char>, v: Seq<char>|
                            cluster_forbids(base, *pod, known, k, v) + pod_sum(shorter, **node, forbid_of(*pod, known, k, v)) > 0;
                        assert(cluster_forbids(base, *pod, known, k, v) + pod_sum(longer, **node, forbid_of(*pod, known, k, v)) > 0);
                    } else {
                        let (k, v) = choose|k: Seq<char>, v: Seq<char>|
                            hits(terms@, *pod, **node, existing.namespace@, known, k, v) > 0;
                        assert(cluster_forbids(base, *pod, known, k, v) + pod_sum(longer, **node, forbid_of(*pod, known, k, v)) > 0);
                    }
                }
            }
        }
        i += 1;
        proof {
            let all = nodes@.take(i as int);
            assert(all.drop_last() =~= base);
            assert(holders@.take(j as int) =~= holders@);
            assert forall|k: Seq<char>, v: Seq<char>| #[trigger]
                out.count(k, v) == clamp64(cluster_forbids(all, *pod, known, k, v) as int) by {
                assert(all.last() == nodes@[i - 1]);
            }
            if out.entries@.len() > 0 {
                let (k, v) = choose|k: Seq<char>, v: Seq<char>|
                    cluster_forbids(base, *pod, known, k, v) + pod_sum(holders@, **node, forbid_of(*pod, known, k, v)) > 0;
                assert(cluster_forbids(all, *pod, known, k, v) > 0);
            }
        }
    }
    proof {
        assert(nodes@.take(i as int) =~= nodes@);
        if forbidden_somewhere(*pod, *snapshot) {
            let (k, v) = choose|k: Seq<char>, v: Seq<char>|
                cluster_forbids(nodes@, *pod, known, k, v) > 0;
            assert(out.count(k, v) > 0);
        }
    }
    out
}

/// Count the required affinity terms of placed pods that ask for this one.
fn survey_attracting(pod: &PodInfo, snapshot: &Snapshot) -> (r: Domains)
    ensures
        forall|k: Seq<char>, v: Seq<char>| #[trigger]
            r.count(k, v) == clamp64(
                cluster_attracts(
                    snapshot.nodes@,
                    *pod,
                    *snapshot.namespaces,
                    k,
                    v,
                ) as int,
            ),
        r.entries@.len() > 0 <==> attracted_somewhere(*pod, *snapshot),
{
    let nodes = &snapshot.nodes;
    let ghost known = shared(snapshot.namespaces);
    let mut out = Domains::new();
    let mut i: usize = 0;
    while i < nodes.len()
        invariant
            i <= nodes@.len(),
            nodes@ == snapshot.nodes@,
            known == *snapshot.namespaces,
            forall|k: Seq<char>, v: Seq<char>| #[trigger]
                out.count(k, v) == clamp64(
                    cluster_attracts(nodes@.take(i as int), *pod, known, k, v) as int,
                ),
            out.entries@.len() > 0 ==> exists|k: Seq<char>, v: Seq<char>|
                cluster_attracts(nodes@.take(i as int), *pod, known, k, v) > 0,
        decreases nodes@.len() - i,
    {
        let node = &nodes[i];
        let holders = &node.pods;
        let ghost prior = out;
        let ghost base = nodes@.take(i as int);
        let mut j: usize = 0;
        while j < holders.len()
            invariant
                j <= holders@.len(),
                i < nodes@.len(),
                base == nodes@.take(i as int),
                holders@ == node.pods@,
                known == *snapshot.namespaces,
                forall|k: Seq<char>, v: Seq<char>| #[trigger]
                    out.count(k, v) == clamp64((cluster_attracts(base, *pod, known, k, v) + pod_sum(holders@.take(j as int), **node, attract_of(*pod, known, k, v))) as int),
                out.entries@.len() > 0 ==> exists|k: Seq<char>, v: Seq<char>|
                    cluster_attracts(base, *pod, known, k, v) + pod_sum(holders@.take(j as int), **node, attract_of(*pod, known, k, v)) > 0,
            decreases holders@.len() - j,
        {
            let existing = &holders[j];
            let terms = required_affinity_of(existing);
            let ghost earlier = out;
            tally(
                &mut out,
                &terms,
                pod,
                node,
                existing.namespace.as_str(),
                &snapshot.namespaces,
                true,
            );
            j += 1;
            proof {
                let longer = holders@.take(j as int);
                let shorter = holders@.take(j - 1);
                assert(longer.drop_last() =~= shorter);
                assert forall|k: Seq<char>, v: Seq<char>| #[trigger]
                    out.count(k, v) == clamp64((cluster_attracts(base, *pod, known, k, v) + pod_sum(longer, **node, attract_of(*pod, known, k, v))) as int) by {
                    assert(earlier.count(k, v) == clamp64((cluster_attracts(base, *pod, known, k, v) + pod_sum(shorter, **node, attract_of(*pod, known, k, v))) as int));
                }
                if out.entries@.len() > 0 {
                    if earlier.entries@.len() > 0 {
                        let (k, v) = choose|k: Seq<char>, v: Seq<char>|
                            cluster_attracts(base, *pod, known, k, v) + pod_sum(shorter, **node, attract_of(*pod, known, k, v)) > 0;
                        assert(cluster_attracts(base, *pod, known, k, v) + pod_sum(longer, **node, attract_of(*pod, known, k, v)) > 0);
                    } else {
                        let (k, v) = choose|k: Seq<char>, v: Seq<char>|
                            hits(terms@, *pod, **node, existing.namespace@, known, k, v) > 0;
                        assert(cluster_attracts(base, *pod, known, k, v) + pod_sum(longer, **node, attract_of(*pod, known, k, v)) > 0);
                    }
                }
            }
        }
        i += 1;
        proof {
            let all = nodes@.take(i as int);
            assert(all.drop_last() =~= base);
            assert(holders@.take(j as int) =~= holders@);
            assert forall|k: Seq<char>, v: Seq<char>| #[trigger]
                out.count(k, v) == clamp64(cluster_attracts(all, *pod, known, k, v) as int) by {
                assert(all.last() == nodes@[i - 1]);
            }
            if out.entries@.len() > 0 {
                let (k, v) = choose|k: Seq<char>, v: Seq<char>|
                    cluster_attracts(base, *pod, known, k, v) + pod_sum(holders@, **node, attract_of(*pod, known, k, v)) > 0;
                assert(cluster_attracts(all, *pod, known, k, v) > 0);
            }
        }
    }
    proof {
        assert(nodes@.take(i as int) =~= nodes@);
        if attracted_somewhere(*pod, *snapshot) {
            let (k, v) = choose|k: Seq<char>, v: Seq<char>|
                cluster_attracts(nodes@, *pod, known, k, v) > 0;
            assert(out.count(k, v) > 0);
        }
    }
    out
}

/// Count the placed pods that a term matches.
fn survey_term(term: &PodAffinityTerm, pod: &PodInfo, snapshot: &Snapshot) -> (r: Domains)
    ensures
        forall|k: Seq<char>, v: Seq<char>| #[trigger]
            r.count(k, v) == clamp64(
                cluster_hits(
                    *term,
                    snapshot.nodes@,
                    pod.namespace@,
                    *snapshot.namespaces,
                    k,
                    v,
                ) as int,
            ),
{
    let mut out = Domains::new();
    let ghost known = shared(snapshot.namespaces);
    let ghost own = pod.namespace@;
    let nodes = &snapshot.nodes;
    let mut i: usize = 0;
    while i < nodes.len()
        invariant
            i <= nodes@.len(),
            nodes@ == snapshot.nodes@,
            known == *snapshot.namespaces,
            own == pod.namespace@,
            forall|k: Seq<char>, v: Seq<char>| #[trigger]
                out.count(k, v) == clamp64(
                    cluster_hits(*term, nodes@.take(i as int), own, known, k, v) as int,
                ),
        decreases nodes@.len() - i,
    {
        let node = &nodes[i];
        let pods = &node.pods;
        let ghost base = nodes@.take(i as int);
        let mut j: usize = 0;
        while j < pods.len()
            invariant
                j <= pods@.len(),
                i < nodes@.len(),
                base == nodes@.take(i as int),
                pods@ == node.pods@,
                known == *snapshot.namespaces,
                own == pod.namespace@,
                forall|k: Seq<char>, v: Seq<char>| #[trigger]
                    out.count(k, v) == clamp64(
                        (cluster_hits(*term, base, own, known, k, v) + pod_sum(
                            pods@.take(j as int),
                            **node,
                            hit_of(*term, own, known, k, v),
                        )) as int,
                    ),
            decreases pods@.len() - j,
        {
            let ghost earlier = out;
            tally_term(
                &mut out,
                term,
                &pods[j],
                node,
                pod.namespace.as_str(),
                &snapshot.namespaces,
                true,
            );
            j += 1;
            proof {
                let longer = pods@.take(j as int);
                let shorter = pods@.take(j - 1);
                assert(longer.drop_last() =~= shorter);
                assert forall|k: Seq<char>, v: Seq<char>| #[trigger]
                    out.count(k, v) == clamp64(
                        (cluster_hits(*term, base, own, known, k, v) + pod_sum(
                            longer,
                            **node,
                            hit_of(*term, own, known, k, v),
                        )) as int,
                    ) by {
                    assert(earlier.count(k, v) == clamp64(
                        (cluster_hits(*term, base, own, known, k, v) + pod_sum(
                            shorter,
                            **node,
                            hit_of(*term, own, known, k, v),
                        )) as int,
                    ));
                }
            }
        }
        i += 1;
        proof {
            let all = nodes@.take(i as int);
            assert(all.drop_last() =~= base);
            assert(pods@.take(j as int) =~= pods@);
            assert forall|k: Seq<char>, v: Seq<char>| #[trigger]
                out.count(k, v) == clamp64(
                    cluster_hits(*term, all, own, known, k, v) as int,
                ) by {
                assert(all.last() == nodes@[i - 1]);
            }
        }
    }
    assert(nodes@.take(i as int) =~= nodes@);
    out
}

/// Count the placed pods that each of a list of terms matches.
fn survey_required(terms: &Vec<PodAffinityTerm>, pod: &PodInfo, snapshot: &Snapshot) -> (r: Vec<
    Domains,
>)
    ensures
        counted(r@, terms@, *pod, *snapshot),
{
    let mut out: Vec<Domains> = Vec::new();
    let mut i: usize = 0;
    while i < terms.len()
        invariant
            i <= terms@.len(),
            out@.len() == i,
            counted(out@, terms@.take(i as int), *pod, *snapshot),
        decreases terms@.len() - i,
    {
        let ghost before = out@;
        let next = survey_term(&terms[i], pod, snapshot);
        out.push(next);
        i += 1;
        proof {
            one_more_counted(before, out@, terms@.take(i - 1), terms@.take(i as int), *pod, *snapshot);
        }
    }
    assert(terms@.take(i as int) =~= terms@);
    out
}

/// Count the placed pods that each of a list of weighted terms matches.
fn survey_preferred(terms: &Vec<WeightedPodAffinityTerm>, pod: &PodInfo, snapshot: &Snapshot) -> (r:
    Vec<Domains>)
    ensures
        counted(r@, bare_terms(terms@), *pod, *snapshot),
{
    let ghost bare = bare_terms(terms@);
    let mut out: Vec<Domains> = Vec::new();
    let mut i: usize = 0;
    while i < terms.len()
        invariant
            i <= terms@.len(),
            bare == bare_terms(terms@),
            out@.len() == i,
            counted(out@, bare.take(i as int), *pod, *snapshot),
        decreases terms@.len() - i,
    {
        let ghost before = out@;
        let next = survey_term(&terms[i].pod_affinity_term, pod, snapshot);
        out.push(next);
        i += 1;
        proof {
            one_more_counted(before, out@, bare.take(i - 1), bare.take(i as int), *pod, *snapshot);
        }
    }
    assert(bare.take(i as int) =~= bare);
    out
}

proof fn one_more_counted(
    before: Seq<Domains>,
    after: Seq<Domains>,
    fewer: Seq<PodAffinityTerm>,
    terms: Seq<PodAffinityTerm>,
    pod: PodInfo,
    snapshot: Snapshot,
)
    requires
        counted(before, fewer, pod, snapshot),
        terms.len() == fewer.len() + 1,
        after.len() == terms.len(),
        forall|i: int| 0 <= i < fewer.len() ==> terms[i] == fewer[i],
        forall|i: int| 0 <= i < before.len() ==> after[i] == before[i],
        forall|k: Seq<char>, v: Seq<char>| #[trigger]
            after.last().count(k, v) == clamp64(
                cluster_hits(
                    terms.last(),
                    snapshot.nodes@,
                    pod.namespace@,
                    *snapshot.namespaces,
                    k,
                    v,
                ) as int,
            ),
    ensures
        counted(after, terms, pod, snapshot),
{
    assert forall|i: int, k: Seq<char>, v: Seq<char>|
        0 <= i < terms.len() implies #[trigger] count_of(after, i, k, v) == clamp64(
        cluster_hits(
            terms[i],
            snapshot.nodes@,
            pod.namespace@,
            *snapshot.namespaces,
            k,
            v,
        ) as int,
    ) by {
        if i < fewer.len() {
            assert(count_of(before, i, k, v) == count_of(after, i, k, v));
        } else {
            assert(count_of(after, i, k, v) == after.last().count(k, v));
        }
    }
}

impl PreFilterPlugin for InterPodAffinity {
    open spec fn pre_filter_view(
        &self,
        before: CycleState,
        pod: PodInfo,
        snapshot: Snapshot,
        after: CycleState,
        status: StatusView,
    ) -> bool {
        let forbidden = forbidden_somewhere(pod, snapshot);
        let attracted = attracted_somewhere(pod, snapshot);
        &&& after.only_slot(&before, NAME@)
        &&& after.value::<AffinityState>(NAME@) matches Some(s) && surveyed(s, pod, snapshot)
        &&& forall|p: Seq<char>| #[trigger]
            after.no_filter(p) <==> before.no_filter(p) || (p == NAME@ && !pod_requires(pod)
                && !forbidden)
        &&& forall|p: Seq<char>| #[trigger]
            after.no_score(p) <==> before.no_score(p) || (p == NAME@ && !pod_prefers(pod)
                && !attracted)
        &&& status == if !pod_requires(pod) && !pod_prefers(pod) && !forbidden && !attracted {
            skip()
        } else {
            success()
        }
    }

    fn pre_filter(&self, state: &mut CycleState, pod: &PodInfo, snapshot: &Snapshot) -> (r: (
        Status,
        Option<Vec<String>>,
    ))
        ensures
            r.1 is None,
    {
        let required_affinity = required_affinity_of(pod);
        let required_anti_affinity = required_anti_affinity_of(pod);
        let preferred_affinity = preferred_affinity_terms_of(pod);
        let preferred_anti_affinity = preferred_anti_affinity_terms_of(pod);
        let existing_anti_affinity = survey_forbidding(pod, snapshot);
        let existing_affinity = survey_attracting(pod, snapshot);
        let affinity_counts = survey_required(&required_affinity, pod, snapshot);
        let anti_affinity_counts = survey_required(&required_anti_affinity, pod, snapshot);
        let preferred_affinity_counts = survey_preferred(&preferred_affinity, pod, snapshot);
        let preferred_anti_affinity_counts = survey_preferred(
            &preferred_anti_affinity,
            pod,
            snapshot,
        );
        let s = AffinityState {
            required_affinity,
            required_anti_affinity,
            preferred_affinity,
            preferred_anti_affinity,
            affinity_counts,
            anti_affinity_counts,
            existing_anti_affinity,
            existing_affinity,
            preferred_affinity_counts,
            preferred_anti_affinity_counts,
            namespace_labels: snapshot.namespaces.clone(),
        };
        assert(surveyed(s, *pod, *snapshot));
        let forbidden = s.existing_anti_affinity.entries.len() > 0;
        let required = s.has_required();
        let preferred = s.has_preferred() || s.existing_affinity.entries.len() > 0;
        if !required && !forbidden {
            state.skip_filter(NAME);
        }
        let ghost filtered = *state;
        if !preferred {
            state.skip_score(NAME);
        }
        let ghost marked = *state;
        state.write(NAME, s);
        proof {
            assert(state.only_slot(old(state), NAME@));
            assert forall|p: Seq<char>| #[trigger]
                state.no_score(p) <==> old(state).no_score(p) || (p == NAME@ && !preferred) by {
                assert(marked.no_score(p) == state.no_score(p));
            }
            assert forall|p: Seq<char>| #[trigger]
                state.no_filter(p) <==> old(state).no_filter(p) || (p == NAME@ && !pod_requires(
                    *pod,
                ) && !forbidden) by {
                assert(filtered.no_filter(p) == state.no_filter(p));
            }
        }
        if !required && !preferred && !forbidden {
            return (Status::skip(), None);
        }
        (Status::success(), None)
    }
}

/// A cycle's counts after a pod joins or leaves a node: all of them, since the
/// pod may have satisfied an affinity, broken an anti-affinity, or been the
/// one whose own rule forbade the incoming pod or asked for it.
pub open spec fn adjusted(
    s: AffinityState,
    t: AffinityState,
    pod: PodInfo,
    other: PodInfo,
    node: NodeInfo,
    joins: bool,
) -> bool {
    let known = *s.namespace_labels;
    let own = pod.namespace@;
    &&& t.required_affinity == s.required_affinity
    &&& t.required_anti_affinity == s.required_anti_affinity
    &&& t.preferred_affinity == s.preferred_affinity
    &&& t.preferred_anti_affinity == s.preferred_anti_affinity
    &&& t.namespace_labels == s.namespace_labels
    &&& all_tallied(
        s.affinity_counts@,
        t.affinity_counts@,
        s.required_affinity@,
        other,
        node,
        own,
        known,
        joins,
    )
    &&& all_tallied(
        s.anti_affinity_counts@,
        t.anti_affinity_counts@,
        s.required_anti_affinity@,
        other,
        node,
        own,
        known,
        joins,
    )
    &&& all_tallied(
        s.preferred_affinity_counts@,
        t.preferred_affinity_counts@,
        bare_terms(s.preferred_affinity@),
        other,
        node,
        own,
        known,
        joins,
    )
    &&& all_tallied(
        s.preferred_anti_affinity_counts@,
        t.preferred_anti_affinity_counts@,
        bare_terms(s.preferred_anti_affinity@),
        other,
        node,
        own,
        known,
        joins,
    )
    &&& tallied(
        s.existing_anti_affinity,
        t.existing_anti_affinity,
        anti_affinity_of(other),
        pod,
        node,
        other.namespace@,
        known,
        joins,
    )
    &&& tallied(
        s.existing_affinity,
        t.existing_affinity,
        affinity_of(other),
        pod,
        node,
        other.namespace@,
        known,
        joins,
    )
}

/// What the plugin's slot becomes when a pod joins or leaves a node. A cycle
/// without the plugin's counts stays as it is.
pub open spec fn slot_adjusted(
    before: CycleState,
    pod: PodInfo,
    other: PodInfo,
    node: NodeInfo,
    joins: bool,
    after: CycleState,
) -> bool {
    match before.value::<AffinityState>(NAME@) {
        None => after == before,
        Some(s) => {
            &&& after.only_slot(&before, NAME@)
            &&& after.same_skips(&before)
            &&& after.value::<AffinityState>(NAME@) matches Some(t) && adjusted(
                s,
                t,
                pod,
                other,
                node,
                joins,
            )
        },
    }
}

/// The counts after a pod joins or leaves.
fn adjust_state(s: &AffinityState, pod: &PodInfo, other: &PodInfo, node: &NodeInfo, joins: bool) -> (t:
    AffinityState)
    ensures
        adjusted(*s, t, *pod, *other, *node, joins),
{
    let mut existing_anti_affinity = s.existing_anti_affinity.copy();
    let mut existing_affinity = s.existing_affinity.copy();
    let own = pod.namespace.as_str();
    let known = &s.namespace_labels;
    let affinity_counts = tally_required(
        &s.affinity_counts,
        &s.required_affinity,
        other,
        node,
        own,
        known,
        joins,
    );
    let anti_affinity_counts = tally_required(
        &s.anti_affinity_counts,
        &s.required_anti_affinity,
        other,
        node,
        own,
        known,
        joins,
    );
    let preferred_affinity_counts = tally_preferred(
        &s.preferred_affinity_counts,
        &s.preferred_affinity,
        other,
        node,
        own,
        known,
        joins,
    );
    let preferred_anti_affinity_counts = tally_preferred(
        &s.preferred_anti_affinity_counts,
        &s.preferred_anti_affinity,
        other,
        node,
        own,
        known,
        joins,
    );
    let terms = required_anti_affinity_of(other);
    tally(
        &mut existing_anti_affinity,
        &terms,
        pod,
        node,
        other.namespace.as_str(),
        known,
        joins,
    );
    let asking = required_affinity_of(other);
    tally(
        &mut existing_affinity,
        &asking,
        pod,
        node,
        other.namespace.as_str(),
        known,
        joins,
    );
    AffinityState {
        required_affinity: s.required_affinity.clone(),
        required_anti_affinity: s.required_anti_affinity.clone(),
        preferred_affinity: s.preferred_affinity.clone(),
        preferred_anti_affinity: s.preferred_anti_affinity.clone(),
        affinity_counts,
        anti_affinity_counts,
        existing_anti_affinity,
        existing_affinity,
        preferred_affinity_counts,
        preferred_anti_affinity_counts,
        namespace_labels: s.namespace_labels.clone(),
    }
}

fn adjust(state: &mut CycleState, pod: &PodInfo, other: &PodInfo, node: &NodeInfo, joins: bool)
    ensures
        slot_adjusted(*old(state), *pod, *other, *node, joins, *final(state)),
{
    let next = match state.read::<AffinityState>(NAME) {
        Some(s) => {
            adjust_state(s, pod, other, node, joins)
        },
        None => {
            return ;
        },
    };
    state.write(NAME, next);
}

impl PreFilterExtensions for InterPodAffinity {
    open spec fn adjusted_view(
        &self,
        before: CycleState,
        pod: PodInfo,
        other: PodInfo,
        node: NodeInfo,
        joins: bool,
        after: CycleState,
    ) -> bool {
        slot_adjusted(before, pod, other, node, joins, after)
    }

    fn add_pod(
        &self,
        state: &mut CycleState,
        pod: &PodInfo,
        pod_to_add: &PodInfo,
        node: &NodeInfo,
    ) -> (r: Status)
        ensures
            r@ == success(),
    {
        adjust(state, pod, pod_to_add, node, true);
        Status::success()
    }

    fn remove_pod(
        &self,
        state: &mut CycleState,
        pod: &PodInfo,
        pod_to_remove: &PodInfo,
        node: &NodeInfo,
    ) -> (r: Status)
        ensures
            r@ == success(),
    {
        adjust(state, pod, pod_to_remove, node, false);
        Status::success()
    }
}

/// The count of the term `i` in the node's domain under a topology key; none
/// where the node does not carry the label.
pub open spec fn domain_of(counts: Seq<Domains>, i: int, key: Seq<char>, node: NodeInfo) -> Option<
    int,
> {
    match node.labels.text(key) {
        Some(value) => Some(count_of(counts, i, key, value)),
        None => None,
    }
}

fn count_in_domain(counts: &Vec<Domains>, i: usize, topology_key: &str, node: &NodeInfo) -> (r:
    Option<i64>)
    ensures
        match domain_of(counts@, i as int, topology_key@, *node) {
            Some(n) => r is Some && r->Some_0 == n,
            None => r is None,
        },
{
    match node.labels.get(topology_key) {
        Some(value) => if i < counts.len() {
            Some(counts[i].get(topology_key, value.as_str()))
        } else {
            Some(0)
        },
        None => None,
    }
}

/// Why the required term `i` turns a node away, if it does: the node is in no
/// domain, or no pod (affinity) or some pod (anti-affinity) matches the term
/// there.
pub open spec fn term_verdict(
    term: PodAffinityTerm,
    counts: Seq<Domains>,
    i: int,
    node: NodeInfo,
    anti: bool,
) -> Option<Seq<char>> {
    match domain_of(counts, i, term.topology_key@, node) {
        None => Some("node(s) had no "@ + term.topology_key@ + " label"@),
        Some(n) => if anti && n > 0 {
            Some("node(s) didn't match pod anti-affinity rules"@)
        } else if !anti && n <= 0 {
            Some("node(s) didn't match pod affinity rules"@)
        } else {
            None
        },
    }
}

/// The verdict of the first term that turns the node away.
pub open spec fn first_verdict(
    terms: Seq<PodAffinityTerm>,
    counts: Seq<Domains>,
    node: NodeInfo,
    anti: bool,
) -> Option<Seq<char>>
    decreases terms.len(),
{
    if terms.len() == 0 {
        None
    } else {
        match first_verdict(terms.drop_last(), counts, node, anti) {
            Some(reason) => Some(reason),
            None => term_verdict(terms.last(), counts, terms.len() - 1, node, anti),
        }
    }
}

fn check_terms(terms: &Vec<PodAffinityTerm>, counts: &Vec<Domains>, node: &NodeInfo, anti: bool) -> (r:
    Option<String>)
    ensures
        match first_verdict(terms@, counts@, *node, anti) {
            Some(reason) => r is Some && r->Some_0@ == reason,
            None => r is None,
        },
{
    let mut i: usize = 0;
    while i < terms.len()
        invariant
            i <= terms@.len(),
            first_verdict(terms@.take(i as int), counts@, *node, anti) is None,
        decreases terms@.len() - i,
    {
        let term = &terms[i];
        let reason = match count_in_domain(counts, i, term.topology_key.as_str(), node) {
            None => {
                let head = joined("node(s) had no ", term.topology_key.as_str());
                Some(joined(head.as_str(), " label"))
            },
            Some(n) => if anti && n > 0 {
                Some("node(s) didn't match pod anti-affinity rules".to_owned())
            } else if !anti && n <= 0 {
                Some("node(s) didn't match pod affinity rules".to_owned())
            } else {
                None
            },
        };
        proof {
            assert(terms@.take(i + 1).drop_last() =~= terms@.take(i as int));
        }
        if reason.is_some() {
            proof {
                verdict_stands(terms@, counts@, *node, anti, i + 1);
            }
            return reason;
        }
        i += 1;
    }
    assert(terms@.take(i as int) =~= terms@);
    None
}

proof fn verdict_stands(
    terms: Seq<PodAffinityTerm>,
    counts: Seq<Domains>,
    node: NodeInfo,
    anti: bool,
    n: int,
)
    requires
        0 <= n <= terms.len(),
        first_verdict(terms.take(n), counts, node, anti) is Some,
    ensures
        first_verdict(terms, counts, node, anti) == first_verdict(terms.take(n), counts, node, anti),
    decreases terms.len() - n,
{
    if n == terms.len() {
        assert(terms.take(n) =~= terms);
    } else {
        assert(terms.take(n + 1).drop_last() =~= terms.take(n));
        verdict_stands(terms, counts, node, anti, n + 1);
    }
}

/// A running pod's rule forbids a domain that the node is in.
pub open spec fn forbidden_here(counts: Domains, node: NodeInfo) -> bool {
    exists|k: Seq<char>, v: Seq<char>| #[trigger] counts.count(k, v) > 0 && node.labels.carries(k, v)
}

fn check_forbidden(counts: &Domains, node: &NodeInfo) -> (r: bool)
    ensures
        r == forbidden_here(*counts, *node),
{
    let mut i: usize = 0;
    while i < counts.entries.len()
        invariant
            i <= counts.entries@.len(),
            forall|j: int|
                0 <= j < i ==> !((#[trigger] counts.entries@[j]).2 > 0 && node.labels.carries(
                    counts.entries@[j].0@,
                    counts.entries@[j].1@,
                ) && counts.count(counts.entries@[j].0@, counts.entries@[j].1@) > 0),
        decreases counts.entries@.len() - i,
    {
        let e = &counts.entries[i];
        if e.2 > 0 && node.labels.carries_pair(e.0.as_str(), e.1.as_str()) && counts.get(
            e.0.as_str(),
            e.1.as_str(),
        ) > 0 {
            return true;
        }
        i += 1;
    }
    proof {
        if forbidden_here(*counts, *node) {
            let (k, v) = choose|k: Seq<char>, v: Seq<char>| #[trigger]
                counts.count(k, v) > 0 && node.labels.carries(k, v);
            let m = first_domain(counts.entries@, k, v);
            domain_count_at(counts.entries@, k, v, m);
            assert(m < counts.entries@.len());
            assert(counts.entries@[m].2 > 0);
        }
    }
    false
}

/// The verdict on a node from the cycle's counts.
pub open spec fn affinity_verdict(s: AffinityState, node: NodeInfo) -> StatusView {
    match first_verdict(s.required_affinity@, s.affinity_counts@, node, false) {
        Some(reason) => unschedulable(NAME@, reason),
        None => match first_verdict(
            s.required_anti_affinity@,
            s.anti_affinity_counts@,
            node,
            true,
        ) {
            Some(reason) => unschedulable(NAME@, reason),
            None => if forbidden_here(s.existing_anti_affinity, node) {
                unschedulable(
                    NAME@,
                    "node(s) didn't satisfy existing pods' anti-affinity rules"@,
                )
            } else {
                success()
            },
        },
    }
}

impl FilterPlugin for InterPodAffinity {
    open spec fn filter_view(&self, state: CycleState, pod: PodInfo, node: NodeInfo) -> StatusView {
        match state.value::<AffinityState>(NAME@) {
            None => success(),
            Some(s) => affinity_verdict(s, node),
        }
    }

    fn filter(&self, state: &CycleState, pod: &PodInfo, node: &NodeInfo) -> (r: Status) {
        let s = match state.read::<AffinityState>(NAME) {
            Some(s) => s,
            None => {
                return Status::success();
            },
        };
        match check_terms(&s.required_affinity, &s.affinity_counts, node, false) {
            Some(reason) => {
                return Status::unschedulable(NAME, reason.as_str());
            },
            None => {},
        }
        match check_terms(&s.required_anti_affinity, &s.anti_affinity_counts, node, true) {
            Some(reason) => {
                return Status::unschedulable(NAME, reason.as_str());
            },
            None => {},
        }
        if check_forbidden(&s.existing_anti_affinity, node) {
            return Status::unschedulable(
                NAME,
                "node(s) didn't satisfy existing pods' anti-affinity rules",
            );
        }
        Status::success()
    }
}

impl PreScorePlugin for InterPodAffinity {
    open spec fn pre_score_view(
        &self,
        before: CycleState,
        pod: PodInfo,
        nodes: Seq<Arc<NodeInfo>>,
        after: CycleState,
        status: StatusView,
    ) -> bool {
        let scorable = match before.value::<AffinityState>(NAME@) {
            Some(s) => s.scores_any(),
            None => false,
        };
        if scorable {
            status == success() && after == before
        } else {
            status == skip() && score_switched_off(before, after, NAME@)
        }
    }

    fn pre_score(&self, state: &mut CycleState, pod: &PodInfo, nodes: &Vec<Arc<NodeInfo>>) -> (r:
        Status) {
        let scorable = match state.read::<AffinityState>(NAME) {
            Some(s) => s.has_preferred() || s.existing_affinity.entries.len() > 0,
            None => false,
        };
        if scorable {
            return Status::success();
        }
        state.skip_score(NAME);
        Status::skip()
    }
}

/// Some pod in the node's domain under a topology key matches the term `i`.
pub open spec fn met(counts: Seq<Domains>, i: int, key: Seq<char>, node: NodeInfo) -> bool {
    match domain_of(counts, i, key, node) {
        Some(n) => n > 0,
        None => false,
    }
}

/// The weights of the terms that some pod in the node's domain matches, summed.
pub open spec fn weight_sum(
    terms: Seq<WeightedPodAffinityTerm>,
    counts: Seq<Domains>,
    node: NodeInfo,
) -> int
    decreases terms.len(),
{
    if terms.len() == 0 {
        0
    } else {
        weight_sum(terms.drop_last(), counts, node) + if met(
            counts,
            terms.len() - 1,
            terms.last().pod_affinity_term.topology_key@,
            node,
        ) {
            terms.last().weight as int
        } else {
            0
        }
    }
}

fn sum_weights(terms: &Vec<WeightedPodAffinityTerm>, counts: &Vec<Domains>, node: &NodeInfo) -> (r:
    i128)
    ensures
        r == weight_sum(terms@, counts@, *node),
        -0x8000_0000 * 0x1_0000_0000_0000_0000 <= r <= 0x8000_0000 * 0x1_0000_0000_0000_0000,
{
    let mut total: i128 = 0;
    let mut i: usize = 0;
    while i < terms.len()
        invariant
            i <= terms@.len(),
            total == weight_sum(terms@.take(i as int), counts@, *node),
            -(i as int) * 0x8000_0000 <= total <= i as int * 0x8000_0000,
        decreases terms@.len() - i,
    {
        assert(terms@.take(i + 1).drop_last() =~= terms@.take(i as int));
        match count_in_domain(counts, i, terms[i].pod_affinity_term.topology_key.as_str(), node) {
            Some(n) => {
                if n > 0 {
                    total = total + terms[i].weight as i128;
                }
            },
            None => {},
        }
        i += 1;
    }
    assert(terms@.take(i as int) =~= terms@);
    total
}

/// The pair `i` of a list of labels is the one that counts: the first of its
/// key.
pub open spec fn first_of_key(labels: Seq<(String, String)>, i: int) -> bool {
    forall|j: int| 0 <= j < i ==> (#[trigger] labels[j]).0@ != labels[i].0@
}

fn is_first_of_key(labels: &Labels, i: usize) -> (r: bool)
    requires
        i < labels.entries@.len(),
    ensures
        r == first_of_key(labels.entries@, i as int),
{
    let mut j: usize = 0;
    while j < i
        invariant
            j <= i < labels.entries@.len(),
            forall|x: int| 0 <= x < j ==> (#[trigger] labels.entries@[x]).0@ != labels.entries@[i as int].0@,
        decreases i - j,
    {
        if text_eq(labels.entries[j].0.as_str(), labels.entries[i].0.as_str()) {
            return false;
        }
        j += 1;
    }
    true
}

/// The counts of the domains that the first `n` labels of a node name, summed
/// within `i64`.
pub open spec fn label_sum(counts: Domains, labels: Seq<(String, String)>, n: int) -> int
    decreases n,
{
    if n <= 0 || n > labels.len() {
        0
    } else if first_of_key(labels, n - 1) {
        clamp64(
            label_sum(counts, labels, n - 1) + counts.count(labels[n - 1].0@, labels[n - 1].1@),
        )
    } else {
        label_sum(counts, labels, n - 1)
    }
}

/// The counts of every domain that the node is in, summed.
pub open spec fn pull_of(counts: Domains, node: NodeInfo) -> int {
    label_sum(counts, node.labels.entries@, node.labels.entries@.len() as int)
}

fn pull(counts: &Domains, node: &NodeInfo) -> (r: i64)
    ensures
        r == pull_of(*counts, *node),
{
    let labels = &node.labels.entries;
    let mut total: i64 = 0;
    let mut i: usize = 0;
    while i < labels.len()
        invariant
            i <= labels@.len(),
            labels@ == node.labels.entries@,
            total == label_sum(*counts, labels@, i as int),
        decreases labels@.len() - i,
    {
        if is_first_of_key(&node.labels, i) {
            let n: i64 = counts.get(labels[i].0.as_str(), labels[i].1.as_str());
            total = sum64(total, n);
        }
        i += 1;
    }
    total
}

/// Preferences met, less the preferences to stay away that are not, and what
/// the placed pods that ask for this one are worth.
pub open spec fn affinity_score(s: AffinityState, node: NodeInfo, hard_weight: int) -> int {
    clamp64(
        weight_sum(s.preferred_affinity@, s.preferred_affinity_counts@, node) - weight_sum(
            s.preferred_anti_affinity@,
            s.preferred_anti_affinity_counts@,
            node,
        ) + hard_weight * pull_of(s.existing_affinity, node),
    )
}

/// A signed score on the common range.
pub open spec fn spread_score(s: int, min: int, max: int) -> int {
    trunc_div(MAX_NODE_SCORE * (s - min), max - min)
}

/// Signed scores mapped linearly onto the common range; where all are equal
/// none is penalised.
pub open spec fn normalized_signed(scores: Seq<i64>) -> Seq<i64> {
    let max = largest(scores);
    let min = smallest(scores);
    if max == min {
        scores.map_values(|s: i64| MAX_NODE_SCORE)
    } else {
        scores.map_values(|s: i64| spread_score(s as int, min, max) as i64)
    }
}

proof fn spread_in_range(s: int, min: int, max: int)
    requires
        min <= s <= max,
        min < max,
    ensures
        0 <= spread_score(s, min, max) <= MAX_NODE_SCORE,
        s == min ==> spread_score(s, min, max) == 0,
        s == max ==> spread_score(s, min, max) == MAX_NODE_SCORE,
{
    let a = s - min;
    let b = max - min;
    assert(0 <= (100 * a) / b <= 100) by (nonlinear_arith)
        requires
            0 <= a <= b,
            b > 0,
    ;
    if a == b {
        assert((100 * a) / b == 100) by (nonlinear_arith)
            requires
                a == b,
                b > 0,
        ;
    }
}

/// Map a signed range linearly onto the common one.
pub fn normalize_signed(scores: &mut Vec<i64>)
    ensures
        final(scores)@ == normalized_signed(old(scores)@),
{
    let ghost before = scores@;
    let max: i64 = largest_of(scores);
    let min: i64 = smallest_of(scores);
    let n: usize = scores.len();
    let mut i: usize = 0;
    proof {
        largest_bounds_here(before);
    }
    if max == min {
        while i < n
            invariant
                i <= n == scores@.len() == before.len(),
                forall|k: int| 0 <= k < i ==> scores@[k] == MAX_NODE_SCORE,
            decreases n - i,
        {
            scores.set(i, MAX_NODE_SCORE);
            i += 1;
        }
        assert(scores@ =~= normalized_signed(before));
        return ;
    }
    while i < n
        invariant
            i <= n == scores@.len() == before.len(),
            min < max || n == 0,
            forall|k: int| 0 <= k < n ==> min <= #[trigger] before[k] <= max,
            forall|k: int|
                0 <= k < i ==> scores@[k] == spread_score(before[k] as int, min as int, max as int),
            forall|k: int| i <= k < n ==> scores@[k] == before[k],
        decreases n - i,
    {
        let above: i128 = (scores[i] as i128) - (min as i128);
        let span: i128 = (max as i128) - (min as i128);
        proof {
            assert(min <= before[i as int] <= max);
            spread_in_range(before[i as int] as int, min as int, max as int);
        }
        let value: i128 = divide((MAX_NODE_SCORE as i128) * above, span);
        scores.set(i, value as i64);
        i += 1;
    }
    assert(scores@ =~= normalized_signed(before));
}

proof fn largest_bounds_here(s: Seq<i64>)
    ensures
        forall|k: int| 0 <= k < s.len() ==> smallest(s) <= #[trigger] s[k] <= largest(s),
        s.len() > 0 ==> smallest(s) <= largest(s),
{
    crate::numbers::largest_bounds(s);
    crate::numbers::smallest_bounds(s);
    if s.len() > 0 {
        assert(smallest(s) <= s[0] <= largest(s));
    }
}

/// Every mapped score lies in the common range; the best node gets its top.
pub proof fn normalized_signed_in_range(scores: Seq<i64>, i: int)
    requires
        0 <= i < scores.len(),
    ensures
        0 <= normalized_signed(scores)[i] <= MAX_NODE_SCORE,
        scores[i] == largest(scores) ==> normalized_signed(scores)[i] == MAX_NODE_SCORE,
{
    largest_bounds_here(scores);
    if smallest(scores) != largest(scores) {
        spread_in_range(scores[i] as int, smallest(scores), largest(scores));
    }
}

impl ScorePlugin for InterPodAffinity {
    open spec fn score_view(&self, state: CycleState, pod: PodInfo, node: NodeInfo) -> int {
        match state.value::<AffinityState>(NAME@) {
            None => 0,
            Some(s) => affinity_score(s, node, self.hard_pod_affinity_weight as int),
        }
    }

    fn score(&self, state: &CycleState, pod: &PodInfo, node: &NodeInfo) -> (r: Result<i64, Status>)
        ensures
            r is Ok,
    {
        match state.read::<AffinityState>(NAME) {
            None => Ok(0),
            Some(s) => {
                let toward: i128 = sum_weights(
                    &s.preferred_affinity,
                    &s.preferred_affinity_counts,
                    node,
                );
                let away: i128 = sum_weights(
                    &s.preferred_anti_affinity,
                    &s.preferred_anti_affinity_counts,
                    node,
                );
                let asked: i128 = pull(&s.existing_affinity, node) as i128;
                let hard: i128 = self.hard_pod_affinity_weight as i128;
                proof {
                    assert(-0x8000_0000 * 0x8000_0000_0000_0000 <= hard * asked <= 0x8000_0000
                        * 0x8000_0000_0000_0000) by (nonlinear_arith)
                        requires
                            -0x8000_0000 <= hard <= 0x7fff_ffff,
                            -0x8000_0000_0000_0000 <= asked <= 0x7fff_ffff_ffff_ffff,
                    ;
                }
                Ok(narrow(toward - away + hard * asked))
            },
        }
    }

    fn normalize(&self, state: &CycleState, pod: &PodInfo, scores: &mut Vec<i64>) -> (r: Status)
        ensures
            r@ == success(),
            final(scores)@ == normalized_signed(old(scores)@),
    {
        normalize_signed(scores);
        Status::success()
    }

    fn weight(&self) -> (r: i64)
        ensures
            r == 2,
    {
        2
    }
}

/// A domain spans nodes: the verdict on a node rests on its labels alone, so
/// two nodes with the same labels get the same verdict and the same score.
pub proof fn domains_span_nodes(s: AffinityState, a: NodeInfo, b: NodeInfo, hard_weight: int)
    requires
        a.labels == b.labels,
    ensures
        affinity_verdict(s, a) == affinity_verdict(s, b),
        affinity_score(s, a, hard_weight) == affinity_score(s, b, hard_weight),
{
    same_first_verdict(s.required_affinity@, s.affinity_counts@, s.affinity_counts@, a, b, false);
    same_first_verdict(
        s.required_anti_affinity@,
        s.anti_affinity_counts@,
        s.anti_affinity_counts@,
        a,
        b,
        true,
    );
    same_weight_sum(
        s.preferred_affinity@,
        s.preferred_affinity_counts@,
        s.preferred_affinity_counts@,
        a,
        b,
    );
    same_weight_sum(
        s.preferred_anti_affinity@,
        s.preferred_anti_affinity_counts@,
        s.preferred_anti_affinity_counts@,
        a,
        b,
    );
    assert(forbidden_here(s.existing_anti_affinity, a) == forbidden_here(
        s.existing_anti_affinity,
        b,
    ));
}

/// The counts of the first `n` terms are the same.
spec fn same_counts(a: Seq<Domains>, b: Seq<Domains>, n: int) -> bool {
    forall|i: int, k: Seq<char>, v: Seq<char>|
        0 <= i < n ==> #[trigger] count_of(a, i, k, v) == count_of(b, i, k, v)
}

proof fn same_first_verdict(
    terms: Seq<PodAffinityTerm>,
    counts: Seq<Domains>,
    others: Seq<Domains>,
    a: NodeInfo,
    b: NodeInfo,
    anti: bool,
)
    requires
        a.labels == b.labels,
        same_counts(counts, others, terms.len() as int),
    ensures
        first_verdict(terms, counts, a, anti) == first_verdict(terms, others, b, anti),
    decreases terms.len(),
{
    if terms.len() > 0 {
        same_first_verdict(terms.drop_last(), counts, others, a, b, anti);
        match a.labels.text(terms.last().topology_key@) {
            Some(v) => {
                assert(count_of(counts, terms.len() - 1, terms.last().topology_key@, v)
                    == count_of(others, terms.len() - 1, terms.last().topology_key@, v));
            },
            None => {},
        }
    }
}

proof fn same_weight_sum(
    terms: Seq<WeightedPodAffinityTerm>,
    counts: Seq<Domains>,
    others: Seq<Domains>,
    a: NodeInfo,
    b: NodeInfo,
)
    requires
        a.labels == b.labels,
        same_counts(counts, others, terms.len() as int),
    ensures
        weight_sum(terms, counts, a) == weight_sum(terms, others, b),
    decreases terms.len(),
{
    if terms.len() > 0 {
        same_weight_sum(terms.drop_last(), counts, others, a, b);
        let key = terms.last().pod_affinity_term.topology_key@;
        match a.labels.text(key) {
            Some(v) => {
                assert(count_of(counts, terms.len() - 1, key, v) == count_of(
                    others,
                    terms.len() - 1,
                    key,
                    v,
                ));
            },
            None => {},
        }
    }
}

proof fn same_label_sum(a: Domains, b: Domains, labels: Seq<(String, String)>, n: int)
    requires
        forall|k: Seq<char>, v: Seq<char>| #[trigger] a.count(k, v) == b.count(k, v),
    ensures
        label_sum(a, labels, n) == label_sum(b, labels, n),
    decreases n,
{
    if 0 < n <= labels.len() {
        same_label_sum(a, b, labels, n - 1);
        assert(a.count(labels[n - 1].0@, labels[n - 1].1@) == b.count(
            labels[n - 1].0@,
            labels[n - 1].1@,
        ));
    }
}

/// Two cycles keep the same terms and the same counts.
pub open spec fn same_survey(a: AffinityState, b: AffinityState) -> bool {
    &&& a.required_affinity@ == b.required_affinity@
    &&& a.required_anti_affinity@ == b.required_anti_affinity@
    &&& a.preferred_affinity@ == b.preferred_affinity@
    &&& a.preferred_anti_affinity@ == b.preferred_anti_affinity@
    &&& forall|i: int, k: Seq<char>, v: Seq<char>|
        0 <= i < a.required_affinity@.len() ==> #[trigger] count_of(a.affinity_counts@, i, k, v)
            == count_of(b.affinity_counts@, i, k, v)
    &&& forall|i: int, k: Seq<char>, v: Seq<char>|
        0 <= i < a.required_anti_affinity@.len() ==> #[trigger] count_of(
            a.anti_affinity_counts@,
            i,
            k,
            v,
        ) == count_of(b.anti_affinity_counts@, i, k, v)
    &&& forall|i: int, k: Seq<char>, v: Seq<char>|
        0 <= i < a.preferred_affinity@.len() ==> #[trigger] count_of(
            a.preferred_affinity_counts@,
            i,
            k,
            v,
        ) == count_of(b.preferred_affinity_counts@, i, k, v)
    &&& forall|i: int, k: Seq<char>, v: Seq<char>|
        0 <= i < a.preferred_anti_affinity@.len() ==> #[trigger] count_of(
            a.preferred_anti_affinity_counts@,
            i,
            k,
            v,
        ) == count_of(b.preferred_anti_affinity_counts@, i, k, v)
    &&& forall|k: Seq<char>, v: Seq<char>| #[trigger]
        a.existing_anti_affinity.count(k, v) == b.existing_anti_affinity.count(k, v)
    &&& forall|k: Seq<char>, v: Seq<char>| #[trigger]
        a.existing_affinity.count(k, v) == b.existing_affinity.count(k, v)
}

proof fn same_survey_decides(a: AffinityState, b: AffinityState, node: NodeInfo, hard_weight: int)
    requires
        same_survey(a, b),
    ensures
        affinity_verdict(a, node) == affinity_verdict(b, node),
        affinity_score(a, node, hard_weight) == affinity_score(b, node, hard_weight),
{
    same_first_verdict(
        a.required_affinity@,
        a.affinity_counts@,
        b.affinity_counts@,
        node,
        node,
        false,
    );
    same_first_verdict(
        a.required_anti_affinity@,
        a.anti_affinity_counts@,
        b.anti_affinity_counts@,
        node,
        node,
        true,
    );
    same_weight_sum(
        a.preferred_affinity@,
        a.preferred_affinity_counts@,
        b.preferred_affinity_counts@,
        node,
        node,
    );
    same_weight_sum(
        a.preferred_anti_affinity@,
        a.preferred_anti_affinity_counts@,
        b.preferred_anti_affinity_counts@,
        node,
        node,
    );
    let labels = node.labels.entries@;
    same_label_sum(a.existing_affinity, b.existing_affinity, labels, labels.len() as int);
    if forbidden_here(a.existing_anti_affinity, node) {
        let (k, v) = choose|k: Seq<char>, v: Seq<char>| #[trigger]
            a.existing_anti_affinity.count(k, v) > 0 && node.labels.carries(k, v);
        assert(b.existing_anti_affinity.count(k, v) > 0);
    }
    if forbidden_here(b.existing_anti_affinity, node) {
        let (k, v) = choose|k: Seq<char>, v: Seq<char>| #[trigger]
            b.existing_anti_affinity.count(k, v) > 0 && node.labels.carries(k, v);
        assert(a.existing_anti_affinity.count(k, v) > 0);
    }
}

/// A pod that leaves undoes its joining: the counts of every term and every
/// rule are as before, where none reached the end of its type.
pub proof fn leaving_undoes_joining(
    s: AffinityState,
    joined: AffinityState,
    left: AffinityState,
    pod: PodInfo,
    other: PodInfo,
    node: NodeInfo,
)
    requires
        adjusted(s, joined, pod, other, node, true),
        adjusted(joined, left, pod, other, node, false),
        forall|i: int, k: Seq<char>, v: Seq<char>| #[trigger]
            count_of(s.affinity_counts@, i, k, v) < i64::MAX,
        forall|i: int, k: Seq<char>, v: Seq<char>| #[trigger]
            count_of(s.anti_affinity_counts@, i, k, v) < i64::MAX,
        forall|i: int, k: Seq<char>, v: Seq<char>| #[trigger]
            count_of(s.preferred_affinity_counts@, i, k, v) < i64::MAX,
        forall|i: int, k: Seq<char>, v: Seq<char>| #[trigger]
            count_of(s.preferred_anti_affinity_counts@, i, k, v) < i64::MAX,
        forall|k: Seq<char>, v: Seq<char>| #[trigger]
            joined.existing_anti_affinity.count(k, v) < i64::MAX,
        forall|k: Seq<char>, v: Seq<char>| #[trigger]
            joined.existing_affinity.count(k, v) < i64::MAX,
    ensures
        same_survey(left, s),
{
    let own = pod.namespace@;
    undone_terms(
        s.affinity_counts@,
        joined.affinity_counts@,
        left.affinity_counts@,
        s.required_affinity@,
        other,
        node,
        own,
        shared(s.namespace_labels),
    );
    undone_terms(
        s.anti_affinity_counts@,
        joined.anti_affinity_counts@,
        left.anti_affinity_counts@,
        s.required_anti_affinity@,
        other,
        node,
        own,
        shared(s.namespace_labels),
    );
    undone_terms(
        s.preferred_affinity_counts@,
        joined.preferred_affinity_counts@,
        left.preferred_affinity_counts@,
        bare_terms(s.preferred_affinity@),
        other,
        node,
        own,
        shared(s.namespace_labels),
    );
    undone_terms(
        s.preferred_anti_affinity_counts@,
        joined.preferred_anti_affinity_counts@,
        left.preferred_anti_affinity_counts@,
        bare_terms(s.preferred_anti_affinity@),
        other,
        node,
        own,
        shared(s.namespace_labels),
    );
    assert forall|k: Seq<char>, v: Seq<char>| #[trigger]
        left.existing_anti_affinity.count(k, v) == s.existing_anti_affinity.count(k, v) by {
        count_is_i64(s.existing_anti_affinity.entries@, k, v);
        let mid = joined.existing_anti_affinity.count(k, v);
    }
    assert forall|k: Seq<char>, v: Seq<char>| #[trigger]
        left.existing_affinity.count(k, v) == s.existing_affinity.count(k, v) by {
        count_is_i64(s.existing_affinity.entries@, k, v);
        let mid = joined.existing_affinity.count(k, v);
    }
}

proof fn undone_terms(
    s: Seq<Domains>,
    joined: Seq<Domains>,
    left: Seq<Domains>,
    terms: Seq<PodAffinityTerm>,
    other: PodInfo,
    node: NodeInfo,
    own: Seq<char>,
    known: StrMap<Labels>,
)
    requires
        all_tallied(s, joined, terms, other, node, own, known, true),
        all_tallied(joined, left, terms, other, node, own, known, false),
        forall|i: int, k: Seq<char>, v: Seq<char>| #[trigger] count_of(s, i, k, v) < i64::MAX,
    ensures
        forall|i: int, k: Seq<char>, v: Seq<char>|
            0 <= i < terms.len() ==> #[trigger] count_of(left, i, k, v) == count_of(s, i, k, v),
{
    assert forall|i: int, k: Seq<char>, v: Seq<char>|
        0 <= i < terms.len() implies #[trigger] count_of(left, i, k, v) == count_of(s, i, k, v) by {
        let mid = count_of(joined, i, k, v);
        let was = count_of(s, i, k, v);
        if i < s.len() {
            count_is_i64(s[i].entries@, k, v);
        }
    }
}

/// A placed pod that matches the term is in the node's domain.
pub open spec fn neighbour(
    term: PodAffinityTerm,
    pod: PodInfo,
    snapshot: Snapshot,
    node: NodeInfo,
) -> bool {
    exists|n: int, p: int|
        0 <= n < snapshot.nodes@.len() && 0 <= p < snapshot.nodes@[n].pods@.len()
            && node.labels.text(term.topology_key@) is Some && snapshot.nodes@[n].labels.text(
            term.topology_key@,
        ) == node.labels.text(term.topology_key@) && term_matches(
            term,
            *(#[trigger] snapshot.nodes@[n].pods@[p]),
            pod.namespace@,
            *snapshot.namespaces,
        )
}

/// A placed pod's anti-affinity, declared on a node among those that hold such
/// pods, forbids the incoming pod in a domain of the node.
pub open spec fn forbidden_at(pod: PodInfo, snapshot: Snapshot, node: NodeInfo) -> bool {
    exists|k: Seq<char>, v: Seq<char>|
        node.labels.carries(k, v) && #[trigger] cluster_forbids(
            snapshot.nodes_with_pods_with_required_anti_affinity@,
            pod,
            *snapshot.namespaces,
            k,
            v,
        ) > 0
}

proof fn pod_sum_positive(
    pods: Seq<Arc<PodInfo>>,
    node: NodeInfo,
    f: spec_fn(NodeInfo, PodInfo) -> nat,
)
    ensures
        pod_sum(pods, node, f) > 0 <==> exists|p: int|
            0 <= p < pods.len() && f(node, *#[trigger] pods[p]) > 0,
    decreases pods.len(),
{
    if pods.len() > 0 {
        let t = pods.drop_last();
        pod_sum_positive(t, node, f);
        if exists|p: int| 0 <= p < t.len() && f(node, *#[trigger] t[p]) > 0 {
            let p = choose|p: int| 0 <= p < t.len() && f(node, *#[trigger] t[p]) > 0;
            assert(f(node, *pods[p]) > 0);
        }
        if f(node, *pods.last()) > 0 {
            assert(f(node, *pods[pods.len() - 1]) > 0);
        }
        if exists|p: int| 0 <= p < pods.len() && f(node, *#[trigger] pods[p]) > 0 {
            let p = choose|p: int| 0 <= p < pods.len() && f(node, *#[trigger] pods[p]) > 0;
            if p < t.len() {
                assert(f(node, *t[p]) > 0);
            }
        }
    }
}

proof fn placed_sum_positive(nodes: Seq<Arc<NodeInfo>>, f: spec_fn(NodeInfo, PodInfo) -> nat)
    ensures
        placed_sum(nodes, f) > 0 <==> exists|n: int, p: int|
            0 <= n < nodes.len() && 0 <= p < nodes[n].pods@.len() && f(
                *nodes[n],
                *#[trigger] nodes[n].pods@[p],
            ) > 0,
    decreases nodes.len(),
{
    if nodes.len() > 0 {
        let t = nodes.drop_last();
        let last = nodes.len() - 1;
        placed_sum_positive(t, f);
        pod_sum_positive(nodes.last().pods@, shared(nodes.last()), f);
        if placed_sum(t, f) > 0 {
            let (n, p) = choose|n: int, p: int|
                0 <= n < t.len() && 0 <= p < t[n].pods@.len() && f(
                    *t[n],
                    *#[trigger] t[n].pods@[p],
                ) > 0;
            assert(f(*nodes[n], *nodes[n].pods@[p]) > 0);
        }
        if pod_sum(nodes.last().pods@, shared(nodes.last()), f) > 0 {
            let p = choose|p: int|
                0 <= p < nodes.last().pods@.len() && f(
                    *nodes.last(),
                    *#[trigger] nodes.last().pods@[p],
                ) > 0;
            assert(f(*nodes[last], *nodes[last].pods@[p]) > 0);
        }
        if exists|n: int, p: int|
            0 <= n < nodes.len() && 0 <= p < nodes[n].pods@.len() && f(
                *nodes[n],
                *#[trigger] nodes[n].pods@[p],
            ) > 0 {
            let (n, p) = choose|n: int, p: int|
                0 <= n < nodes.len() && 0 <= p < nodes[n].pods@.len() && f(
                    *nodes[n],
                    *#[trigger] nodes[n].pods@[p],
                ) > 0;
            if n < t.len() {
                assert(f(*t[n], *t[n].pods@[p]) > 0);
            } else {
                assert(f(*nodes.last(), *nodes.last().pods@[p]) > 0);
            }
        }
    }
}

proof fn hits_are_neighbours(
    term: PodAffinityTerm,
    pod: PodInfo,
    snapshot: Snapshot,
    node: NodeInfo,
    value: Seq<char>,
)
    requires
        node.labels.carries(term.topology_key@, value),
    ensures
        cluster_hits(
            term,
            snapshot.nodes@,
            pod.namespace@,
            *snapshot.namespaces,
            term.topology_key@,
            value,
        ) > 0 <==> neighbour(term, pod, snapshot, node),
{
    let key = term.topology_key@;
    let known = shared(snapshot.namespaces);
    let own = pod.namespace@;
    let f = hit_of(term, own, known, key, value);
    let nodes = snapshot.nodes@;
    placed_sum_positive(nodes, f);
    if placed_sum(nodes, f) > 0 {
        let (n, p) = choose|n: int, p: int|
            0 <= n < nodes.len() && 0 <= p < nodes[n].pods@.len() && f(
                *nodes[n],
                *#[trigger] nodes[n].pods@[p],
            ) > 0;
        assert(counts_in(term, *nodes[n].pods@[p], *nodes[n], own, known, key, value));
        assert(nodes[n].labels.text(key) == node.labels.text(key));
    }
    if neighbour(term, pod, snapshot, node) {
        let (n, p) = choose|n: int, p: int|
            0 <= n < nodes.len() && 0 <= p < nodes[n].pods@.len() && node.labels.text(key) is Some
                && nodes[n].labels.text(key) == node.labels.text(key) && term_matches(
                term,
                *(#[trigger] nodes[n].pods@[p]),
                own,
                known,
            );
        assert(f(*nodes[n], *nodes[n].pods@[p]) > 0);
    }
}

/// A term of a surveyed cluster is decided by the pods that match this term: an
/// affinity holds on a node exactly where one of them is in the node's domain,
/// and an anti-affinity where the node is in a domain and none of them is.
pub proof fn term_decides(
    counts: Seq<Domains>,
    terms: Seq<PodAffinityTerm>,
    pod: PodInfo,
    snapshot: Snapshot,
    node: NodeInfo,
    i: int,
)
    requires
        counted(counts, terms, pod, snapshot),
        0 <= i < terms.len(),
    ensures
        term_verdict(terms[i], counts, i, node, false) is None <==> neighbour(
            terms[i],
            pod,
            snapshot,
            node,
        ),
        term_verdict(terms[i], counts, i, node, true) is None <==> node.labels.text(
            terms[i].topology_key@,
        ) is Some && !neighbour(terms[i], pod, snapshot, node),
        met(counts, i, terms[i].topology_key@, node) <==> neighbour(terms[i], pod, snapshot, node),
{
    let key = terms[i].topology_key@;
    match node.labels.text(key) {
        Some(value) => {
            hits_are_neighbours(terms[i], pod, snapshot, node, value);
            let n = count_of(counts, i, key, value);
        },
        None => {},
    }
}

proof fn no_verdict(
    terms: Seq<PodAffinityTerm>,
    counts: Seq<Domains>,
    node: NodeInfo,
    anti: bool,
)
    ensures
        first_verdict(terms, counts, node, anti) is None <==> forall|i: int|
            0 <= i < terms.len() ==> term_verdict(#[trigger] terms[i], counts, i, node, anti)
                is None,
    decreases terms.len(),
{
    if terms.len() > 0 {
        let t = terms.drop_last();
        no_verdict(t, counts, node, anti);
        if first_verdict(terms, counts, node, anti) is None {
            assert forall|i: int| 0 <= i < terms.len() implies term_verdict(
                #[trigger] terms[i],
                counts,
                i,
                node,
                anti,
            ) is None by {
                if i < t.len() {
                    assert(t[i] == terms[i]);
                }
            }
        }
        if forall|i: int|
            0 <= i < terms.len() ==> term_verdict(#[trigger] terms[i], counts, i, node, anti)
                is None {
            assert forall|i: int| 0 <= i < t.len() implies term_verdict(
                #[trigger] t[i],
                counts,
                i,
                node,
                anti,
            ) is None by {
                assert(terms[i] == t[i]);
            }
            assert(term_verdict(terms[terms.len() - 1], counts, terms.len() - 1, node, anti)
                is None);
        }
    }
}

/// Of a surveyed cluster: a node passes exactly where every affinity term has a
/// matching pod in the node's domain, every anti-affinity term has the node in
/// a domain without one, and no placed pod's rule forbids the incoming pod
/// there.
pub proof fn survey_decides(s: AffinityState, pod: PodInfo, snapshot: Snapshot, node: NodeInfo)
    requires
        surveyed(s, pod, snapshot),
    ensures
        affinity_verdict(s, node) == success() <==> {
            &&& forall|i: int|
                0 <= i < affinity_of(pod).len() ==> neighbour(
                    #[trigger] affinity_of(pod)[i],
                    pod,
                    snapshot,
                    node,
                )
            &&& forall|i: int|
                0 <= i < anti_affinity_of(pod).len() ==> node.labels.text(
                    (#[trigger] anti_affinity_of(pod)[i]).topology_key@,
                ) is Some && !neighbour(anti_affinity_of(pod)[i], pod, snapshot, node)
            &&& !forbidden_at(pod, snapshot, node)
        },
{
    let near = affinity_of(pod);
    let far = anti_affinity_of(pod);
    no_verdict(near, s.affinity_counts@, node, false);
    no_verdict(far, s.anti_affinity_counts@, node, true);
    assert forall|i: int| 0 <= i < near.len() implies term_verdict(
        #[trigger] near[i],
        s.affinity_counts@,
        i,
        node,
        false,
    ) is None <==> neighbour(near[i], pod, snapshot, node) by {
        term_decides(s.affinity_counts@, near, pod, snapshot, node, i);
    }
    assert forall|i: int| 0 <= i < far.len() implies term_verdict(
        #[trigger] far[i],
        s.anti_affinity_counts@,
        i,
        node,
        true,
    ) is None <==> node.labels.text(far[i].topology_key@) is Some && !neighbour(
        far[i],
        pod,
        snapshot,
        node,
    ) by {
        term_decides(s.anti_affinity_counts@, far, pod, snapshot, node, i);
    }
    let index = snapshot.nodes_with_pods_with_required_anti_affinity@;
    let known = shared(snapshot.namespaces);
    if forbidden_here(s.existing_anti_affinity, node) {
        let (k, v) = choose|k: Seq<char>, v: Seq<char>| #[trigger]
            s.existing_anti_affinity.count(k, v) > 0 && node.labels.carries(k, v);
        assert(cluster_forbids(index, pod, known, k, v) > 0);
    }
    if forbidden_at(pod, snapshot, node) {
        let (k, v) = choose|k: Seq<char>, v: Seq<char>|
            node.labels.carries(k, v) && #[trigger] cluster_forbids(index, pod, known, k, v) > 0;
        assert(s.existing_anti_affinity.count(k, v) > 0);
    }
}

/// The pods of a list that declare required anti-affinity.
pub open spec fn declaring(pods: Seq<Arc<PodInfo>>) -> Seq<Arc<PodInfo>>
    decreases pods.len(),
{
    if pods.len() == 0 {
        Seq::empty()
    } else if declares_anti_affinity(*pods.last()) {
        declaring(pods.drop_last()).push(pods.last())
    } else {
        declaring(pods.drop_last())
    }
}

/// The nodes of a list that hold such pods.
pub open spec fn holding(nodes: Seq<Arc<NodeInfo>>) -> Seq<Arc<NodeInfo>>
    decreases nodes.len(),
{
    if nodes.len() == 0 {
        Seq::empty()
    } else if nodes.last().pods_with_required_anti_affinity@.len() > 0 {
        holding(nodes.drop_last()).push(nodes.last())
    } else {
        holding(nodes.drop_last())
    }
}

/// A snapshot whose lists of pods and nodes with required anti-affinity are
/// those of its pods and nodes.
pub open spec fn indexed(snapshot: Snapshot) -> bool {
    &&& snapshot.nodes_with_pods_with_required_anti_affinity@ == holding(snapshot.nodes@)
    &&& forall|i: int|
        0 <= i < snapshot.nodes@.len() ==> (#[trigger] snapshot.nodes@[i]).pods_with_required_anti_affinity@
            == declaring(snapshot.nodes@[i].pods@)
}

proof fn silent_pods_forbid_nothing(
    pods: Seq<Arc<PodInfo>>,
    node: NodeInfo,
    pod: PodInfo,
    known: StrMap<Labels>,
    k: Seq<char>,
    v: Seq<char>,
)
    ensures
        pod_sum(declaring(pods), node, forbid_of(pod, known, k, v)) == pod_sum(
            pods,
            node,
            forbid_of(pod, known, k, v),
        ),
    decreases pods.len(),
{
    if pods.len() > 0 {
        silent_pods_forbid_nothing(pods.drop_last(), node, pod, known, k, v);
        let f = forbid_of(pod, known, k, v);
        if declares_anti_affinity(shared(pods.last())) {
            assert(declaring(pods).drop_last() =~= declaring(pods.drop_last()));
        } else {
            assert(anti_affinity_of(*pods.last()).len() == 0);
            assert(f(node, *pods.last()) == 0);
        }
    }
}

proof fn index_is_complete(
    nodes: Seq<Arc<NodeInfo>>,
    pod: PodInfo,
    known: StrMap<Labels>,
    k: Seq<char>,
    v: Seq<char>,
)
    requires
        forall|i: int|
            0 <= i < nodes.len() ==> (#[trigger] nodes[i]).pods_with_required_anti_affinity@
                == declaring(nodes[i].pods@),
    ensures
        cluster_forbids(holding(nodes), pod, known, k, v) == placed_sum(
            nodes,
            forbid_of(pod, known, k, v),
        ),
    decreases nodes.len(),
{
    if nodes.len() > 0 {
        let t = nodes.drop_last();
        assert forall|i: int| 0 <= i < t.len() implies (
        #[trigger] t[i]).pods_with_required_anti_affinity@ == declaring(t[i].pods@) by {
            assert(t[i] == nodes[i]);
        }
        index_is_complete(t, pod, known, k, v);
        let last = nodes[nodes.len() - 1];
        assert(last.pods_with_required_anti_affinity@ == declaring(last.pods@));
        silent_pods_forbid_nothing(last.pods@, shared(last), pod, known, k, v);
        if last.pods_with_required_anti_affinity@.len() > 0 {
            assert(holding(nodes).drop_last() =~= holding(t));
        } else {
            assert(pod_sum(declaring(last.pods@), *last, forbid_of(pod, known, k, v)) == 0);
        }
    }
}

/// One snapshot is another without the pod `p` of the node `n`.
pub open spec fn without_pod(s: Snapshot, t: Snapshot, n: int, p: int) -> bool {
    &&& 0 <= n < s.nodes@.len()
    &&& 0 <= p < s.nodes@[n].pods@.len()
    &&& t.namespaces == s.namespaces
    &&& t.nodes@.len() == s.nodes@.len()
    &&& forall|j: int| 0 <= j < s.nodes@.len() && j != n ==> #[trigger] t.nodes@[j] == s.nodes@[j]
    &&& t.nodes@[n].labels == s.nodes@[n].labels
    &&& t.nodes@[n].pods@ == s.nodes@[n].pods@.remove(p)
}

proof fn pod_sum_without(
    pods: Seq<Arc<PodInfo>>,
    p: int,
    node: NodeInfo,
    other: NodeInfo,
    f: spec_fn(NodeInfo, PodInfo) -> nat,
)
    requires
        0 <= p < pods.len(),
        forall|x: PodInfo| #[trigger] f(node, x) == f(other, x),
    ensures
        pod_sum(pods, node, f) == pod_sum(pods.remove(p), other, f) + f(node, *pods[p]),
    decreases pods.len(),
{
    if p == pods.len() - 1 {
        assert(pods.remove(p) =~= pods.drop_last());
        pod_sum_same(pods.drop_last(), node, other, f);
    } else {
        pod_sum_without(pods.drop_last(), p, node, other, f);
        assert(pods.remove(p).drop_last() =~= pods.drop_last().remove(p));
        assert(pods.remove(p).last() == pods.last());
    }
}

proof fn pod_sum_same(
    pods: Seq<Arc<PodInfo>>,
    node: NodeInfo,
    other: NodeInfo,
    f: spec_fn(NodeInfo, PodInfo) -> nat,
)
    requires
        forall|x: PodInfo| #[trigger] f(node, x) == f(other, x),
    ensures
        pod_sum(pods, node, f) == pod_sum(pods, other, f),
    decreases pods.len(),
{
    if pods.len() > 0 {
        pod_sum_same(pods.drop_last(), node, other, f);
    }
}

/// A sum over the placed pods is one pod's share more than without that pod.
pub proof fn placed_sum_without(
    nodes: Seq<Arc<NodeInfo>>,
    rest: Seq<Arc<NodeInfo>>,
    n: int,
    p: int,
    f: spec_fn(NodeInfo, PodInfo) -> nat,
)
    requires
        0 <= n < nodes.len() == rest.len(),
        0 <= p < nodes[n].pods@.len(),
        forall|j: int| 0 <= j < nodes.len() && j != n ==> #[trigger] rest[j] == nodes[j],
        rest[n].pods@ == nodes[n].pods@.remove(p),
        forall|x: PodInfo| #[trigger] f(*nodes[n], x) == f(*rest[n], x),
    ensures
        placed_sum(nodes, f) == placed_sum(rest, f) + f(*nodes[n], *nodes[n].pods@[p]),
    decreases nodes.len(),
{
    let last = nodes.len() - 1;
    if n == last {
        assert(nodes.drop_last() =~= rest.drop_last());
        pod_sum_without(nodes[n].pods@, p, shared(nodes[n]), shared(rest[n]), f);
    } else {
        assert(rest[last] == nodes[last]);
        let a = nodes.drop_last();
        let b = rest.drop_last();
        assert forall|j: int| 0 <= j < a.len() && j != n implies #[trigger] b[j] == a[j] by {
            assert(rest[j] == nodes[j]);
        }
        placed_sum_without(a, b, n, p, f);
    }
}

proof fn same_hits(
    terms: Seq<PodAffinityTerm>,
    target: PodInfo,
    a: NodeInfo,
    b: NodeInfo,
    own: Seq<char>,
    known: StrMap<Labels>,
    k: Seq<char>,
    v: Seq<char>,
)
    requires
        a.labels == b.labels,
    ensures
        hits(terms, target, a, own, known, k, v) == hits(terms, target, b, own, known, k, v),
    decreases terms.len(),
{
    if terms.len() > 0 {
        same_hits(terms.drop_last(), target, a, b, own, known, k, v);
    }
}

/// No count of a pod's survey reaches the end of its type.
pub open spec fn counts_fit(pod: PodInfo, snapshot: Snapshot) -> bool {
    &&& forall|term: PodAffinityTerm, k: Seq<char>, v: Seq<char>| #[trigger]
        cluster_hits(term, snapshot.nodes@, pod.namespace@, *snapshot.namespaces, k, v) < i64::MAX
    &&& forall|k: Seq<char>, v: Seq<char>| #[trigger]
        cluster_forbids(
            snapshot.nodes_with_pods_with_required_anti_affinity@,
            pod,
            *snapshot.namespaces,
            k,
            v,
        ) < i64::MAX
    &&& forall|k: Seq<char>, v: Seq<char>| #[trigger]
        cluster_attracts(snapshot.nodes@, pod, *snapshot.namespaces, k, v) < i64::MAX
}

proof fn terms_without(
    counts: Seq<Domains>,
    left: Seq<Domains>,
    fresh: Seq<Domains>,
    terms: Seq<PodAffinityTerm>,
    pod: PodInfo,
    s: Snapshot,
    t: Snapshot,
    n: int,
    p: int,
)
    requires
        counted(counts, terms, pod, s),
        counted(fresh, terms, pod, t),
        without_pod(s, t, n, p),
        counts_fit(pod, s),
        all_tallied(
            counts,
            left,
            terms,
            *s.nodes@[n].pods@[p],
            *s.nodes@[n],
            pod.namespace@,
            *s.namespaces,
            false,
        ),
    ensures
        forall|i: int, k: Seq<char>, v: Seq<char>|
            0 <= i < terms.len() ==> #[trigger] count_of(left, i, k, v) == count_of(fresh, i, k, v),
{
    assert forall|i: int, k: Seq<char>, v: Seq<char>|
        0 <= i < terms.len() implies #[trigger] count_of(left, i, k, v) == count_of(
        fresh,
        i,
        k,
        v,
    ) by {
        let f = hit_of(terms[i], pod.namespace@, *s.namespaces, k, v);
        assert forall|x: PodInfo| #[trigger] f(*s.nodes@[n], x) == f(*t.nodes@[n], x) by {}
        placed_sum_without(s.nodes@, t.nodes@, n, p, f);
        let a = count_of(counts, i, k, v);
        let b = count_of(fresh, i, k, v);
        assert(cluster_hits(terms[i], s.nodes@, pod.namespace@, *s.namespaces, k, v) < i64::MAX);
    }
}

/// Pretending that a placed pod left gives the survey of the cluster without
/// it, and pretending that it came back the survey of before.
pub proof fn leaving_is_a_survey_without(
    s: AffinityState,
    left: AffinityState,
    back: AffinityState,
    fresh: AffinityState,
    pod: PodInfo,
    snapshot: Snapshot,
    rest: Snapshot,
    n: int,
    p: int,
)
    requires
        indexed(snapshot),
        indexed(rest),
        without_pod(snapshot, rest, n, p),
        counts_fit(pod, snapshot),
        surveyed(s, pod, snapshot),
        surveyed(fresh, pod, rest),
        adjusted(s, left, pod, *snapshot.nodes@[n].pods@[p], *snapshot.nodes@[n], false),
        adjusted(left, back, pod, *snapshot.nodes@[n].pods@[p], *snapshot.nodes@[n], true),
    ensures
        same_survey(left, fresh),
        same_survey(back, s),
{
    let known = shared(snapshot.namespaces);
    let node = shared(snapshot.nodes@[n]);
    let after = shared(rest.nodes@[n]);
    let other = shared(snapshot.nodes@[n].pods@[p]);
    terms_without(
        s.affinity_counts@,
        left.affinity_counts@,
        fresh.affinity_counts@,
        affinity_of(pod),
        pod,
        snapshot,
        rest,
        n,
        p,
    );
    terms_without(
        s.anti_affinity_counts@,
        left.anti_affinity_counts@,
        fresh.anti_affinity_counts@,
        anti_affinity_of(pod),
        pod,
        snapshot,
        rest,
        n,
        p,
    );
    terms_without(
        s.preferred_affinity_counts@,
        left.preferred_affinity_counts@,
        fresh.preferred_affinity_counts@,
        bare_terms(preferred_affinity_of(pod)),
        pod,
        snapshot,
        rest,
        n,
        p,
    );
    terms_without(
        s.preferred_anti_affinity_counts@,
        left.preferred_anti_affinity_counts@,
        fresh.preferred_anti_affinity_counts@,
        bare_terms(preferred_anti_affinity_of(pod)),
        pod,
        snapshot,
        rest,
        n,
        p,
    );
    assert forall|k: Seq<char>, v: Seq<char>| #[trigger]
        left.existing_anti_affinity.count(k, v) == fresh.existing_anti_affinity.count(k, v) by {
        let f = forbid_of(pod, known, k, v);
        assert forall|x: PodInfo| #[trigger] f(node, x) == f(after, x) by {
            same_hits(anti_affinity_of(x), pod, node, after, x.namespace@, known, k, v);
        }
        placed_sum_without(snapshot.nodes@, rest.nodes@, n, p, f);
        index_is_complete(snapshot.nodes@, pod, known, k, v);
        index_is_complete(rest.nodes@, pod, known, k, v);
        let a = s.existing_anti_affinity.count(k, v);
        let b = fresh.existing_anti_affinity.count(k, v);
        assert(f(node, other) == hits(
            anti_affinity_of(other),
            pod,
            node,
            other.namespace@,
            known,
            k,
            v,
        ));
        assert(cluster_forbids(
            snapshot.nodes_with_pods_with_required_anti_affinity@,
            pod,
            known,
            k,
            v,
        ) < i64::MAX);
    }
    assert forall|k: Seq<char>, v: Seq<char>| #[trigger]
        left.existing_affinity.count(k, v) == fresh.existing_affinity.count(k, v) by {
        let f = attract_of(pod, known, k, v);
        assert forall|x: PodInfo| #[trigger] f(node, x) == f(after, x) by {
            same_hits(affinity_of(x), pod, node, after, x.namespace@, known, k, v);
        }
        placed_sum_without(snapshot.nodes@, rest.nodes@, n, p, f);
        let a = s.existing_affinity.count(k, v);
        let b = fresh.existing_affinity.count(k, v);
        assert(f(node, other) == hits(
            affinity_of(other),
            pod,
            node,
            other.namespace@,
            known,
            k,
            v,
        ));
        assert(cluster_attracts(snapshot.nodes@, pod, known, k, v) < i64::MAX);
    }
    assert forall|k: Seq<char>, v: Seq<char>| #[trigger]
        back.existing_anti_affinity.count(k, v) == s.existing_anti_affinity.count(k, v) by {
        let a = s.existing_anti_affinity.count(k, v);
        let b = left.existing_anti_affinity.count(k, v);
        assert(cluster_forbids(
            snapshot.nodes_with_pods_with_required_anti_affinity@,
            pod,
            known,
            k,
            v,
        ) < i64::MAX);
    }
    assert forall|k: Seq<char>, v: Seq<char>| #[trigger]
        back.existing_affinity.count(k, v) == s.existing_affinity.count(k, v) by {
        let a = s.existing_affinity.count(k, v);
        let b = left.existing_affinity.count(k, v);
        assert(cluster_attracts(snapshot.nodes@, pod, known, k, v) < i64::MAX);
    }
    terms_come_back(
        s.affinity_counts@,
        left.affinity_counts@,
        back.affinity_counts@,
        affinity_of(pod),
        pod,
        snapshot,
        n,
        p,
    );
    terms_come_back(
        s.anti_affinity_counts@,
        left.anti_affinity_counts@,
        back.anti_affinity_counts@,
        anti_affinity_of(pod),
        pod,
        snapshot,
        n,
        p,
    );
    terms_come_back(
        s.preferred_affinity_counts@,
        left.preferred_affinity_counts@,
        back.preferred_affinity_counts@,
        bare_terms(preferred_affinity_of(pod)),
        pod,
        snapshot,
        n,
        p,
    );
    terms_come_back(
        s.preferred_anti_affinity_counts@,
        left.preferred_anti_affinity_counts@,
        back.preferred_anti_affinity_counts@,
        bare_terms(preferred_anti_affinity_of(pod)),
        pod,
        snapshot,
        n,
        p,
    );
}

proof fn terms_come_back(
    counts: Seq<Domains>,
    left: Seq<Domains>,
    back: Seq<Domains>,
    terms: Seq<PodAffinityTerm>,
    pod: PodInfo,
    s: Snapshot,
    n: int,
    p: int,
)
    requires
        counted(counts, terms, pod, s),
        counts_fit(pod, s),
        all_tallied(
            counts,
            left,
            terms,
            *s.nodes@[n].pods@[p],
            *s.nodes@[n],
            pod.namespace@,
            *s.namespaces,
            false,
        ),
        all_tallied(
            left,
            back,
            terms,
            *s.nodes@[n].pods@[p],
            *s.nodes@[n],
            pod.namespace@,
            *s.namespaces,
            true,
        ),
    ensures
        forall|i: int, k: Seq<char>, v: Seq<char>|
            0 <= i < terms.len() ==> #[trigger] count_of(back, i, k, v) == count_of(counts, i, k, v),
{
    assert forall|i: int, k: Seq<char>, v: Seq<char>|
        0 <= i < terms.len() implies #[trigger] count_of(back, i, k, v) == count_of(
        counts,
        i,
        k,
        v,
    ) by {
        let a = count_of(counts, i, k, v);
        let b = count_of(left, i, k, v);
        assert(cluster_hits(terms[i], s.nodes@, pod.namespace@, *s.namespaces, k, v) < i64::MAX);
    }
}

/// Removing a placed pod gives every node the verdict and the score that it has
/// in the cluster without the pod; adding the pod again gives back those of
/// before.
pub proof fn removal_decides_as_without(
    plugin: InterPodAffinity,
    states: (CycleState, CycleState, CycleState, CycleState, CycleState, CycleState),
    statuses: (StatusView, StatusView),
    pod: PodInfo,
    snapshot: Snapshot,
    rest: Snapshot,
    n: int,
    p: int,
    node: NodeInfo,
)
    requires
        indexed(snapshot),
        indexed(rest),
        without_pod(snapshot, rest, n, p),
        counts_fit(pod, snapshot),
        ({
            let (begin, state, left, back, other_begin, other_state) = states;
            let v = *snapshot.nodes@[n].pods@[p];
            let on = *snapshot.nodes@[n];
            &&& plugin.pre_filter_view(begin, pod, snapshot, state, statuses.0)
            &&& plugin.adjusted_view(state, pod, v, on, false, left)
            &&& plugin.adjusted_view(left, pod, v, on, true, back)
            &&& plugin.pre_filter_view(other_begin, pod, rest, other_state, statuses.1)
        }),
    ensures
        ({
            let (begin, state, left, back, other_begin, other_state) = states;
            &&& plugin.filter_view(left, pod, node) == plugin.filter_view(other_state, pod, node)
            &&& plugin.score_view(left, pod, node) == plugin.score_view(other_state, pod, node)
            &&& plugin.filter_view(back, pod, node) == plugin.filter_view(state, pod, node)
            &&& plugin.score_view(back, pod, node) == plugin.score_view(state, pod, node)
        }),
{
    let (begin, state, left, back, other_begin, other_state) = states;
    let s = state.value::<AffinityState>(NAME@)->Some_0;
    let l = left.value::<AffinityState>(NAME@)->Some_0;
    let b = back.value::<AffinityState>(NAME@)->Some_0;
    let f = other_state.value::<AffinityState>(NAME@)->Some_0;
    leaving_is_a_survey_without(s, l, b, f, pod, snapshot, rest, n, p);
    let hard = plugin.hard_pod_affinity_weight as int;
    same_survey_decides(l, f, node, hard);
    same_survey_decides(b, s, node, hard);
}

proof fn weight_without(
    terms: Seq<WeightedPodAffinityTerm>,
    counts: Seq<Domains>,
    node: NodeInfo,
    i: int,
)
    requires
        counts.len() == terms.len(),
        0 <= i < terms.len(),
    ensures
        weight_sum(terms, counts, node) == weight_sum(terms.remove(i), counts.remove(i), node)
            + if met(counts, i, terms[i].pod_affinity_term.topology_key@, node) {
            terms[i].weight as int
        } else {
            0
        },
    decreases terms.len(),
{
    let last = terms.len() - 1;
    let t = terms.drop_last();
    let c = counts.drop_last();
    assert forall|x: int, k: Seq<char>, v: Seq<char>|
        0 <= x < last implies #[trigger] count_of(counts, x, k, v) == count_of(c, x, k, v) by {}
    same_weight_sum(t, counts, c, node, node);
    if i == last {
        assert(terms.remove(i) =~= t);
        assert(counts.remove(i) =~= c);
    } else {
        weight_without(t, c, node, i);
        assert(terms.remove(i).drop_last() =~= t.remove(i));
        let d = counts.remove(i);
        let e = c.remove(i);
        assert forall|x: int, k: Seq<char>, v: Seq<char>|
            0 <= x < last - 1 implies #[trigger] count_of(d, x, k, v) == count_of(e, x, k, v) by {}
        same_weight_sum(t.remove(i), d, e, node, node);
        let key = terms.last().pod_affinity_term.topology_key@;
        assert(terms.remove(i).last() == terms.last());
        match node.labels.text(key) {
            Some(v) => {
                assert(count_of(d, last - 1, key, v) == count_of(counts, last, key, v));
                let ki = terms[i].pod_affinity_term.topology_key@;
            },
            None => {},
        }
        match node.labels.text(terms[i].pod_affinity_term.topology_key@) {
            Some(v) => {
                assert(count_of(c, i, terms[i].pod_affinity_term.topology_key@, v) == count_of(
                    counts,
                    i,
                    terms[i].pod_affinity_term.topology_key@,
                    v,
                ));
            },
            None => {},
        }
    }
}

proof fn counted_without(
    counts: Seq<Domains>,
    fewer: Seq<Domains>,
    terms: Seq<WeightedPodAffinityTerm>,
    pod: PodInfo,
    lesser: PodInfo,
    snapshot: Snapshot,
    i: int,
    node: NodeInfo,
)
    requires
        0 <= i < terms.len(),
        counted(counts, bare_terms(terms), pod, snapshot),
        counted(fewer, bare_terms(terms.remove(i)), lesser, snapshot),
        lesser.namespace@ == pod.namespace@,
    ensures
        weight_sum(terms.remove(i), fewer, node) == weight_sum(
            terms.remove(i),
            counts.remove(i),
            node,
        ),
{
    let rest = terms.remove(i);
    let d = counts.remove(i);
    assert forall|x: int, k: Seq<char>, v: Seq<char>|
        0 <= x < rest.len() implies #[trigger] count_of(fewer, x, k, v) == count_of(d, x, k, v) by {
        let y = if x < i {
            x
        } else {
            x + 1
        };
        assert(count_of(d, x, k, v) == count_of(counts, y, k, v));
        assert(bare_terms(rest)[x] == bare_terms(terms)[y]);
    }
    same_weight_sum(rest, fewer, d, node, node);
}

proof fn same_lists(
    counts: Seq<Domains>,
    others: Seq<Domains>,
    terms: Seq<WeightedPodAffinityTerm>,
    pod: PodInfo,
    lesser: PodInfo,
    snapshot: Snapshot,
    node: NodeInfo,
)
    requires
        counted(counts, bare_terms(terms), pod, snapshot),
        counted(others, bare_terms(terms), lesser, snapshot),
        lesser.namespace@ == pod.namespace@,
    ensures
        weight_sum(terms, counts, node) == weight_sum(terms, others, node),
{
    assert forall|x: int, k: Seq<char>, v: Seq<char>|
        0 <= x < terms.len() implies #[trigger] count_of(counts, x, k, v) == count_of(
        others,
        x,
        k,
        v,
    ) by {
        let a = count_of(others, x, k, v);
        assert(bare_terms(terms)[x] == terms[x].pod_affinity_term);
    }
    same_weight_sum(terms, counts, others, node, node);
}

proof fn same_target(
    terms: Seq<PodAffinityTerm>,
    pod: PodInfo,
    lesser: PodInfo,
    node: NodeInfo,
    own: Seq<char>,
    known: StrMap<Labels>,
    k: Seq<char>,
    v: Seq<char>,
)
    requires
        lesser.namespace@ == pod.namespace@,
        lesser.labels == pod.labels,
    ensures
        hits(terms, pod, node, own, known, k, v) == hits(terms, lesser, node, own, known, k, v),
    decreases terms.len(),
{
    if terms.len() > 0 {
        same_target(terms.drop_last(), pod, lesser, node, own, known, k, v);
    }
}

proof fn same_pod_sum(
    pods: Seq<Arc<PodInfo>>,
    node: NodeInfo,
    f: spec_fn(NodeInfo, PodInfo) -> nat,
    g: spec_fn(NodeInfo, PodInfo) -> nat,
)
    requires
        forall|n: NodeInfo, p: PodInfo| #[trigger] f(n, p) == g(n, p),
    ensures
        pod_sum(pods, node, f) == pod_sum(pods, node, g),
    decreases pods.len(),
{
    if pods.len() > 0 {
        same_pod_sum(pods.drop_last(), node, f, g);
    }
}

proof fn same_placed_sum(
    nodes: Seq<Arc<NodeInfo>>,
    f: spec_fn(NodeInfo, PodInfo) -> nat,
    g: spec_fn(NodeInfo, PodInfo) -> nat,
)
    requires
        forall|n: NodeInfo, p: PodInfo| #[trigger] f(n, p) == g(n, p),
    ensures
        placed_sum(nodes, f) == placed_sum(nodes, g),
    decreases nodes.len(),
{
    if nodes.len() > 0 {
        same_placed_sum(nodes.drop_last(), f, g);
        same_pod_sum(nodes.last().pods@, shared(nodes.last()), f, g);
    }
}

proof fn same_pull(
    s: AffinityState,
    t: AffinityState,
    pod: PodInfo,
    lesser: PodInfo,
    snapshot: Snapshot,
    node: NodeInfo,
)
    requires
        surveyed(s, pod, snapshot),
        surveyed(t, lesser, snapshot),
        lesser.namespace@ == pod.namespace@,
        lesser.labels == pod.labels,
    ensures
        pull_of(s.existing_affinity, node) == pull_of(t.existing_affinity, node),
{
    let known = shared(snapshot.namespaces);
    assert forall|k: Seq<char>, v: Seq<char>| #[trigger]
        s.existing_affinity.count(k, v) == t.existing_affinity.count(k, v) by {
        let f = attract_of(pod, known, k, v);
        let g = attract_of(lesser, known, k, v);
        assert forall|n: NodeInfo, p: PodInfo| #[trigger] f(n, p) == g(n, p) by {
            same_target(affinity_of(p), pod, lesser, n, p.namespace@, known, k, v);
        }
        same_placed_sum(snapshot.nodes@, f, g);
        let a = t.existing_affinity.count(k, v);
    }
    let labels = node.labels.entries@;
    same_label_sum(s.existing_affinity, t.existing_affinity, labels, labels.len() as int);
}

/// Every preference counts, wherever it stands in its list: a pod without one
/// preferred affinity scores a node lower by exactly that weight where a placed
/// pod that matches the term is in the node's domain, and the same elsewhere. A
/// pod without one preferred anti-affinity scores it higher by as much. Neither
/// score may be at the end of its type.
pub proof fn every_preference_counts(
    plugin: InterPodAffinity,
    states: (CycleState, CycleState, CycleState, CycleState),
    statuses: (StatusView, StatusView),
    pod: PodInfo,
    lesser: PodInfo,
    snapshot: Snapshot,
    node: NodeInfo,
    i: int,
    anti: bool,
)
    requires
        plugin.pre_filter_view(states.0, pod, snapshot, states.1, statuses.0),
        plugin.pre_filter_view(states.2, lesser, snapshot, states.3, statuses.1),
        lesser.namespace@ == pod.namespace@,
        lesser.labels == pod.labels,
        if anti {
            &&& 0 <= i < preferred_anti_affinity_of(pod).len()
            &&& preferred_anti_affinity_of(lesser) == preferred_anti_affinity_of(pod).remove(i)
            &&& preferred_affinity_of(lesser) == preferred_affinity_of(pod)
        } else {
            &&& 0 <= i < preferred_affinity_of(pod).len()
            &&& preferred_affinity_of(lesser) == preferred_affinity_of(pod).remove(i)
            &&& preferred_anti_affinity_of(lesser) == preferred_anti_affinity_of(pod)
        },
        i64::MIN < plugin.score_view(states.1, pod, node) < i64::MAX,
        i64::MIN < plugin.score_view(states.3, lesser, node) < i64::MAX,
    ensures
        ({
            let term = if anti {
                preferred_anti_affinity_of(pod)[i]
            } else {
                preferred_affinity_of(pod)[i]
            };
            let change = plugin.score_view(states.1, pod, node) - plugin.score_view(
                states.3,
                lesser,
                node,
            );
            if !neighbour(term.pod_affinity_term, pod, snapshot, node) {
                change == 0
            } else if anti {
                change == -(term.weight as int)
            } else {
                change == term.weight
            }
        }),
{
    let s = states.1.value::<AffinityState>(NAME@)->Some_0;
    let t = states.3.value::<AffinityState>(NAME@)->Some_0;
    let near = preferred_affinity_of(pod);
    let far = preferred_anti_affinity_of(pod);
    same_pull(s, t, pod, lesser, snapshot, node);
    if anti {
        weight_without(far, s.preferred_anti_affinity_counts@, node, i);
        counted_without(
            s.preferred_anti_affinity_counts@,
            t.preferred_anti_affinity_counts@,
            far,
            pod,
            lesser,
            snapshot,
            i,
            node,
        );
        same_lists(
            s.preferred_affinity_counts@,
            t.preferred_affinity_counts@,
            near,
            pod,
            lesser,
            snapshot,
            node,
        );
        term_decides(
            s.preferred_anti_affinity_counts@,
            bare_terms(far),
            pod,
            snapshot,
            node,
            i,
        );
        assert(bare_terms(far)[i] == far[i].pod_affinity_term);
    } else {
        weight_without(near, s.preferred_affinity_counts@, node, i);
        counted_without(
            s.preferred_affinity_counts@,
            t.preferred_affinity_counts@,
            near,
            pod,
            lesser,
            snapshot,
            i,
            node,
        );
        same_lists(
            s.preferred_anti_affinity_counts@,
            t.preferred_anti_affinity_counts@,
            far,
            pod,
            lesser,
            snapshot,
            node,
        );
        term_decides(s.preferred_affinity_counts@, bare_terms(near), pod, snapshot, node, i);
        assert(bare_terms(near)[i] == near[i].pod_affinity_term);
    }
}

/// A pod without preferences, which no placed pod asks for, scores every node
/// alike: nothing.
pub proof fn indifference_scores_nothing(
    plugin: InterPodAffinity,
    before: CycleState,
    pod: PodInfo,
    snapshot: Snapshot,
    state: CycleState,
    status: StatusView,
    node: NodeInfo,
)
    requires
        plugin.pre_filter_view(before, pod, snapshot, state, status),
        preferred_affinity_of(pod).len() == 0,
        preferred_anti_affinity_of(pod).len() == 0,
        plugin.hard_pod_affinity_weight == 0 || !attracted_somewhere(pod, snapshot),
    ensures
        plugin.score_view(state, pod, node) == 0,
{
    let s = state.value::<AffinityState>(NAME@)->Some_0;
    let hard = plugin.hard_pod_affinity_weight as int;
    let pulled = pull_of(s.existing_affinity, node);
    if hard == 0 {
        assert(hard * pulled == 0) by (nonlinear_arith)
            requires
                hard == 0,
        ;
    } else {
        let labels = node.labels.entries@;
        assert forall|k: Seq<char>, v: Seq<char>| #[trigger]
            s.existing_affinity.count(k, v) == 0 by {
            assert(!(cluster_attracts(snapshot.nodes@, pod, *snapshot.namespaces, k, v) > 0));
        }
        nothing_pulls(s.existing_affinity, labels, labels.len() as int);
        assert(hard * pulled == 0) by (nonlinear_arith)
            requires
                pulled == 0,
        ;
    }
}

proof fn nothing_pulls(counts: Domains, labels: Seq<(String, String)>, n: int)
    requires
        forall|k: Seq<char>, v: Seq<char>| #[trigger] counts.count(k, v) == 0,
    ensures
        label_sum(counts, labels, n) == 0,
    decreases n,
{
    if 0 < n <= labels.len() {
        nothing_pulls(counts, labels, n - 1);
        assert(counts.count(labels[n - 1].0@, labels[n - 1].1@) == 0);
    }
}

/// A term of a placed pod is about the incoming pod and about the node: the
/// incoming pod matches it, and the node shares the domain of the node that the
/// placed pod is on.
pub open spec fn asks_here(
    term: PodAffinityTerm,
    holder: PodInfo,
    on: NodeInfo,
    pod: PodInfo,
    known: StrMap<Labels>,
    node: NodeInfo,
) -> bool {
    &&& term_matches(term, pod, holder.namespace@, known)
    &&& on.labels.text(term.topology_key@) is Some
    &&& on.labels.text(term.topology_key@) == node.labels.text(term.topology_key@)
}

proof fn hits_positive(
    terms: Seq<PodAffinityTerm>,
    target: PodInfo,
    node: NodeInfo,
    own: Seq<char>,
    known: StrMap<Labels>,
    k: Seq<char>,
    v: Seq<char>,
)
    ensures
        hits(terms, target, node, own, known, k, v) > 0 <==> exists|i: int|
            0 <= i < terms.len() && counts_in(#[trigger] terms[i], target, node, own, known, k, v),
    decreases terms.len(),
{
    if terms.len() > 0 {
        let t = terms.drop_last();
        hits_positive(t, target, node, own, known, k, v);
        if exists|i: int|
            0 <= i < t.len() && counts_in(#[trigger] t[i], target, node, own, known, k, v) {
            let i = choose|i: int|
                0 <= i < t.len() && counts_in(#[trigger] t[i], target, node, own, known, k, v);
            assert(counts_in(terms[i], target, node, own, known, k, v));
        }
        if counts_in(terms.last(), target, node, own, known, k, v) {
            assert(counts_in(terms[terms.len() - 1], target, node, own, known, k, v));
        }
        if exists|i: int|
            0 <= i < terms.len() && counts_in(#[trigger] terms[i], target, node, own, known, k, v) {
            let i = choose|i: int|
                0 <= i < terms.len() && counts_in(
                    #[trigger] terms[i],
                    target,
                    node,
                    own,
                    known,
                    k,
                    v,
                );
            if i < t.len() {
                assert(counts_in(t[i], target, node, own, known, k, v));
            }
        }
    }
}

/// Some placed pod has a required anti-affinity term that is about the incoming
/// pod and the node.
pub open spec fn unwelcome(pod: PodInfo, snapshot: Snapshot, node: NodeInfo) -> bool {
    exists|n: int, p: int, t: int|
        0 <= n < snapshot.nodes@.len() && 0 <= p < snapshot.nodes@[n].pods@.len() && 0 <= t
            < anti_affinity_of(*snapshot.nodes@[n].pods@[p]).len() && asks_here(
            #[trigger] anti_affinity_of(*snapshot.nodes@[n].pods@[p])[t],
            *snapshot.nodes@[n].pods@[p],
            *snapshot.nodes@[n],
            pod,
            *snapshot.namespaces,
            node,
        )
}

proof fn forbidden_is_unwelcome(pod: PodInfo, snapshot: Snapshot, node: NodeInfo)
    requires
        indexed(snapshot),
    ensures
        forbidden_at(pod, snapshot, node) <==> unwelcome(pod, snapshot, node),
{
    let nodes = snapshot.nodes@;
    let index = snapshot.nodes_with_pods_with_required_anti_affinity@;
    let known = shared(snapshot.namespaces);
    if forbidden_at(pod, snapshot, node) {
        let (k, v) = choose|k: Seq<char>, v: Seq<char>|
            node.labels.carries(k, v) && #[trigger] cluster_forbids(index, pod, known, k, v) > 0;
        index_is_complete(nodes, pod, known, k, v);
        let f = forbid_of(pod, known, k, v);
        placed_sum_positive(nodes, f);
        let (n, p) = choose|n: int, p: int|
            0 <= n < nodes.len() && 0 <= p < nodes[n].pods@.len() && f(
                *nodes[n],
                *#[trigger] nodes[n].pods@[p],
            ) > 0;
        let holder = shared(nodes[n].pods@[p]);
        let on = shared(nodes[n]);
        let terms = anti_affinity_of(holder);
        hits_positive(terms, pod, on, holder.namespace@, known, k, v);
        let t = choose|t: int|
            0 <= t < terms.len() && counts_in(
                #[trigger] terms[t],
                pod,
                on,
                holder.namespace@,
                known,
                k,
                v,
            );
        assert(asks_here(
            anti_affinity_of(*snapshot.nodes@[n].pods@[p])[t],
            holder,
            on,
            pod,
            known,
            node,
        ));
    }
    if unwelcome(pod, snapshot, node) {
        let (n, p, t) = choose|n: int, p: int, t: int|
            0 <= n < snapshot.nodes@.len() && 0 <= p < snapshot.nodes@[n].pods@.len() && 0 <= t
                < anti_affinity_of(*snapshot.nodes@[n].pods@[p]).len() && asks_here(
                #[trigger] anti_affinity_of(*snapshot.nodes@[n].pods@[p])[t],
                *snapshot.nodes@[n].pods@[p],
                *snapshot.nodes@[n],
                pod,
                *snapshot.namespaces,
                node,
            );
        let holder = shared(nodes[n].pods@[p]);
        let on = shared(nodes[n]);
        let terms = anti_affinity_of(holder);
        let k = terms[t].topology_key@;
        let v = on.labels.text(k)->Some_0;
        assert(counts_in(terms[t], pod, on, holder.namespace@, known, k, v));
        hits_positive(terms, pod, on, holder.namespace@, known, k, v);
        let f = forbid_of(pod, known, k, v);
        assert(f(*nodes[n], *nodes[n].pods@[p]) > 0);
        placed_sum_positive(nodes, f);
        index_is_complete(nodes, pod, known, k, v);
        assert(cluster_forbids(index, pod, known, k, v) > 0 && node.labels.carries(k, v));
    }
}

/// A node passes exactly where every required affinity term of the pod has a
/// matching placed pod in the node's domain, every required anti-affinity term
/// has the node in a domain without one, and no placed pod's own anti-affinity is
/// about the pod there.
pub proof fn passing_means_welcome(
    plugin: InterPodAffinity,
    before: CycleState,
    pod: PodInfo,
    snapshot: Snapshot,
    state: CycleState,
    status: StatusView,
    node: NodeInfo,
)
    requires
        plugin.pre_filter_view(before, pod, snapshot, state, status),
        indexed(snapshot),
    ensures
        plugin.filter_view(state, pod, node) == success() <==> {
            &&& forall|i: int|
                0 <= i < affinity_of(pod).len() ==> neighbour(
                    #[trigger] affinity_of(pod)[i],
                    pod,
                    snapshot,
                    node,
                )
            &&& forall|i: int|
                0 <= i < anti_affinity_of(pod).len() ==> node.labels.text(
                    (#[trigger] anti_affinity_of(pod)[i]).topology_key@,
                ) is Some && !neighbour(anti_affinity_of(pod)[i], pod, snapshot, node)
            &&& !unwelcome(pod, snapshot, node)
        },
{
    let s = state.value::<AffinityState>(NAME@)->Some_0;
    survey_decides(s, pod, snapshot, node);
    forbidden_is_unwelcome(pod, snapshot, node);
}

/// The hits of a list of terms in the domains that the first `n` labels of a
/// node name.
spec fn label_hits(
    terms: Seq<PodAffinityTerm>,
    holder: PodInfo,
    on: NodeInfo,
    pod: PodInfo,
    known: StrMap<Labels>,
    labels: Seq<(String, String)>,
    n: int,
) -> nat
    decreases n,
{
    if n <= 0 || n > labels.len() {
        0
    } else {
        label_hits(terms, holder, on, pod, known, labels, n - 1) + if first_of_key(labels, n - 1) {
            hits(
                terms,
                pod,
                on,
                holder.namespace@,
                known,
                labels[n - 1].0@,
                labels[n - 1].1@,
            )
        } else {
            0
        }
    }
}

/// How many terms of a placed pod are about the incoming pod and the node.
pub open spec fn asking(
    terms: Seq<PodAffinityTerm>,
    holder: PodInfo,
    on: NodeInfo,
    pod: PodInfo,
    known: StrMap<Labels>,
    node: NodeInfo,
) -> nat {
    Set::new(
        |i: int|
            0 <= i < terms.len() && asks_here(terms[i], holder, on, pod, known, node),
    ).len()
}

proof fn asking_step(
    terms: Seq<PodAffinityTerm>,
    holder: PodInfo,
    on: NodeInfo,
    pod: PodInfo,
    known: StrMap<Labels>,
    node: NodeInfo,
)
    ensures
        Set::new(
            |i: int| 0 <= i < terms.len() && asks_here(terms[i], holder, on, pod, known, node),
        ).finite(),
        terms.len() == 0 ==> asking(terms, holder, on, pod, known, node) == 0,
        terms.len() > 0 ==> asking(terms, holder, on, pod, known, node) == asking(
            terms.drop_last(),
            holder,
            on,
            pod,
            known,
            node,
        ) + if asks_here(terms.last(), holder, on, pod, known, node) {
            1nat
        } else {
            0nat
        },
    decreases terms.len(),
{
    let all = Set::new(
        |i: int| 0 <= i < terms.len() && asks_here(terms[i], holder, on, pod, known, node),
    );
    if terms.len() == 0 {
        assert(all =~= Set::empty());
    } else {
        let t = terms.drop_last();
        asking_step(t, holder, on, pod, known, node);
        let rest = Set::new(
            |i: int| 0 <= i < t.len() && asks_here(t[i], holder, on, pod, known, node),
        );
        let last = terms.len() - 1;
        assert(terms[last] == terms.last());
        if asks_here(terms.last(), holder, on, pod, known, node) {
            assert(all =~= rest.insert(last));
        } else {
            assert(all =~= rest);
        }
    }
}

/// One term hits the domain of just one label of a node, if any.
proof fn term_hits_one_label(
    term: PodAffinityTerm,
    holder: PodInfo,
    on: NodeInfo,
    pod: PodInfo,
    known: StrMap<Labels>,
    node: NodeInfo,
    n: int,
)
    requires
        0 <= n <= node.labels.entries@.len(),
    ensures
        label_hits(seq![term], holder, on, pod, known, node.labels.entries@, n) == if asks_here(
            term,
            holder,
            on,
            pod,
            known,
            node,
        ) && (exists|i: int|
            0 <= i < n && (#[trigger] node.labels.entries@[i]).0@ == term.topology_key@) {
            1nat
        } else {
            0nat
        },
    decreases n,
{
    let labels = node.labels.entries@;
    let key = term.topology_key@;
    if n > 0 {
        term_hits_one_label(term, holder, on, pod, known, node, n - 1);
        let one = seq![term];
        let k = labels[n - 1].0@;
        let v = labels[n - 1].1@;
        assert(one.drop_last().len() == 0);
        reveal_with_fuel(hits, 2);
        assert(one.last() == term);
        if first_of_key(labels, n - 1) {
            crate::maps::find_key_at(labels, k, n - 1);
            assert(node.labels.text(k) == Some(v));
            if exists|i: int| 0 <= i < n - 1 && (#[trigger] labels[i]).0@ == key {
                let i = choose|i: int| 0 <= i < n - 1 && (#[trigger] labels[i]).0@ == key;
                assert(k != key);
                assert(0 <= i < n && labels[i].0@ == key);
            }
            if k == key {
                assert(0 <= n - 1 < n && labels[n - 1].0@ == key);
            }
            if exists|i: int| 0 <= i < n && (#[trigger] labels[i]).0@ == key {
                let i = choose|i: int| 0 <= i < n && (#[trigger] labels[i]).0@ == key;
                if i < n - 1 {
                    assert(0 <= i < n - 1 && labels[i].0@ == key);
                }
            }
        } else {
            let j = choose|j: int| 0 <= j < n - 1 && (#[trigger] labels[j]).0@ == labels[n - 1].0@;
            if exists|i: int| 0 <= i < n && (#[trigger] labels[i]).0@ == key {
                let i = choose|i: int| 0 <= i < n && (#[trigger] labels[i]).0@ == key;
                if i == n - 1 {
                    assert(0 <= j < n - 1 && labels[j].0@ == key);
                } else {
                    assert(0 <= i < n - 1 && labels[i].0@ == key);
                }
            }
            if exists|i: int| 0 <= i < n - 1 && (#[trigger] labels[i]).0@ == key {
                let i = choose|i: int| 0 <= i < n - 1 && (#[trigger] labels[i]).0@ == key;
                assert(0 <= i < n && labels[i].0@ == key);
            }
        }
    }
}

proof fn label_hits_step(
    terms: Seq<PodAffinityTerm>,
    holder: PodInfo,
    on: NodeInfo,
    pod: PodInfo,
    known: StrMap<Labels>,
    labels: Seq<(String, String)>,
    n: int,
)
    requires
        terms.len() > 0,
    ensures
        label_hits(terms, holder, on, pod, known, labels, n) == label_hits(
            terms.drop_last(),
            holder,
            on,
            pod,
            known,
            labels,
            n,
        ) + label_hits(seq![terms.last()], holder, on, pod, known, labels, n),
    decreases n,
{
    if 0 < n <= labels.len() {
        label_hits_step(terms, holder, on, pod, known, labels, n - 1);
        let one = seq![terms.last()];
        assert(one.drop_last().len() == 0);
        reveal_with_fuel(hits, 2);
        assert(one.last() == terms.last());
    }
}

proof fn label_hits_none(
    holder: PodInfo,
    on: NodeInfo,
    pod: PodInfo,
    known: StrMap<Labels>,
    labels: Seq<(String, String)>,
    n: int,
)
    ensures
        label_hits(Seq::empty(), holder, on, pod, known, labels, n) == 0,
    decreases n,
{
    if 0 < n <= labels.len() {
        label_hits_none(holder, on, pod, known, labels, n - 1);
    }
}

proof fn label_hits_are_asking(
    terms: Seq<PodAffinityTerm>,
    holder: PodInfo,
    on: NodeInfo,
    pod: PodInfo,
    known: StrMap<Labels>,
    node: NodeInfo,
)
    ensures
        label_hits(
            terms,
            holder,
            on,
            pod,
            known,
            node.labels.entries@,
            node.labels.entries@.len() as int,
        ) == asking(terms, holder, on, pod, known, node),
    decreases terms.len(),
{
    let labels = node.labels.entries@;
    let n = labels.len() as int;
    asking_step(terms, holder, on, pod, known, node);
    if terms.len() == 0 {
        assert(terms =~= Seq::empty());
        label_hits_none(holder, on, pod, known, labels, n);
    } else {
        label_hits_are_asking(terms.drop_last(), holder, on, pod, known, node);
        label_hits_step(terms, holder, on, pod, known, labels, n);
        let term = terms.last();
        term_hits_one_label(term, holder, on, pod, known, node, n);
        if asks_here(term, holder, on, pod, known, node) {
            let i = crate::maps::find_key_index(labels, term.topology_key@);
            assert(0 <= i < n && labels[i].0@ == term.topology_key@);
        }
    }
}

proof fn label_sum_grows(
    a: Domains,
    b: Domains,
    terms: Seq<PodAffinityTerm>,
    holder: PodInfo,
    on: NodeInfo,
    pod: PodInfo,
    known: StrMap<Labels>,
    labels: Seq<(String, String)>,
    n: int,
)
    requires
        0 <= n <= labels.len(),
        forall|k: Seq<char>, v: Seq<char>| #[trigger]
            a.count(k, v) == b.count(k, v) + hits(terms, pod, on, holder.namespace@, known, k, v),
        forall|k: Seq<char>, v: Seq<char>| 0 <= #[trigger] b.count(k, v),
        label_sum(a, labels, n) < i64::MAX,
    ensures
        0 <= label_sum(b, labels, n),
        label_sum(a, labels, n) == label_sum(b, labels, n) + label_hits(
            terms,
            holder,
            on,
            pod,
            known,
            labels,
            n,
        ),
    decreases n,
{
    if n > 0 {
        let k = labels[n - 1].0@;
        let v = labels[n - 1].1@;
        assert(a.count(k, v) == b.count(k, v) + hits(
            terms,
            pod,
            on,
            holder.namespace@,
            known,
            k,
            v,
        ));
        assert(0 <= b.count(k, v));
        label_sum_below(a, labels, n);
        label_sum_grows(a, b, terms, holder, on, pod, known, labels, n - 1);
    }
}

proof fn label_sum_below(a: Domains, labels: Seq<(String, String)>, n: int)
    requires
        0 < n <= labels.len(),
        a.count(labels[n - 1].0@, labels[n - 1].1@) >= 0,
        label_sum(a, labels, n) < i64::MAX,
    ensures
        label_sum(a, labels, n - 1) < i64::MAX,
{
}

/// Every required affinity term of a placed pod that is about the incoming pod
/// and the node counts the configured weight: for a pod without preferences, the
/// score is higher by the weight for each such term than it is in the cluster
/// without the placed pod. The sums may not reach the end of their type.
pub proof fn every_asking_term_counts(
    plugin: InterPodAffinity,
    states: (CycleState, CycleState, CycleState, CycleState),
    statuses: (StatusView, StatusView),
    pod: PodInfo,
    snapshot: Snapshot,
    rest: Snapshot,
    n: int,
    p: int,
    node: NodeInfo,
)
    requires
        plugin.pre_filter_view(states.0, pod, snapshot, states.1, statuses.0),
        plugin.pre_filter_view(states.2, pod, rest, states.3, statuses.1),
        without_pod(snapshot, rest, n, p),
        counts_fit(pod, snapshot),
        preferred_affinity_of(pod).len() == 0,
        preferred_anti_affinity_of(pod).len() == 0,
        states.1.value::<AffinityState>(NAME@) matches Some(s) && pull_of(
            s.existing_affinity,
            node,
        ) < i64::MAX,
        i64::MIN < plugin.score_view(states.1, pod, node) < i64::MAX,
        i64::MIN < plugin.score_view(states.3, pod, node) < i64::MAX,
    ensures
        plugin.score_view(states.1, pod, node) == plugin.score_view(states.3, pod, node)
            + plugin.hard_pod_affinity_weight * asking(
            affinity_of(*snapshot.nodes@[n].pods@[p]),
            *snapshot.nodes@[n].pods@[p],
            *snapshot.nodes@[n],
            pod,
            *snapshot.namespaces,
            node,
        ),
{
    let s = states.1.value::<AffinityState>(NAME@)->Some_0;
    let t = states.3.value::<AffinityState>(NAME@)->Some_0;
    let known = shared(snapshot.namespaces);
    let on = shared(snapshot.nodes@[n]);
    let after = shared(rest.nodes@[n]);
    let holder = shared(snapshot.nodes@[n].pods@[p]);
    let terms = affinity_of(holder);
    assert forall|k: Seq<char>, v: Seq<char>| #[trigger]
        s.existing_affinity.count(k, v) == t.existing_affinity.count(k, v) + hits(
            terms,
            pod,
            on,
            holder.namespace@,
            known,
            k,
            v,
        ) by {
        let f = attract_of(pod, known, k, v);
        assert forall|x: PodInfo| #[trigger] f(on, x) == f(after, x) by {
            same_hits(affinity_of(x), pod, on, after, x.namespace@, known, k, v);
        }
        placed_sum_without(snapshot.nodes@, rest.nodes@, n, p, f);
        let b = t.existing_affinity.count(k, v);
        assert(f(on, holder) == hits(terms, pod, on, holder.namespace@, known, k, v));
        assert(cluster_attracts(snapshot.nodes@, pod, known, k, v) < i64::MAX);
    }
    assert forall|k: Seq<char>, v: Seq<char>| 0 <= #[trigger] t.existing_affinity.count(k, v) by {}
    let labels = node.labels.entries@;
    label_sum_grows(
        s.existing_affinity,
        t.existing_affinity,
        terms,
        holder,
        on,
        pod,
        known,
        labels,
        labels.len() as int,
    );
    label_hits_are_asking(terms, holder, on, pod, known, node);
    let hard = plugin.hard_pod_affinity_weight as int;
    let x = pull_of(t.existing_affinity, node);
    let y = asking(terms, holder, on, pod, known, node) as int;
    assert(hard * (x + y) == hard * x + hard * y) by (nonlinear_arith);
}

/// Mapping signed scores keeps their order.
pub proof fn mapping_keeps_order(scores: Seq<i64>, i: int, j: int)
    requires
        0 <= i < scores.len(),
        0 <= j < scores.len(),
        scores[i] <= scores[j],
    ensures
        normalized_signed(scores).len() == scores.len(),
        normalized_signed(scores)[i] <= normalized_signed(scores)[j],
        scores[i] == smallest(scores) && scores[i] < largest(scores) ==> normalized_signed(
            scores,
        )[i] == 0,
{
    largest_bounds_here(scores);
    normalized_signed_in_range(scores, i);
    normalized_signed_in_range(scores, j);
    let min = smallest(scores);
    let max = largest(scores);
    if min != max {
        let a = scores[i] - min;
        let b = scores[j] - min;
        let d = max - min;
        assert(0 <= (100 * a) / d <= (100 * b) / d) by (nonlinear_arith)
            requires
                0 <= a <= b,
                d > 0,
        ;
        spread_in_range(scores[i] as int, min, max);
        spread_in_range(scores[j] as int, min, max);
    }
}

} // verus!
