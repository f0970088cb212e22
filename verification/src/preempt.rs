//! Preemption: make room for a pod by evicting less important ones, and as few
//! of them as possible.
//!
//! Every pod of lower priority is taken off hypothetically; if the preemptor
//! then fits, the pods are offered back one at a time, those whose eviction
//! would breach a disruption budget first and the important before the cheap.
//! Only a pod whose absence is needed at its turn becomes a victim.

use crate::api::{LabelSelector, PodDisruptionBudget};
use crate::cache::{taken, NodeInfo, PodInfo, Timestamp};
use crate::cycle::{drawn, stepped, Rng};
use crate::framework::plugins::selector::{matches_selector, selected};
use crate::maps::{shared, StrMap};
use crate::text::{contains_text, has_text, text_eq, views};
use std::cmp::Ordering;
use std::sync::Arc;
use vstd::prelude::*;

verus! {

/// The share of potential nodes to evaluate, in percent.
pub const MIN_CANDIDATE_NODES_PERCENTAGE: i32 = 10;

/// The number of potential nodes to evaluate at least.
pub const MIN_CANDIDATE_NODES_ABSOLUTE: i32 = 100;

/// Why a pod may not preempt.
#[derive(Clone, Copy, Debug, PartialEq, Eq, Structural)]
pub enum Ineligible {
    /// The pod's policy is never to preempt.
    PolicyNever,
    /// A previous preemption for this pod is still draining.
    NominationInProgress,
}

/// May this pod preempt others? A pod waits for the eviction it asked for last
/// time, unless its nomination is known to be dead.
pub fn eligible_to_preempt(
    preemption_policy: Option<&str>,
    nominated_node_draining: bool,
    nominated_node_unresolvable: bool,
) -> (r: Result<(), Ineligible>)
    ensures
        r == if preemption_policy is Some && preemption_policy->Some_0@ == "Never"@ {
            Err::<(), Ineligible>(Ineligible::PolicyNever)
        } else if nominated_node_draining && !nominated_node_unresolvable {
            Err(Ineligible::NominationInProgress)
        } else {
            Ok(())
        },
{
    match preemption_policy {
        Some(policy) => {
            if text_eq(policy, "Never") {
                return Err(Ineligible::PolicyNever);
            }
        },
        None => {},
    }
    if nominated_node_draining && !nominated_node_unresolvable {
        return Err(Ineligible::NominationInProgress);
    }
    Ok(())
}

/// How many of the potential nodes are enough: a share of them, at least the
/// absolute minimum, and never more than there are.
pub open spec fn enough_candidates(potential: int) -> int {
    let share = potential * MIN_CANDIDATE_NODES_PERCENTAGE / 100;
    let wanted = if share > MIN_CANDIDATE_NODES_ABSOLUTE {
        share
    } else {
        MIN_CANDIDATE_NODES_ABSOLUTE as int
    };
    if wanted < potential {
        wanted
    } else {
        potential
    }
}

/// Where to start scanning, and how many candidates are enough. The offset is
/// drawn, so that not the same nodes are evaluated every time.
pub fn offset_and_num_candidates(num_potential: i32, rng: &mut Rng) -> (r: (i32, i32))
    ensures
        num_potential <= 0 ==> r == (0i32, 0i32) && *final(rng) == *old(rng),
        num_potential > 0 ==> {
            &&& 0 <= r.0 < num_potential
            &&& r.0 == drawn(stepped(old(rng).state)) % (num_potential as u64)
            &&& final(rng).state == stepped(old(rng).state)
            &&& r.1 == enough_candidates(num_potential as int)
        },
{
    if num_potential <= 0 {
        return (0, 0);
    }
    let offset: i32 = rng.below(num_potential as u64) as i32;
    let share: i64 = (num_potential as i64) * (MIN_CANDIDATE_NODES_PERCENTAGE as i64) / 100;
    let wanted: i64 = if share > MIN_CANDIDATE_NODES_ABSOLUTE as i64 {
        share
    } else {
        MIN_CANDIDATE_NODES_ABSOLUTE as i64
    };
    let num: i64 = if wanted < num_potential as i64 {
        wanted
    } else {
        num_potential as i64
    };
    (offset, num as i32)
}

/// Whether `a` is more important than `b`: of higher priority, or of the same
/// and running longer.
pub open spec fn outranks(a: PodInfo, b: PodInfo) -> bool {
    a.priority > b.priority || (a.priority == b.priority && a.queued_at.before(b.queued_at))
}

/// The more important pod first.
pub fn more_important(a: &PodInfo, b: &PodInfo) -> (r: Ordering)
    ensures
        r == if outranks(*a, *b) {
            Ordering::Less
        } else if outranks(*b, *a) {
            Ordering::Greater
        } else {
            Ordering::Equal
        },
{
    if a.priority > b.priority {
        Ordering::Less
    } else if b.priority > a.priority {
        Ordering::Greater
    } else if a.queued_at.is_before(&b.queued_at) {
        Ordering::Less
    } else if b.queued_at.is_before(&a.queued_at) {
        Ordering::Greater
    } else {
        Ordering::Equal
    }
}

fn is_outranking(a: &PodInfo, b: &PodInfo) -> (r: bool)
    ensures
        r == outranks(*a, *b),
{
    a.priority > b.priority || (a.priority == b.priority && a.queued_at.is_before(&b.queued_at))
}

/// A disruption budget, projected to what preemption needs.
#[derive(Clone, Debug)]
pub struct PdbState {
    pub namespace: String,
    pub selector: Option<Arc<LabelSelector>>,
    pub disruptions_allowed: i32,
    /// Names of pods whose disruption is already counted.
    pub already_disrupted: Vec<String>,
}

/// The selector behind an optional shared one.
pub open spec fn selector_of(s: Option<Arc<LabelSelector>>) -> Option<LabelSelector> {
    match s {
        Some(a) => Some(*a),
        None => None,
    }
}

impl PdbState {
    /// Whether the budget covers the pod.
    pub open spec fn covers(&self, pod: PodInfo) -> bool {
        pod.namespace@ == self.namespace@ && selected(selector_of(self.selector), pod.labels)
    }

    pub fn matches(&self, pod: &PodInfo) -> (r: bool)
        ensures
            r == self.covers(*pod),
    {
        text_eq(pod.namespace.as_str(), self.namespace.as_str()) && match &self.selector {
            Some(s) => matches_selector(Some(&**s), &pod.labels),
            None => false,
        }
    }

    /// Project the API object.
    pub fn from_api(pdb: &PodDisruptionBudget) -> (r: Self)
        ensures
            r.namespace@ == match pdb.metadata.namespace {
                Some(n) => n@,
                None => Seq::empty(),
            },
            r.selector == match pdb.spec {
                Some(s) => s.selector,
                None => None,
            },
            r.disruptions_allowed == match pdb.status {
                Some(s) => s.disruptions_allowed,
                None => 0,
            },
            views(r.already_disrupted@) == match pdb.status {
                Some(s) => match s.disrupted_pods {
                    Some(m) => keys_of(m),
                    None => Seq::empty(),
                },
                None => Seq::empty(),
            },
    {
        let mut already_disrupted: Vec<String> = Vec::new();
        assert(views(already_disrupted@) =~= Seq::<Seq<char>>::empty());
        let mut disruptions_allowed: i32 = 0;
        match &pdb.status {
            Some(status) => {
                disruptions_allowed = status.disruptions_allowed;
                match &status.disrupted_pods {
                    Some(m) => {
                        already_disrupted = copy_keys(m);
                    },
                    None => {},
                }
            },
            None => {},
        }
        PdbState {
            namespace: match &pdb.metadata.namespace {
                Some(n) => n.clone(),
                None => String::new(),
            },
            selector: match &pdb.spec {
                Some(spec) => match &spec.selector {
                    Some(s) => Some(s.clone()),
                    None => None,
                },
                None => None,
            },
            disruptions_allowed,
            already_disrupted,
        }
    }
}

/// The keys of a map.
pub open spec fn keys_of<V>(m: StrMap<V>) -> Seq<Seq<char>> {
    m.entries@.map_values(|e: (String, V)| e.0@)
}

fn copy_keys(m: &StrMap<i64>) -> (r: Vec<String>)
    ensures
        views(r@) == keys_of(*m),
{
    let mut out: Vec<String> = Vec::new();
    let mut i: usize = 0;
    while i < m.entries.len()
        invariant
            i <= m.entries@.len(),
            out@.len() == i,
            forall|k: int| 0 <= k < i ==> (#[trigger] out@[k])@ == m.entries@[k].0@,
        decreases m.entries@.len() - i,
    {
        out.push(m.entries[i].0.clone());
        i += 1;
    }
    assert(views(out@) =~= keys_of(*m));
    out
}

/// The budget is charged for the pod: it covers the pod, and the disruption is
/// not already counted.
pub open spec fn charged(pdb: PdbState, pod: PodInfo) -> bool {
    pdb.covers(pod) && !has_text(pdb.already_disrupted@, pod.name@)
}

/// A budget after a pod is charged to it.
pub open spec fn after_charge(pdb: PdbState, pod: PodInfo) -> PdbState {
    if charged(pdb, pod) && pdb.disruptions_allowed > 0 {
        PdbState { disruptions_allowed: (pdb.disruptions_allowed - 1) as i32, ..pdb }
    } else {
        pdb
    }
}

/// Evicting the pod breaches some budget that has nothing left.
pub open spec fn breaches(budgets: Seq<PdbState>, pod: PodInfo) -> bool {
    exists|i: int|
        0 <= i < budgets.len() && charged(#[trigger] budgets[i], pod)
            && budgets[i].disruptions_allowed <= 0
}

/// The budgets after a pod is charged to each of them.
pub open spec fn spent(budgets: Seq<PdbState>, pod: PodInfo) -> Seq<PdbState> {
    budgets.map_values(|b: PdbState| after_charge(b, pod))
}

/// Whether removing this pod would breach a budget, charging each that covers
/// it. A disruption that is already counted is not counted again.
pub fn violates_pdb(pod: &PodInfo, budgets: &mut Vec<PdbState>) -> (r: bool)
    ensures
        r == breaches(old(budgets)@, *pod),
        final(budgets)@ == spent(old(budgets)@, *pod),
{
    let ghost before = budgets@;
    let mut violating = false;
    let n: usize = budgets.len();
    let mut i: usize = 0;
    while i < n
        invariant
            i <= n == budgets@.len() == before.len(),
            forall|k: int| 0 <= k < i ==> budgets@[k] == after_charge(before[k], *pod),
            forall|k: int| i <= k < n ==> budgets@[k] == before[k],
            violating == breaches(before.take(i as int), *pod),
        decreases n - i,
    {
        if budgets[i].matches(pod) && !contains_text(
            &budgets[i].already_disrupted,
            pod.name.as_str(),
        ) {
            if budgets[i].disruptions_allowed <= 0 {
                violating = true;
            } else {
                let left: i32 = budgets[i].disruptions_allowed - 1;
                let b = &mut budgets[i];
                b.disruptions_allowed = left;
            }
        }
        i += 1;
        proof {
            let longer = before.take(i as int);
            let shorter = before.take(i - 1);
            assert(longer[i - 1] == before[i - 1]);
            if breaches(shorter, *pod) {
                let k = choose|k: int|
                    0 <= k < shorter.len() && charged(#[trigger] shorter[k], *pod)
                        && shorter[k].disruptions_allowed <= 0;
                assert(longer[k] == shorter[k]);
            }
            if breaches(longer, *pod) {
                let k = choose|k: int|
                    0 <= k < longer.len() && charged(#[trigger] longer[k], *pod)
                        && longer[k].disruptions_allowed <= 0;
                if k < i - 1 {
                    assert(shorter[k] == longer[k]);
                }
            }
        }
    }
    assert(before.take(n as int) =~= before);
    assert(budgets@ =~= spent(before, *pod));
    violating
}

/// What preemption found on one node.
#[derive(Debug, Default, Clone)]
pub struct Victims {
    /// `namespace/name` of each.
    pub pods: Vec<String>,
    /// How many of them breach a budget.
    pub pdb_violations: usize,
}

/// The caller's check whether the preemptor fits once some pods are gone.
pub trait FitCheck {
    spec fn fits_view(&self, removed: Seq<Arc<PodInfo>>) -> bool;

    fn fits(&self, removed: &Vec<Arc<PodInfo>>) -> (r: bool)
        ensures
            r == self.fits_view(removed@),
    ;
}

/// The check on resources alone: once the pods are gone, what the preemptor asks
/// for is free.
pub struct RoomCheck<'a> {
    pub node: &'a NodeInfo,
    pub preemptor: &'a PodInfo,
}

/// What is still asked for of a resource once pods are gone.
pub open spec fn asked_without(node: NodeInfo, removed: Seq<Arc<PodInfo>>, name: Seq<char>) -> int
    decreases removed.len(),
{
    if removed.len() == 0 {
        node.requested.amount(name)
    } else {
        taken(
            asked_without(node, removed.drop_last(), name),
            removed.last().requests.amount(name),
        )
    }
}

/// A resource suffices for the preemptor once pods are gone.
pub open spec fn suffices(
    node: NodeInfo,
    preemptor: PodInfo,
    removed: Seq<Arc<PodInfo>>,
    name: Seq<char>,
) -> bool {
    asked_without(node, removed, name) + preemptor.requests.amount(name) <= node.allocatable.amount(
        name,
    )
}

impl FitCheck for RoomCheck<'_> {
    open spec fn fits_view(&self, removed: Seq<Arc<PodInfo>>) -> bool {
        forall|i: int|
            0 <= i < self.preemptor.requests.name_views().len() ==> suffices(
                *self.node,
                *self.preemptor,
                removed,
                #[trigger] self.preemptor.requests.name_views()[i],
            )
    }

    fn fits(&self, removed: &Vec<Arc<PodInfo>>) -> (r: bool) {
        let mut asked = self.node.requested.copy();
        let mut i: usize = 0;
        assert(forall|n: Seq<char>| #[trigger]
            asked.amount(n) == asked_without(*self.node, removed@.take(0), n));
        while i < removed.len()
            invariant
                i <= removed@.len(),
                forall|n: Seq<char>| #[trigger]
                    asked.amount(n) == asked_without(*self.node, removed@.take(i as int), n),
            decreases removed@.len() - i,
        {
            let ghost before = asked;
            asked.sub(&removed[i].requests);
            i += 1;
            proof {
                assert(removed@.take(i as int).drop_last() =~= removed@.take(i - 1));
                assert forall|n: Seq<char>| #[trigger]
                    asked.amount(n) == asked_without(*self.node, removed@.take(i as int), n) by {
                    let was = before.amount(n);
                }
            }
        }
        assert(removed@.take(i as int) =~= removed@);
        let names = self.preemptor.requests.names();
        let ghost all = self.preemptor.requests.name_views();
        let mut j: usize = 0;
        while j < names.len()
            invariant
                j <= names@.len(),
                all == self.preemptor.requests.name_views(),
                crate::text::views(names@) == all,
                forall|n: Seq<char>| #[trigger]
                    asked.amount(n) == asked_without(*self.node, removed@, n),
                forall|k: int|
                    0 <= k < j ==> suffices(*self.node, *self.preemptor, removed@, #[trigger] all[k]),
            decreases names@.len() - j,
        {
            let name = names[j].as_str();
            assert(all[j as int] == name@);
            let total: i128 = (asked.get(name) as i128) + (self.preemptor.requests.get(name) as i128);
            if total > self.node.allocatable.get(name) as i128 {
                assert(!suffices(*self.node, *self.preemptor, removed@, all[j as int]));
                return false;
            }
            j += 1;
        }
        true
    }
}

/// The pods of a list with a priority below a bound.
pub open spec fn below(pods: Seq<Arc<PodInfo>>, priority: int) -> Seq<Arc<PodInfo>>
    decreases pods.len(),
{
    if pods.len() == 0 {
        Seq::empty()
    } else if pods.last().priority < priority {
        below(pods.drop_last(), priority).push(pods.last())
    } else {
        below(pods.drop_last(), priority)
    }
}

/// Where a pod belongs in a list ordered by importance: before the first that
/// it outranks.
pub open spec fn rank_in(pods: Seq<Arc<PodInfo>>, pod: PodInfo) -> int
    decreases pods.len(),
{
    if pods.len() == 0 || outranks(pod, *pods[0]) {
        0
    } else {
        1 + rank_in(pods.skip(1), pod)
    }
}

/// A list by importance, most important first; equals keep their order.
pub open spec fn ranked(pods: Seq<Arc<PodInfo>>) -> Seq<Arc<PodInfo>>
    decreases pods.len(),
{
    if pods.len() == 0 {
        Seq::empty()
    } else {
        let rest = ranked(pods.drop_last());
        rest.insert(rank_in(rest, *pods.last()), pods.last())
    }
}

proof fn rank_bounds(pods: Seq<Arc<PodInfo>>, pod: PodInfo)
    ensures
        0 <= rank_in(pods, pod) <= pods.len(),
        forall|k: int| 0 <= k < rank_in(pods, pod) ==> !outranks(pod, *#[trigger] pods[k]),
        rank_in(pods, pod) < pods.len() ==> outranks(pod, *pods[rank_in(pods, pod)]),
    decreases pods.len(),
{
    if pods.len() > 0 && !outranks(pod, shared(pods[0])) {
        rank_bounds(pods.skip(1), pod);
        let r = rank_in(pods.skip(1), pod);
        assert forall|k: int| 0 <= k < r + 1 implies !outranks(pod, *#[trigger] pods[k]) by {
            if k > 0 {
                assert(pods.skip(1)[k - 1] == pods[k]);
            }
        }
    }
}

proof fn rank_is(pods: Seq<Arc<PodInfo>>, pod: PodInfo, i: int)
    requires
        0 <= i <= pods.len(),
        forall|k: int| 0 <= k < i ==> !outranks(pod, *#[trigger] pods[k]),
        i < pods.len() ==> outranks(pod, *pods[i]),
    ensures
        rank_in(pods, pod) == i,
    decreases pods.len(),
{
    if pods.len() > 0 && i > 0 {
        assert(!outranks(pod, *pods[0]));
        assert forall|k: int| 0 <= k < i - 1 implies !outranks(
            pod,
            *#[trigger] pods.skip(1)[k],
        ) by {
            assert(pods.skip(1)[k] == pods[k + 1]);
        }
        rank_is(pods.skip(1), pod, i - 1);
    }
}

/// A ranked list holds the same pods, and no pod in it outranks an earlier one.
pub proof fn ranked_is_sorted(pods: Seq<Arc<PodInfo>>)
    ensures
        ranked(pods).len() == pods.len(),
        ranked(pods).to_multiset() == pods.to_multiset(),
        forall|i: int, j: int|
            0 <= i < j < ranked(pods).len() ==> !outranks(
                *#[trigger] ranked(pods)[j],
                *#[trigger] ranked(pods)[i],
            ),
    decreases pods.len(),
{
    broadcast use vstd::seq_lib::group_to_multiset_ensures;

    if pods.len() > 0 {
        let rest = ranked(pods.drop_last());
        let p = pods.last();
        ranked_is_sorted(pods.drop_last());
        rank_bounds(rest, shared(p));
        let r = rank_in(rest, shared(p));
        let all = rest.insert(r, p);
        assert(all =~= rest.take(r).push(p) + rest.skip(r));
        assert(rest =~= rest.take(r) + rest.skip(r));
        assert(pods =~= pods.drop_last().push(p));
        vstd::seq_lib::lemma_multiset_commutative(rest.take(r), rest.skip(r));
        vstd::seq_lib::lemma_multiset_commutative(rest.take(r).push(p), rest.skip(r));
        assert(all.to_multiset() =~= rest.to_multiset().insert(p));
        assert(pods.to_multiset() =~= pods.drop_last().to_multiset().insert(p));
        assert forall|i: int, j: int| 0 <= i < j < all.len() implies !outranks(
            *#[trigger] all[j],
            *#[trigger] all[i],
        ) by {
            let i0 = if i < r { i } else { i - 1 };
            let j0 = if j < r { j } else { j - 1 };
            if i != r && j != r {
                assert(all[i] == rest[i0] && all[j] == rest[j0]);
            } else if j == r {
                assert(all[i] == rest[i]);
            } else {
                assert(all[j] == rest[j - 1]);
                if j - 1 > r {
                    assert(!outranks(*rest[j - 1], *rest[r]));
                }
            }
        }
    } else {
        assert(ranked(pods) =~= pods);
    }
}

/// The pods of a list whose eviction breaches (or does not breach) a budget,
/// charging the budgets in the order of the list.
pub open spec fn breaching(
    pods: Seq<Arc<PodInfo>>,
    budgets: Seq<PdbState>,
    wanted: bool,
) -> Seq<Arc<PodInfo>>
    decreases pods.len(),
{
    if pods.len() == 0 {
        Seq::empty()
    } else if breaches(all_spent(pods.drop_last(), budgets), *pods.last()) == wanted {
        breaching(pods.drop_last(), budgets, wanted).push(pods.last())
    } else {
        breaching(pods.drop_last(), budgets, wanted)
    }
}

/// The budgets after a list of pods is charged to them.
pub open spec fn all_spent(pods: Seq<Arc<PodInfo>>, budgets: Seq<PdbState>) -> Seq<PdbState>
    decreases pods.len(),
{
    if pods.len() == 0 {
        budgets
    } else {
        spent(all_spent(pods.drop_last(), budgets), *pods.last())
    }
}

/// A list without the pods of one uid.
pub open spec fn without(pods: Seq<Arc<PodInfo>>, uid: Seq<char>) -> Seq<Arc<PodInfo>>
    decreases pods.len(),
{
    if pods.len() == 0 {
        Seq::empty()
    } else if pods.last().uid@ != uid {
        without(pods.drop_last(), uid).push(pods.last())
    } else {
        without(pods.drop_last(), uid)
    }
}

/// What stays removed after the pods of a list were offered back in turn: a
/// pod comes back where the preemptor fits beside it.
pub open spec fn still_removed<F: FitCheck>(
    offers: Seq<Arc<PodInfo>>,
    removed: Seq<Arc<PodInfo>>,
    fit: F,
) -> Seq<Arc<PodInfo>>
    decreases offers.len(),
{
    if offers.len() == 0 {
        removed
    } else {
        let rest = still_removed(offers.drop_last(), removed, fit);
        let trial = without(rest, offers.last().uid@);
        if fit.fits_view(trial) {
            trial
        } else {
            rest
        }
    }
}

/// Whether the last offer of a list is turned down.
pub open spec fn condemned<F: FitCheck>(
    offers: Seq<Arc<PodInfo>>,
    removed: Seq<Arc<PodInfo>>,
    fit: F,
) -> bool
    recommends
        offers.len() > 0,
{
    !fit.fits_view(without(still_removed(offers.drop_last(), removed, fit), offers.last().uid@))
}

/// The offers that were turned down, in turn: the victims.
pub open spec fn victims_of<F: FitCheck>(
    offers: Seq<Arc<PodInfo>>,
    removed: Seq<Arc<PodInfo>>,
    fit: F,
) -> Seq<Arc<PodInfo>>
    decreases offers.len(),
{
    if offers.len() == 0 {
        Seq::empty()
    } else if condemned(offers, removed, fit) {
        victims_of(offers.drop_last(), removed, fit).push(offers.last())
    } else {
        victims_of(offers.drop_last(), removed, fit)
    }
}

/// The pods that may be evicted from a node for a preemptor, most important
/// first: those of strictly lower priority.
pub open spec fn potential(preemptor: PodInfo, node: NodeInfo) -> Seq<Arc<PodInfo>> {
    ranked(below(node.pods@, preemptor.priority as int))
}

/// The order in which they are offered back: those that breach a budget, then
/// the others.
pub open spec fn offer_order(potential: Seq<Arc<PodInfo>>, budgets: Seq<PdbState>) -> Seq<
    Arc<PodInfo>,
> {
    breaching(potential, budgets, true) + breaching(potential, budgets, false)
}

/// The keys of a list of pods.
pub open spec fn pod_keys(pods: Seq<Arc<PodInfo>>) -> Seq<Seq<char>> {
    pods.map_values(|p: Arc<PodInfo>| p.key_view())
}

fn pods_below(pods: &Vec<Arc<PodInfo>>, priority: i32) -> (r: Vec<Arc<PodInfo>>)
    ensures
        r@ == below(pods@, priority as int),
{
    let mut out: Vec<Arc<PodInfo>> = Vec::new();
    let mut i: usize = 0;
    while i < pods.len()
        invariant
            i <= pods@.len(),
            out@ == below(pods@.take(i as int), priority as int),
        decreases pods@.len() - i,
    {
        if pods[i].priority < priority {
            out.push(pods[i].clone());
        }
        i += 1;
        assert(pods@.take(i as int).drop_last() =~= pods@.take(i - 1));
    }
    assert(pods@.take(i as int) =~= pods@);
    out
}

fn rank_pods(pods: &Vec<Arc<PodInfo>>) -> (r: Vec<Arc<PodInfo>>)
    ensures
        r@ == ranked(pods@),
{
    let mut out: Vec<Arc<PodInfo>> = Vec::new();
    let mut i: usize = 0;
    while i < pods.len()
        invariant
            i <= pods@.len(),
            out@ == ranked(pods@.take(i as int)),
        decreases pods@.len() - i,
    {
        let mut at: usize = 0;
        while at < out.len() && !is_outranking(&pods[i], &out[at])
            invariant
                i < pods@.len(),
                at <= out@.len(),
                forall|k: int| 0 <= k < at ==> !outranks(*pods@[i as int], *#[trigger] out@[k]),
            decreases out@.len() - at,
        {
            at += 1;
        }
        proof {
            rank_is(out@, shared(pods@[i as int]), at as int);
        }
        out.insert(at, pods[i].clone());
        i += 1;
        assert(pods@.take(i as int).drop_last() =~= pods@.take(i - 1));
    }
    assert(pods@.take(i as int) =~= pods@);
    out
}

fn leave_out(pods: &Vec<Arc<PodInfo>>, uid: &str) -> (r: Vec<Arc<PodInfo>>)
    ensures
        r@ == without(pods@, uid@),
{
    let mut out: Vec<Arc<PodInfo>> = Vec::new();
    let mut i: usize = 0;
    while i < pods.len()
        invariant
            i <= pods@.len(),
            out@ == without(pods@.take(i as int), uid@),
        decreases pods@.len() - i,
    {
        if !text_eq(pods[i].uid.as_str(), uid) {
            out.push(pods[i].clone());
        }
        i += 1;
        assert(pods@.take(i as int).drop_last() =~= pods@.take(i - 1));
    }
    assert(pods@.take(i as int) =~= pods@);
    out
}

/// The pods whose removal lets `preemptor` fit on `node`.
///
/// `None` where the preemptor does not fit even with every pod of lower
/// priority gone: then nothing on the node is evicted.
pub fn select_victims_on_node<F: FitCheck>(
    preemptor: &PodInfo,
    node: &NodeInfo,
    budgets: &mut Vec<PdbState>,
    fits: &F,
) -> (r: Option<Victims>)
    ensures
        final(budgets)@ == all_spent(potential(*preemptor, *node), old(budgets)@),
        ({
            let removable = potential(*preemptor, *node);
            let offers = offer_order(removable, old(budgets)@);
            match r {
                None => !fits.fits_view(removable),
                Some(v) => {
                    &&& fits.fits_view(removable)
                    &&& views(v.pods@) == pod_keys(victims_of(offers, removable, *fits))
                    &&& v.pdb_violations == victims_of(
                        breaching(removable, old(budgets)@, true),
                        removable,
                        *fits,
                    ).len()
                    &&& fairly_chosen(removable, old(budgets)@, *fits, v)
                },
            }
        }),
{
    let ghost start = budgets@;
    let lower = pods_below(&node.pods, preemptor.priority);
    let removable = rank_pods(&lower);
    let mut violating: Vec<Arc<PodInfo>> = Vec::new();
    let mut non_violating: Vec<Arc<PodInfo>> = Vec::new();
    let mut i: usize = 0;
    while i < removable.len()
        invariant
            i <= removable@.len(),
            budgets@ == all_spent(removable@.take(i as int), start),
            violating@ == breaching(removable@.take(i as int), start, true),
            non_violating@ == breaching(removable@.take(i as int), start, false),
        decreases removable@.len() - i,
    {
        if violates_pdb(&removable[i], budgets) {
            violating.push(removable[i].clone());
        } else {
            non_violating.push(removable[i].clone());
        }
        i += 1;
        assert(removable@.take(i as int).drop_last() =~= removable@.take(i - 1));
    }
    assert(removable@.take(i as int) =~= removable@);
    if !fits.fits(&removable) {
        return None;
    }
    let ghost offers = violating@ + non_violating@;
    let breaching_count: usize = violating.len();
    let mut order: Vec<Arc<PodInfo>> = violating;
    order.append(&mut non_violating);
    assert(order@ == offers);
    let mut removed: Vec<Arc<PodInfo>> = leave_out_none(&removable);
    let mut pods: Vec<String> = Vec::new();
    let mut pdb_violations: usize = 0;
    let mut j: usize = 0;
    assert(views(pods@) =~= pod_keys(Seq::empty()));
    while j < order.len()
        invariant
            j <= order@.len(),
            breaching_count <= order@.len(),
            pdb_violations <= j,
            removed@ == still_removed(order@.take(j as int), removable@, *fits),
            views(pods@) == pod_keys(victims_of(order@.take(j as int), removable@, *fits)),
            pdb_violations == victims_of(
                order@.take(
                    if j < breaching_count {
                        j as int
                    } else {
                        breaching_count as int
                    },
                ),
                removable@,
                *fits,
            ).len(),
        decreases order@.len() - j,
    {
        let ghost kept = pods@;
        let ghost shorter = order@.take(j as int);
        let trial = leave_out(&removed, order[j].uid.as_str());
        proof {
            assert(order@.take(j + 1).drop_last() =~= shorter);
            assert(order@.take(j + 1).last() == order@[j as int]);
        }
        if fits.fits(&trial) {
            removed = trial;
        } else {
            pods.push(order[j].key());
            if j < breaching_count {
                pdb_violations += 1;
            }
            proof {
                let earlier = victims_of(shorter, removable@, *fits);
                assert(views(pods@) =~= views(kept).push(order@[j as int].key_view()));
                assert(pod_keys(earlier.push(order@[j as int])) =~= pod_keys(earlier).push(
                    order@[j as int].key_view(),
                ));
            }
        }
        j += 1;
    }
    proof {
        assert(order@.take(j as int) =~= order@);
        assert(order@.take(breaching_count as int) =~= breaching(removable@, start, true));
    }
    let victims = Victims { pods, pdb_violations };
    proof {
        victims_are_fairly_chosen(removable@, start, *fits, victims);
    }
    Some(victims)
}

fn leave_out_none(pods: &Vec<Arc<PodInfo>>) -> (r: Vec<Arc<PodInfo>>)
    ensures
        r@ == pods@,
{
    let mut out: Vec<Arc<PodInfo>> = Vec::new();
    let mut i: usize = 0;
    while i < pods.len()
        invariant
            i <= pods@.len(),
            out@ == pods@.take(i as int),
        decreases pods@.len() - i,
    {
        out.push(pods[i].clone());
        i += 1;
        assert(pods@.take(i as int) =~= pods@.take(i - 1).push(pods@[i - 1]));
    }
    assert(pods@.take(i as int) =~= pods@);
    out
}

/// Every pod of a list stands in another.
pub open spec fn within(a: Seq<Arc<PodInfo>>, b: Seq<Arc<PodInfo>>) -> bool {
    forall|i: int| 0 <= i < a.len() ==> b.contains(#[trigger] a[i])
}

/// With more pods gone the preemptor fits no worse.
pub open spec fn monotone<F: FitCheck>(fit: F) -> bool {
    forall|a: Seq<Arc<PodInfo>>, b: Seq<Arc<PodInfo>>|
        within(a, b) && #[trigger] fit.fits_view(a) ==> #[trigger] fit.fits_view(b)
}

proof fn within_trans(a: Seq<Arc<PodInfo>>, b: Seq<Arc<PodInfo>>, c: Seq<Arc<PodInfo>>)
    requires
        within(a, b),
        within(b, c),
    ensures
        within(a, c),
{
    assert forall|i: int| 0 <= i < a.len() implies c.contains(#[trigger] a[i]) by {
        assert(b.contains(a[i]));
        let j = choose|j: int| 0 <= j < b.len() && b[j] == a[i];
        assert(c.contains(b[j]));
    }
}

proof fn without_within(a: Seq<Arc<PodInfo>>, uid: Seq<char>)
    ensures
        within(without(a, uid), a),
        forall|p: Arc<PodInfo>| #[trigger]
            without(a, uid).contains(p) <==> a.contains(p) && p.uid@ != uid,
    decreases a.len(),
{
    if a.len() > 0 {
        let t = a.drop_last();
        without_within(t, uid);
        assert forall|p: Arc<PodInfo>| #[trigger]
            without(a, uid).contains(p) <==> a.contains(p) && p.uid@ != uid by {
            if a.contains(p) && p.uid@ != uid {
                let i = choose|i: int| 0 <= i < a.len() && a[i] == p;
                if i < t.len() {
                    assert(t[i] == p);
                    assert(t.contains(p));
                    assert(without(t, uid).contains(p));
                    let k = choose|k: int| 0 <= k < without(t, uid).len() && without(t, uid)[k] == p;
                    assert(without(a, uid)[k] == p);
                } else {
                    assert(without(a, uid)[without(a, uid).len() - 1] == p);
                }
            }
            if without(a, uid).contains(p) {
                let k = choose|k: int| 0 <= k < without(a, uid).len() && without(a, uid)[k] == p;
                if k < without(t, uid).len() {
                    assert(without(t, uid)[k] == p);
                    assert(without(t, uid).contains(p));
                    let i = choose|i: int| 0 <= i < t.len() && t[i] == p;
                    assert(a[i] == p);
                } else {
                    assert(a[a.len() - 1] == p);
                }
            }
        }
        assert forall|i: int| 0 <= i < without(a, uid).len() implies a.contains(
            #[trigger] without(a, uid)[i],
        ) by {
            assert(without(a, uid).contains(without(a, uid)[i]));
        }
    }
}

/// After the reprieve the preemptor fits.
pub proof fn reprieve_keeps_room<F: FitCheck>(
    offers: Seq<Arc<PodInfo>>,
    removed: Seq<Arc<PodInfo>>,
    fit: F,
)
    requires
        fit.fits_view(removed),
    ensures
        fit.fits_view(still_removed(offers, removed, fit)),
        within(still_removed(offers, removed, fit), removed),
    decreases offers.len(),
{
    if offers.len() > 0 {
        reprieve_keeps_room(offers.drop_last(), removed, fit);
        let rest = still_removed(offers.drop_last(), removed, fit);
        without_within(rest, offers.last().uid@);
        within_trans(without(rest, offers.last().uid@), rest, removed);
    } else {
        assert forall|i: int| 0 <= i < removed.len() implies removed.contains(
            #[trigger] removed[i],
        ) by {}
    }
}

proof fn later_is_within<F: FitCheck>(
    offers: Seq<Arc<PodInfo>>,
    removed: Seq<Arc<PodInfo>>,
    fit: F,
    n: int,
)
    requires
        0 <= n <= offers.len(),
    ensures
        within(
            still_removed(offers, removed, fit),
            still_removed(offers.take(n), removed, fit),
        ),
    decreases offers.len() - n,
{
    if n == offers.len() {
        assert(offers.take(n) =~= offers);
        let s = still_removed(offers, removed, fit);
        assert forall|i: int| 0 <= i < s.len() implies s.contains(#[trigger] s[i]) by {}
    } else {
        later_is_within(offers, removed, fit, n + 1);
        let longer = offers.take(n + 1);
        assert(longer.drop_last() =~= offers.take(n));
        let a = still_removed(offers, removed, fit);
        let b = still_removed(longer, removed, fit);
        let c = still_removed(offers.take(n), removed, fit);
        without_within(c, longer.last().uid@);
        assert(within(b, c)) by {
            if !fit.fits_view(without(c, longer.last().uid@)) {
                assert forall|i: int| 0 <= i < b.len() implies c.contains(#[trigger] b[i]) by {}
            }
        }
        within_trans(a, b, c);
    }
}

/// No victim could be spared: where fitting is monotone, the preemptor would
/// not fit with any one victim put back.
pub proof fn victims_are_needed<F: FitCheck>(
    offers: Seq<Arc<PodInfo>>,
    removed: Seq<Arc<PodInfo>>,
    fit: F,
    n: int,
)
    requires
        monotone(fit),
        0 <= n < offers.len(),
        condemned(offers.take(n + 1), removed, fit),
    ensures
        !fit.fits_view(without(still_removed(offers, removed, fit), offers[n].uid@)),
{
    let upto = offers.take(n + 1);
    assert(upto.drop_last() =~= offers.take(n));
    assert(upto.last() == offers[n]);
    let uid = offers[n].uid@;
    let at_turn = still_removed(offers.take(n), removed, fit);
    let at_end = still_removed(offers, removed, fit);
    later_is_within(offers, removed, fit, n);
    without_within(at_turn, uid);
    without_within(at_end, uid);
    assert(within(without(at_end, uid), without(at_turn, uid))) by {
        assert forall|i: int| 0 <= i < without(at_end, uid).len() implies without(
            at_turn,
            uid,
        ).contains(#[trigger] without(at_end, uid)[i]) by {
            let p = without(at_end, uid)[i];
            assert(without(at_end, uid).contains(p));
            assert(at_end.contains(p));
            let k = choose|k: int| 0 <= k < at_end.len() && at_end[k] == p;
            assert(at_turn.contains(at_end[k]));
        }
    }
}

/// Only pods of strictly lower priority are ever removed.
pub proof fn equals_are_never_victims(preemptor: PodInfo, node: NodeInfo, p: Arc<PodInfo>)
    requires
        potential(preemptor, node).contains(p),
    ensures
        p.priority < preemptor.priority,
        node.pods@.contains(p),
{
    broadcast use vstd::seq_lib::group_to_multiset_ensures;

    let lower = below(node.pods@, preemptor.priority as int);
    ranked_is_sorted(lower);
    assert(ranked(lower).to_multiset().count(p) > 0);
    assert(lower.to_multiset().count(p) > 0);
    assert(lower.contains(p));
    below_holds(node.pods@, preemptor.priority as int, p);
}

proof fn below_holds(pods: Seq<Arc<PodInfo>>, priority: int, p: Arc<PodInfo>)
    requires
        below(pods, priority).contains(p),
    ensures
        p.priority < priority,
        pods.contains(p),
    decreases pods.len(),
{
    if pods.len() > 0 {
        let t = pods.drop_last();
        let k = choose|k: int| 0 <= k < below(pods, priority).len() && below(pods, priority)[k] == p;
        if k < below(t, priority).len() {
            assert(below(t, priority)[k] == p);
            assert(below(t, priority).contains(p));
            below_holds(t, priority, p);
            let i = choose|i: int| 0 <= i < t.len() && t[i] == p;
            assert(pods[i] == p);
        } else {
            assert(pods[pods.len() - 1] == p);
        }
    }
}

/// One node's candidacy, for the final choice.
#[derive(Debug, Clone)]
pub struct Candidate {
    pub node: String,
    pub victims: Victims,
    /// The highest priority among the victims.
    pub highest_victim_priority: i32,
    pub sum_victim_priorities: i64,
    /// The latest start among the victims of the highest priority.
    pub latest_start_of_highest: Option<Timestamp>,
}

/// The second in which the youngest of the worst victims started, negated.
pub open spec fn youth(c: Candidate) -> int {
    match c.latest_start_of_highest {
        Some(t) => -(t.second as int),
        None => 0,
    }
}

/// Whether one candidate is strictly better than another: fewer breached
/// budgets, then a less important worst victim, then less total priority, then
/// fewer victims, then a younger worst victim.
pub open spec fn better(a: Candidate, b: Candidate) -> bool {
    if a.victims.pdb_violations != b.victims.pdb_violations {
        a.victims.pdb_violations < b.victims.pdb_violations
    } else if a.highest_victim_priority != b.highest_victim_priority {
        a.highest_victim_priority < b.highest_victim_priority
    } else if a.sum_victim_priorities != b.sum_victim_priorities {
        a.sum_victim_priorities < b.sum_victim_priorities
    } else if a.victims.pods@.len() != b.victims.pods@.len() {
        a.victims.pods@.len() < b.victims.pods@.len()
    } else {
        youth(a) < youth(b)
    }
}

fn is_better(a: &Candidate, b: &Candidate) -> (r: bool)
    ensures
        r == better(*a, *b),
{
    if a.victims.pdb_violations != b.victims.pdb_violations {
        return a.victims.pdb_violations < b.victims.pdb_violations;
    }
    if a.highest_victim_priority != b.highest_victim_priority {
        return a.highest_victim_priority < b.highest_victim_priority;
    }
    if a.sum_victim_priorities != b.sum_victim_priorities {
        return a.sum_victim_priorities < b.sum_victim_priorities;
    }
    if a.victims.pods.len() != b.victims.pods.len() {
        return a.victims.pods.len() < b.victims.pods.len();
    }
    let x: i64 = match &a.latest_start_of_highest {
        Some(t) => t.second,
        None => 0,
    };
    let y: i64 = match &b.latest_start_of_highest {
        Some(t) => t.second,
        None => 0,
    };
    x > y
}

/// The candidate that does the least harm; of equals, the first.
pub fn pick_one_node(candidates: &Vec<Candidate>) -> (r: Option<&Candidate>)
    ensures
        match r {
            None => candidates@.len() == 0,
            Some(c) => exists|i: int|
                0 <= i < candidates@.len() && #[trigger] candidates@[i] == *c && (forall|j: int|
                    0 <= j < candidates@.len() ==> !better(#[trigger] candidates@[j], *c)) && (
                forall|j: int| 0 <= j < i ==> better(*c, #[trigger] candidates@[j])),
        },
{
    if candidates.len() == 0 {
        return None;
    }
    let mut best: usize = 0;
    let mut i: usize = 1;
    while i < candidates.len()
        invariant
            best < i <= candidates@.len(),
            forall|j: int|
                0 <= j < i ==> !better(#[trigger] candidates@[j], candidates@[best as int]),
            forall|j: int|
                0 <= j < best ==> better(candidates@[best as int], #[trigger] candidates@[j]),
        decreases candidates@.len() - i,
    {
        if is_better(&candidates[i], &candidates[best]) {
            best = i;
        }
        i += 1;
    }
    Some(&candidates[best])
}

/// Which pods have been promised which node, while their victims drain.
#[derive(Debug, Default)]
pub struct Nominator {
    /// Nominee and node, in the order nominated.
    pub entries: Vec<(Arc<PodInfo>, String)>,
}

/// The entries of every pod but one.
pub open spec fn others(e: Seq<(Arc<PodInfo>, String)>, uid: Seq<char>) -> Seq<
    (Arc<PodInfo>, String),
>
    decreases e.len(),
{
    if e.len() == 0 {
        Seq::empty()
    } else if e.last().0.uid@ != uid {
        others(e.drop_last(), uid).push(e.last())
    } else {
        others(e.drop_last(), uid)
    }
}

/// The nominees of a node.
pub open spec fn nominees(e: Seq<(Arc<PodInfo>, String)>, node: Seq<char>) -> Seq<Arc<PodInfo>>
    decreases e.len(),
{
    if e.len() == 0 {
        Seq::empty()
    } else if e.last().1@ == node {
        nominees(e.drop_last(), node).push(e.last().0)
    } else {
        nominees(e.drop_last(), node)
    }
}

/// The node a pod is promised.
pub open spec fn promised(e: Seq<(Arc<PodInfo>, String)>, uid: Seq<char>) -> Option<Seq<char>>
    decreases e.len(),
{
    if e.len() == 0 {
        None
    } else if e.last().0.uid@ == uid {
        Some(e.last().1@)
    } else {
        promised(e.drop_last(), uid)
    }
}

/// No pod is promised two nodes.
pub open spec fn one_promise_each(e: Seq<(Arc<PodInfo>, String)>) -> bool {
    forall|i: int, j: int|
        0 <= i < j < e.len() ==> (#[trigger] e[i]).0.uid@ != (#[trigger] e[j]).0.uid@
}

proof fn others_lacks(e: Seq<(Arc<PodInfo>, String)>, uid: Seq<char>)
    ensures
        forall|i: int| 0 <= i < others(e, uid).len() ==> (#[trigger] others(e, uid)[i]).0.uid@
            != uid,
        one_promise_each(e) ==> one_promise_each(others(e, uid)),
        forall|i: int| 0 <= i < others(e, uid).len() ==> exists|k: int|
            0 <= k < e.len() && #[trigger] e[k] == #[trigger] others(e, uid)[i],
    decreases e.len(),
{
    if e.len() > 0 {
        let t = e.drop_last();
        others_lacks(t, uid);
        let o = others(e, uid);
        let ot = others(t, uid);
        assert forall|i: int| 0 <= i < o.len() implies exists|k: int|
            0 <= k < e.len() && #[trigger] e[k] == #[trigger] o[i] by {
            if i < ot.len() {
                assert(o[i] == ot[i]);
                let k = choose|k: int| 0 <= k < t.len() && #[trigger] t[k] == ot[i];
                assert(e[k] == o[i]);
            } else {
                assert(e[e.len() - 1] == o[i]);
            }
        }
        if one_promise_each(e) {
            assert(one_promise_each(t)) by {
                assert forall|i: int, j: int| 0 <= i < j < t.len() implies (
                #[trigger] t[i]).0.uid@ != (#[trigger] t[j]).0.uid@ by {
                    assert(t[i] == e[i] && t[j] == e[j]);
                }
            }
            assert forall|i: int, j: int| 0 <= i < j < o.len() implies (#[trigger] o[i]).0.uid@
                != (#[trigger] o[j]).0.uid@ by {
                assert(o[i] == ot[i]);
                if j < ot.len() {
                    assert(o[j] == ot[j]);
                } else {
                    let k = choose|k: int| 0 <= k < t.len() && #[trigger] t[k] == ot[i];
                    assert(e[k] == t[k]);
                    assert(e[e.len() - 1] == o[j]);
                }
            }
        }
    }
}

impl Nominator {
    /// No pod is promised two nodes.
    pub open spec fn wf(&self) -> bool {
        one_promise_each(self.entries@)
    }

    /// Promise a node to a pod, in place of any it was promised before.
    pub fn nominate(&mut self, pod: Arc<PodInfo>, node: &str)
        requires
            old(self).wf(),
        ensures
            final(self).wf(),
            final(self).entries@.len() == others(old(self).entries@, pod.uid@).len() + 1,
            final(self).entries@.drop_last() == others(old(self).entries@, pod.uid@),
            final(self).entries@.last().0 == pod,
            final(self).entries@.last().1@ == node@,
    {
        let uid = pod.uid.clone();
        self.remove(uid.as_str());
        let ghost rest = self.entries@;
        proof {
            others_lacks(old(self).entries@, pod.uid@);
        }
        self.entries.push((pod, node.to_owned()));
        assert(self.entries@.drop_last() =~= rest);
    }

    /// Forget a pod's promise.
    pub fn remove(&mut self, pod_uid: &str)
        requires
            old(self).wf(),
        ensures
            final(self).wf(),
            final(self).entries@ == others(old(self).entries@, pod_uid@),
    {
        let mut rest: Vec<(Arc<PodInfo>, String)> = Vec::new();
        let mut i: usize = 0;
        while i < self.entries.len()
            invariant
                i <= self.entries@.len(),
                self.entries@ == old(self).entries@,
                rest@ == others(self.entries@.take(i as int), pod_uid@),
            decreases self.entries@.len() - i,
        {
            let e = &self.entries[i];
            if !text_eq(e.0.uid.as_str(), pod_uid) {
                rest.push((e.0.clone(), e.1.clone()));
            }
            i += 1;
            assert(self.entries@.take(i as int).drop_last() =~= self.entries@.take(i - 1));
        }
        assert(self.entries@.take(i as int) =~= self.entries@);
        proof {
            others_lacks(old(self).entries@, pod_uid@);
        }
        self.entries = rest;
    }

    pub fn nominated_node(&self, pod_uid: &str) -> (r: Option<&str>)
        ensures
            match promised(self.entries@, pod_uid@) {
                Some(n) => r is Some && r->Some_0@ == n,
                None => r is None,
            },
    {
        let mut i: usize = self.entries.len();
        assert(self.entries@.take(i as int) =~= self.entries@);
        while i > 0
            invariant
                i <= self.entries@.len(),
                promised(self.entries@, pod_uid@) == promised(
                    self.entries@.take(i as int),
                    pod_uid@,
                ),
            decreases i,
        {
            i -= 1;
            assert(self.entries@.take(i + 1).drop_last() =~= self.entries@.take(i as int));
            if text_eq(self.entries[i].0.uid.as_str(), pod_uid) {
                return Some(self.entries[i].1.as_str());
            }
        }
        None
    }

    /// Pods promised this node, which a filter must treat as already there.
    pub fn nominated_on(&self, node: &str) -> (r: Vec<Arc<PodInfo>>)
        ensures
            r@ == nominees(self.entries@, node@),
    {
        let mut out: Vec<Arc<PodInfo>> = Vec::new();
        let mut i: usize = 0;
        while i < self.entries.len()
            invariant
                i <= self.entries@.len(),
                out@ == nominees(self.entries@.take(i as int), node@),
            decreases self.entries@.len() - i,
        {
            if text_eq(self.entries[i].1.as_str(), node) {
                out.push(self.entries[i].0.clone());
            }
            i += 1;
            assert(self.entries@.take(i as int).drop_last() =~= self.entries@.take(i - 1));
        }
        assert(self.entries@.take(i as int) =~= self.entries@);
        out
    }

    pub fn len(&self) -> (r: usize)
        ensures
            r == self.entries@.len(),
    {
        self.entries.len()
    }

    pub fn is_empty(&self) -> (r: bool)
        ensures
            r == (self.entries@.len() == 0),
    {
        self.entries.len() == 0
    }
}

/// A pod that was removed is promised no node, and stands on none.
pub proof fn removal_frees_the_node(e: Seq<(Arc<PodInfo>, String)>, uid: Seq<char>, node: Seq<char>)
    ensures
        promised(others(e, uid), uid) is None,
        forall|i: int|
            0 <= i < nominees(others(e, uid), node).len() ==> (#[trigger] nominees(
                others(e, uid),
                node,
            )[i]).uid@ != uid,
    decreases e.len(),
{
    if e.len() > 0 {
        let t = e.drop_last();
        removal_frees_the_node(t, uid, node);
        if e.last().0.uid@ != uid {
            assert(others(e, uid).drop_last() =~= others(t, uid));
            let n = nominees(others(e, uid), node);
            let nt = nominees(others(t, uid), node);
            assert forall|i: int| 0 <= i < n.len() implies (#[trigger] n[i]).uid@ != uid by {
                if i < nt.len() {
                    assert(n[i] == nt[i]);
                }
            }
        }
    }
}

/// A nominated pod counts on the node it is promised and on no other, and the
/// promises of the other pods stay.
pub proof fn nomination_moves_the_pod(
    before: Seq<(Arc<PodInfo>, String)>,
    after: Seq<(Arc<PodInfo>, String)>,
    pod: Arc<PodInfo>,
    other: Seq<char>,
)
    requires
        after.len() > 0,
        after.drop_last() == others(before, pod.uid@),
        after.last().0 == pod,
    ensures
        promised(after, pod.uid@) == Some(after.last().1@),
        nominees(after, after.last().1@).contains(pod),
        other != after.last().1@ ==> forall|i: int|
            0 <= i < nominees(after, other).len() ==> (#[trigger] nominees(after, other)[i]).uid@
                != pod.uid@,
        other != pod.uid@ ==> promised(after, other) == promised(before, other),
{
    let node = after.last().1@;
    let on = nominees(after, node);
    assert(on[on.len() - 1] == pod);
    removal_frees_the_node(before, pod.uid@, other);
    if other != pod.uid@ {
        others_keep_promises(before, pod.uid@, other);
    }
}

proof fn others_keep_promises(e: Seq<(Arc<PodInfo>, String)>, uid: Seq<char>, other: Seq<char>)
    requires
        other != uid,
    ensures
        promised(others(e, uid), other) == promised(e, other),
    decreases e.len(),
{
    if e.len() > 0 {
        others_keep_promises(e.drop_last(), uid, other);
        if e.last().0.uid@ != uid {
            assert(others(e, uid).drop_last() =~= others(e.drop_last(), uid));
        }
    }
}

/// The place of a pod's promise among those made, the latest last.
pub open spec fn turn(e: Seq<(Arc<PodInfo>, String)>, uid: Seq<char>) -> int
    decreases e.len(),
{
    if e.len() == 0 {
        -1
    } else if e.last().0.uid@ == uid {
        e.len() - 1
    } else {
        turn(e.drop_last(), uid)
    }
}

proof fn turn_bounds(e: Seq<(Arc<PodInfo>, String)>, uid: Seq<char>)
    ensures
        turn(e, uid) < e.len(),
    decreases e.len(),
{
    if e.len() > 0 && e.last().0.uid@ != uid {
        turn_bounds(e.drop_last(), uid);
    }
}

/// The pods that count on a node are exactly those that are promised it, each
/// once, in the order in which they were last nominated, and each is the pod
/// that was nominated.
pub proof fn nominees_are_the_promised(
    e: Seq<(Arc<PodInfo>, String)>,
    node: Seq<char>,
    uid: Seq<char>,
)
    requires
        one_promise_each(e),
    ensures
        promised(e, uid) == Some(node) <==> exists|i: int|
            0 <= i < nominees(e, node).len() && (#[trigger] nominees(e, node)[i]).uid@ == uid,
        forall|i: int|
            0 <= i < nominees(e, node).len() ==> {
                let t = turn(e, (#[trigger] nominees(e, node)[i]).uid@);
                0 <= t < e.len() && e[t].0 == nominees(e, node)[i] && e[t].1@ == node
            },
        forall|i: int, j: int|
            0 <= i < j < nominees(e, node).len() ==> turn(
                e,
                (#[trigger] nominees(e, node)[i]).uid@,
            ) < turn(e, (#[trigger] nominees(e, node)[j]).uid@),
    decreases e.len(),
{
    if e.len() > 0 {
        let t = e.drop_last();
        let last = e.len() - 1;
        assert(one_promise_each(t)) by {
            assert forall|i: int, j: int| 0 <= i < j < t.len() implies (#[trigger] t[i]).0.uid@
                != (#[trigger] t[j]).0.uid@ by {
                assert(t[i] == e[i] && t[j] == e[j]);
            }
        }
        nominees_are_the_promised(t, node, uid);
        let n = nominees(e, node);
        let nt = nominees(t, node);
        assert forall|i: int| 0 <= i < nt.len() implies turn(e, (#[trigger] nt[i]).uid@) == turn(
            t,
            nt[i].uid@,
        ) by {
            let k = turn(t, nt[i].uid@);
            assert(t[k] == e[k] && e[k].0.uid@ != e[last].0.uid@);
        }
        assert forall|i: int| 0 <= i < n.len() implies {
            let k = turn(e, (#[trigger] n[i]).uid@);
            0 <= k < e.len() && e[k].0 == n[i] && e[k].1@ == node
        } by {
            if i < nt.len() {
                assert(n[i] == nt[i]);
                let k = turn(t, nt[i].uid@);
                assert(t[k] == e[k]);
            }
        }
        assert forall|i: int, j: int| 0 <= i < j < n.len() implies turn(
            e,
            (#[trigger] n[i]).uid@,
        ) < turn(e, (#[trigger] n[j]).uid@) by {
            assert(n[i] == nt[i]);
            if j < nt.len() {
                assert(n[j] == nt[j]);
            } else {
                turn_bounds(t, nt[i].uid@);
            }
        }
        if promised(e, uid) == Some(node) {
            if e.last().0.uid@ == uid {
                assert(n[n.len() - 1].uid@ == uid);
            } else {
                let i = choose|i: int| 0 <= i < nt.len() && (#[trigger] nt[i]).uid@ == uid;
                assert(n[i] == nt[i]);
            }
        }
        if exists|i: int| 0 <= i < n.len() && (#[trigger] n[i]).uid@ == uid {
            let i = choose|i: int| 0 <= i < n.len() && (#[trigger] n[i]).uid@ == uid;
            if i < nt.len() {
                assert(n[i] == nt[i]);
                let k = turn(t, nt[i].uid@);
                assert(t[k] == e[k] && e[k].0.uid@ != e[last].0.uid@);
            }
        }
    }
}

/// How many pods count on the nodes of a list, summed.
pub open spec fn nominee_total(e: Seq<(Arc<PodInfo>, String)>, nodes: Seq<Seq<char>>) -> nat
    decreases nodes.len(),
{
    if nodes.len() == 0 {
        0
    } else {
        nominee_total(e, nodes.drop_last()) + nominees(e, nodes.last()).len()
    }
}

proof fn one_more_nominee(e: Seq<(Arc<PodInfo>, String)>, nodes: Seq<Seq<char>>)
    requires
        e.len() > 0,
        nodes.no_duplicates(),
    ensures
        nominee_total(e, nodes) == nominee_total(e.drop_last(), nodes) + if nodes.contains(
            e.last().1@,
        ) {
            1nat
        } else {
            0nat
        },
    decreases nodes.len(),
{
    if nodes.len() > 0 {
        let t = nodes.drop_last();
        assert(t.no_duplicates()) by {
            assert forall|i: int, j: int| 0 <= i < t.len() && 0 <= j < t.len() && i != j implies t[i]
                != t[j] by {
                assert(nodes[i] != nodes[j]);
            }
        }
        one_more_nominee(e, t);
        let node = e.last().1@;
        if nodes.last() == node {
            assert(nodes[nodes.len() - 1] == node);
            assert(!t.contains(node)) by {
                if t.contains(node) {
                    let k = choose|k: int| 0 <= k < t.len() && t[k] == node;
                    assert(nodes[k] != nodes[nodes.len() - 1]);
                }
            }
        } else {
            if t.contains(node) {
                let k = choose|k: int| 0 <= k < t.len() && t[k] == node;
                assert(nodes[k] == node);
            }
            if nodes.contains(node) {
                let k = choose|k: int| 0 <= k < nodes.len() && nodes[k] == node;
                assert(t[k] == node);
            }
        }
    }
}

proof fn no_nominees(nodes: Seq<Seq<char>>)
    ensures
        nominee_total(Seq::empty(), nodes) == 0,
    decreases nodes.len(),
{
    if nodes.len() > 0 {
        no_nominees(nodes.drop_last());
    }
}

/// The pods that are promised a node.
pub open spec fn promised_uids(e: Seq<(Arc<PodInfo>, String)>) -> Set<Seq<char>> {
    Set::new(|u: Seq<char>| promised(e, u) is Some)
}

/// The number of promises is the number of pods that have one, and the sum over
/// the nodes of the pods that count on each.
pub proof fn promises_add_up(e: Seq<(Arc<PodInfo>, String)>, nodes: Seq<Seq<char>>)
    requires
        one_promise_each(e),
        nodes.no_duplicates(),
        forall|i: int| 0 <= i < e.len() ==> nodes.contains((#[trigger] e[i]).1@),
    ensures
        promised_uids(e).finite(),
        promised_uids(e).len() == e.len(),
        nominee_total(e, nodes) == e.len(),
    decreases e.len(),
{
    if e.len() == 0 {
        assert(e =~= Seq::empty());
        no_nominees(nodes);
        assert(promised_uids(e) =~= Set::empty());
    } else {
        let t = e.drop_last();
        let last = e.len() - 1;
        assert forall|i: int| 0 <= i < t.len() implies nodes.contains((#[trigger] t[i]).1@) by {
            assert(t[i] == e[i]);
        }
        assert forall|i: int, j: int| 0 <= i < j < t.len() implies (#[trigger] t[i]).0.uid@ != (
        #[trigger] t[j]).0.uid@ by {
            assert(t[i] == e[i] && t[j] == e[j]);
        }
        promises_add_up(t, nodes);
        one_more_nominee(e, nodes);
        assert(nodes.contains(e[last].1@));
        let uid = e.last().0.uid@;
        assert forall|i: int| 0 <= i < t.len() implies (#[trigger] t[i]).0.uid@ != uid by {
            assert(t[i] == e[i] && e[i].0.uid@ != e[last].0.uid@);
        }
        unpromised(t, uid);
        assert(promised_uids(e) =~= promised_uids(t).insert(uid));
    }
}

proof fn unpromised(t: Seq<(Arc<PodInfo>, String)>, uid: Seq<char>)
    requires
        forall|i: int| 0 <= i < t.len() ==> (#[trigger] t[i]).0.uid@ != uid,
    ensures
        promised(t, uid) is None,
    decreases t.len(),
{
    if t.len() > 0 {
        assert(t[t.len() - 1].0.uid@ != uid);
        let r = t.drop_last();
        assert forall|i: int| 0 <= i < r.len() implies (#[trigger] r[i]).0.uid@ != uid by {
            assert(t[i].0.uid@ != uid);
        }
        unpromised(r, uid);
    }
}

/// The budget counts the eviction of the pod: it is of the pod's namespace, it
/// selects the pod, and it does not have the pod's name as disrupted already.
pub open spec fn counts_against(b: PdbState, pod: PodInfo) -> bool {
    &&& b.namespace@ == pod.namespace@
    &&& selected(selector_of(b.selector), pod.labels)
    &&& forall|i: int|
        0 <= i < b.already_disrupted@.len() ==> (#[trigger] b.already_disrupted@[i])@ != pod.name@
}

/// How many of the pods a budget counts.
pub open spec fn counted(b: PdbState, pods: Seq<Arc<PodInfo>>) -> nat
    decreases pods.len(),
{
    if pods.len() == 0 {
        0
    } else {
        counted(b, pods.drop_last()) + if counts_against(b, *pods.last()) {
            1nat
        } else {
            0nat
        }
    }
}

/// Evicting the pod at `i`, after those before it, is more than some budget
/// allows.
pub open spec fn overdrawn(pods: Seq<Arc<PodInfo>>, budgets: Seq<PdbState>, i: int) -> bool {
    exists|b: int|
        0 <= b < budgets.len() && counts_against(#[trigger] budgets[b], *pods[i]) && counted(
            budgets[b],
            pods.take(i),
        ) >= budgets[b].disruptions_allowed
}

/// A budget is left with what it allows less the pods that it counts, and never
/// less than nothing; one that allows nothing stays as it is.
pub proof fn budgets_are_charged_once_a_pod(
    pods: Seq<Arc<PodInfo>>,
    budgets: Seq<PdbState>,
    b: int,
)
    requires
        0 <= b < budgets.len(),
    ensures
        all_spent(pods, budgets).len() == budgets.len(),
        all_spent(pods, budgets)[b].namespace == budgets[b].namespace,
        all_spent(pods, budgets)[b].selector == budgets[b].selector,
        all_spent(pods, budgets)[b].already_disrupted == budgets[b].already_disrupted,
        budgets[b].disruptions_allowed <= 0 ==> all_spent(pods, budgets)[b].disruptions_allowed
            == budgets[b].disruptions_allowed,
        budgets[b].disruptions_allowed > 0 ==> all_spent(pods, budgets)[b].disruptions_allowed
            == if counted(budgets[b], pods) < budgets[b].disruptions_allowed {
            budgets[b].disruptions_allowed - counted(budgets[b], pods)
        } else {
            0
        },
    decreases pods.len(),
{
    if pods.len() > 0 {
        budgets_are_charged_once_a_pod(pods.drop_last(), budgets, b);
        let was = all_spent(pods.drop_last(), budgets)[b];
        assert(charged(was, *pods.last()) == counts_against(budgets[b], *pods.last()));
    }
}

/// Evicting a pod breaches a budget exactly where more pods of higher rank, or
/// as many, are counted there than it allows.
pub proof fn breach_means_overdrawn(pods: Seq<Arc<PodInfo>>, budgets: Seq<PdbState>, i: int)
    requires
        0 <= i < pods.len(),
    ensures
        breaches(all_spent(pods.take(i), budgets), *pods[i]) <==> overdrawn(pods, budgets, i),
{
    let t = pods.take(i);
    let s = all_spent(t, budgets);
    let pod = shared(pods[i]);
    spent_keeps_length(t, budgets);
    assert forall|b: int| 0 <= b < budgets.len() implies (charged(#[trigger] s[b], pod)
        && s[b].disruptions_allowed <= 0 <==> counts_against(budgets[b], pod) && counted(
        budgets[b],
        t,
    ) >= budgets[b].disruptions_allowed) by {
        budgets_are_charged_once_a_pod(t, budgets, b);
    }
    if breaches(s, pod) {
        let b = choose|b: int|
            0 <= b < s.len() && charged(#[trigger] s[b], pod) && s[b].disruptions_allowed <= 0;
        assert(counts_against(budgets[b], pod));
    }
    if overdrawn(pods, budgets, i) {
        let b = choose|b: int|
            0 <= b < budgets.len() && counts_against(#[trigger] budgets[b], *pods[i]) && counted(
                budgets[b],
                pods.take(i),
            ) >= budgets[b].disruptions_allowed;
        assert(charged(s[b], pod));
    }
}

proof fn spent_keeps_length(pods: Seq<Arc<PodInfo>>, budgets: Seq<PdbState>)
    ensures
        all_spent(pods, budgets).len() == budgets.len(),
    decreases pods.len(),
{
    if pods.len() > 0 {
        spent_keeps_length(pods.drop_last(), budgets);
    }
}

/// The positions of the pods whose eviction breaches (or does not breach) a
/// budget.
spec fn breaching_at(pods: Seq<Arc<PodInfo>>, budgets: Seq<PdbState>, wanted: bool, n: int) -> Seq<
    int,
>
    decreases n,
{
    if n <= 0 {
        Seq::empty()
    } else if overdrawn(pods, budgets, n - 1) == wanted {
        breaching_at(pods, budgets, wanted, n - 1).push(n - 1)
    } else {
        breaching_at(pods, budgets, wanted, n - 1)
    }
}

proof fn breaching_positions(pods: Seq<Arc<PodInfo>>, budgets: Seq<PdbState>, wanted: bool, n: int)
    requires
        0 <= n <= pods.len(),
    ensures
        ({
            let at = breaching_at(pods, budgets, wanted, n);
            let list = breaching(pods.take(n), budgets, wanted);
            &&& at.len() == list.len()
            &&& forall|k: int|
                0 <= k < at.len() ==> 0 <= #[trigger] at[k] < n && list[k] == pods[at[k]]
                    && overdrawn(pods, budgets, at[k]) == wanted
            &&& forall|k: int, m: int| 0 <= k < m < at.len() ==> #[trigger] at[k] < #[trigger] at[m]
            &&& forall|i: int|
                0 <= i < n && overdrawn(pods, budgets, i) == wanted ==> #[trigger] at.contains(i)
        }),
        breaching_at(pods, budgets, true, n).len() + breaching_at(pods, budgets, false, n).len()
            == n,
    decreases n,
{
    if n > 0 {
        breaching_positions(pods, budgets, wanted, n - 1);
        let at = breaching_at(pods, budgets, wanted, n);
        let at0 = breaching_at(pods, budgets, wanted, n - 1);
        let list = breaching(pods.take(n), budgets, wanted);
        let list0 = breaching(pods.take(n - 1), budgets, wanted);
        assert(pods.take(n).drop_last() =~= pods.take(n - 1));
        breach_means_overdrawn(pods, budgets, n - 1);
        assert forall|k: int| 0 <= k < at.len() implies 0 <= #[trigger] at[k] < n && list[k]
            == pods[at[k]] && overdrawn(pods, budgets, at[k]) == wanted by {
            if k < at0.len() {
                assert(at[k] == at0[k]);
            }
        }
        assert forall|k: int, m: int| 0 <= k < m < at.len() implies #[trigger] at[k]
            < #[trigger] at[m] by {
            assert(at[k] == at0[k]);
            if m < at0.len() {
                assert(at[m] == at0[m]);
            }
        }
        assert forall|i: int|
            0 <= i < n && overdrawn(pods, budgets, i) == wanted implies #[trigger] at.contains(
            i,
        ) by {
            if i < n - 1 {
                assert(at0.contains(i));
                let k = choose|k: int| 0 <= k < at0.len() && at0[k] == i;
                assert(at[k] == i);
            } else {
                assert(at[at.len() - 1] == i);
            }
        }
    } else {
        assert(pods.take(n) =~= Seq::empty());
    }
}

/// The positions of a list in the order in which its pods are offered back: each
/// once, those whose eviction breaches a budget before those whose eviction
/// breaches none, and within each of the two the order of the list.
pub open spec fn breaching_first(
    pods: Seq<Arc<PodInfo>>,
    budgets: Seq<PdbState>,
    order: Seq<int>,
) -> bool {
    &&& order.len() == pods.len()
    &&& forall|k: int| 0 <= k < order.len() ==> 0 <= #[trigger] order[k] < pods.len()
    &&& forall|k: int, m: int|
        0 <= k < m < order.len() ==> {
            &&& #[trigger] order[k] != #[trigger] order[m]
            &&& overdrawn(pods, budgets, order[m]) ==> overdrawn(pods, budgets, order[k])
            &&& overdrawn(pods, budgets, order[k]) == overdrawn(pods, budgets, order[m])
                ==> order[k] < order[m]
        }
}

/// The pods are offered back each once, and every pod whose eviction breaches a
/// budget before every pod whose eviction breaches none.
pub proof fn breaching_pods_come_first(pods: Seq<Arc<PodInfo>>, budgets: Seq<PdbState>)
    ensures
        offer_order(pods, budgets).to_multiset() == pods.to_multiset(),
        exists|order: Seq<int>| #[trigger]
            breaching_first(pods, budgets, order) && offer_order(pods, budgets)
                == order.map_values(|i: int| pods[i]),
{
    order_of_offers(pods, budgets);
    let n = pods.len() as int;
    let order = breaching_at(pods, budgets, true, n) + breaching_at(pods, budgets, false, n);
    assert(breaching_first(pods, budgets, order));
    groups_make_up(pods, budgets);
}

proof fn order_of_offers(pods: Seq<Arc<PodInfo>>, budgets: Seq<PdbState>)
    ensures
        ({
            let n = pods.len() as int;
            let order = breaching_at(pods, budgets, true, n) + breaching_at(
                pods,
                budgets,
                false,
                n,
            );
            &&& breaching_first(pods, budgets, order)
            &&& offer_order(pods, budgets) == order.map_values(|i: int| pods[i])
            &&& breaching(pods, budgets, true).len() == breaching_at(pods, budgets, true, n).len()
        }),
{
    let n = pods.len() as int;
    let first = breaching_at(pods, budgets, true, n);
    let second = breaching_at(pods, budgets, false, n);
    let order = first + second;
    breaching_positions(pods, budgets, true, n);
    breaching_positions(pods, budgets, false, n);
    assert(pods.take(n) =~= pods);
    assert(offer_order(pods, budgets) =~= order.map_values(|i: int| pods[i]));
    assert forall|k: int| 0 <= k < order.len() implies 0 <= #[trigger] order[k] < pods.len() by {
        if k < first.len() {
            assert(order[k] == first[k]);
        } else {
            assert(order[k] == second[k - first.len()]);
        }
    }
    assert forall|k: int, m: int| 0 <= k < m < order.len() implies {
        &&& #[trigger] order[k] != #[trigger] order[m]
        &&& overdrawn(pods, budgets, order[m]) ==> overdrawn(pods, budgets, order[k])
        &&& overdrawn(pods, budgets, order[k]) == overdrawn(pods, budgets, order[m]) ==> order[k]
            < order[m]
    } by {
        if k < first.len() {
            assert(order[k] == first[k]);
        } else {
            assert(order[k] == second[k - first.len()]);
        }
        if m < first.len() {
            assert(order[m] == first[m]);
        } else {
            assert(order[m] == second[m - first.len()]);
        }
    }
}

proof fn groups_make_up(pods: Seq<Arc<PodInfo>>, budgets: Seq<PdbState>)
    ensures
        offer_order(pods, budgets).to_multiset() == pods.to_multiset(),
    decreases pods.len(),
{
    broadcast use vstd::seq_lib::group_to_multiset_ensures;

    if pods.len() > 0 {
        let t = pods.drop_last();
        let p = pods.last();
        groups_make_up(t, budgets);
        let a = breaching(t, budgets, true);
        let b = breaching(t, budgets, false);
        vstd::seq_lib::lemma_multiset_commutative(a, b);
        vstd::seq_lib::lemma_multiset_commutative(a.push(p), b);
        vstd::seq_lib::lemma_multiset_commutative(a, b.push(p));
        assert(pods =~= t.push(p));
        assert(offer_order(pods, budgets).to_multiset() =~= pods.to_multiset());
    } else {
        assert(offer_order(pods, budgets) =~= pods);
    }
}

/// The pods of a list without those of some uids.
pub open spec fn left_off(pods: Seq<Arc<PodInfo>>, back: Set<Seq<char>>) -> Seq<Arc<PodInfo>> {
    pods.filter(|p: Arc<PodInfo>| !back.contains(p.uid@))
}

/// The uids that came back over the first `k` offers.
pub open spec fn came_back(
    pods: Seq<Arc<PodInfo>>,
    order: Seq<int>,
    refused: Seq<int>,
    k: int,
) -> Set<Seq<char>> {
    Set::new(
        |u: Seq<char>|
            exists|m: int|
                0 <= m < k && !refused.contains(m) && (#[trigger] pods[order[m]]).uid@ == u,
    )
}

/// The offers that are turned down, each at its turn and no other: those beside
/// which the preemptor does not fit, with every pod gone that has not come back.
pub open spec fn refused_in_turn<F: FitCheck>(
    pods: Seq<Arc<PodInfo>>,
    order: Seq<int>,
    refused: Seq<int>,
    fit: F,
) -> bool {
    &&& forall|j: int| 0 <= j < refused.len() ==> 0 <= #[trigger] refused[j] < order.len()
    &&& forall|i: int, j: int|
        0 <= i < j < refused.len() ==> #[trigger] refused[i] < #[trigger] refused[j]
    &&& forall|k: int|
        0 <= k < order.len() ==> (#[trigger] refused.contains(k) <==> !fit.fits_view(
            left_off(pods, came_back(pods, order, refused, k).insert(pods[order[k]].uid@)),
        ))
}

/// The victims of a list of pods, which are offered back with those that breach
/// a budget first: exactly the offers that are turned down, in turn. The breaches
/// are the victims at the head of the list whose eviction breaches a budget, and
/// no other victim's does.
pub open spec fn fairly_chosen<F: FitCheck>(
    pods: Seq<Arc<PodInfo>>,
    budgets: Seq<PdbState>,
    fit: F,
    v: Victims,
) -> bool {
    exists|order: Seq<int>, refused: Seq<int>|
        {
            &&& #[trigger] breaching_first(pods, budgets, order)
            &&& #[trigger] refused_in_turn(pods, order, refused, fit)
            &&& v.pods@.len() == refused.len()
            &&& v.pdb_violations <= refused.len()
            &&& forall|j: int|
                0 <= j < refused.len() ==> {
                    &&& v.pods@[j]@ == pods[order[#[trigger] refused[j]]].key_view()
                    &&& j < v.pdb_violations <==> overdrawn(pods, budgets, order[refused[j]])
                }
        }
}

proof fn without_is_a_filter(pods: Seq<Arc<PodInfo>>, back: Set<Seq<char>>, uid: Seq<char>)
    ensures
        without(left_off(pods, back), uid) == left_off(pods, back.insert(uid)),
    decreases pods.len(),
{
    reveal(Seq::filter);
    if pods.len() > 0 {
        let t = pods.drop_last();
        without_is_a_filter(t, back, uid);
        let rest = left_off(t, back);
        let all = left_off(pods, back);
        if !back.contains(pods.last().uid@) {
            assert(all == rest.push(pods.last()));
            assert(all.drop_last() =~= rest);
        }
    }
}

proof fn nothing_left_off(pods: Seq<Arc<PodInfo>>)
    ensures
        left_off(pods, Set::empty()) == pods,
    decreases pods.len(),
{
    reveal(Seq::filter);
    if pods.len() > 0 {
        nothing_left_off(pods.drop_last());
        assert(pods =~= pods.drop_last().push(pods.last()));
    }
}

/// The positions of the offers that are turned down.
spec fn refused_at<F: FitCheck>(
    offers: Seq<Arc<PodInfo>>,
    removed: Seq<Arc<PodInfo>>,
    fit: F,
    n: int,
) -> Seq<int>
    decreases n,
{
    if n <= 0 {
        Seq::empty()
    } else if condemned(offers.take(n), removed, fit) {
        refused_at(offers, removed, fit, n - 1).push(n - 1)
    } else {
        refused_at(offers, removed, fit, n - 1)
    }
}

proof fn refused_positions<F: FitCheck>(
    offers: Seq<Arc<PodInfo>>,
    removed: Seq<Arc<PodInfo>>,
    fit: F,
    n: int,
)
    requires
        0 <= n <= offers.len(),
    ensures
        ({
            let at = refused_at(offers, removed, fit, n);
            let list = victims_of(offers.take(n), removed, fit);
            &&& at.len() == list.len()
            &&& at.len() <= n
            &&& forall|j: int|
                0 <= j < at.len() ==> 0 <= #[trigger] at[j] < n && list[j] == offers[at[j]]
            &&& forall|i: int, j: int| 0 <= i < j < at.len() ==> #[trigger] at[i] < #[trigger] at[j]
            &&& forall|k: int|
                0 <= k < n ==> (#[trigger] at.contains(k) <==> condemned(
                    offers.take(k + 1),
                    removed,
                    fit,
                ))
        }),
    decreases n,
{
    if n > 0 {
        refused_positions(offers, removed, fit, n - 1);
        let at = refused_at(offers, removed, fit, n);
        let at0 = refused_at(offers, removed, fit, n - 1);
        let list = victims_of(offers.take(n), removed, fit);
        assert(offers.take(n).drop_last() =~= offers.take(n - 1));
        assert forall|j: int| 0 <= j < at.len() implies 0 <= #[trigger] at[j] < n && list[j]
            == offers[at[j]] by {
            if j < at0.len() {
                assert(at[j] == at0[j]);
            }
        }
        assert forall|i: int, j: int| 0 <= i < j < at.len() implies #[trigger] at[i]
            < #[trigger] at[j] by {
            assert(at[i] == at0[i]);
            if j < at0.len() {
                assert(at[j] == at0[j]);
            }
        }
        assert forall|k: int| 0 <= k < n implies (#[trigger] at.contains(k) <==> condemned(
            offers.take(k + 1),
            removed,
            fit,
        )) by {
            if k < n - 1 {
                if at0.contains(k) {
                    let j = choose|j: int| 0 <= j < at0.len() && at0[j] == k;
                    assert(at[j] == k);
                }
                if at.contains(k) {
                    let j = choose|j: int| 0 <= j < at.len() && at[j] == k;
                    assert(at0[j] == k);
                }
            } else if condemned(offers.take(n), removed, fit) {
                assert(at[at.len() - 1] == k);
            }
        }
    }
}

proof fn refused_prefix<F: FitCheck>(
    offers: Seq<Arc<PodInfo>>,
    removed: Seq<Arc<PodInfo>>,
    fit: F,
    m: int,
    n: int,
)
    requires
        0 <= m <= n <= offers.len(),
    ensures
        refused_at(offers, removed, fit, m).len() <= refused_at(offers, removed, fit, n).len(),
        forall|j: int|
            0 <= j < refused_at(offers, removed, fit, n).len() ==> (j < refused_at(
                offers,
                removed,
                fit,
                m,
            ).len() <==> #[trigger] refused_at(offers, removed, fit, n)[j] < m),
    decreases n,
{
    refused_positions(offers, removed, fit, m);
    if m < n {
        refused_prefix(offers, removed, fit, m, n - 1);
        let at = refused_at(offers, removed, fit, n);
        let at0 = refused_at(offers, removed, fit, n - 1);
        assert forall|j: int| 0 <= j < at.len() implies (j < refused_at(
            offers,
            removed,
            fit,
            m,
        ).len() <==> #[trigger] at[j] < m) by {
            if j < at0.len() {
                assert(at[j] == at0[j]);
            }
        }
    }
}

proof fn came_back_steps(pods: Seq<Arc<PodInfo>>, order: Seq<int>, refused: Seq<int>, k: int)
    requires
        k > 0,
    ensures
        came_back(pods, order, refused, k) == if refused.contains(k - 1) {
            came_back(pods, order, refused, k - 1)
        } else {
            came_back(pods, order, refused, k - 1).insert(pods[order[k - 1]].uid@)
        },
{
    let back = came_back(pods, order, refused, k);
    let was = came_back(pods, order, refused, k - 1);
    let uid = pods[order[k - 1]].uid@;
    assert forall|u: Seq<char>| was.contains(u) implies back.contains(u) by {
        let m = choose|m: int|
            0 <= m < k - 1 && !refused.contains(m) && (#[trigger] pods[order[m]]).uid@ == u;
        assert(0 <= m < k && pods[order[m]].uid@ == u);
    }
    if refused.contains(k - 1) {
        assert(back =~= was);
    } else {
        assert(back.contains(uid));
        assert(back =~= was.insert(uid));
    }
}

proof fn gone_at_turn<F: FitCheck>(
    pods: Seq<Arc<PodInfo>>,
    order: Seq<int>,
    offers: Seq<Arc<PodInfo>>,
    refused: Seq<int>,
    fit: F,
    k: int,
)
    requires
        offers == order.map_values(|i: int| pods[i]),
        refused == refused_at(offers, pods, fit, offers.len() as int),
        0 <= k <= order.len(),
    ensures
        still_removed(offers.take(k), pods, fit) == left_off(
            pods,
            came_back(pods, order, refused, k),
        ),
    decreases k,
{
    if k == 0 {
        assert(came_back(pods, order, refused, k) =~= Set::empty());
        nothing_left_off(pods);
        assert(offers.take(0) =~= Seq::empty());
    } else {
        gone_at_turn(pods, order, offers, refused, fit, k - 1);
        assert(refused.contains(k - 1) <==> condemned(offers.take(k), pods, fit)) by {
            refused_positions(offers, pods, fit, offers.len() as int);
        }
        assert(offers.take(k).drop_last() =~= offers.take(k - 1));
        assert(offers.take(k).last() == pods[order[k - 1]]);
        without_is_a_filter(pods, came_back(pods, order, refused, k - 1), pods[order[k - 1]].uid@);
        came_back_steps(pods, order, refused, k);
    }
}

/// What the offers leave is a fair choice.
pub proof fn victims_are_fairly_chosen<F: FitCheck>(
    pods: Seq<Arc<PodInfo>>,
    budgets: Seq<PdbState>,
    fit: F,
    v: Victims,
)
    requires
        views(v.pods@) == pod_keys(victims_of(offer_order(pods, budgets), pods, fit)),
        v.pdb_violations == victims_of(breaching(pods, budgets, true), pods, fit).len(),
    ensures
        fairly_chosen(pods, budgets, fit, v),
{
    let n = pods.len() as int;
    let first = breaching_at(pods, budgets, true, n);
    let second = breaching_at(pods, budgets, false, n);
    let order = first + second;
    let offers = offer_order(pods, budgets);
    order_of_offers(pods, budgets);
    breaching_positions(pods, budgets, true, n);
    breaching_positions(pods, budgets, false, n);
    let refused = refused_at(offers, pods, fit, n);
    refused_positions(offers, pods, fit, n);
    assert(offers.take(n) =~= offers);
    let head = first.len() as int;
    assert(offers.take(head) =~= breaching(pods, budgets, true));
    refused_positions(offers, pods, fit, head);
    refused_prefix(offers, pods, fit, head, n);
    assert(refused_in_turn(pods, order, refused, fit)) by {
        assert forall|k: int| 0 <= k < order.len() implies (#[trigger] refused.contains(k)
            <==> !fit.fits_view(
            left_off(pods, came_back(pods, order, refused, k).insert(pods[order[k]].uid@)),
        )) by {
            gone_at_turn(pods, order, offers, refused, fit, k);
            assert(offers.take(k + 1).drop_last() =~= offers.take(k));
            assert(offers.take(k + 1).last() == pods[order[k]]);
            without_is_a_filter(pods, came_back(pods, order, refused, k), pods[order[k]].uid@);
        }
    }
    let list = victims_of(offers, pods, fit);
    assert(views(v.pods@).len() == pod_keys(list).len());
    assert forall|j: int| 0 <= j < refused.len() implies {
        &&& v.pods@[j]@ == pods[order[#[trigger] refused[j]]].key_view()
        &&& j < v.pdb_violations <==> overdrawn(pods, budgets, order[refused[j]])
    } by {
        assert(views(v.pods@)[j] == pod_keys(list)[j]);
        assert(list[j] == offers[refused[j]]);
        assert(offers[refused[j]] == pods[order[refused[j]]]);
        if refused[j] < head {
            assert(order[refused[j]] == first[refused[j]]);
        } else {
            assert(order[refused[j]] == second[refused[j] - head]);
        }
    }
    assert(breaching_first(pods, budgets, order));
}

proof fn left_off_holds(pods: Seq<Arc<PodInfo>>, back: Set<Seq<char>>, i: int)
    requires
        0 <= i < pods.len(),
        !back.contains(pods[i].uid@),
    ensures
        left_off(pods, back).contains(pods[i]),
    decreases pods.len(),
{
    reveal(Seq::filter);
    let t = pods.drop_last();
    let all = left_off(pods, back);
    if i < t.len() {
        left_off_holds(t, back, i);
        let rest = left_off(t, back);
        let k = choose|k: int| 0 <= k < rest.len() && rest[k] == t[i];
        assert(all[k] == pods[i]);
    } else {
        assert(all[all.len() - 1] == pods[i]);
    }
}

/// With further pods of a list gone besides, the preemptor fits no worse.
pub open spec fn never_worse<F: FitCheck>(fit: F, pods: Seq<Arc<PodInfo>>) -> bool {
    forall|a: Seq<Arc<PodInfo>>, b: Seq<Arc<PodInfo>>|
        within(b, pods) && a.to_multiset().subset_of(b.to_multiset()) && #[trigger] fit.fits_view(a)
            ==> #[trigger] fit.fits_view(b)
}

proof fn left_off_within(pods: Seq<Arc<PodInfo>>, back: Set<Seq<char>>)
    ensures
        within(left_off(pods, back), pods),
    decreases pods.len(),
{
    reveal(Seq::filter);
    if pods.len() > 0 {
        let t = pods.drop_last();
        left_off_within(t, back);
        let rest = left_off(t, back);
        let all = left_off(pods, back);
        assert forall|i: int| 0 <= i < all.len() implies pods.contains(#[trigger] all[i]) by {
            if i < rest.len() {
                assert(all[i] == rest[i]);
                assert(t.contains(rest[i]));
                let k = choose|k: int| 0 <= k < t.len() && t[k] == rest[i];
                assert(pods[k] == all[i]);
            } else {
                assert(pods[pods.len() - 1] == all[i]);
            }
        }
    }
}

/// Where the preemptor fits with only pods gone whose eviction breaches no
/// budget, no victim's eviction breaches one.
pub proof fn budgets_are_spared_where_possible<F: FitCheck>(
    pods: Seq<Arc<PodInfo>>,
    budgets: Seq<PdbState>,
    fit: F,
    v: Victims,
    harmless: Seq<Arc<PodInfo>>,
)
    requires
        fairly_chosen(pods, budgets, fit, v),
        never_worse(fit, pods),
        forall|i: int, j: int|
            0 <= i < j < pods.len() ==> (#[trigger] pods[i]).uid@ != (#[trigger] pods[j]).uid@,
        harmless.no_duplicates(),
        forall|i: int|
            0 <= i < harmless.len() ==> exists|k: int|
                0 <= k < pods.len() && !overdrawn(pods, budgets, k) && #[trigger] pods[k]
                    == #[trigger] harmless[i],
        fit.fits_view(harmless),
    ensures
        v.pdb_violations == 0,
        forall|j: int|
            0 <= j < v.pods@.len() ==> exists|k: int|
                0 <= k < pods.len() && !overdrawn(pods, budgets, k) && (
                #[trigger] pods[k]).key_view() == (#[trigger] v.pods@[j])@,
{
    let (order, refused) = choose|order: Seq<int>, refused: Seq<int>|
        {
            &&& #[trigger] breaching_first(pods, budgets, order)
            &&& #[trigger] refused_in_turn(pods, order, refused, fit)
            &&& v.pods@.len() == refused.len()
            &&& v.pdb_violations <= refused.len()
            &&& forall|j: int|
                0 <= j < refused.len() ==> {
                    &&& v.pods@[j]@ == pods[order[#[trigger] refused[j]]].key_view()
                    &&& j < v.pdb_violations <==> overdrawn(pods, budgets, order[refused[j]])
                }
        };
    assert forall|k: int|
        0 <= k < order.len() && overdrawn(pods, budgets, order[k]) implies !(
    #[trigger] refused.contains(k)) by {
        let back = came_back(pods, order, refused, k).insert(pods[order[k]].uid@);
        let trial = left_off(pods, back);
        left_off_within(pods, back);
        assert(harmless.to_multiset().subset_of(trial.to_multiset())) by {
            assert forall|i: int| 0 <= i < harmless.len() implies trial.contains(
                #[trigger] harmless[i],
            ) by {
                let x = choose|x: int|
                    0 <= x < pods.len() && !overdrawn(pods, budgets, x) && #[trigger] pods[x]
                        == harmless[i];
                if back.contains(pods[x].uid@) {
                    let m = if pods[order[k]].uid@ == pods[x].uid@ {
                        k
                    } else {
                        choose|m: int|
                            0 <= m < k && !refused.contains(m) && (
                            #[trigger] pods[order[m]]).uid@ == pods[x].uid@
                    };
                    assert(pods[order[m]].uid@ == pods[x].uid@);
                    assert(order[m] == x);
                    if m < k {
                        assert(overdrawn(pods, budgets, order[m]));
                    }
                }
                left_off_holds(pods, back, x);
            }
            harmless.lemma_multiset_has_no_duplicates();
            assert forall|x: Arc<PodInfo>| harmless.to_multiset().count(x)
                <= trial.to_multiset().count(x) by {
                broadcast use vstd::seq_lib::group_to_multiset_ensures;

                if harmless.to_multiset().count(x) > 0 {
                    assert(harmless.contains(x));
                    assert(trial.contains(x));
                }
            }
        }
    }
    if v.pdb_violations > 0 {
        assert(overdrawn(pods, budgets, order[refused[0]]));
        assert(refused.contains(refused[0]));
    }
    assert forall|j: int| 0 <= j < v.pods@.len() implies exists|k: int|
        0 <= k < pods.len() && !overdrawn(pods, budgets, k) && (#[trigger] pods[k]).key_view() == (
        #[trigger] v.pods@[j])@ by {
        let k = order[refused[j]];
        assert(!overdrawn(pods, budgets, k));
        assert(pods[k].key_view() == v.pods@[j]@);
    }
}

/// Positions in a list, each once: of the pods below a priority and of no
/// others, by priority from the highest, then from the longest running, then in
/// the order of the list.
pub open spec fn by_importance(pods: Seq<Arc<PodInfo>>, priority: int, at: Seq<int>) -> bool {
    &&& forall|k: int|
        0 <= k < at.len() ==> 0 <= #[trigger] at[k] < pods.len() && pods[at[k]].priority < priority
    &&& forall|i: int|
        0 <= i < pods.len() && (#[trigger] pods[i]).priority < priority ==> at.contains(i)
    &&& forall|k: int, m: int|
        0 <= k < m < at.len() ==> {
            let a = *pods[#[trigger] at[k]];
            let b = *pods[#[trigger] at[m]];
            ||| a.priority > b.priority
            ||| a.priority == b.priority && a.queued_at.before(b.queued_at)
            ||| a.priority == b.priority && a.queued_at == b.queued_at && at[k] < at[m]
        }
}

spec fn below_at(pods: Seq<Arc<PodInfo>>, priority: int) -> Seq<int>
    decreases pods.len(),
{
    if pods.len() == 0 {
        Seq::empty()
    } else if pods.last().priority < priority {
        below_at(pods.drop_last(), priority).push(pods.len() - 1)
    } else {
        below_at(pods.drop_last(), priority)
    }
}

proof fn below_positions(pods: Seq<Arc<PodInfo>>, priority: int)
    ensures
        ({
            let at = below_at(pods, priority);
            &&& at.len() == below(pods, priority).len()
            &&& forall|k: int|
                0 <= k < at.len() ==> 0 <= #[trigger] at[k] < pods.len() && pods[at[k]].priority
                    < priority && below(pods, priority)[k] == pods[at[k]]
            &&& forall|k: int, m: int| 0 <= k < m < at.len() ==> #[trigger] at[k] < #[trigger] at[m]
            &&& forall|i: int|
                0 <= i < pods.len() && (#[trigger] pods[i]).priority < priority ==> at.contains(i)
        }),
    decreases pods.len(),
{
    if pods.len() > 0 {
        let t = pods.drop_last();
        below_positions(t, priority);
        let at = below_at(pods, priority);
        let at0 = below_at(t, priority);
        assert forall|k: int| 0 <= k < at.len() implies 0 <= #[trigger] at[k] < pods.len()
            && pods[at[k]].priority < priority && below(pods, priority)[k] == pods[at[k]] by {
            if k < at0.len() {
                assert(at[k] == at0[k]);
                assert(t[at0[k]] == pods[at0[k]]);
            }
        }
        assert forall|k: int, m: int| 0 <= k < m < at.len() implies #[trigger] at[k]
            < #[trigger] at[m] by {
            assert(at[k] == at0[k]);
            if m < at0.len() {
                assert(at[m] == at0[m]);
            }
        }
        assert forall|i: int|
            0 <= i < pods.len() && (#[trigger] pods[i]).priority < priority implies at.contains(
            i,
        ) by {
            if i < t.len() {
                assert(t[i].priority < priority);
                let k = choose|k: int| 0 <= k < at0.len() && at0[k] == i;
                assert(at[k] == i);
            } else {
                assert(at[at.len() - 1] == i);
            }
        }
    }
}

spec fn ranked_at(pods: Seq<Arc<PodInfo>>) -> Seq<int>
    decreases pods.len(),
{
    if pods.len() == 0 {
        Seq::empty()
    } else {
        let t = pods.drop_last();
        ranked_at(t).insert(rank_in(ranked(t), *pods.last()), pods.len() - 1)
    }
}

spec fn stands_before(pods: Seq<Arc<PodInfo>>, x: int, y: int) -> bool {
    outranks(*pods[x], *pods[y]) || (!outranks(*pods[y], *pods[x]) && x < y)
}

proof fn ranked_positions(pods: Seq<Arc<PodInfo>>)
    ensures
        ({
            let at = ranked_at(pods);
            &&& at.len() == pods.len()
            &&& ranked(pods).len() == pods.len()
            &&& forall|k: int|
                0 <= k < at.len() ==> 0 <= #[trigger] at[k] < pods.len() && ranked(pods)[k]
                    == pods[at[k]]
            &&& forall|k: int, m: int|
                0 <= k < m < at.len() ==> stands_before(pods, #[trigger] at[k], #[trigger] at[m])
            &&& forall|i: int| 0 <= i < pods.len() ==> #[trigger] at.contains(i)
        }),
    decreases pods.len(),
{
    if pods.len() > 0 {
        let t = pods.drop_last();
        let p = pods.last();
        let last = pods.len() - 1;
        ranked_positions(t);
        let rest = ranked(t);
        let at0 = ranked_at(t);
        let r = rank_in(rest, shared(p));
        rank_bounds(rest, shared(p));
        let at = ranked_at(pods);
        assert forall|k: int| 0 <= k < at.len() implies 0 <= #[trigger] at[k] < pods.len()
            && ranked(pods)[k] == pods[at[k]] by {
            if k < r {
                assert(at[k] == at0[k]);
            } else if k > r {
                assert(at[k] == at0[k - 1]);
            }
        }
        assert forall|k: int, m: int| 0 <= k < m < at.len() implies stands_before(
            pods,
            #[trigger] at[k],
            #[trigger] at[m],
        ) by {
            let k0 = if k < r { k } else { k - 1 };
            let m0 = if m < r { m } else { m - 1 };
            if k != r && m != r {
                assert(at[k] == at0[k0] && at[m] == at0[m0]);
                assert(stands_before(t, at0[k0], at0[m0]));
            } else if m == r {
                assert(at[k] == at0[k]);
                assert(rest[k] == t[at0[k]]);
                assert(!outranks(*p, *rest[k]));
            } else {
                assert(at[m] == at0[m - 1]);
                assert(rest[m - 1] == t[at0[m - 1]]);
                assert(outranks(*p, *rest[r]));
                if m - 1 > r {
                    assert(stands_before(t, at0[r], at0[m - 1]));
                    assert(rest[r] == t[at0[r]]);
                }
            }
        }
        assert forall|i: int| 0 <= i < pods.len() implies #[trigger] at.contains(i) by {
            if i < last {
                assert(at0.contains(i));
                let k = choose|k: int| 0 <= k < at0.len() && at0[k] == i;
                if k < r {
                    assert(at[k] == i);
                } else {
                    assert(at[k + 1] == i);
                }
            } else {
                assert(at[r] == i);
            }
        }
    }
}

/// The pods that may be evicted for a preemptor are exactly those of the node of
/// strictly lower priority, each once, the most important first.
pub proof fn removable_by_importance(preemptor: PodInfo, node: NodeInfo)
    ensures
        exists|at: Seq<int>| #[trigger]
            by_importance(node.pods@, preemptor.priority as int, at) && potential(preemptor, node)
                == at.map_values(|i: int| node.pods@[i]),
{
    let pods = node.pods@;
    let priority = preemptor.priority as int;
    let low = below(pods, priority);
    below_positions(pods, priority);
    ranked_positions(low);
    let b = below_at(pods, priority);
    let r = ranked_at(low);
    let at = r.map_values(|k: int| b[k]);
    assert forall|k: int| 0 <= k < at.len() implies 0 <= #[trigger] at[k] < pods.len()
        && pods[at[k]].priority < priority by {
        assert(0 <= r[k] < low.len());
    }
    assert forall|i: int|
        0 <= i < pods.len() && (#[trigger] pods[i]).priority < priority implies at.contains(i) by {
        assert(b.contains(i));
        let k = choose|k: int| 0 <= k < b.len() && b[k] == i;
        assert(r.contains(k));
        let m = choose|m: int| 0 <= m < r.len() && r[m] == k;
        assert(at[m] == i);
    }
    assert forall|k: int, m: int| 0 <= k < m < at.len() implies {
        let a = *pods[#[trigger] at[k]];
        let c = *pods[#[trigger] at[m]];
        ||| a.priority > c.priority
        ||| a.priority == c.priority && a.queued_at.before(c.queued_at)
        ||| a.priority == c.priority && a.queued_at == c.queued_at && at[k] < at[m]
    } by {
        assert(stands_before(low, r[k], r[m]));
        assert(low[r[k]] == pods[b[r[k]]] && low[r[m]] == pods[b[r[m]]]);
    }
    assert(by_importance(pods, priority, at));
    assert(potential(preemptor, node) =~= at.map_values(|i: int| pods[i])) by {
        assert forall|k: int| 0 <= k < at.len() implies potential(preemptor, node)[k]
            == pods[#[trigger] at[k]] by {
            assert(0 <= r[k] < low.len());
            assert(low[r[k]] == pods[b[r[k]]]);
        }
    }
}

/// What pods ask for of a resource, summed.
pub open spec fn asked_by(pods: Seq<Arc<PodInfo>>, name: Seq<char>) -> int
    decreases pods.len(),
{
    if pods.len() == 0 {
        0
    } else {
        asked_by(pods.drop_last(), name) + pods.last().requests.amount(name)
    }
}

/// Dropping one pod from anywhere in a list lowers the sum by what it asks for.
pub proof fn every_removed_pod_counts(pods: Seq<Arc<PodInfo>>, i: int, name: Seq<char>)
    requires
        0 <= i < pods.len(),
    ensures
        asked_by(pods, name) == asked_by(pods.remove(i), name) + pods[i].requests.amount(name),
    decreases pods.len(),
{
    let t = pods.drop_last();
    if i == pods.len() - 1 {
        assert(pods.remove(i) =~= t);
    } else {
        every_removed_pod_counts(t, i, name);
        assert(pods.remove(i).drop_last() =~= t.remove(i));
        assert(pods.remove(i).last() == pods.last());
    }
}

/// Removing pods frees what they ask for in sum, of every resource.
pub proof fn removal_frees_the_sum(node: NodeInfo, removed: Seq<Arc<PodInfo>>, name: Seq<char>)
    requires
        forall|i: int| 0 <= i < removed.len() ==> (#[trigger] removed[i]).requests.amount(name) >= 0,
        asked_by(removed, name) <= node.requested.amount(name) <= i64::MAX,
    ensures
        asked_without(node, removed, name) == node.requested.amount(name) - asked_by(removed, name),
        asked_by(removed, name) >= 0,
    decreases removed.len(),
{
    if removed.len() > 0 {
        let t = removed.drop_last();
        assert(removed[removed.len() - 1] == removed.last());
        assert forall|i: int| 0 <= i < t.len() implies (#[trigger] t[i]).requests.amount(name)
            >= 0 by {
            assert(t[i] == removed[i]);
        }
        removal_frees_the_sum(node, t, name);
    }
}

/// With pods gone the preemptor fits exactly where, of every resource that it
/// asks for, what the node's other pods ask for and what it asks for itself come
/// to no more than the node has.
pub proof fn fitting_means_room(check: RoomCheck<'_>, removed: Seq<Arc<PodInfo>>)
    requires
        forall|i: int, name: Seq<char>|
            0 <= i < removed.len() ==> #[trigger] removed[i].requests.amount(name) >= 0,
        forall|name: Seq<char>| #[trigger]
            asked_by(removed, name) <= check.node.requested.amount(name) <= i64::MAX,
    ensures
        check.fits_view(removed) <==> forall|name: Seq<char>| #[trigger]
            check.preemptor.requests.name_views().contains(name) ==> check.node.requested.amount(
                name,
            ) - asked_by(removed, name) + check.preemptor.requests.amount(name)
                <= check.node.allocatable.amount(name),
{
    let all = check.preemptor.requests.name_views();
    assert forall|name: Seq<char>| #[trigger] asked_without(*check.node, removed, name)
        == check.node.requested.amount(name) - asked_by(removed, name) by {
        assert forall|i: int| 0 <= i < removed.len() implies (#[trigger] removed[i]).requests.amount(
            name,
        ) >= 0 by {
            assert(removed[i].requests.amount(name) >= 0);
        }
        let s = asked_by(removed, name);
        removal_frees_the_sum(*check.node, removed, name);
    }
    if check.fits_view(removed) {
        assert forall|name: Seq<char>| #[trigger] all.contains(name) implies check.node.requested.amount(
            name,
        ) - asked_by(removed, name) + check.preemptor.requests.amount(name)
            <= check.node.allocatable.amount(name) by {
            let i = choose|i: int| 0 <= i < all.len() && all[i] == name;
            assert(suffices(*check.node, *check.preemptor, removed, all[i]));
            let w = asked_without(*check.node, removed, name);
        }
    }
    if forall|name: Seq<char>| #[trigger]
        all.contains(name) ==> check.node.requested.amount(name) - asked_by(removed, name)
            + check.preemptor.requests.amount(name) <= check.node.allocatable.amount(name) {
        assert forall|i: int| 0 <= i < all.len() implies suffices(
            *check.node,
            *check.preemptor,
            removed,
            #[trigger] all[i],
        ) by {
            assert(all.contains(all[i]));
            let w = asked_without(*check.node, removed, all[i]);
        }
    }
}

/// A candidate that no other is better than breaches the fewest budgets; among
/// those with as few, its worst victim is of the lowest priority; among those
/// that tie so far, its victims' priorities have the lowest sum; then it has the
/// fewest victims; and then its worst victim started last.
pub proof fn least_harm_is_picked(candidates: Seq<Candidate>, c: Candidate, j: int)
    requires
        0 <= j < candidates.len(),
        !better(candidates[j], c),
    ensures
        ({
            let d = candidates[j];
            let breaches_tie = c.victims.pdb_violations == d.victims.pdb_violations;
            let worst_tie = breaches_tie && c.highest_victim_priority == d.highest_victim_priority;
            let sum_tie = worst_tie && c.sum_victim_priorities == d.sum_victim_priorities;
            let count_tie = sum_tie && c.victims.pods@.len() == d.victims.pods@.len();
            &&& c.victims.pdb_violations <= d.victims.pdb_violations
            &&& breaches_tie ==> c.highest_victim_priority <= d.highest_victim_priority
            &&& worst_tie ==> c.sum_victim_priorities <= d.sum_victim_priorities
            &&& sum_tie ==> c.victims.pods@.len() <= d.victims.pods@.len()
            &&& count_tie && c.latest_start_of_highest is Some && d.latest_start_of_highest is Some
                ==> c.latest_start_of_highest->Some_0.second
                >= d.latest_start_of_highest->Some_0.second
        }),
{
}

/// Of candidates that tie on everything neither is better, and of any others
/// exactly one is.
pub proof fn harm_is_comparable(c: Candidate, d: Candidate)
    ensures
        !(better(c, d) && better(d, c)),
        !better(c, d) && !better(d, c) <==> c.victims.pdb_violations == d.victims.pdb_violations
            && c.highest_victim_priority == d.highest_victim_priority && c.sum_victim_priorities
            == d.sum_victim_priorities && c.victims.pods@.len() == d.victims.pods@.len() && (
        match c.latest_start_of_highest {
            Some(t) => t.second as int,
            None => 0,
        }) == (match d.latest_start_of_highest {
            Some(t) => t.second as int,
            None => 0,
        }),
{
}

proof fn fewer_left_off(pods: Seq<Arc<PodInfo>>, back: Set<Seq<char>>, more: Set<Seq<char>>)
    requires
        back.subset_of(more),
    ensures
        left_off(pods, more).to_multiset().subset_of(left_off(pods, back).to_multiset()),
    decreases pods.len(),
{
    broadcast use vstd::seq_lib::group_to_multiset_ensures;

    reveal(Seq::filter);
    if pods.len() > 0 {
        fewer_left_off(pods.drop_last(), back, more);
    }
}

/// What came back over the first offers came back over more of them.
proof fn came_back_grows(
    pods: Seq<Arc<PodInfo>>,
    order: Seq<int>,
    refused: Seq<int>,
    k: int,
    n: int,
)
    requires
        k <= n,
    ensures
        came_back(pods, order, refused, k).subset_of(came_back(pods, order, refused, n)),
{
    assert forall|u: Seq<char>| came_back(pods, order, refused, k).contains(u) implies came_back(
        pods,
        order,
        refused,
        n,
    ).contains(u) by {
        let m = choose|m: int|
            0 <= m < k && !refused.contains(m) && (#[trigger] pods[order[m]]).uid@ == u;
        assert(0 <= m < n && pods[order[m]].uid@ == u);
    }
}

/// Once every pod was offered back, the preemptor fits with those gone that did
/// not come back.
pub proof fn refusals_leave_room<F: FitCheck>(
    pods: Seq<Arc<PodInfo>>,
    order: Seq<int>,
    refused: Seq<int>,
    fit: F,
    k: int,
)
    requires
        refused_in_turn(pods, order, refused, fit),
        fit.fits_view(pods),
        0 <= k <= order.len(),
    ensures
        fit.fits_view(left_off(pods, came_back(pods, order, refused, k))),
    decreases k,
{
    let back = came_back(pods, order, refused, k);
    if k == 0 {
        assert(back =~= Set::empty());
        nothing_left_off(pods);
    } else {
        refusals_leave_room(pods, order, refused, fit, k - 1);
        came_back_steps(pods, order, refused, k);
    }
}

/// No refusal could have been spared: with all of them gone but one, the
/// preemptor does not fit.
pub proof fn every_refusal_is_needed<F: FitCheck>(
    pods: Seq<Arc<PodInfo>>,
    order: Seq<int>,
    refused: Seq<int>,
    fit: F,
    k: int,
)
    requires
        refused_in_turn(pods, order, refused, fit),
        never_worse(fit, pods),
        0 <= k < order.len(),
        refused.contains(k),
    ensures
        !fit.fits_view(
            left_off(
                pods,
                came_back(pods, order, refused, order.len() as int).insert(pods[order[k]].uid@),
            ),
        ),
{
    let uid = pods[order[k]].uid@;
    let n = order.len() as int;
    let then = came_back(pods, order, refused, k).insert(uid);
    let end = came_back(pods, order, refused, n).insert(uid);
    came_back_grows(pods, order, refused, k, n);
    fewer_left_off(pods, then, end);
    left_off_within(pods, then);
}

proof fn asked_by_less(a: Seq<Arc<PodInfo>>, b: Seq<Arc<PodInfo>>, name: Seq<char>)
    requires
        a.to_multiset().subset_of(b.to_multiset()),
        forall|i: int| 0 <= i < b.len() ==> (#[trigger] b[i]).requests.amount(name) >= 0,
    ensures
        0 <= asked_by(a, name) <= asked_by(b, name),
    decreases a.len(),
{
    broadcast use vstd::seq_lib::group_to_multiset_ensures;

    if a.len() > 0 {
        let p = a.last();
        let t = a.drop_last();
        assert(a =~= t.push(p));
        assert(a.to_multiset().count(p) > 0);
        assert(b.to_multiset().count(p) > 0);
        assert(b.contains(p));
        let i = choose|i: int| 0 <= i < b.len() && b[i] == p;
        let rest = b.remove(i);
        assert(rest.to_multiset() =~= b.to_multiset().remove(p));
        assert(a.to_multiset() =~= t.to_multiset().insert(p));
        assert forall|x: Arc<PodInfo>| t.to_multiset().count(x) <= rest.to_multiset().count(x) by {
            assert(a.to_multiset().count(x) <= b.to_multiset().count(x));
        }
        assert forall|j: int| 0 <= j < rest.len() implies (#[trigger] rest[j]).requests.amount(name)
            >= 0 by {
            let k = if j < i { j } else { j + 1 };
            assert(rest[j] == b[k]);
        }
        asked_by_less(t, rest, name);
        every_removed_pod_counts(b, i, name);
        assert(b[i].requests.amount(name) >= 0);
    } else {
        asked_by_positive(b, name);
    }
}

proof fn asked_by_positive(b: Seq<Arc<PodInfo>>, name: Seq<char>)
    requires
        forall|i: int| 0 <= i < b.len() ==> (#[trigger] b[i]).requests.amount(name) >= 0,
    ensures
        asked_by(b, name) >= 0,
    decreases b.len(),
{
    if b.len() > 0 {
        let t = b.drop_last();
        assert(b[b.len() - 1] == b.last());
        assert forall|i: int| 0 <= i < t.len() implies (#[trigger] t[i]).requests.amount(name)
            >= 0 by {
            assert(t[i] == b[i]);
        }
        asked_by_positive(t, name);
    }
}

proof fn left_after(node: NodeInfo, removed: Seq<Arc<PodInfo>>, name: Seq<char>)
    requires
        forall|i: int| 0 <= i < removed.len() ==> (#[trigger] removed[i]).requests.amount(name) >= 0,
        0 <= node.requested.amount(name) <= i64::MAX,
    ensures
        asked_without(node, removed, name) == if asked_by(removed, name) < node.requested.amount(
            name,
        ) {
            node.requested.amount(name) - asked_by(removed, name)
        } else {
            0
        },
    decreases removed.len(),
{
    asked_by_positive(removed, name);
    if removed.len() > 0 {
        let t = removed.drop_last();
        assert(removed[removed.len() - 1] == removed.last());
        assert forall|i: int| 0 <= i < t.len() implies (#[trigger] t[i]).requests.amount(name)
            >= 0 by {
            assert(t[i] == removed[i]);
        }
        asked_by_positive(t, name);
        left_after(node, t, name);
    }
}

/// The check on resources is never worse off with further pods gone.
pub proof fn room_grows_with_removals(check: RoomCheck<'_>, pods: Seq<Arc<PodInfo>>)
    requires
        forall|i: int, name: Seq<char>|
            0 <= i < pods.len() ==> #[trigger] pods[i].requests.amount(name) >= 0,
        forall|name: Seq<char>| 0 <= #[trigger] check.node.requested.amount(name) <= i64::MAX,
    ensures
        never_worse(check, pods),
{
    assert forall|a: Seq<Arc<PodInfo>>, b: Seq<Arc<PodInfo>>|
        within(b, pods) && a.to_multiset().subset_of(b.to_multiset()) && #[trigger] check.fits_view(
            a,
        ) implies #[trigger] check.fits_view(b) by {
        let all = check.preemptor.requests.name_views();
        assert forall|i: int| 0 <= i < all.len() implies suffices(
            *check.node,
            *check.preemptor,
            b,
            #[trigger] all[i],
        ) by {
            let name = all[i];
            assert(suffices(*check.node, *check.preemptor, a, all[i]));
            let n = check.node.requested.amount(name);
            assert forall|j: int| 0 <= j < b.len() implies (#[trigger] b[j]).requests.amount(name)
                >= 0 by {
                assert(pods.contains(b[j]));
                let k = choose|k: int| 0 <= k < pods.len() && pods[k] == b[j];
                assert(pods[k].requests.amount(name) >= 0);
            }
            assert forall|j: int| 0 <= j < a.len() implies (#[trigger] a[j]).requests.amount(name)
                >= 0 by {
                broadcast use vstd::seq_lib::group_to_multiset_ensures;

                assert(a.contains(a[j]));
                assert(a.to_multiset().count(a[j]) > 0);
                assert(b.to_multiset().count(a[j]) > 0);
                assert(b.contains(a[j]));
                let k = choose|k: int| 0 <= k < b.len() && b[k] == a[j];
                assert(b[k].requests.amount(name) >= 0);
            }
            asked_by_less(a, b, name);
            left_after(*check.node, a, name);
            left_after(*check.node, b, name);
        }
    }
}

} // verus!
