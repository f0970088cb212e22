//! `VolumeRestrictions`: volumes that cannot be used twice.
//!
//! Volumes of kinds that predate claims conflict with what is on the same
//! node. A claim that only one pod may use conflicts wherever its holder is;
//! it rejects every node alike, and evicting the holder resolves it.

use super::{always_on, event_on};
use crate::cache::{LegacyVolumeId, NodeInfo, PodInfo, Snapshot};
use crate::events::{ActionType, ClusterEvent, EventResource};
use crate::framework::status::{skip, success, unschedulable, Status, StatusView};
use crate::framework::{
    events_of, filter_switched_off, ClusterEventWithHint, CycleState, FilterPlugin, NoHint, Plugin,
    PreFilterExtensions, PreFilterPlugin,
};
use crate::maps::StrMap;
use crate::api::{copy_labels, copy_texts};
use crate::text::{contains_text, debug_text, has_text, joined, quoted, text_eq};
use std::sync::Arc;
use vstd::prelude::*;

verus! {

pub const NAME: &'static str = "VolumeRestrictions";

/// What a filter needs, kept current when preemption pretends.
pub struct VolumeRestrictionsState {
    pub wanted_legacy: Arc<Vec<LegacyVolumeId>>,
    /// The pod's claims that only one pod may use.
    pub rwop_pvc_names: Vec<String>,
    /// Claim to why it is taken.
    pub conflicts: StrMap<String>,
}

pub struct VolumeRestrictions;

pub open spec fn subscriptions() -> Seq<ClusterEvent> {
    seq![
        event_on(EventResource::AssignedPod, ActionType::DELETE),
        event_on(EventResource::Node, ActionType::ADD),
        event_on(EventResource::PersistentVolumeClaim, ActionType::ADD),
    ]
}

impl Plugin for VolumeRestrictions {
    type Hint = NoHint;

    open spec fn name_view(&self) -> Seq<char> {
        NAME@
    }

    fn name(&self) -> (r: &'static str) {
        NAME
    }

    fn events_to_register(&self) -> (r: Vec<ClusterEventWithHint<NoHint>>)
        ensures
            events_of(r@) == subscriptions(),
            crate::framework::unhinted(r@),
    {
        let mut out: Vec<ClusterEventWithHint<NoHint>> = Vec::new();
        out.push(always_on(EventResource::AssignedPod, ActionType::DELETE));
        out.push(always_on(EventResource::Node, ActionType::ADD));
        out.push(always_on(EventResource::PersistentVolumeClaim, ActionType::ADD));
        assert(events_of(out@) =~= subscriptions());
        out
    }
}

/// Why a claim is taken.
pub open spec fn conflict_message(claim: Seq<char>, holder: PodInfo) -> Seq<char> {
    "persistentvolumeclaim "@ + quoted(claim)
        + " is ReadWriteOncePod and already in use by pod "@ + holder.key_view()
}

fn rwop_conflict_message(pvc_name: &str, holder: &PodInfo) -> (r: String)
    ensures
        r@ == conflict_message(pvc_name@, *holder),
{
    let name = debug_text(pvc_name);
    let text = joined("persistentvolumeclaim ", name.as_str());
    let text = joined(text.as_str(), " is ReadWriteOncePod and already in use by pod ");
    let key = holder.key();
    joined(text.as_str(), key.as_str())
}

/// The pod uses the claim.
pub open spec fn uses(pod: PodInfo, namespace: Seq<char>, claim: Seq<char>) -> bool {
    pod.namespace@ == namespace && has_text(pod.pvc_names@, claim)
}

fn is_using(pod: &PodInfo, namespace: &str, claim: &str) -> (r: bool)
    ensures
        r == uses(*pod, namespace@, claim@),
{
    text_eq(pod.namespace.as_str(), namespace) && contains_text(&pod.pvc_names, claim)
}

/// The first pod of a list, other than one, that uses a claim.
pub open spec fn holder_among(
    pods: Seq<Arc<PodInfo>>,
    namespace: Seq<char>,
    claim: Seq<char>,
    uid: Seq<char>,
) -> Option<Arc<PodInfo>>
    decreases pods.len(),
{
    if pods.len() == 0 {
        None
    } else {
        match holder_among(pods.drop_last(), namespace, claim, uid) {
            Some(p) => Some(p),
            None => if uses(*pods.last(), namespace, claim) && pods.last().uid@ != uid {
                Some(pods.last())
            } else {
                None
            },
        }
    }
}

/// The first pod of the cluster, other than one, that uses a claim.
pub open spec fn holder_of(
    nodes: Seq<Arc<NodeInfo>>,
    namespace: Seq<char>,
    claim: Seq<char>,
    uid: Seq<char>,
) -> Option<Arc<PodInfo>>
    decreases nodes.len(),
{
    if nodes.len() == 0 {
        None
    } else {
        match holder_of(nodes.drop_last(), namespace, claim, uid) {
            Some(p) => Some(p),
            None => holder_among(nodes.last().pods@, namespace, claim, uid),
        }
    }
}

fn find_among(pods: &Vec<Arc<PodInfo>>, namespace: &str, claim: &str, uid: &str) -> (r: Option<
    Arc<PodInfo>,
>)
    ensures
        r == holder_among(pods@, namespace@, claim@, uid@),
{
    let mut found: Option<Arc<PodInfo>> = None;
    let mut i: usize = 0;
    while i < pods.len()
        invariant
            i <= pods@.len(),
            found == holder_among(pods@.take(i as int), namespace@, claim@, uid@),
        decreases pods@.len() - i,
    {
        if found.is_none() && is_using(&pods[i], namespace, claim) && !text_eq(
            pods[i].uid.as_str(),
            uid,
        ) {
            found = Some(pods[i].clone());
        }
        i += 1;
        assert(pods@.take(i as int).drop_last() =~= pods@.take(i - 1));
    }
    assert(pods@.take(i as int) =~= pods@);
    found
}

fn find_holder(nodes: &Vec<Arc<NodeInfo>>, namespace: &str, claim: &str, uid: &str) -> (r: Option<
    Arc<PodInfo>,
>)
    ensures
        r == holder_of(nodes@, namespace@, claim@, uid@),
{
    let mut found: Option<Arc<PodInfo>> = None;
    let mut i: usize = 0;
    while i < nodes.len()
        invariant
            i <= nodes@.len(),
            found == holder_of(nodes@.take(i as int), namespace@, claim@, uid@),
        decreases nodes@.len() - i,
    {
        if found.is_none() {
            found = find_among(&nodes[i].pods, namespace, claim, uid);
        }
        i += 1;
        assert(nodes@.take(i as int).drop_last() =~= nodes@.take(i - 1));
    }
    assert(nodes@.take(i as int) =~= nodes@);
    found
}

/// A claim of the pod that only one pod may use.
pub open spec fn exclusive_claim(pod: PodInfo, snapshot: Snapshot, claim: Seq<char>) -> bool {
    has_text(pod.pvc_names@, claim) && match snapshot.claim(pod.namespace@, claim) {
        Some(pvc) => pvc.exclusive(),
        None => false,
    }
}

/// Why a claim of the pod is taken, if it is.
pub open spec fn conflict_on(pod: PodInfo, snapshot: Snapshot, claim: Seq<char>) -> Option<
    Seq<char>,
> {
    if exclusive_claim(pod, snapshot, claim) {
        match holder_of(snapshot.nodes@, pod.namespace@, claim, pod.uid@) {
            Some(holder) => Some(conflict_message(claim, *holder)),
            None => None,
        }
    } else {
        None
    }
}

/// The state of a pod in a cluster.
pub open spec fn surveyed(s: VolumeRestrictionsState, pod: PodInfo, snapshot: Snapshot) -> bool {
    &&& s.wanted_legacy == pod.legacy_volumes
    &&& forall|c: Seq<char>| #[trigger]
        has_text(s.rwop_pvc_names@, c) <==> exclusive_claim(pod, snapshot, c)
    &&& forall|c: Seq<char>| #[trigger] s.conflicts.text(c) == conflict_on(pod, snapshot, c)
}

/// The claim stands among the first `n` of a list.
pub open spec fn listed(claims: Seq<String>, n: int, c: Seq<char>) -> bool {
    exists|j: int| 0 <= j < n && (#[trigger] claims[j])@ == c
}

proof fn listed_step(claims: Seq<String>, n: int, c: Seq<char>)
    requires
        0 <= n < claims.len(),
    ensures
        listed(claims, n + 1, c) == (listed(claims, n, c) || claims[n]@ == c),
{
    if listed(claims, n + 1, c) {
        let j = choose|j: int| 0 <= j < n + 1 && (#[trigger] claims[j])@ == c;
        if j < n {
            assert(0 <= j < n && claims[j]@ == c);
        }
    }
    if listed(claims, n, c) {
        let j = choose|j: int| 0 <= j < n && (#[trigger] claims[j])@ == c;
        assert(0 <= j < n + 1 && claims[j]@ == c);
    }
    if claims[n]@ == c {
        assert(0 <= n < n + 1 && claims[n]@ == c);
    }
}

proof fn pushed_text(before: Seq<String>, s: String, c: Seq<char>)
    ensures
        has_text(before.push(s), c) == (has_text(before, c) || s@ == c),
{
    let after = before.push(s);
    if has_text(after, c) {
        let i = choose|i: int| 0 <= i < after.len() && (#[trigger] after[i])@ == c;
        if i < before.len() {
            assert(before[i]@ == c);
        }
    }
    if has_text(before, c) {
        let i = choose|i: int| 0 <= i < before.len() && (#[trigger] before[i])@ == c;
        assert(after[i]@ == c);
    }
    assert(after[before.len() as int] == s);
}

fn survey(pod: &PodInfo, snapshot: &Snapshot) -> (r: VolumeRestrictionsState)
    ensures
        surveyed(r, *pod, *snapshot),
        r.rwop_pvc_names@.len() == 0 <==> forall|c: Seq<char>| !exclusive_claim(*pod, *snapshot, c),
{
    let claims = &pod.pvc_names;
    let mut rwop: Vec<String> = Vec::new();
    let mut conflicts: StrMap<String> = StrMap::new();
    let mut i: usize = 0;
    while i < claims.len()
        invariant
            i <= claims@.len(),
            claims@ == pod.pvc_names@,
            forall|c: Seq<char>| #[trigger]
                has_text(rwop@, c) <==> listed(claims@, i as int, c) && exclusive_claim(
                    *pod,
                    *snapshot,
                    c,
                ),
            forall|c: Seq<char>| #[trigger]
                conflicts.text(c) == if listed(claims@, i as int, c) {
                    conflict_on(*pod, *snapshot, c)
                } else {
                    None
                },
        decreases claims@.len() - i,
    {
        let ghost names_before = rwop@;
        let ghost conflicts_before = conflicts;
        let name = claims[i].as_str();
        let exclusive = match snapshot.pvc(pod.namespace.as_str(), name) {
            Some(pvc) => pvc.wants_read_write_once_pod(),
            None => false,
        };
        proof {
            assert(claims@[i as int]@ == name@);
            assert(has_text(claims@, name@));
            assert(exclusive == exclusive_claim(*pod, *snapshot, name@));
        }
        if exclusive {
            rwop.push(claims[i].clone());
            match find_holder(
                &snapshot.nodes,
                pod.namespace.as_str(),
                name,
                pod.uid.as_str(),
            ) {
                Some(holder) => {
                    conflicts.insert(claims[i].clone(), rwop_conflict_message(name, &holder));
                },
                None => {},
            }
        }
        i += 1;
        proof {
            assert forall|c: Seq<char>| #[trigger]
                has_text(rwop@, c) <==> listed(claims@, i as int, c) && exclusive_claim(
                    *pod,
                    *snapshot,
                    c,
                ) by {
                listed_step(claims@, i - 1, c);
                assert(has_text(names_before, c) <==> listed(claims@, i - 1, c)
                    && exclusive_claim(*pod, *snapshot, c));
                if exclusive {
                    pushed_text(names_before, claims@[i - 1], c);
                }
            }
            assert forall|c: Seq<char>| #[trigger]
                conflicts.text(c) == if listed(claims@, i as int, c) {
                    conflict_on(*pod, *snapshot, c)
                } else {
                    None
                } by {
                listed_step(claims@, i - 1, c);
                let was = conflicts_before.text(c);
            }
        }
    }
    proof {
        assert forall|c: Seq<char>| #[trigger]
            listed(claims@, claims@.len() as int, c) == has_text(claims@, c) by {}
        assert forall|c: Seq<char>| #[trigger]
            has_text(rwop@, c) <==> exclusive_claim(*pod, *snapshot, c) by {
            assert(listed(claims@, claims@.len() as int, c) == has_text(claims@, c));
        }
        assert forall|c: Seq<char>| #[trigger] conflicts.text(c) == conflict_on(
            *pod,
            *snapshot,
            c,
        ) by {
            assert(listed(claims@, claims@.len() as int, c) == has_text(claims@, c));
        }
        if rwop@.len() == 0 {
            assert forall|c: Seq<char>| !exclusive_claim(*pod, *snapshot, c) by {
                assert(!has_text(rwop@, c));
            }
        } else {
            assert(has_text(rwop@, rwop@[0]@));
        }
    }
    VolumeRestrictionsState {
        wanted_legacy: pod.legacy_volumes.clone(),
        rwop_pvc_names: rwop,
        conflicts,
    }
}

impl PreFilterPlugin for VolumeRestrictions {
    open spec fn pre_filter_view(
        &self,
        before: CycleState,
        pod: PodInfo,
        snapshot: Snapshot,
        after: CycleState,
        status: StatusView,
    ) -> bool {
        if pod.legacy_volumes@.len() == 0 && forall|c: Seq<char>|
            !exclusive_claim(pod, snapshot, c) {
            status == skip() && filter_switched_off(before, after, NAME@)
        } else {
            &&& status == success()
            &&& after.only_slot(&before, NAME@)
            &&& after.same_skips(&before)
            &&& after.value::<VolumeRestrictionsState>(NAME@) matches Some(s) && surveyed(
                s,
                pod,
                snapshot,
            )
        }
    }

    fn pre_filter(&self, state: &mut CycleState, pod: &PodInfo, snapshot: &Snapshot) -> (r: (
        Status,
        Option<Vec<String>>,
    ))
        ensures
            r.1 is None,
    {
        let s = survey(pod, snapshot);
        if s.wanted_legacy.len() == 0 && s.rwop_pvc_names.len() == 0 {
            state.skip_filter(NAME);
            return (Status::skip(), None);
        }
        state.write(NAME, s);
        (Status::success(), None)
    }
}

/// The other pod holds a claim of the pod that only one may use.
pub open spec fn shares_claim(
    s: VolumeRestrictionsState,
    pod: PodInfo,
    other: PodInfo,
    claim: Seq<char>,
) -> bool {
    has_text(pod.pvc_names@, claim) && has_text(s.rwop_pvc_names@, claim) && uses(
        other,
        pod.namespace@,
        claim,
    )
}

/// The state after a pod joins or leaves: its conflicts appear or go.
pub open spec fn adjusted(
    s: VolumeRestrictionsState,
    t: VolumeRestrictionsState,
    pod: PodInfo,
    other: PodInfo,
    joins: bool,
) -> bool {
    &&& t.wanted_legacy == s.wanted_legacy
    &&& t.rwop_pvc_names@ == s.rwop_pvc_names@
    &&& forall|c: Seq<char>| #[trigger]
        t.conflicts.text(c) == if shares_claim(s, pod, other, c) {
            if joins {
                Some(conflict_message(c, other))
            } else {
                None
            }
        } else {
            s.conflicts.text(c)
        }
}

pub open spec fn slot_adjusted(
    before: CycleState,
    pod: PodInfo,
    other: PodInfo,
    joins: bool,
    after: CycleState,
) -> bool {
    match before.value::<VolumeRestrictionsState>(NAME@) {
        None => after == before,
        Some(s) => {
            &&& after.only_slot(&before, NAME@)
            &&& after.same_skips(&before)
            &&& after.value::<VolumeRestrictionsState>(NAME@) matches Some(t) && adjusted(
                s,
                t,
                pod,
                other,
                joins,
            )
        },
    }
}

fn adjust_state(s: &VolumeRestrictionsState, pod: &PodInfo, other: &PodInfo, joins: bool) -> (t:
    VolumeRestrictionsState)
    ensures
        adjusted(*s, t, *pod, *other, joins),
{
    let mut conflicts = copy_labels(&s.conflicts);
    let claims = &pod.pvc_names;
    let mut i: usize = 0;
    while i < claims.len()
        invariant
            i <= claims@.len(),
            claims@ == pod.pvc_names@,
            forall|c: Seq<char>| #[trigger]
                conflicts.text(c) == if listed(claims@, i as int, c) && shares_claim(
                    *s,
                    *pod,
                    *other,
                    c,
                ) {
                    if joins {
                        Some(conflict_message(c, *other))
                    } else {
                        None
                    }
                } else {
                    s.conflicts.text(c)
                },
        decreases claims@.len() - i,
    {
        let ghost before = conflicts;
        let name = claims[i].as_str();
        let shared = contains_text(&s.rwop_pvc_names, name) && is_using(
            other,
            pod.namespace.as_str(),
            name,
        );
        proof {
            assert(claims@[i as int]@ == name@);
            assert(has_text(claims@, name@));
        }
        if shared {
            if joins {
                conflicts.insert(claims[i].clone(), rwop_conflict_message(name, other));
            } else {
                conflicts.remove(name);
            }
        }
        i += 1;
        proof {
            assert forall|c: Seq<char>| #[trigger]
                conflicts.text(c) == if listed(claims@, i as int, c) && shares_claim(
                    *s,
                    *pod,
                    *other,
                    c,
                ) {
                    if joins {
                        Some(conflict_message(c, *other))
                    } else {
                        None
                    }
                } else {
                    s.conflicts.text(c)
                } by {
                listed_step(claims@, i - 1, c);
                let was = before.text(c);
            }
        }
    }
    proof {
        assert forall|c: Seq<char>| #[trigger]
            conflicts.text(c) == if shares_claim(*s, *pod, *other, c) {
                if joins {
                    Some(conflict_message(c, *other))
                } else {
                    None
                }
            } else {
                s.conflicts.text(c)
            } by {
            assert(listed(claims@, claims@.len() as int, c) == has_text(claims@, c));
        }
    }
    VolumeRestrictionsState {
        wanted_legacy: s.wanted_legacy.clone(),
        rwop_pvc_names: copy_texts(&s.rwop_pvc_names),
        conflicts,
    }
}

fn adjust(state: &mut CycleState, pod: &PodInfo, other: &PodInfo, joins: bool)
    ensures
        slot_adjusted(*old(state), *pod, *other, joins, *final(state)),
{
    let next = match state.read::<VolumeRestrictionsState>(NAME) {
        Some(s) => adjust_state(s, pod, other, joins),
        None => {
            return ;
        },
    };
    state.write(NAME, next);
}

impl PreFilterExtensions for VolumeRestrictions {
    open spec fn adjusted_view(
        &self,
        before: CycleState,
        pod: PodInfo,
        other: PodInfo,
        node: NodeInfo,
        joins: bool,
        after: CycleState,
    ) -> bool {
        slot_adjusted(before, pod, other, joins, after)
    }

    fn add_pod(
        &self,
        state: &mut CycleState,
        pod: &PodInfo,
        pod_to_add: &PodInfo,
        node: &NodeInfo,
    ) -> (r: Status)
        ensures
            r@ == success(),
    {
        adjust(state, pod, pod_to_add, true);
        Status::success()
    }

    fn remove_pod(
        &self,
        state: &mut CycleState,
        pod: &PodInfo,
        pod_to_remove: &PodInfo,
        node: &NodeInfo,
    ) -> (r: Status)
        ensures
            r@ == success(),
    {
        adjust(state, pod, pod_to_remove, false);
        Status::success()
    }
}

/// Some wanted volume clashes with one that a pod has.
pub open spec fn clashes_with(wanted: Seq<LegacyVolumeId>, pod: PodInfo) -> bool {
    exists|i: int, j: int|
        0 <= i < wanted.len() && 0 <= j < pod.legacy_volumes@.len()
            && #[trigger] wanted[i].clashes(&pod.legacy_volumes@[j])
}

/// Some pod on the node has a volume that clashes.
pub open spec fn clashes_on(wanted: Seq<LegacyVolumeId>, node: NodeInfo) -> bool {
    exists|p: int| 0 <= p < node.pods@.len() && clashes_with(wanted, *#[trigger] node.pods@[p])
}

fn has_clash(wanted: &Vec<LegacyVolumeId>, pod: &PodInfo) -> (r: bool)
    ensures
        r == clashes_with(wanted@, *pod),
{
    let have = &pod.legacy_volumes;
    let mut i: usize = 0;
    while i < wanted.len()
        invariant
            i <= wanted@.len(),
            have@ == pod.legacy_volumes@,
            forall|a: int, b: int|
                0 <= a < i && 0 <= b < have@.len() ==> !#[trigger] wanted@[a].clashes(&have@[b]),
        decreases wanted@.len() - i,
    {
        let mut j: usize = 0;
        while j < have.len()
            invariant
                j <= have@.len(),
                i < wanted@.len(),
                have@ == pod.legacy_volumes@,
                forall|b: int|
                    0 <= b < j ==> !#[trigger] wanted@[i as int].clashes(&have@[b]),
            decreases have@.len() - j,
        {
            if wanted[i].conflicts_with(&have[j]) {
                assert(wanted@[i as int].clashes(&pod.legacy_volumes@[j as int]));
                return true;
            }
            j += 1;
        }
        i += 1;
    }
    false
}

fn clash_on_node(wanted: &Vec<LegacyVolumeId>, node: &NodeInfo) -> (r: bool)
    ensures
        r == clashes_on(wanted@, *node),
{
    let mut i: usize = 0;
    while i < node.pods.len()
        invariant
            i <= node.pods@.len(),
            forall|k: int| 0 <= k < i ==> !clashes_with(wanted@, *#[trigger] node.pods@[k]),
        decreases node.pods@.len() - i,
    {
        if has_clash(wanted, &node.pods[i]) {
            assert(clashes_with(wanted@, *node.pods@[i as int]));
            return true;
        }
        i += 1;
    }
    false
}

/// What a node is told: of the first conflict over a claim, else of a clash there.
pub open spec fn restriction_verdict(
    conflicts: Seq<(String, String)>,
    legacy: Seq<LegacyVolumeId>,
    node: NodeInfo,
) -> StatusView {
    if conflicts.len() > 0 {
        unschedulable(NAME@, conflicts[0].1@)
    } else if clashes_on(legacy, node) {
        unschedulable(NAME@, "node(s) had volume node conflict"@)
    } else {
        success()
    }
}

impl FilterPlugin for VolumeRestrictions {
    open spec fn filter_view(&self, state: CycleState, pod: PodInfo, node: NodeInfo) -> StatusView {
        match state.value::<VolumeRestrictionsState>(NAME@) {
            Some(s) => restriction_verdict(s.conflicts.entries@, s.wanted_legacy@, node),
            None => restriction_verdict(Seq::empty(), pod.legacy_volumes@, node),
        }
    }

    fn filter(&self, state: &CycleState, pod: &PodInfo, node: &NodeInfo) -> (r: Status) {
        let legacy = match state.read::<VolumeRestrictionsState>(NAME) {
            Some(s) => {
                if s.conflicts.entries.len() > 0 {
                    return Status::unschedulable(NAME, s.conflicts.entries[0].1.as_str());
                }
                &s.wanted_legacy
            },
            None => &pod.legacy_volumes,
        };
        if clash_on_node(legacy, node) {
            return Status::unschedulable(NAME, "node(s) had volume node conflict");
        }
        Status::success()
    }
}

/// Putting a holder back restores what its removal cleared: the conflicts are
/// again those that name it, and every other is as it was.
pub proof fn joining_undoes_leaving(
    s: VolumeRestrictionsState,
    left: VolumeRestrictionsState,
    back: VolumeRestrictionsState,
    pod: PodInfo,
    other: PodInfo,
    c: Seq<char>,
)
    requires
        adjusted(s, left, pod, other, false),
        adjusted(left, back, pod, other, true),
        shares_claim(s, pod, other, c) ==> s.conflicts.text(c) == Some(conflict_message(c, other)),
    ensures
        back.conflicts.text(c) == s.conflicts.text(c),
{
}

proof fn holder_among_is_any(
    pods: Seq<Arc<PodInfo>>,
    namespace: Seq<char>,
    claim: Seq<char>,
    uid: Seq<char>,
)
    ensures
        holder_among(pods, namespace, claim, uid) is Some <==> exists|p: int|
            0 <= p < pods.len() && uses(*#[trigger] pods[p], namespace, claim) && pods[p].uid@
                != uid,
    decreases pods.len(),
{
    if pods.len() > 0 {
        let t = pods.drop_last();
        let last = pods.len() - 1;
        holder_among_is_any(t, namespace, claim, uid);
        if holder_among(t, namespace, claim, uid) is Some {
            let p = choose|p: int|
                0 <= p < t.len() && uses(*#[trigger] t[p], namespace, claim) && t[p].uid@ != uid;
            assert(uses(*pods[p], namespace, claim) && pods[p].uid@ != uid);
        } else {
            assert forall|p: int|
                0 <= p < last implies !(uses(*#[trigger] pods[p], namespace, claim) && pods[p].uid@
                != uid) by {
                assert(t[p] == pods[p]);
            }
            if holder_among(pods, namespace, claim, uid) is Some {
                assert(uses(*pods[last], namespace, claim) && pods[last].uid@ != uid);
            }
        }
    }
}

/// Another pod of the cluster, on whichever node, uses the claim.
pub open spec fn used_elsewhere(snapshot: Snapshot, pod: PodInfo, claim: Seq<char>) -> bool {
    exists|n: int, p: int|
        0 <= n < snapshot.nodes@.len() && 0 <= p < snapshot.nodes@[n].pods@.len() && uses(
            *#[trigger] snapshot.nodes@[n].pods@[p],
            pod.namespace@,
            claim,
        ) && snapshot.nodes@[n].pods@[p].uid@ != pod.uid@
}

proof fn holder_is_any(nodes: Seq<Arc<NodeInfo>>, namespace: Seq<char>, claim: Seq<char>, uid: Seq<char>)
    ensures
        holder_of(nodes, namespace, claim, uid) is Some <==> exists|n: int, p: int|
            0 <= n < nodes.len() && 0 <= p < nodes[n].pods@.len() && uses(
                *#[trigger] nodes[n].pods@[p],
                namespace,
                claim,
            ) && nodes[n].pods@[p].uid@ != uid,
    decreases nodes.len(),
{
    if nodes.len() > 0 {
        let t = nodes.drop_last();
        let last = nodes.len() - 1;
        holder_is_any(t, namespace, claim, uid);
        holder_among_is_any(nodes.last().pods@, namespace, claim, uid);
        if holder_of(t, namespace, claim, uid) is Some {
            let (n, p) = choose|n: int, p: int|
                0 <= n < t.len() && 0 <= p < t[n].pods@.len() && uses(
                    *#[trigger] t[n].pods@[p],
                    namespace,
                    claim,
                ) && t[n].pods@[p].uid@ != uid;
            assert(uses(*nodes[n].pods@[p], namespace, claim) && nodes[n].pods@[p].uid@ != uid);
        } else if holder_among(nodes.last().pods@, namespace, claim, uid) is Some {
            let pods = nodes.last().pods@;
            let p = choose|p: int|
                0 <= p < pods.len() && uses(*#[trigger] pods[p], namespace, claim) && pods[p].uid@
                    != uid;
            assert(uses(*nodes[last].pods@[p], namespace, claim) && nodes[last].pods@[p].uid@
                != uid);
        }
        if exists|n: int, p: int|
            0 <= n < nodes.len() && 0 <= p < nodes[n].pods@.len() && uses(
                *#[trigger] nodes[n].pods@[p],
                namespace,
                claim,
            ) && nodes[n].pods@[p].uid@ != uid {
            let (n, p) = choose|n: int, p: int|
                0 <= n < nodes.len() && 0 <= p < nodes[n].pods@.len() && uses(
                    *#[trigger] nodes[n].pods@[p],
                    namespace,
                    claim,
                ) && nodes[n].pods@[p].uid@ != uid;
            if n < last {
                assert(uses(*t[n].pods@[p], namespace, claim) && t[n].pods@[p].uid@ != uid);
            } else {
                assert(uses(*nodes.last().pods@[p], namespace, claim));
            }
        }
    }
}

/// A node passes exactly where no other pod of the cluster uses a claim of the
/// pod that only one pod may use, and no volume of the pod clashes with one of a
/// pod on that node.
pub proof fn passing_means_unshared(
    plugin: VolumeRestrictions,
    before: CycleState,
    pod: PodInfo,
    snapshot: Snapshot,
    state: CycleState,
    status: StatusView,
    node: NodeInfo,
)
    requires
        plugin.pre_filter_view(before, pod, snapshot, state, status),
        status == success(),
    ensures
        plugin.filter_view(state, pod, node) == success() <==> {
            &&& forall|i: int|
                0 <= i < pod.pvc_names@.len() && (snapshot.claim(
                    pod.namespace@,
                    (#[trigger] pod.pvc_names@[i])@,
                ) matches Some(pvc) && pvc.exclusive()) ==> !used_elsewhere(
                    snapshot,
                    pod,
                    pod.pvc_names@[i]@,
                )
            &&& forall|p: int, v: int, w: int|
                0 <= p < node.pods@.len() && 0 <= v < pod.legacy_volumes@.len() && 0 <= w
                    < node.pods@[p].legacy_volumes@.len() ==> !(
                #[trigger] pod.legacy_volumes@[v].clashes(
                    &#[trigger] node.pods@[p].legacy_volumes@[w],
                ))
        },
{
    let s = state.value::<VolumeRestrictionsState>(NAME@)->Some_0;
    let e = s.conflicts.entries@;
    assert forall|c: Seq<char>| #[trigger] s.conflicts.text(c) is Some <==> exclusive_claim(
        pod,
        snapshot,
        c,
    ) && used_elsewhere(snapshot, pod, c) by {
        holder_is_any(snapshot.nodes@, pod.namespace@, c, pod.uid@);
        assert(s.conflicts.text(c) == conflict_on(pod, snapshot, c));
    }
    assert(e.len() > 0 ==> s.conflicts.text(e[0].0@) is Some);
    assert(e.len() == 0 ==> forall|c: Seq<char>| #[trigger] s.conflicts.text(c) is None);
    let free = forall|i: int|
        0 <= i < pod.pvc_names@.len() && (snapshot.claim(
            pod.namespace@,
            (#[trigger] pod.pvc_names@[i])@,
        ) matches Some(pvc) && pvc.exclusive()) ==> !used_elsewhere(
            snapshot,
            pod,
            pod.pvc_names@[i]@,
        );
    if e.len() > 0 {
        let c = e[0].0@;
        assert(exclusive_claim(pod, snapshot, c) && used_elsewhere(snapshot, pod, c));
        let i = choose|i: int| 0 <= i < pod.pvc_names@.len() && (#[trigger] pod.pvc_names@[i])@ == c;
        assert(pod.pvc_names@[i]@ == c);
        assert(!free);
    } else {
        assert forall|i: int|
            0 <= i < pod.pvc_names@.len() && (snapshot.claim(
                pod.namespace@,
                (#[trigger] pod.pvc_names@[i])@,
            ) matches Some(pvc) && pvc.exclusive()) implies !used_elsewhere(
            snapshot,
            pod,
            pod.pvc_names@[i]@,
        ) by {
            let c = pod.pvc_names@[i]@;
            assert(s.conflicts.text(c) is None);
            assert(has_text(pod.pvc_names@, c));
        }
    }
    if !clashes_on(pod.legacy_volumes@, node) {
        assert forall|p: int, v: int, w: int|
            0 <= p < node.pods@.len() && 0 <= v < pod.legacy_volumes@.len() && 0 <= w
                < node.pods@[p].legacy_volumes@.len() implies !(
        #[trigger] pod.legacy_volumes@[v].clashes(
            &#[trigger] node.pods@[p].legacy_volumes@[w],
        )) by {
            assert(!clashes_with(pod.legacy_volumes@, *node.pods@[p]));
        }
    } else {
        let p = choose|p: int|
            0 <= p < node.pods@.len() && clashes_with(
                pod.legacy_volumes@,
                *#[trigger] node.pods@[p],
            );
        let other = node.pods@[p];
        let (v, w) = choose|v: int, w: int|
            0 <= v < pod.legacy_volumes@.len() && 0 <= w < other.legacy_volumes@.len()
                && #[trigger] pod.legacy_volumes@[v].clashes(&other.legacy_volumes@[w]);
        assert(pod.legacy_volumes@[v].clashes(&node.pods@[p].legacy_volumes@[w]));
    }
}

} // verus!
