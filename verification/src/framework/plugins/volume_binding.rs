//! `VolumeBinding`: a pod's claims must be bound, or bindable from its node.
//!
//! A bound claim's volume must suit the node. A claim that is not bound takes
//! a free volume that matches it, on the nodes that can use one; on the others
//! its storage class must provision for the node that is chosen. A class that
//! binds at once leaves the pod waiting for somebody else, and so does the lack
//! of a class where no free volume matches.
//!
//! Two pods that are scheduled back to back must not take the same volume:
//! what one has reserved is excluded for the next. Nor may two claims of one
//! pod: what an earlier claim takes on a node is left out for the later ones.

use super::node_affinity::{matches_node_selector, selector_holds};
use super::selector::{matches_selector, selected, selects};
use super::{always_on, event_on};
use crate::api::{NodeSelector, TopologySelectorLabelRequirement, TopologySelectorTerm};
use crate::cache::{
    NodeInfo, PodInfo, PvInfo, PvcInfo, Snapshot, StorageCapacityInfo, StorageClassInfo,
};
use crate::events::{ActionType, ClusterEvent, EventResource};
use crate::framework::status::{
    failure, skip, success, unresolvable, unschedulable, Status, StatusView,
};
use crate::framework::{
    events_of, filter_switched_off, unhinted, ClusterEventWithHint, CycleState, FilterPlugin,
    NoHint, Plugin, PreFilterPlugin, ReservePlugin,
};
use crate::maps::{shared, Labels, StrMap};
use crate::queue::backoff::later;
use crate::text::{
    contains_text, debug_text, decimal, decimal_text, has_text, joined, precedes, quoted, text_eq,
    text_less,
};
use std::sync::Arc;
use vstd::prelude::*;

verus! {

pub const NAME: &'static str = "VolumeBinding";

/// How long to wait between looks at a claim: two seconds.
pub const POLL_INTERVAL: u64 = 2_000_000_000;

/// The annotation that tells a provisioner which node it provisions for.
pub const SELECTED_NODE_ANNOTATION: &'static str = "volume.kubernetes.io/selected-node";

/// What a node has to satisfy for a claim to be provisioned for it. `capacity`
/// is `None` where the driver does not report capacity.
pub struct Provisioning {
    pub allowed_topologies: Arc<Vec<TopologySelectorTerm>>,
    pub capacity: Option<Vec<Arc<StorageCapacityInfo>>>,
    pub requested_bytes: i64,
}

/// What a node has to satisfy for one of the pod's claims.
pub enum PvcConstraint {
    /// Bound: the volume's own demand of nodes, if it has one.
    Bound(Option<Arc<NodeSelector>>),
    /// Not bound, with free volumes that match: the one to take on each node
    /// that can use any, and what is provisioned on the others, if anything is.
    Static { claim_key: String, by_node: StrMap<String>, fallback: Option<Provisioning> },
    /// Not bound, to be provisioned for the node chosen.
    Delayed(Provisioning),
}

pub struct WantedPvcs(pub Vec<PvcConstraint>);

pub open spec fn subscriptions() -> Seq<ClusterEvent> {
    seq![
        event_on(EventResource::PersistentVolumeClaim, ActionType::ADD | ActionType::UPDATE),
        event_on(EventResource::PersistentVolume, ActionType::ADD | ActionType::UPDATE),
        event_on(EventResource::StorageClass, ActionType::ADD),
        event_on(EventResource::CsiStorageCapacity, ActionType::ADD | ActionType::UPDATE),
    ]
}

/// The events that can make progress on a claim.
pub fn events_impl() -> (r: Vec<ClusterEventWithHint<NoHint>>)
    ensures
        events_of(r@) == subscriptions(),
        unhinted(r@),
{
    let mut out: Vec<ClusterEventWithHint<NoHint>> = Vec::new();
    out.push(
        always_on(EventResource::PersistentVolumeClaim, ActionType::ADD | ActionType::UPDATE),
    );
    out.push(always_on(EventResource::PersistentVolume, ActionType::ADD | ActionType::UPDATE));
    out.push(always_on(EventResource::StorageClass, ActionType::ADD));
    out.push(always_on(EventResource::CsiStorageCapacity, ActionType::ADD | ActionType::UPDATE));
    assert(events_of(out@) =~= subscriptions());
    out
}

pub open spec fn topology_requirements(term: TopologySelectorTerm) -> Seq<
    TopologySelectorLabelRequirement,
> {
    match term.match_label_expressions {
        Some(r) => r@,
        None => Seq::empty(),
    }
}

/// Whether labels satisfy every requirement of a topology term.
pub open spec fn term_allows(term: TopologySelectorTerm, labels: Labels) -> bool {
    forall|i: int|
        0 <= i < topology_requirements(term).len() ==> match labels.text(
            (#[trigger] topology_requirements(term)[i]).key@,
        ) {
            Some(v) => has_text(topology_requirements(term)[i].values@, v),
            None => false,
        }
}

/// Whether any of the terms accepts the labels; no terms restrict nothing.
pub open spec fn topologies_allow(terms: Seq<TopologySelectorTerm>, labels: Labels) -> bool {
    terms.len() == 0 || exists|i: int| 0 <= i < terms.len() && term_allows(#[trigger] terms[i], labels)
}

fn term_accepts(term: &TopologySelectorTerm, labels: &Labels) -> (r: bool)
    ensures
        r == term_allows(*term, *labels),
{
    match &term.match_label_expressions {
        Some(reqs) => {
            let mut i: usize = 0;
            while i < reqs.len()
                invariant
                    i <= reqs@.len(),
                    topology_requirements(*term) == reqs@,
                    forall|k: int|
                        0 <= k < i ==> match labels.text((#[trigger] reqs@[k]).key@) {
                            Some(v) => has_text(reqs@[k].values@, v),
                            None => false,
                        },
                decreases reqs@.len() - i,
            {
                let ok = match labels.get(reqs[i].key.as_str()) {
                    Some(v) => contains_text(&reqs[i].values, v.as_str()),
                    None => false,
                };
                if !ok {
                    assert(topology_requirements(*term)[i as int] == reqs@[i as int]);
                    return false;
                }
                i += 1;
            }
            true
        },
        None => true,
    }
}

pub fn topology_allows(terms: &Vec<TopologySelectorTerm>, labels: &Labels) -> (r: bool)
    ensures
        r == topologies_allow(terms@, *labels),
{
    if terms.len() == 0 {
        return true;
    }
    let mut i: usize = 0;
    while i < terms.len()
        invariant
            i <= terms@.len(),
            forall|k: int| 0 <= k < i ==> !term_allows(#[trigger] terms@[k], *labels),
        decreases terms@.len() - i,
    {
        if term_accepts(&terms[i], labels) {
            assert(term_allows(terms@[i as int], *labels));
            return true;
        }
        i += 1;
    }
    false
}

/// A text, or the other where it is absent or empty.
pub open spec fn mode_or_default(mode: Seq<char>) -> Seq<char> {
    if mode == ""@ {
        "Filesystem"@
    } else {
        mode
    }
}

fn same_mode(a: &str, b: &str) -> (r: bool)
    ensures
        r == (mode_or_default(a@) == mode_or_default(b@)),
{
    let x = if text_eq(a, "") {
        "Filesystem"
    } else {
        a
    };
    let y = if text_eq(b, "") {
        "Filesystem"
    } else {
        b
    };
    text_eq(x, y)
}

/// The name of a storage class, empty where there is none.
pub open spec fn class_name(t: Option<String>) -> Seq<char> {
    match t {
        Some(s) => s@,
        None => ""@,
    }
}

fn class_text(t: &Option<String>) -> (r: &str)
    ensures
        r@ == class_name(*t),
{
    match t {
        Some(s) => s.as_str(),
        None => "",
    }
}

/// The volume is set aside for the claim.
pub open spec fn reserved_for(pv: PvInfo, pvc: PvcInfo) -> bool {
    match pv.claim_ref {
        Some((ns, name)) => ns@ == pvc.namespace@ && name@ == pvc.name@ && match pv.claim_ref_uid {
            Some(uid) => uid@ == pvc.uid@,
            None => true,
        },
        None => false,
    }
}

/// Every text of a list stands in another.
pub open spec fn includes(all: Seq<String>, some: Seq<String>) -> bool {
    forall|i: int| 0 <= i < some.len() ==> has_text(all, (#[trigger] some[i])@)
}

/// A free volume that a claim could be bound to: available and not going away,
/// set aside for nobody else, of the claim's class and mode, with the access
/// modes and the size it asks for, and with the labels it selects.
pub open spec fn suits(pv: PvInfo, pvc: PvcInfo, excluded: Seq<String>) -> bool {
    &&& !has_text(excluded, pv.name@)
    &&& match pvc.volume_name {
        Some(name) => pv.name@ == name@,
        None => true,
    }
    &&& pv.phase@ == "Available"@
    &&& !pv.deleting
    &&& pv.volume_attributes_class_name is None
    &&& mode_or_default(pv.volume_mode@) == mode_or_default(pvc.volume_mode@)
    &&& pv.claim_ref is None || reserved_for(pv, pvc)
    &&& class_name(pv.storage_class_name) == class_name(pvc.storage_class_name)
    &&& includes(pv.access_modes@, pvc.requested_access_modes@)
    &&& pv.capacity_bytes >= pvc.requested_bytes
    &&& match pvc.selector {
        Some(sel) => selects(sel, pv.labels),
        None => true,
    }
}

fn is_reserved_for(pv: &PvInfo, pvc: &PvcInfo) -> (r: bool)
    ensures
        r == reserved_for(*pv, *pvc),
{
    match &pv.claim_ref {
        Some(claim) => text_eq(claim.0.as_str(), pvc.namespace.as_str()) && text_eq(
            claim.1.as_str(),
            pvc.name.as_str(),
        ) && match &pv.claim_ref_uid {
            Some(uid) => text_eq(uid.as_str(), pvc.uid.as_str()),
            None => true,
        },
        None => false,
    }
}

fn is_including(all: &Vec<String>, some: &Vec<String>) -> (r: bool)
    ensures
        r == includes(all@, some@),
{
    let mut i: usize = 0;
    while i < some.len()
        invariant
            i <= some@.len(),
            forall|k: int| 0 <= k < i ==> has_text(all@, (#[trigger] some@[k])@),
        decreases some@.len() - i,
    {
        if !contains_text(all, some[i].as_str()) {
            assert(!has_text(all@, some@[i as int]@));
            return false;
        }
        i += 1;
    }
    true
}

fn is_suitable(pv: &PvInfo, pvc: &PvcInfo, excluded: &Vec<String>) -> (r: bool)
    ensures
        r == suits(*pv, *pvc, excluded@),
{
    let named = match &pvc.volume_name {
        Some(name) => text_eq(pv.name.as_str(), name.as_str()),
        None => true,
    };
    let labelled = match &pvc.selector {
        Some(sel) => matches_selector(Some(sel), &pv.labels),
        None => true,
    };
    !contains_text(excluded, pv.name.as_str()) && named && text_eq(pv.phase.as_str(), "Available")
        && !pv.deleting && pv.volume_attributes_class_name.is_none() && same_mode(
        pv.volume_mode.as_str(),
        pvc.volume_mode.as_str(),
    ) && (pv.claim_ref.is_none() || is_reserved_for(pv, pvc)) && text_eq(
        class_text(&pv.storage_class_name),
        class_text(&pvc.storage_class_name),
    ) && is_including(&pv.access_modes, &pvc.requested_access_modes) && pv.capacity_bytes
        >= pvc.requested_bytes && labelled
}

/// The volumes of a list that suit a claim, in the order of the list.
pub open spec fn suitable(
    pvs: Seq<(String, PvInfo)>,
    pvc: PvcInfo,
    excluded: Seq<String>,
) -> Seq<PvInfo>
    decreases pvs.len(),
{
    if pvs.len() == 0 {
        Seq::empty()
    } else if suits(pvs.last().1, pvc, excluded) {
        suitable(pvs.drop_last(), pvc, excluded).push(pvs.last().1)
    } else {
        suitable(pvs.drop_last(), pvc, excluded)
    }
}

/// The values behind a list of references.
pub open spec fn deref_all(v: Seq<&PvInfo>) -> Seq<PvInfo> {
    v.map_values(|p: &PvInfo| *p)
}

/// The free volumes that a claim could be bound to.
pub fn find_static_candidates<'a>(
    pvc: &PvcInfo,
    snapshot: &'a Snapshot,
    excluded: &Vec<String>,
) -> (r: Vec<&'a PvInfo>)
    ensures
        deref_all(r@) == suitable(snapshot.pvs.entries@, *pvc, excluded@),
{
    let pvs = &snapshot.pvs.entries;
    let mut out: Vec<&'a PvInfo> = Vec::new();
    let mut i: usize = 0;
    assert(deref_all(out@) =~= Seq::<PvInfo>::empty());
    while i < pvs.len()
        invariant
            i <= pvs@.len(),
            pvs@ == snapshot.pvs.entries@,
            deref_all(out@) == suitable(pvs@.take(i as int), *pvc, excluded@),
        decreases pvs@.len() - i,
    {
        let ghost before = out@;
        if is_suitable(&pvs[i].1, pvc, excluded) {
            out.push(&pvs[i].1);
            assert(deref_all(out@) =~= deref_all(before).push(pvs@[i as int].1));
        }
        i += 1;
        assert(pvs@.take(i as int).drop_last() =~= pvs@.take(i - 1));
    }
    assert(pvs@.take(i as int) =~= pvs@);
    out
}

/// The volume may be used on the node.
pub open spec fn usable_on(pv: PvInfo, node: NodeInfo) -> bool {
    match pv.node_affinity {
        Some(sel) => selector_holds(*sel, node),
        None => true,
    }
}

fn is_usable_on(pv: &PvInfo, node: &NodeInfo) -> (r: bool)
    ensures
        r == usable_on(*pv, *node),
{
    match &pv.node_affinity {
        Some(sel) => matches_node_selector(sel, node),
        None => true,
    }
}

/// Which of two volumes that suit to take: one set aside for the claim first,
/// then the smaller, then by name.
pub open spec fn preferred(a: PvInfo, b: PvInfo) -> bool {
    if (a.claim_ref is Some) != (b.claim_ref is Some) {
        a.claim_ref is Some
    } else if a.capacity_bytes != b.capacity_bytes {
        a.capacity_bytes < b.capacity_bytes
    } else {
        text_less(a.name@, b.name@)
    }
}

fn is_preferred(a: &PvInfo, b: &PvInfo) -> (r: bool)
    ensures
        r == preferred(*a, *b),
{
    if a.claim_ref.is_some() != b.claim_ref.is_some() {
        a.claim_ref.is_some()
    } else if a.capacity_bytes != b.capacity_bytes {
        a.capacity_bytes < b.capacity_bytes
    } else {
        precedes(a.name.as_str(), b.name.as_str())
    }
}

/// The volume to take on a node.
pub open spec fn choice(pvs: Seq<PvInfo>, node: NodeInfo) -> Option<PvInfo>
    decreases pvs.len(),
{
    if pvs.len() == 0 {
        None
    } else {
        let rest = choice(pvs.drop_last(), node);
        if usable_on(pvs.last(), node) && (rest is None || preferred(pvs.last(), rest->Some_0)) {
            Some(pvs.last())
        } else {
            rest
        }
    }
}

/// The choice can be used on the node, and no other that can is preferred.
pub proof fn choice_is_best(pvs: Seq<PvInfo>, node: NodeInfo)
    ensures
        choice(pvs, node) is Some <==> exists|i: int|
            0 <= i < pvs.len() && usable_on(#[trigger] pvs[i], node),
        choice(pvs, node) is Some ==> {
            &&& usable_on(choice(pvs, node)->Some_0, node)
            &&& pvs.contains(choice(pvs, node)->Some_0)
            &&& forall|i: int|
                0 <= i < pvs.len() && usable_on(#[trigger] pvs[i], node) ==> !preferred(
                    pvs[i],
                    choice(pvs, node)->Some_0,
                )
        },
    decreases pvs.len(),
{
    if pvs.len() > 0 {
        let t = pvs.drop_last();
        choice_is_best(t, node);
        let rest = choice(t, node);
        let best = choice(pvs, node);
        if rest is Some {
            let k = choose|k: int| 0 <= k < t.len() && t[k] == rest->Some_0;
            assert(pvs[k] == rest->Some_0);
            assert(usable_on(pvs[k], node));
        }
        if best is Some {
            if best == rest {
                let k = choose|k: int| 0 <= k < t.len() && t[k] == rest->Some_0;
                assert(pvs[k] == best->Some_0);
            } else {
                assert(pvs[pvs.len() - 1] == best->Some_0);
            }
            assert forall|i: int|
                0 <= i < pvs.len() && usable_on(#[trigger] pvs[i], node) implies !preferred(
                pvs[i],
                best->Some_0,
            ) by {
                if i < t.len() {
                    assert(t[i] == pvs[i]);
                    if best != rest {
                        preferred_trans(pvs[i], rest->Some_0, best->Some_0);
                    }
                } else if best == rest {
                } else {
                    preferred_irreflexive(pvs.last());
                }
            }
        }
        if exists|i: int| 0 <= i < pvs.len() && usable_on(#[trigger] pvs[i], node) {
            let i = choose|i: int| 0 <= i < pvs.len() && usable_on(#[trigger] pvs[i], node);
            if i < t.len() {
                assert(t[i] == pvs[i]);
            }
        }
    }
}

proof fn preferred_irreflexive(a: PvInfo)
    ensures
        !preferred(a, a),
{
    crate::text::text_less_irreflexive(a.name@);
}

/// What is not preferred to a volume is not preferred to one preferred to it.
proof fn preferred_trans(a: PvInfo, b: PvInfo, c: PvInfo)
    ensures
        !preferred(a, b) && preferred(c, b) ==> !preferred(a, c),
{
    if preferred(c, b) && preferred(a, c) {
        if (a.claim_ref is Some) == (c.claim_ref is Some) && a.capacity_bytes == c.capacity_bytes
            && (c.claim_ref is Some) == (b.claim_ref is Some) && c.capacity_bytes
            == b.capacity_bytes {
            crate::text::text_less_transitive(a.name@, c.name@, b.name@);
        }
        assert(preferred(a, b));
    }
}

fn choose_volume<'a>(pvs: &Vec<&'a PvInfo>, node: &NodeInfo) -> (r: Option<&'a PvInfo>)
    ensures
        match choice(deref_all(pvs@), *node) {
            Some(pv) => r == Some(&pv),
            None => r is None,
        },
{
    let ghost all = deref_all(pvs@);
    let mut best: Option<&'a PvInfo> = None;
    let mut i: usize = 0;
    while i < pvs.len()
        invariant
            i <= pvs@.len(),
            all == deref_all(pvs@),
            match choice(all.take(i as int), *node) {
                Some(pv) => best == Some(&pv),
                None => best is None,
            },
        decreases pvs@.len() - i,
    {
        let better = match best {
            Some(b) => is_preferred(pvs[i], b),
            None => true,
        };
        if is_usable_on(pvs[i], node) && better {
            best = Some(pvs[i]);
        }
        i += 1;
        proof {
            assert(all.take(i as int).drop_last() =~= all.take(i - 1));
            assert(all.take(i as int).last() == *pvs@[i - 1]);
        }
    }
    assert(all.take(i as int) =~= all);
    best
}

/// The volume to take on each node that can use any.
pub open spec fn chosen_by_node(
    m: StrMap<String>,
    nodes: Seq<Arc<NodeInfo>>,
    pvs: Seq<PvInfo>,
) -> bool {
    forall|n: Seq<char>| #[trigger] m.text(n) == choice_on(nodes, pvs, n)
}

/// The volume to take on the last node of a name that can use any.
pub open spec fn choice_on(nodes: Seq<Arc<NodeInfo>>, pvs: Seq<PvInfo>, name: Seq<char>) -> Option<
    Seq<char>,
>
    decreases nodes.len(),
{
    if nodes.len() == 0 {
        None
    } else if nodes.last().name@ == name && choice(pvs, *nodes.last()) is Some {
        Some(choice(pvs, *nodes.last())->Some_0.name@)
    } else {
        choice_on(nodes.drop_last(), pvs, name)
    }
}

/// A claim of another key takes the volume on the node.
pub open spec fn taken_on(
    earlier: Seq<PvcConstraint>,
    key: Seq<char>,
    node: Seq<char>,
    volume: Seq<char>,
) -> bool {
    exists|i: int| 0 <= i < earlier.len() && takes(#[trigger] earlier[i], key, node, volume)
}

/// A constraint is that of a claim of another key, and takes the volume on the
/// node.
pub open spec fn takes(
    c: PvcConstraint,
    key: Seq<char>,
    node: Seq<char>,
    volume: Seq<char>,
) -> bool {
    match c {
        PvcConstraint::Static { claim_key, by_node, .. } => claim_key@ != key && by_node.text(node)
            == Some(volume),
        _ => false,
    }
}

fn is_taken_on(earlier: &Vec<PvcConstraint>, key: &str, node: &str, volume: &str) -> (r: bool)
    ensures
        r == taken_on(earlier@, key@, node@, volume@),
{
    let mut i: usize = 0;
    while i < earlier.len()
        invariant
            i <= earlier@.len(),
            forall|k: int| 0 <= k < i ==> !takes(#[trigger] earlier@[k], key@, node@, volume@),
        decreases earlier@.len() - i,
    {
        let taken = match &earlier[i] {
            PvcConstraint::Static { claim_key, by_node, .. } => !text_eq(claim_key.as_str(), key)
                && by_node.carries_pair(node, volume),
            _ => false,
        };
        if taken {
            assert(takes(earlier@[i as int], key@, node@, volume@));
            return true;
        }
        i += 1;
    }
    false
}

/// The volumes of a list that no earlier claim takes on the node.
pub open spec fn left_over(
    pvs: Seq<PvInfo>,
    earlier: Seq<PvcConstraint>,
    key: Seq<char>,
    node: Seq<char>,
) -> Seq<PvInfo>
    decreases pvs.len(),
{
    if pvs.len() == 0 {
        Seq::empty()
    } else if taken_on(earlier, key, node, pvs.last().name@) {
        left_over(pvs.drop_last(), earlier, key, node)
    } else {
        left_over(pvs.drop_last(), earlier, key, node).push(pvs.last())
    }
}

fn leave_taken<'a>(
    pvs: &Vec<&'a PvInfo>,
    earlier: &Vec<PvcConstraint>,
    key: &str,
    node: &str,
) -> (r: Vec<&'a PvInfo>)
    ensures
        deref_all(r@) == left_over(deref_all(pvs@), earlier@, key@, node@),
{
    let ghost all = deref_all(pvs@);
    let mut out: Vec<&'a PvInfo> = Vec::new();
    let mut i: usize = 0;
    assert(deref_all(out@) =~= Seq::<PvInfo>::empty());
    while i < pvs.len()
        invariant
            i <= pvs@.len(),
            all == deref_all(pvs@),
            deref_all(out@) == left_over(all.take(i as int), earlier@, key@, node@),
        decreases pvs@.len() - i,
    {
        let ghost before = out@;
        let taken = is_taken_on(earlier, key, node, pvs[i].name.as_str());
        if !taken {
            out.push(pvs[i]);
            assert(deref_all(out@) =~= deref_all(before).push(*pvs@[i as int]));
        }
        i += 1;
        proof {
            assert(all.take(i as int).drop_last() =~= all.take(i - 1));
            assert(all.take(i as int).last() == *pvs@[i - 1]);
        }
    }
    assert(all.take(i as int) =~= all);
    out
}

/// The volume that a claim takes on the last node of a name that has one left
/// for it.
pub open spec fn choice_after(
    nodes: Seq<Arc<NodeInfo>>,
    pvs: Seq<PvInfo>,
    earlier: Seq<PvcConstraint>,
    key: Seq<char>,
    name: Seq<char>,
) -> Option<Seq<char>>
    decreases nodes.len(),
{
    if nodes.len() == 0 {
        None
    } else if nodes.last().name@ == name && choice(
        left_over(pvs, earlier, key, name),
        *nodes.last(),
    ) is Some {
        Some(choice(left_over(pvs, earlier, key, name), *nodes.last())->Some_0.name@)
    } else {
        choice_after(nodes.drop_last(), pvs, earlier, key, name)
    }
}

/// The volume that a claim takes on each node that has one left for it.
pub open spec fn chosen_after(
    m: StrMap<String>,
    nodes: Seq<Arc<NodeInfo>>,
    pvs: Seq<PvInfo>,
    earlier: Seq<PvcConstraint>,
    key: Seq<char>,
) -> bool {
    forall|n: Seq<char>| #[trigger] m.text(n) == choice_after(nodes, pvs, earlier, key, n)
}

fn resolve_after(
    candidates: &Vec<&PvInfo>,
    snapshot: &Snapshot,
    earlier: &Vec<PvcConstraint>,
    key: &str,
) -> (r: StrMap<String>)
    ensures
        chosen_after(r, snapshot.nodes@, deref_all(candidates@), earlier@, key@),
{
    let nodes = &snapshot.nodes;
    let ghost pvs = deref_all(candidates@);
    let mut out: StrMap<String> = StrMap::new();
    let mut i: usize = 0;
    while i < nodes.len()
        invariant
            i <= nodes@.len(),
            nodes@ == snapshot.nodes@,
            pvs == deref_all(candidates@),
            chosen_after(out, nodes@.take(i as int), pvs, earlier@, key@),
        decreases nodes@.len() - i,
    {
        let ghost before = out;
        let left = leave_taken(candidates, earlier, key, nodes[i].name.as_str());
        match choose_volume(&left, &nodes[i]) {
            Some(pv) => {
                out.insert(nodes[i].name.clone(), pv.name.clone());
            },
            None => {},
        }
        i += 1;
        proof {
            assert(nodes@.take(i as int).drop_last() =~= nodes@.take(i - 1));
            assert forall|n: Seq<char>| #[trigger]
                out.text(n) == choice_after(nodes@.take(i as int), pvs, earlier@, key@, n) by {
                let was = before.text(n);
            }
        }
    }
    assert(nodes@.take(i as int) =~= nodes@);
    out
}

/// The volume to take on each node, for a claim that comes first.
pub fn resolve_by_node(candidates: &Vec<&PvInfo>, snapshot: &Snapshot) -> (r: StrMap<String>)
    ensures
        chosen_by_node(r, snapshot.nodes@, deref_all(candidates@)),
{
    let none: Vec<PvcConstraint> = Vec::new();
    let r = resolve_after(candidates, snapshot, &none, "");
    proof {
        let pvs = deref_all(candidates@);
        assert forall|n: Seq<char>| #[trigger]
            r.text(n) == choice_on(snapshot.nodes@, pvs, n) by {
            first_choice(snapshot.nodes@, pvs, none@, ""@, n);
        }
    }
    r
}

proof fn nothing_taken(
    pvs: Seq<PvInfo>,
    earlier: Seq<PvcConstraint>,
    key: Seq<char>,
    node: Seq<char>,
)
    requires
        earlier.len() == 0,
    ensures
        left_over(pvs, earlier, key, node) == pvs,
    decreases pvs.len(),
{
    if pvs.len() > 0 {
        nothing_taken(pvs.drop_last(), earlier, key, node);
        assert(pvs.drop_last().push(pvs.last()) =~= pvs);
    } else {
        assert(left_over(pvs, earlier, key, node) =~= pvs);
    }
}

proof fn first_choice(
    nodes: Seq<Arc<NodeInfo>>,
    pvs: Seq<PvInfo>,
    earlier: Seq<PvcConstraint>,
    key: Seq<char>,
    name: Seq<char>,
)
    requires
        earlier.len() == 0,
    ensures
        choice_after(nodes, pvs, earlier, key, name) == choice_on(nodes, pvs, name),
    decreases nodes.len(),
{
    nothing_taken(pvs, earlier, key, name);
    if nodes.len() > 0 {
        first_choice(nodes.drop_last(), pvs, earlier, key, name);
    }
}

proof fn left_over_is_free(
    pvs: Seq<PvInfo>,
    earlier: Seq<PvcConstraint>,
    key: Seq<char>,
    node: Seq<char>,
    pv: PvInfo,
)
    requires
        left_over(pvs, earlier, key, node).contains(pv),
    ensures
        pvs.contains(pv),
        !taken_on(earlier, key, node, pv.name@),
    decreases pvs.len(),
{
    if pvs.len() > 0 {
        let t = pvs.drop_last();
        let l = left_over(pvs, earlier, key, node);
        let lt = left_over(t, earlier, key, node);
        let k = choose|k: int| 0 <= k < l.len() && l[k] == pv;
        if k < lt.len() {
            assert(lt[k] == pv);
            left_over_is_free(t, earlier, key, node, pv);
            let j = choose|j: int| 0 <= j < t.len() && t[j] == pv;
            assert(pvs[j] == pv);
        } else {
            assert(pvs[pvs.len() - 1] == pv);
        }
    }
}

proof fn choice_after_is_free(
    nodes: Seq<Arc<NodeInfo>>,
    pvs: Seq<PvInfo>,
    earlier: Seq<PvcConstraint>,
    key: Seq<char>,
    name: Seq<char>,
)
    ensures
        choice_after(nodes, pvs, earlier, key, name) matches Some(v) ==> !taken_on(
            earlier,
            key,
            name,
            v,
        ) && exists|k: int| 0 <= k < pvs.len() && (#[trigger] pvs[k]).name@ == v,
    decreases nodes.len(),
{
    if nodes.len() > 0 {
        choice_after_is_free(nodes.drop_last(), pvs, earlier, key, name);
        let last = crate::maps::shared(nodes.last());
        let left = left_over(pvs, earlier, key, name);
        if last.name@ == name && choice(left, last) is Some {
            choice_is_best(left, last);
            let pv = choice(left, last)->Some_0;
            left_over_is_free(pvs, earlier, key, name, pv);
            let k = choose|k: int| 0 <= k < pvs.len() && pvs[k] == pv;
            assert(pvs[k].name@ == pv.name@);
        }
    }
}

/// Two claims of one pod never take the same volume on a node.
pub proof fn claims_share_no_volume(
    c: Seq<PvcConstraint>,
    claims: Seq<String>,
    snapshot: Snapshot,
    namespace: Seq<char>,
    excluded: Seq<String>,
    i: int,
    j: int,
    node: Seq<char>,
    volume: Seq<char>,
)
    requires
        constraints_of(c, claims, snapshot, namespace, excluded),
        0 <= i < j < c.len(),
        c[j] is Static,
        takes(c[i], c[j]->claim_key@, node, volume),
    ensures
        c[j]->by_node.text(node) != Some(volume),
{
    assert(claim_constraint(c[j], snapshot, namespace, claims[j]@, excluded, c.take(j)));
    let pvc = snapshot.claim(namespace, claims[j]@)->Some_0;
    let free = suitable(snapshot.pvs.entries@, pvc, excluded);
    let key = c[j]->claim_key@;
    choice_after_is_free(snapshot.nodes@, free, c.take(j), key, node);
    assert(c.take(j)[i] == c[i]);
    let t = c[j]->by_node.text(node);
}

/// A volume that another pod reserved is not taken on any node.
pub proof fn reserved_volumes_are_left_alone(
    m: StrMap<String>,
    snapshot: Snapshot,
    pvc: PvcInfo,
    excluded: Seq<String>,
    earlier: Seq<PvcConstraint>,
    key: Seq<char>,
    node: Seq<char>,
)
    requires
        chosen_after(
            m,
            snapshot.nodes@,
            suitable(snapshot.pvs.entries@, pvc, excluded),
            earlier,
            key,
        ),
        m.text(node) is Some,
    ensures
        !has_text(excluded, m.text(node)->Some_0),
{
    let pvs = suitable(snapshot.pvs.entries@, pvc, excluded);
    choice_after_is_free(snapshot.nodes@, pvs, earlier, key, node);
    let v = m.text(node)->Some_0;
    let k = choose|k: int| 0 <= k < pvs.len() && (#[trigger] pvs[k]).name@ == v;
    suitable_suit(snapshot.pvs.entries@, pvc, excluded, k);
}

proof fn suitable_suit(entries: Seq<(String, PvInfo)>, pvc: PvcInfo, excluded: Seq<String>, k: int)
    requires
        0 <= k < suitable(entries, pvc, excluded).len(),
    ensures
        suits(suitable(entries, pvc, excluded)[k], pvc, excluded),
    decreases entries.len(),
{
    let shorter = suitable(entries.drop_last(), pvc, excluded);
    if k < shorter.len() {
        suitable_suit(entries.drop_last(), pvc, excluded, k);
    }
}

/// The capacity reports of a storage class.
pub open spec fn reports_of(
    c: Seq<Arc<StorageCapacityInfo>>,
    class: Seq<char>,
) -> Seq<Arc<StorageCapacityInfo>>
    decreases c.len(),
{
    if c.len() == 0 {
        Seq::empty()
    } else if c.last().storage_class_name@ == class {
        reports_of(c.drop_last(), class).push(c.last())
    } else {
        reports_of(c.drop_last(), class)
    }
}

fn collect_reports(c: &Vec<Arc<StorageCapacityInfo>>, class: &str) -> (r: Vec<
    Arc<StorageCapacityInfo>,
>)
    ensures
        r@ == reports_of(c@, class@),
{
    let mut out: Vec<Arc<StorageCapacityInfo>> = Vec::new();
    let mut i: usize = 0;
    while i < c.len()
        invariant
            i <= c@.len(),
            out@ == reports_of(c@.take(i as int), class@),
        decreases c@.len() - i,
    {
        if text_eq(c[i].storage_class_name.as_str(), class) {
            out.push(c[i].clone());
        }
        i += 1;
        assert(c@.take(i as int).drop_last() =~= c@.take(i - 1));
    }
    assert(c@.take(i as int) =~= c@);
    out
}

/// The demand of the volume that a bound claim names.
pub open spec fn bound_affinity(pvc: PvcInfo, snapshot: Snapshot) -> Option<Arc<NodeSelector>> {
    match pvc.volume_name {
        Some(name) => match snapshot.pvs.at(name@) {
            Some(pv) => pv.node_affinity,
            None => None,
        },
        None => None,
    }
}

/// Whether a class's driver reports capacity.
pub open spec fn reports_capacity(class: StorageClassInfo, snapshot: Snapshot) -> bool {
    match snapshot.csi_drivers.at(class.provisioner@) {
        Some(d) => d.storage_capacity,
        None => false,
    }
}

/// Why a claim keeps the pod from being scheduled at all, if it does. A claim
/// without a class needs a free volume; one of a class that binds at once is
/// for others to bind.
pub open spec fn claim_verdict(
    snapshot: Snapshot,
    namespace: Seq<char>,
    claim: Seq<char>,
    excluded: Seq<String>,
) -> Option<StatusView> {
    match snapshot.claim(namespace, claim) {
        None => Some(
            unschedulable(NAME@, "persistentvolumeclaim "@ + quoted(claim) + " not found"@),
        ),
        Some(pvc) => if pvc.bound {
            None
        } else {
            match pvc.storage_class_name {
                None => if suitable(snapshot.pvs.entries@, pvc, excluded).len() > 0 {
                    None
                } else {
                    Some(unresolvable(NAME@, "pod has unbound immediate PersistentVolumeClaims"@))
                },
                Some(name) => match snapshot.storage_classes.at(name@) {
                    None => Some(
                        unschedulable(NAME@, "storageclass "@ + quoted(name@) + " not found"@),
                    ),
                    Some(class) => if class.wait_for_first_consumer {
                        None
                    } else {
                        Some(
                            unresolvable(
                                NAME@,
                                "pod has unbound immediate PersistentVolumeClaims"@,
                            ),
                        )
                    },
                },
            }
        },
    }
}

/// What a claim of a class asks of a node it is provisioned for.
pub open spec fn provisions(
    p: Provisioning,
    pvc: PvcInfo,
    name: Seq<char>,
    snapshot: Snapshot,
) -> bool {
    let class = snapshot.storage_classes.at(name)->Some_0;
    &&& p.allowed_topologies == class.allowed_topologies
    &&& p.requested_bytes == pvc.requested_bytes
    &&& match p.capacity {
        Some(reports) => reports_capacity(class, snapshot) && reports@ == reports_of(
            snapshot.storage_capacities@,
            name,
        ),
        None => !reports_capacity(class, snapshot),
    }
}

/// What a claim asks of nodes, after what the pod's earlier claims take.
pub open spec fn claim_constraint(
    c: PvcConstraint,
    snapshot: Snapshot,
    namespace: Seq<char>,
    claim: Seq<char>,
    excluded: Seq<String>,
    earlier: Seq<PvcConstraint>,
) -> bool {
    match snapshot.claim(namespace, claim) {
        None => false,
        Some(pvc) => {
            let free = suitable(snapshot.pvs.entries@, pvc, excluded);
            if pvc.bound {
                c == PvcConstraint::Bound(bound_affinity(pvc, snapshot))
            } else if free.len() > 0 {
                c matches PvcConstraint::Static { claim_key, by_node, fallback } && claim_key@
                    == pvc.key_view() && chosen_after(
                    by_node,
                    snapshot.nodes@,
                    free,
                    earlier,
                    pvc.key_view(),
                ) && match pvc.storage_class_name {
                    Some(name) => fallback is Some && provisions(
                        fallback->Some_0,
                        pvc,
                        name@,
                        snapshot,
                    ),
                    None => fallback is None,
                }
            } else {
                c matches PvcConstraint::Delayed(p) && provisions(
                    p,
                    pvc,
                    pvc.storage_class_name->Some_0@,
                    snapshot,
                )
            }
        },
    }
}

/// Resolve one claim of a pod.
fn resolve_claim(
    snapshot: &Snapshot,
    namespace: &str,
    claim: &str,
    excluded: &Vec<String>,
    earlier: &Vec<PvcConstraint>,
) -> (r: Result<PvcConstraint, Status>)
    ensures
        match claim_verdict(*snapshot, namespace@, claim@, excluded@) {
            Some(v) => r is Err && r->Err_0@ == v,
            None => r is Ok && claim_constraint(
                r->Ok_0,
                *snapshot,
                namespace@,
                claim@,
                excluded@,
                earlier@,
            ),
        },
{
    let pvc = match snapshot.pvc(namespace, claim) {
        Some(p) => p,
        None => {
            let name = debug_text(claim);
            let text = joined("persistentvolumeclaim ", name.as_str());
            let text = joined(text.as_str(), " not found");
            return Err(Status::unschedulable(NAME, text.as_str()));
        },
    };
    if pvc.bound {
        let affinity = match &pvc.volume_name {
            Some(name) => match snapshot.pv(name.as_str()) {
                Some(pv) => match &pv.node_affinity {
                    Some(sel) => Some(sel.clone()),
                    None => None,
                },
                None => None,
            },
            None => None,
        };
        return Ok(PvcConstraint::Bound(affinity));
    }
    let provisioning = match &pvc.storage_class_name {
        Some(name) => match snapshot.storage_class(name.as_str()) {
            Some(class) => {
                if !class.wait_for_first_consumer {
                    return Err(
                        Status::unresolvable(
                            NAME,
                            "pod has unbound immediate PersistentVolumeClaims",
                        ),
                    );
                }
                Some(provisioning_of(pvc, name.as_str(), class, snapshot))
            },
            None => {
                let name = debug_text(name.as_str());
                let text = joined("storageclass ", name.as_str());
                let text = joined(text.as_str(), " not found");
                return Err(Status::unschedulable(NAME, text.as_str()));
            },
        },
        None => None,
    };
    let candidates = find_static_candidates(pvc, snapshot, excluded);
    assert(deref_all(candidates@).len() == candidates@.len());
    if candidates.len() > 0 {
        let claim_key = pvc.key();
        let by_node = resolve_after(&candidates, snapshot, earlier, claim_key.as_str());
        return Ok(PvcConstraint::Static { claim_key, by_node, fallback: provisioning });
    }
    match provisioning {
        Some(p) => Ok(PvcConstraint::Delayed(p)),
        None => Err(
            Status::unresolvable(NAME, "pod has unbound immediate PersistentVolumeClaims"),
        ),
    }
}

fn provisioning_of(
    pvc: &PvcInfo,
    class_name: &str,
    class: &StorageClassInfo,
    snapshot: &Snapshot,
) -> (r: Provisioning)
    requires
        snapshot.storage_classes.at(class_name@) == Some(*class),
    ensures
        provisions(r, *pvc, class_name@, *snapshot),
{
    let reporting = match snapshot.csi_driver(class.provisioner.as_str()) {
        Some(d) => d.storage_capacity,
        None => false,
    };
    let capacity = if reporting {
        Some(collect_reports(&snapshot.storage_capacities, class_name))
    } else {
        None
    };
    Provisioning {
        allowed_topologies: class.allowed_topologies.clone(),
        capacity,
        requested_bytes: pvc.requested_bytes,
    }
}

/// The verdict of the first claim that keeps the pod from being scheduled.
pub open spec fn first_verdict(
    claims: Seq<String>,
    snapshot: Snapshot,
    namespace: Seq<char>,
    excluded: Seq<String>,
) -> Option<StatusView>
    decreases claims.len(),
{
    if claims.len() == 0 {
        None
    } else {
        match first_verdict(claims.drop_last(), snapshot, namespace, excluded) {
            Some(v) => Some(v),
            None => claim_verdict(snapshot, namespace, claims.last()@, excluded),
        }
    }
}

proof fn verdict_stands(
    claims: Seq<String>,
    snapshot: Snapshot,
    namespace: Seq<char>,
    excluded: Seq<String>,
    n: int,
)
    requires
        0 <= n <= claims.len(),
        first_verdict(claims.take(n), snapshot, namespace, excluded) is Some,
    ensures
        first_verdict(claims, snapshot, namespace, excluded) == first_verdict(
            claims.take(n),
            snapshot,
            namespace,
            excluded,
        ),
    decreases claims.len() - n,
{
    if n == claims.len() {
        assert(claims.take(n) =~= claims);
    } else {
        assert(claims.take(n + 1).drop_last() =~= claims.take(n));
        verdict_stands(claims, snapshot, namespace, excluded, n + 1);
    }
}

/// What the claims of a pod ask of nodes.
pub open spec fn constraints_of(
    c: Seq<PvcConstraint>,
    claims: Seq<String>,
    snapshot: Snapshot,
    namespace: Seq<char>,
    excluded: Seq<String>,
) -> bool {
    c.len() == claims.len() && forall|i: int|
        0 <= i < c.len() ==> claim_constraint(
            #[trigger] c[i],
            snapshot,
            namespace,
            claims[i]@,
            excluded,
            c.take(i),
        )
}

/// What looking at a pod's claims comes to, with volumes that others reserved
/// left out.
pub open spec fn looked_at(
    before: CycleState,
    pod: PodInfo,
    snapshot: Snapshot,
    excluded: Seq<String>,
    after: CycleState,
    status: StatusView,
) -> bool {
    match first_verdict(pod.pvc_names@, snapshot, pod.namespace@, excluded) {
        Some(v) => status == v && after == before,
        None => if pod.pvc_names@.len() == 0 {
            status == skip() && filter_switched_off(before, after, NAME@)
        } else {
            &&& status == success()
            &&& after.only_slot(&before, NAME@)
            &&& after.same_skips(&before)
            &&& after.value::<WantedPvcs>(NAME@) matches Some(w) && constraints_of(
                w.0@,
                pod.pvc_names@,
                snapshot,
                pod.namespace@,
                excluded,
            )
        },
    }
}

/// Resolve the pod's claims, with volumes that others reserved left out.
pub fn pre_filter_impl(
    state: &mut CycleState,
    pod: &PodInfo,
    snapshot: &Snapshot,
    excluded: &Vec<String>,
) -> (r: (Status, Option<Vec<String>>))
    ensures
        r.1 is None,
        looked_at(*old(state), *pod, *snapshot, excluded@, *final(state), r.0@),
{
    let claims = &pod.pvc_names;
    let mut wanted: Vec<PvcConstraint> = Vec::new();
    let mut i: usize = 0;
    while i < claims.len()
        invariant
            i <= claims@.len(),
            claims@ == pod.pvc_names@,
            *state == *old(state),
            wanted@.len() == i,
            first_verdict(claims@.take(i as int), *snapshot, pod.namespace@, excluded@) is None,
            forall|k: int|
                0 <= k < i ==> claim_constraint(
                    #[trigger] wanted@[k],
                    *snapshot,
                    pod.namespace@,
                    claims@[k]@,
                    excluded@,
                    wanted@.take(k),
                ),
        decreases claims@.len() - i,
    {
        assert(claims@.take(i + 1).drop_last() =~= claims@.take(i as int));
        let ghost before = wanted@;
        match resolve_claim(
            snapshot,
            pod.namespace.as_str(),
            claims[i].as_str(),
            excluded,
            &wanted,
        ) {
            Ok(c) => {
                wanted.push(c);
                proof {
                    assert(wanted@.take(i as int) =~= before);
                    assert forall|k: int| 0 <= k < i + 1 implies claim_constraint(
                        #[trigger] wanted@[k],
                        *snapshot,
                        pod.namespace@,
                        claims@[k]@,
                        excluded@,
                        wanted@.take(k),
                    ) by {
                        if k < i {
                            assert(wanted@[k] == before[k]);
                            assert(wanted@.take(k) =~= before.take(k));
                        }
                    }
                }
            },
            Err(status) => {
                proof {
                    verdict_stands(claims@, *snapshot, pod.namespace@, excluded@, i + 1);
                }
                return (status, None);
            },
        }
        i += 1;
    }
    assert(claims@.take(i as int) =~= claims@);
    if wanted.len() == 0 {
        state.skip_filter(NAME);
        return (Status::skip(), None);
    }
    state.write(NAME, WantedPvcs(wanted));
    (Status::success(), None)
}

/// The report is about the node.
pub open spec fn reports_on(c: StorageCapacityInfo, node: NodeInfo) -> bool {
    match c.node_topology {
        Some(sel) => selects(sel, node.labels),
        None => true,
    }
}

/// The largest capacity reported for a node; none where none is.
pub open spec fn available_on(reports: Seq<Arc<StorageCapacityInfo>>, node: NodeInfo) -> Option<int>
    decreases reports.len(),
{
    if reports.len() == 0 {
        None
    } else {
        let rest = available_on(reports.drop_last(), node);
        match reports.last().capacity_bytes {
            Some(n) => if reports_on(*reports.last(), node) && (rest is None || rest->Some_0 < n) {
                Some(n as int)
            } else {
                rest
            },
            None => rest,
        }
    }
}

fn capacity_on(reports: &Vec<Arc<StorageCapacityInfo>>, node: &NodeInfo) -> (r: i64)
    ensures
        r == match available_on(reports@, *node) {
            Some(n) => n,
            None => 0,
        },
{
    let mut best: Option<i64> = None;
    let mut i: usize = 0;
    while i < reports.len()
        invariant
            i <= reports@.len(),
            match available_on(reports@.take(i as int), *node) {
                Some(n) => best is Some && best->Some_0 == n,
                None => best is None,
            },
        decreases reports@.len() - i,
    {
        let here = match &reports[i].node_topology {
            Some(sel) => matches_selector(Some(sel), &node.labels),
            None => true,
        };
        match reports[i].capacity_bytes {
            Some(n) => {
                let more = match best {
                    Some(b) => b < n,
                    None => true,
                };
                if here && more {
                    best = Some(n);
                }
            },
            None => {},
        }
        i += 1;
        assert(reports@.take(i as int).drop_last() =~= reports@.take(i - 1));
    }
    assert(reports@.take(i as int) =~= reports@);
    match best {
        Some(n) => n,
        None => 0,
    }
}

/// Why a claim cannot be provisioned for a node, if it cannot.
pub open spec fn provisioning_verdict(p: Provisioning, node: NodeInfo) -> Option<StatusView> {
    if !topologies_allow(p.allowed_topologies@, node.labels) {
        Some(unschedulable(NAME@, "node(s) had volume topology conflict"@))
    } else {
        match p.capacity {
            None => None,
            Some(reports) => {
                let available = match available_on(reports@, node) {
                    Some(n) => n,
                    None => 0,
                };
                if available < p.requested_bytes {
                    Some(unschedulable(NAME@, "node(s) did not have enough free storage"@))
                } else {
                    None
                }
            },
        }
    }
}

/// A constraint's verdict on a node.
pub open spec fn constraint_verdict(c: PvcConstraint, node: NodeInfo) -> Option<StatusView> {
    match c {
        PvcConstraint::Bound(None) => None,
        PvcConstraint::Bound(Some(sel)) => if selector_holds(*sel, node) {
            None
        } else {
            Some(unresolvable(NAME@, "node(s) had volume node affinity conflict"@))
        },
        PvcConstraint::Static { claim_key, by_node, fallback } => if by_node.at(node.name@)
            is Some {
            None
        } else {
            match fallback {
                Some(p) => provisioning_verdict(p, node),
                None => Some(
                    unschedulable(
                        NAME@,
                        "node(s) didn't find available persistent volumes to bind"@,
                    ),
                ),
            }
        },
        PvcConstraint::Delayed(p) => provisioning_verdict(p, node),
    }
}

fn check_provisioning(p: &Provisioning, node: &NodeInfo) -> (r: Option<Status>)
    ensures
        match provisioning_verdict(*p, *node) {
            Some(v) => r is Some && r->Some_0@ == v,
            None => r is None,
        },
{
    if !topology_allows(&p.allowed_topologies, &node.labels) {
        return Some(Status::unschedulable(NAME, "node(s) had volume topology conflict"));
    }
    match &p.capacity {
        None => None,
        Some(reports) => if capacity_on(reports, node) < p.requested_bytes {
            Some(Status::unschedulable(NAME, "node(s) did not have enough free storage"))
        } else {
            None
        },
    }
}

fn check_constraint(c: &PvcConstraint, node: &NodeInfo) -> (r: Option<Status>)
    ensures
        match constraint_verdict(*c, *node) {
            Some(v) => r is Some && r->Some_0@ == v,
            None => r is None,
        },
{
    match c {
        PvcConstraint::Bound(None) => None,
        PvcConstraint::Bound(Some(sel)) => if matches_node_selector(sel, node) {
            None
        } else {
            Some(Status::unresolvable(NAME, "node(s) had volume node affinity conflict"))
        },
        PvcConstraint::Static { claim_key, by_node, fallback } => if by_node.contains_key(
            node.name.as_str(),
        ) {
            None
        } else {
            match fallback {
                Some(p) => check_provisioning(p, node),
                None => Some(
                    Status::unschedulable(
                        NAME,
                        "node(s) didn't find available persistent volumes to bind",
                    ),
                ),
            }
        },
        PvcConstraint::Delayed(p) => check_provisioning(p, node),
    }
}

/// The verdict of the first constraint that turns the node away.
pub open spec fn node_verdict(c: Seq<PvcConstraint>, node: NodeInfo) -> Option<StatusView>
    decreases c.len(),
{
    if c.len() == 0 {
        None
    } else {
        match node_verdict(c.drop_last(), node) {
            Some(v) => Some(v),
            None => constraint_verdict(c.last(), node),
        }
    }
}

proof fn node_verdict_stands(c: Seq<PvcConstraint>, node: NodeInfo, n: int)
    requires
        0 <= n <= c.len(),
        node_verdict(c.take(n), node) is Some,
    ensures
        node_verdict(c, node) == node_verdict(c.take(n), node),
    decreases c.len() - n,
{
    if n == c.len() {
        assert(c.take(n) =~= c);
    } else {
        assert(c.take(n + 1).drop_last() =~= c.take(n));
        node_verdict_stands(c, node, n + 1);
    }
}

/// What a node is told.
pub open spec fn told(state: CycleState, node: NodeInfo) -> StatusView {
    match state.value::<WantedPvcs>(NAME@) {
        None => success(),
        Some(w) => match node_verdict(w.0@, node) {
            Some(v) => v,
            None => success(),
        },
    }
}

/// Whether a node suits the pod's claims.
pub fn filter_impl(state: &CycleState, pod: &PodInfo, node: &NodeInfo) -> (r: Status)
    ensures
        r@ == told(*state, *node),
{
    let wanted = match state.read::<WantedPvcs>(NAME) {
        Some(w) => &w.0,
        None => {
            return Status::success();
        },
    };
    let ghost all = wanted@;
    let mut i: usize = 0;
    while i < wanted.len()
        invariant
            i <= wanted@.len(),
            all == wanted@,
            state.value::<WantedPvcs>(NAME@) matches Some(w) && w.0@ == all,
            node_verdict(all.take(i as int), *node) is None,
        decreases wanted@.len() - i,
    {
        assert(all.take(i + 1).drop_last() =~= all.take(i as int));
        match check_constraint(&wanted[i], node) {
            Some(status) => {
                proof {
                    node_verdict_stands(all, *node, i + 1);
                }
                return status;
            },
            None => {},
        }
        i += 1;
    }
    assert(all.take(i as int) =~= all);
    Status::success()
}

/// The first claim with neither a volume for the node nor a class to provision
/// one.
pub open spec fn unprovided(c: Seq<PvcConstraint>, node: Seq<char>) -> Option<Seq<char>>
    decreases c.len(),
{
    if c.len() == 0 {
        None
    } else {
        match unprovided(c.drop_last(), node) {
            Some(k) => Some(k),
            None => match c.last() {
                PvcConstraint::Static { claim_key, by_node, fallback } => if by_node.at(node)
                    is None && fallback is None {
                    Some(claim_key@)
                } else {
                    None
                },
                _ => None,
            },
        }
    }
}

/// The volume that the last constraint of a claim takes on a node; none where
/// it is provisioned there.
pub open spec fn pick_of(c: Seq<PvcConstraint>, node: Seq<char>, claim: Seq<char>) -> Option<
    Seq<char>,
>
    decreases c.len(),
{
    if c.len() == 0 {
        None
    } else {
        match c.last() {
            PvcConstraint::Static { claim_key, by_node, .. } => if claim_key@ == claim {
                by_node.text(node)
            } else {
                pick_of(c.drop_last(), node, claim)
            },
            _ => pick_of(c.drop_last(), node, claim),
        }
    }
}

proof fn unprovided_stands(c: Seq<PvcConstraint>, node: Seq<char>, n: int)
    requires
        0 <= n <= c.len(),
        unprovided(c.take(n), node) is Some,
    ensures
        unprovided(c, node) == unprovided(c.take(n), node),
    decreases c.len() - n,
{
    if n == c.len() {
        assert(c.take(n) =~= c);
    } else {
        assert(c.take(n + 1).drop_last() =~= c.take(n));
        unprovided_stands(c, node, n + 1);
    }
}

/// Why a reservation fails: a node was approved without a volume for a claim.
pub open spec fn unprovided_reason(node: Seq<char>, claim: Seq<char>) -> Seq<char> {
    "internal: Filter approved node "@ + node + " with no usable volume for "@ + claim
}

/// The volumes to take for a pod on the node that won, by claim.
pub fn reserve_impl(wanted: &WantedPvcs, node: &str) -> (r: Result<StrMap<String>, Status>)
    ensures
        match unprovided(wanted.0@, node@) {
            Some(claim) => r is Err && r->Err_0@ == failure(
                NAME@,
                unprovided_reason(node@, claim),
            ),
            None => r is Ok && forall|k: Seq<char>| #[trigger]
                r->Ok_0.text(k) == pick_of(wanted.0@, node@, k),
        },
{
    let list = &wanted.0;
    let ghost all = list@;
    let mut out: StrMap<String> = StrMap::new();
    let mut i: usize = 0;
    while i < list.len()
        invariant
            i <= list@.len(),
            all == list@,
            all == wanted.0@,
            unprovided(all.take(i as int), node@) is None,
            forall|k: Seq<char>| #[trigger] out.text(k) == pick_of(all.take(i as int), node@, k),
        decreases list@.len() - i,
    {
        let ghost before = out;
        assert(all.take(i + 1).drop_last() =~= all.take(i as int));
        match &list[i] {
            PvcConstraint::Static { claim_key, by_node, fallback } => {
                match by_node.get(node) {
                    Some(pv) => {
                        out.insert(claim_key.clone(), pv.clone());
                    },
                    None => if fallback.is_some() {
                        out.remove(claim_key.as_str());
                    } else {
                        proof {
                            unprovided_stands(all, node@, i + 1);
                        }
                        let text = joined("internal: Filter approved node ", node);
                        let text = joined(text.as_str(), " with no usable volume for ");
                        let text = joined(text.as_str(), claim_key.as_str());
                        return Err(Status::error(NAME, text.as_str()));
                    },
                }
            },
            _ => {},
        }
        i += 1;
        proof {
            assert forall|k: Seq<char>| #[trigger]
                out.text(k) == pick_of(all.take(i as int), node@, k) by {
                let was = before.text(k);
            }
        }
    }
    assert(all.take(i as int) =~= all);
    Ok(out)
}

/// A node that passes the filter can be reserved: every claim that is not bound
/// has a volume there or is provisioned there.
pub proof fn approved_nodes_are_provided(c: Seq<PvcConstraint>, node: NodeInfo)
    requires
        node_verdict(c, node) is None,
    ensures
        unprovided(c, node.name@) is None,
    decreases c.len(),
{
    if c.len() > 0 {
        approved_nodes_are_provided(c.drop_last(), node);
    }
}

/// What to do first about a claim of a pod that is bound to a node.
#[derive(Clone, Copy, Debug, PartialEq, Eq, Structural)]
pub enum FirstStep {
    /// The claim is bound.
    Done,
    /// Tell the provisioner which node it provisions for, then wait.
    Annotate,
    /// The provisioner knows already: wait.
    Wait,
}

/// What to do after the first look at a claim.
pub fn first_step(phase: Option<&str>, selected_node: Option<&str>, node: &str) -> (r: FirstStep)
    ensures
        r == if phase is Some && phase->Some_0@ == "Bound"@ {
            FirstStep::Done
        } else if selected_node is Some && selected_node->Some_0@ == node@ {
            FirstStep::Wait
        } else {
            FirstStep::Annotate
        },
{
    match phase {
        Some(p) => {
            if text_eq(p, "Bound") {
                return FirstStep::Done;
            }
        },
        None => {},
    }
    match selected_node {
        Some(n) => if text_eq(n, node) {
            FirstStep::Wait
        } else {
            FirstStep::Annotate
        },
        None => FirstStep::Annotate,
    }
}

/// What to do after a later look at a claim.
pub enum PollStep {
    /// The claim is bound.
    Done,
    /// Time is up.
    TimedOut(Status),
    /// Look again after this many nanoseconds.
    Sleep(u64),
}

/// Why a claim that did not bind in time fails.
pub open spec fn timeout_reason(claim: Seq<char>, timeout: u64, node: Seq<char>) -> Seq<char> {
    "persistentvolumeclaim "@ + quoted(claim) + " did not bind within "@ + decimal(
        (timeout / 1_000_000_000) as nat,
    ) + "s of selecting node "@ + node
}

/// What to do after a look at `now`, waiting since `start` for at most
/// `timeout`.
pub fn poll_step(
    phase: Option<&str>,
    claim: &str,
    node: &str,
    start: u64,
    timeout: u64,
    now: u64,
) -> (r: PollStep)
    ensures
        if phase is Some && phase->Some_0@ == "Bound"@ {
            r is Done
        } else if now >= later(start, timeout as int) {
            r matches PollStep::TimedOut(s) && s@ == unschedulable(
                NAME@,
                timeout_reason(claim@, timeout, node@),
            )
        } else {
            r == PollStep::Sleep(POLL_INTERVAL)
        },
{
    match phase {
        Some(p) => {
            if text_eq(p, "Bound") {
                return PollStep::Done;
            }
        },
        None => {},
    }
    if now >= crate::queue::backoff::later_by(start, timeout) {
        let name = debug_text(claim);
        let text = joined("persistentvolumeclaim ", name.as_str());
        let text = joined(text.as_str(), " did not bind within ");
        let seconds = decimal_text(timeout / 1_000_000_000);
        let text = joined(text.as_str(), seconds.as_str());
        let text = joined(text.as_str(), "s of selecting node ");
        let text = joined(text.as_str(), node);
        return PollStep::TimedOut(Status::unschedulable(NAME, text.as_str()));
    }
    PollStep::Sleep(POLL_INTERVAL)
}

/// The volumes that pods have reserved and not yet bound, by pod and claim.
pub struct AssumedVolumes {
    pub by_pod: StrMap<StrMap<String>>,
}

/// A volume is reserved by some pod.
pub open spec fn reserved(m: StrMap<StrMap<String>>, volume: Seq<char>) -> bool {
    exists|i: int, j: int|
        0 <= i < m.entries@.len() && 0 <= j < m.entries@[i].1.entries@.len()
            && #[trigger] m.entries@[i].1.entries@[j].1@ == volume
}

impl AssumedVolumes {
    pub fn new() -> (r: Self)
        ensures
            r.by_pod.entries@.len() == 0,
    {
        AssumedVolumes { by_pod: StrMap::new() }
    }

    /// Reserve the volumes picked for a pod, in place of any it had.
    pub fn assume_for(&mut self, pod_uid: &str, picks: StrMap<String>)
        ensures
            forall|u: Seq<char>| #[trigger]
                final(self).by_pod.at(u) == if u == pod_uid@ {
                    Some(picks)
                } else {
                    old(self).by_pod.at(u)
                },
    {
        self.by_pod.insert(pod_uid.to_owned(), picks);
    }

    /// Forget what a pod reserved; nothing happens where it reserved nothing.
    pub fn release(&mut self, pod_uid: &str)
        ensures
            forall|u: Seq<char>| #[trigger]
                final(self).by_pod.at(u) == if u == pod_uid@ {
                    None
                } else {
                    old(self).by_pod.at(u)
                },
    {
        self.by_pod.remove(pod_uid);
    }

    /// The volumes that are reserved, which no other pod may take.
    pub fn excluded(&self) -> (r: Vec<String>)
        ensures
            forall|v: Seq<char>| #[trigger] has_text(r@, v) <==> reserved(self.by_pod, v),
    {
        let pods = &self.by_pod.entries;
        let mut out: Vec<String> = Vec::new();
        let mut i: usize = 0;
        while i < pods.len()
            invariant
                i <= pods@.len(),
                pods@ == self.by_pod.entries@,
                forall|v: Seq<char>| #[trigger]
                    has_text(out@, v) <==> exists|a: int, b: int|
                        0 <= a < i && 0 <= b < pods@[a].1.entries@.len()
                            && #[trigger] pods@[a].1.entries@[b].1@ == v,
            decreases pods@.len() - i,
        {
            let picks = &pods[i].1.entries;
            let ghost before = out@;
            let mut j: usize = 0;
            while j < picks.len()
                invariant
                    j <= picks@.len(),
                    i < pods@.len(),
                    picks@ == pods@[i as int].1.entries@,
                    forall|v: Seq<char>| #[trigger]
                        has_text(out@, v) <==> has_text(before, v) || exists|b: int|
                            0 <= b < j && (#[trigger] picks@[b]).1@ == v,
                decreases picks@.len() - j,
            {
                let ghost prior = out@;
                out.push(picks[j].1.clone());
                j += 1;
                proof {
                    let last = picks@[j - 1].1;
                    assert forall|v: Seq<char>| #[trigger]
                        has_text(out@, v) <==> has_text(before, v) || exists|b: int|
                            0 <= b < j && (#[trigger] picks@[b]).1@ == v by {
                        text_pushed(prior, last, v);
                        if exists|b: int| 0 <= b < j && (#[trigger] picks@[b]).1@ == v {
                            let b = choose|b: int| 0 <= b < j && (#[trigger] picks@[b]).1@ == v;
                            if b < j - 1 {
                                assert(0 <= b < j - 1 && picks@[b].1@ == v);
                            }
                        }
                        if last@ == v {
                            assert(0 <= j - 1 < j && picks@[j - 1].1@ == v);
                        }
                    }
                }
            }
            i += 1;
            proof {
                assert forall|v: Seq<char>| #[trigger]
                    has_text(out@, v) <==> exists|a: int, b: int|
                        0 <= a < i && 0 <= b < pods@[a].1.entries@.len()
                            && #[trigger] pods@[a].1.entries@[b].1@ == v by {
                    if has_text(out@, v) {
                        if has_text(before, v) {
                            let (a, b) = choose|a: int, b: int|
                                0 <= a < i - 1 && 0 <= b < pods@[a].1.entries@.len()
                                    && #[trigger] pods@[a].1.entries@[b].1@ == v;
                            assert(pods@[a].1.entries@[b].1@ == v);
                        } else {
                            let b = choose|b: int|
                                0 <= b < picks@.len() && (#[trigger] picks@[b]).1@ == v;
                            assert(pods@[i - 1].1.entries@[b].1@ == v);
                        }
                    }
                    if exists|a: int, b: int|
                        0 <= a < i && 0 <= b < pods@[a].1.entries@.len()
                            && #[trigger] pods@[a].1.entries@[b].1@ == v {
                        let (a, b) = choose|a: int, b: int|
                            0 <= a < i && 0 <= b < pods@[a].1.entries@.len()
                                && #[trigger] pods@[a].1.entries@[b].1@ == v;
                        if a < i - 1 {
                            assert(has_text(before, v));
                        } else {
                            assert(picks@[b].1@ == v);
                        }
                    }
                }
            }
        }
        out
    }
}

proof fn text_pushed(before: Seq<String>, s: String, c: Seq<char>)
    ensures
        has_text(before.push(s), c) == (has_text(before, c) || s@ == c),
{
    let after = before.push(s);
    if has_text(after, c) {
        let i = choose|i: int| 0 <= i < after.len() && (#[trigger] after[i])@ == c;
        if i < before.len() {
            assert(before[i]@ == c);
        }
    }
    if has_text(before, c) {
        let i = choose|i: int| 0 <= i < before.len() && (#[trigger] before[i])@ == c;
        assert(after[i]@ == c);
    }
    assert(after[before.len() as int] == s);
}

/// The plugin, with what it has promised.
pub struct VolumeBinding {
    /// How long a claim may take to bind, in nanoseconds.
    pub bind_timeout: u64,
    pub assumed: AssumedVolumes,
}

impl VolumeBinding {
    pub fn new(bind_timeout: u64) -> (r: Self)
        ensures
            r.bind_timeout == bind_timeout,
            r.assumed.by_pod.entries@.len() == 0,
    {
        VolumeBinding { bind_timeout, assumed: AssumedVolumes::new() }
    }
}

impl Plugin for VolumeBinding {
    type Hint = NoHint;

    open spec fn name_view(&self) -> Seq<char> {
        NAME@
    }

    fn name(&self) -> (r: &'static str) {
        NAME
    }

    fn events_to_register(&self) -> (r: Vec<ClusterEventWithHint<NoHint>>)
        ensures
            events_of(r@) == subscriptions(),
            crate::framework::unhinted(r@),
    {
        events_impl()
    }
}

/// A list of just the volumes that pods have reserved.
pub open spec fn lists_reserved(list: Seq<String>, m: StrMap<StrMap<String>>) -> bool {
    forall|v: Seq<char>| #[trigger] has_text(list, v) <==> reserved(m, v)
}

impl PreFilterPlugin for VolumeBinding {
    open spec fn pre_filter_view(
        &self,
        before: CycleState,
        pod: PodInfo,
        snapshot: Snapshot,
        after: CycleState,
        status: StatusView,
    ) -> bool {
        exists|excluded: Seq<String>| #[trigger]
            lists_reserved(excluded, self.assumed.by_pod) && looked_at(
                before,
                pod,
                snapshot,
                excluded,
                after,
                status,
            )
    }

    fn pre_filter(&self, state: &mut CycleState, pod: &PodInfo, snapshot: &Snapshot) -> (r: (
        Status,
        Option<Vec<String>>,
    ))
        ensures
            r.1 is None,
    {
        let excluded = self.assumed.excluded();
        assert(lists_reserved(excluded@, self.assumed.by_pod));
        pre_filter_impl(state, pod, snapshot, &excluded)
    }
}

impl FilterPlugin for VolumeBinding {
    open spec fn filter_view(&self, state: CycleState, pod: PodInfo, node: NodeInfo) -> StatusView {
        told(state, node)
    }

    fn filter(&self, state: &CycleState, pod: &PodInfo, node: &NodeInfo) -> (r: Status) {
        filter_impl(state, pod, node)
    }
}

impl ReservePlugin for VolumeBinding {
    open spec fn reserve_view(
        &self,
        before: CycleState,
        pod: PodInfo,
        node: Seq<char>,
        after: CycleState,
        reserved: &Self,
        status: StatusView,
    ) -> bool {
        &&& after == before
        &&& match before.value::<WantedPvcs>(NAME@) {
            None => status == success() && *reserved == *self,
            Some(w) => match unprovided(w.0@, node) {
                Some(claim) => status == failure(NAME@, unprovided_reason(node, claim))
                    && *reserved == *self,
                None => {
                    &&& status == success()
                    &&& reserved.bind_timeout == self.bind_timeout
                    &&& reserved.assumed.by_pod.at(pod.uid@) matches Some(picks) && forall|
                        k: Seq<char>,
                    | #[trigger] picks.text(k) == pick_of(w.0@, node, k)
                    &&& forall|u: Seq<char>|
                        u != pod.uid@ ==> #[trigger] reserved.assumed.by_pod.at(u)
                            == self.assumed.by_pod.at(u)
                },
            },
        }
    }

    open spec fn unreserve_view(
        &self,
        before: CycleState,
        pod: PodInfo,
        node: Seq<char>,
        after: CycleState,
        released: &Self,
    ) -> bool {
        &&& after == before
        &&& released.bind_timeout == self.bind_timeout
        &&& forall|u: Seq<char>| #[trigger]
            released.assumed.by_pod.at(u) == if u == pod.uid@ {
                None
            } else {
                self.assumed.by_pod.at(u)
            }
    }

    fn reserve(&mut self, state: &mut CycleState, pod: &PodInfo, node: &str) -> (r: Status) {
        match state.read::<WantedPvcs>(NAME) {
            None => Status::success(),
            Some(wanted) => match reserve_impl(wanted, node) {
                Ok(picks) => {
                    self.assumed.assume_for(pod.uid.as_str(), picks);
                    Status::success()
                },
                Err(status) => status,
            },
        }
    }

    fn unreserve(&mut self, state: &mut CycleState, pod: &PodInfo, node: &str) {
        self.assumed.release(pod.uid.as_str());
    }
}

/// Giving up a pod's volumes undoes their reservation, whether or not the
/// reservation succeeded.
pub proof fn release_undoes_reserve(
    before: VolumeBinding,
    reserved: VolumeBinding,
    after: VolumeBinding,
    states: (CycleState, CycleState, CycleState),
    pod: PodInfo,
    node: Seq<char>,
    status: StatusView,
)
    requires
        before.assumed.by_pod.at(pod.uid@) is None,
        before.reserve_view(states.0, pod, node, states.1, &reserved, status),
        reserved.unreserve_view(states.1, pod, node, states.2, &after),
    ensures
        states.2 == states.0,
        after.bind_timeout == before.bind_timeout,
        forall|u: Seq<char>| #[trigger]
            after.assumed.by_pod.at(u) == before.assumed.by_pod.at(u),
{
    assert forall|u: Seq<char>| #[trigger]
        after.assumed.by_pod.at(u) == before.assumed.by_pod.at(u) by {
        let was = reserved.assumed.by_pod.at(u);
    }
}

/// Giving up a pod's volumes twice is giving them up once.
pub proof fn release_is_idempotent(
    reserved: VolumeBinding,
    once: VolumeBinding,
    twice: VolumeBinding,
    states: (CycleState, CycleState, CycleState),
    pod: PodInfo,
    node: Seq<char>,
)
    requires
        reserved.unreserve_view(states.0, pod, node, states.1, &once),
        once.unreserve_view(states.1, pod, node, states.2, &twice),
    ensures
        states.2 == states.1,
        twice.bind_timeout == once.bind_timeout,
        forall|u: Seq<char>| #[trigger]
            twice.assumed.by_pod.at(u) == once.assumed.by_pod.at(u),
{
    assert forall|u: Seq<char>| #[trigger]
        twice.assumed.by_pod.at(u) == once.assumed.by_pod.at(u) by {
        let was = reserved.assumed.by_pod.at(u);
    }
}

/// Free volumes never cost a claim a node: where its class can provision for the
/// node, a claim with free volumes elsewhere is served there too.
pub proof fn free_volumes_cost_no_node(c: PvcConstraint, p: Provisioning, node: NodeInfo)
    requires
        c is Static,
        c->fallback == Some(p),
        constraint_verdict(PvcConstraint::Delayed(p), node) is None,
    ensures
        constraint_verdict(c, node) is None,
{
}

proof fn suitable_holds(pvs: Seq<(String, PvInfo)>, pvc: PvcInfo, excluded: Seq<String>, pv: PvInfo)
    ensures
        suitable(pvs, pvc, excluded).contains(pv) <==> exists|k: int|
            0 <= k < pvs.len() && (#[trigger] pvs[k]).1 == pv && suits(pv, pvc, excluded),
    decreases pvs.len(),
{
    if pvs.len() > 0 {
        let t = pvs.drop_last();
        let last = pvs.len() - 1;
        suitable_holds(t, pvc, excluded, pv);
        let all = suitable(pvs, pvc, excluded);
        let rest = suitable(t, pvc, excluded);
        if rest.contains(pv) {
            let x = choose|x: int| 0 <= x < rest.len() && rest[x] == pv;
            assert(all[x] == pv);
            let k = choose|k: int|
                0 <= k < t.len() && (#[trigger] t[k]).1 == pv && suits(pv, pvc, excluded);
            assert(pvs[k].1 == pv);
        }
        if pvs[last].1 == pv && suits(pv, pvc, excluded) {
            assert(all[all.len() - 1] == pv);
        }
        if all.contains(pv) && !rest.contains(pv) {
            let x = choose|x: int| 0 <= x < all.len() && all[x] == pv;
            if x < rest.len() {
                assert(rest[x] == pv);
            }
            assert(pvs[last].1 == pv);
        }
        if exists|k: int|
            0 <= k < pvs.len() && (#[trigger] pvs[k]).1 == pv && suits(pv, pvc, excluded) {
            let k = choose|k: int|
                0 <= k < pvs.len() && (#[trigger] pvs[k]).1 == pv && suits(pv, pvc, excluded);
            if k < last {
                assert(t[k].1 == pv);
            }
        }
    }
}

proof fn left_over_holds(
    pvs: Seq<PvInfo>,
    earlier: Seq<PvcConstraint>,
    key: Seq<char>,
    node: Seq<char>,
    pv: PvInfo,
)
    ensures
        left_over(pvs, earlier, key, node).contains(pv) <==> pvs.contains(pv) && !taken_on(
            earlier,
            key,
            node,
            pv.name@,
        ),
    decreases pvs.len(),
{
    if pvs.len() > 0 {
        let t = pvs.drop_last();
        let last = pvs.len() - 1;
        left_over_holds(t, earlier, key, node, pv);
        let all = left_over(pvs, earlier, key, node);
        let rest = left_over(t, earlier, key, node);
        if rest.contains(pv) {
            let x = choose|x: int| 0 <= x < rest.len() && rest[x] == pv;
            assert(all[x] == pv);
        }
        if t.contains(pv) {
            let x = choose|x: int| 0 <= x < t.len() && t[x] == pv;
            assert(pvs[x] == pv);
        }
        if pvs.last() == pv {
            assert(pvs[last] == pv);
            if !taken_on(earlier, key, node, pv.name@) {
                assert(all[all.len() - 1] == pv);
            }
        }
        if all.contains(pv) && !rest.contains(pv) {
            let x = choose|x: int| 0 <= x < all.len() && all[x] == pv;
            if x < rest.len() {
                assert(rest[x] == pv);
            }
        }
        if pvs.contains(pv) && !t.contains(pv) {
            let x = choose|x: int| 0 <= x < pvs.len() && pvs[x] == pv;
            if x < last {
                assert(t[x] == pv);
            }
        }
    }
}

proof fn choice_after_where(
    nodes: Seq<Arc<NodeInfo>>,
    pvs: Seq<PvInfo>,
    earlier: Seq<PvcConstraint>,
    key: Seq<char>,
    x: int,
)
    requires
        0 <= x < nodes.len(),
        forall|y: int|
            0 <= y < nodes.len() && y != x ==> (#[trigger] nodes[y]).name@ != nodes[x].name@,
    ensures
        choice_after(nodes, pvs, earlier, key, nodes[x].name@) == match choice(
            left_over(pvs, earlier, key, nodes[x].name@),
            *nodes[x],
        ) {
            Some(pv) => Some(pv.name@),
            None => None,
        },
    decreases nodes.len(),
{
    let t = nodes.drop_last();
    let last = nodes.len() - 1;
    let name = nodes[x].name@;
    if x < last {
        assert forall|y: int| 0 <= y < t.len() && y != x implies (#[trigger] t[y]).name@
            != t[x].name@ by {
            assert(nodes[y].name@ != nodes[x].name@);
        }
        choice_after_where(t, pvs, earlier, key, x);
        assert(nodes[last].name@ != name);
    } else {
        assert forall|y: int| 0 <= y < t.len() implies (#[trigger] t[y]).name@ != name by {
            assert(nodes[y].name@ != nodes[x].name@);
        }
        nothing_after(t, pvs, earlier, key, name);
    }
}

proof fn nothing_after(
    nodes: Seq<Arc<NodeInfo>>,
    pvs: Seq<PvInfo>,
    earlier: Seq<PvcConstraint>,
    key: Seq<char>,
    name: Seq<char>,
)
    requires
        forall|y: int| 0 <= y < nodes.len() ==> (#[trigger] nodes[y]).name@ != name,
    ensures
        choice_after(nodes, pvs, earlier, key, name) is None,
    decreases nodes.len(),
{
    if nodes.len() > 0 {
        let t = nodes.drop_last();
        assert(nodes[nodes.len() - 1].name@ != name);
        assert forall|y: int| 0 <= y < t.len() implies (#[trigger] t[y]).name@ != name by {
            assert(nodes[y].name@ != name);
        }
        nothing_after(t, pvs, earlier, key, name);
    }
}

/// A report of a class that is about a node and gives a capacity.
pub open spec fn report_counts(r: StorageCapacityInfo, class: Seq<char>, node: NodeInfo) -> bool {
    r.storage_class_name@ == class && reports_on(r, node) && r.capacity_bytes is Some
}

proof fn available_is_largest(
    reports: Seq<Arc<StorageCapacityInfo>>,
    class: Seq<char>,
    node: NodeInfo,
)
    ensures
        match available_on(reports_of(reports, class), node) {
            None => forall|r: int|
                0 <= r < reports.len() ==> !report_counts(*#[trigger] reports[r], class, node),
            Some(n) => {
                &&& exists|r: int|
                    0 <= r < reports.len() && report_counts(*#[trigger] reports[r], class, node)
                        && reports[r].capacity_bytes->Some_0 == n
                &&& forall|r: int|
                    0 <= r < reports.len() && report_counts(*#[trigger] reports[r], class, node)
                        ==> reports[r].capacity_bytes->Some_0 <= n
            },
        },
    decreases reports.len(),
{
    if reports.len() > 0 {
        let t = reports.drop_last();
        let last = reports.len() - 1;
        available_is_largest(t, class, node);
        if reports.last().storage_class_name@ == class {
            assert(reports_of(reports, class).drop_last() =~= reports_of(t, class));
        }
        let was = available_on(reports_of(t, class), node);
        let now = available_on(reports_of(reports, class), node);
        assert forall|r: int| 0 <= r < last implies #[trigger] reports[r] == t[r] by {}
        if was is Some {
            let r = choose|r: int|
                0 <= r < t.len() && report_counts(*#[trigger] t[r], class, node)
                    && t[r].capacity_bytes->Some_0 == was->Some_0;
            assert(reports[r] == t[r]);
        }
        if report_counts(shared(reports[last]), class, node) {
            assert(now is Some);
        }
    }
}

/// A class can provision for a node what a claim asks for: the node is in one of
/// its topologies, if it has any, and where its driver reports capacity, some
/// report of the class about the node has enough. With no such report, nothing is
/// enough only for a claim that asks for nothing.
pub open spec fn class_serves(pvc: PvcInfo, name: Seq<char>, snapshot: Snapshot, node: NodeInfo) -> bool {
    let reports = snapshot.storage_capacities@;
    snapshot.storage_classes.at(name) matches Some(class) && {
        &&& topologies_allow(class.allowed_topologies@, node.labels)
        &&& reports_capacity(class, snapshot) ==> {
            ||| exists|r: int|
                0 <= r < reports.len() && report_counts(*#[trigger] reports[r], name, node)
                    && reports[r].capacity_bytes->Some_0 >= pvc.requested_bytes
            ||| pvc.requested_bytes <= 0 && forall|r: int|
                0 <= r < reports.len() ==> !report_counts(*#[trigger] reports[r], name, node)
        }
    }
}

/// A claim of the pod can be used from a node. A bound one: its volume allows the
/// node. Another: some volume that suits it may be used there and is not taken
/// there by an earlier claim, or its class can provision for the node.
pub open spec fn claim_served(
    earlier: Seq<PvcConstraint>,
    snapshot: Snapshot,
    namespace: Seq<char>,
    claim: Seq<char>,
    excluded: Seq<String>,
    node: NodeInfo,
) -> bool {
    snapshot.claim(namespace, claim) matches Some(pvc) && if pvc.bound {
        pvc.volume_name matches Some(name) ==> (snapshot.pvs.at(name@) matches Some(pv)
            ==> usable_on(pv, node))
    } else {
        ||| exists|k: int|
            0 <= k < snapshot.pvs.entries@.len() && suits(
                (#[trigger] snapshot.pvs.entries@[k]).1,
                pvc,
                excluded,
            ) && usable_on(snapshot.pvs.entries@[k].1, node) && !taken_on(
                earlier,
                pvc.key_view(),
                node.name@,
                snapshot.pvs.entries@[k].1.name@,
            )
        ||| pvc.storage_class_name matches Some(name) && class_serves(pvc, name@, snapshot, node)
    }
}

proof fn provisioning_decides(
    p: Provisioning,
    pvc: PvcInfo,
    name: Seq<char>,
    snapshot: Snapshot,
    node: NodeInfo,
)
    requires
        provisions(p, pvc, name, snapshot),
        snapshot.storage_classes.at(name) is Some,
    ensures
        provisioning_verdict(p, node) is None <==> class_serves(pvc, name, snapshot, node),
        provisioning_verdict(p, node) matches Some(v) ==> v != success(),
{
    let reports = snapshot.storage_capacities@;
    available_is_largest(reports, name, node);
    if let Some(n) = available_on(reports_of(reports, name), node) {
        let r = choose|r: int|
            0 <= r < reports.len() && report_counts(*#[trigger] reports[r], name, node)
                && reports[r].capacity_bytes->Some_0 == n;
        assert(report_counts(*reports[r], name, node));
    }
}

proof fn no_claim_verdict(
    claims: Seq<String>,
    snapshot: Snapshot,
    namespace: Seq<char>,
    excluded: Seq<String>,
)
    ensures
        first_verdict(claims, snapshot, namespace, excluded) is None <==> forall|i: int|
            0 <= i < claims.len() ==> claim_verdict(
                snapshot,
                namespace,
                (#[trigger] claims[i])@,
                excluded,
            ) is None,
        first_verdict(claims, snapshot, namespace, excluded) matches Some(v) ==> v != success(),
    decreases claims.len(),
{
    if claims.len() > 0 {
        let t = claims.drop_last();
        let last = claims.len() - 1;
        no_claim_verdict(t, snapshot, namespace, excluded);
        assert(claims[last] == claims.last());
        assert forall|i: int| 0 <= i < last implies #[trigger] claims[i] == t[i] by {}
        if first_verdict(claims, snapshot, namespace, excluded) is Some {
            if first_verdict(t, snapshot, namespace, excluded) is Some {
                let i = choose|i: int|
                    0 <= i < t.len() && claim_verdict(
                        snapshot,
                        namespace,
                        (#[trigger] t[i])@,
                        excluded,
                    ) is Some;
                assert(claims[i] == t[i]);
            }
        }
    }
}

proof fn constraint_decides(
    c: PvcConstraint,
    earlier: Seq<PvcConstraint>,
    snapshot: Snapshot,
    namespace: Seq<char>,
    claim: Seq<char>,
    excluded: Seq<String>,
    x: int,
)
    requires
        claim_constraint(c, snapshot, namespace, claim, excluded, earlier),
        claim_verdict(snapshot, namespace, claim, excluded) is None,
        0 <= x < snapshot.nodes@.len(),
        forall|y: int|
            0 <= y < snapshot.nodes@.len() && y != x ==> (#[trigger] snapshot.nodes@[y]).name@
                != snapshot.nodes@[x].name@,
    ensures
        constraint_verdict(c, *snapshot.nodes@[x]) is None <==> claim_served(
            earlier,
            snapshot,
            namespace,
            claim,
            excluded,
            *snapshot.nodes@[x],
        ),
{
    let node = shared(snapshot.nodes@[x]);
    let pvc = snapshot.claim(namespace, claim)->Some_0;
    let entries = snapshot.pvs.entries@;
    let free = suitable(entries, pvc, excluded);
    let key = pvc.key_view();
    if !pvc.bound {
        let left = left_over(free, earlier, key, node.name@);
        choice_is_best(left, node);
        choice_after_where(snapshot.nodes@, free, earlier, key, x);
        if let Some(name) = pvc.storage_class_name {
            match c {
                PvcConstraint::Static { claim_key, by_node, fallback } => {
                    provisioning_decides(fallback->Some_0, pvc, name@, snapshot, node);
                },
                PvcConstraint::Delayed(p) => {
                    provisioning_decides(p, pvc, name@, snapshot, node);
                },
                _ => {},
            }
        }
        if choice(left, node) is Some {
            let i = choose|i: int| 0 <= i < left.len() && usable_on(#[trigger] left[i], node);
            let pv = left[i];
            assert(left.contains(pv));
            left_over_holds(free, earlier, key, node.name@, pv);
            suitable_holds(entries, pvc, excluded, pv);
            let k = choose|k: int|
                0 <= k < entries.len() && (#[trigger] entries[k]).1 == pv && suits(
                    pv,
                    pvc,
                    excluded,
                );
            assert(suits(entries[k].1, pvc, excluded));
        }
        if exists|k: int|
            0 <= k < entries.len() && suits((#[trigger] entries[k]).1, pvc, excluded) && usable_on(
                entries[k].1,
                node,
            ) && !taken_on(earlier, key, node.name@, entries[k].1.name@) {
            let k = choose|k: int|
                0 <= k < entries.len() && suits((#[trigger] entries[k]).1, pvc, excluded)
                    && usable_on(entries[k].1, node) && !taken_on(
                    earlier,
                    key,
                    node.name@,
                    entries[k].1.name@,
                );
            let pv = entries[k].1;
            suitable_holds(entries, pvc, excluded, pv);
            assert(free.contains(pv));
            left_over_holds(free, earlier, key, node.name@, pv);
            let i = choose|i: int| 0 <= i < left.len() && left[i] == pv;
            assert(usable_on(left[i], node));
        }
        if c is Static {
            let by_node = c->by_node;
            assert(by_node.text(node.name@) == choice_after(
                snapshot.nodes@,
                free,
                earlier,
                key,
                node.name@,
            ));
        }
        if free.len() == 0 {
            assert forall|k: int| 0 <= k < entries.len() implies !suits(
                (#[trigger] entries[k]).1,
                pvc,
                excluded,
            ) by {
                suitable_holds(entries, pvc, excluded, entries[k].1);
            }
        }
    }
}

proof fn no_node_verdict(c: Seq<PvcConstraint>, node: NodeInfo)
    ensures
        node_verdict(c, node) is None <==> forall|i: int|
            0 <= i < c.len() ==> constraint_verdict(#[trigger] c[i], node) is None,
        node_verdict(c, node) matches Some(v) ==> v != success(),
    decreases c.len(),
{
    if c.len() > 0 {
        let t = c.drop_last();
        let last = c.len() - 1;
        no_node_verdict(t, node);
        assert(c[last] == c.last());
        assert forall|i: int| 0 <= i < last implies #[trigger] c[i] == t[i] by {}
        if node_verdict(t, node) is Some {
            let i = choose|i: int|
                0 <= i < t.len() && constraint_verdict(#[trigger] t[i], node) is Some;
            assert(c[i] == t[i]);
        }
    }
}

/// A node of the cluster passes exactly where every claim of the pod, wherever
/// in the list, can be used from it.
pub proof fn passing_means_served(
    before: CycleState,
    pod: PodInfo,
    snapshot: Snapshot,
    excluded: Seq<String>,
    state: CycleState,
    status: StatusView,
    x: int,
)
    requires
        looked_at(before, pod, snapshot, excluded, state, status),
        status == success(),
        0 <= x < snapshot.nodes@.len(),
        forall|y: int|
            0 <= y < snapshot.nodes@.len() && y != x ==> (#[trigger] snapshot.nodes@[y]).name@
                != snapshot.nodes@[x].name@,
    ensures
        state.value::<WantedPvcs>(NAME@) matches Some(w) && (told(state, *snapshot.nodes@[x])
            == success() <==> forall|i: int|
            0 <= i < pod.pvc_names@.len() ==> claim_served(
                w.0@.take(i),
                snapshot,
                pod.namespace@,
                (#[trigger] pod.pvc_names@[i])@,
                excluded,
                *snapshot.nodes@[x],
            )),
{
    let node = shared(snapshot.nodes@[x]);
    let claims = pod.pvc_names@;
    no_claim_verdict(claims, snapshot, pod.namespace@, excluded);
    let c = state.value::<WantedPvcs>(NAME@)->Some_0.0@;
    no_node_verdict(c, node);
    assert forall|i: int| 0 <= i < c.len() implies (constraint_verdict(#[trigger] c[i], node)
        is None <==> claim_served(
        c.take(i),
        snapshot,
        pod.namespace@,
        claims[i]@,
        excluded,
        node,
    )) by {
        assert(claim_verdict(snapshot, pod.namespace@, claims[i]@, excluded) is None);
        constraint_decides(c[i], c.take(i), snapshot, pod.namespace@, claims[i]@, excluded, x);
    }
    if told(state, node) == success() {
        assert forall|i: int| 0 <= i < claims.len() implies claim_served(
            c.take(i),
            snapshot,
            pod.namespace@,
            (#[trigger] claims[i])@,
            excluded,
            node,
        ) by {
            assert(constraint_verdict(c[i], node) is None);
        }
    }
    if forall|i: int|
        0 <= i < claims.len() ==> claim_served(
            c.take(i),
            snapshot,
            pod.namespace@,
            (#[trigger] claims[i])@,
            excluded,
            node,
        ) {
        assert forall|i: int| 0 <= i < c.len() implies constraint_verdict(#[trigger] c[i], node)
            is None by {
            assert(claim_served(
                c.take(i),
                snapshot,
                pod.namespace@,
                claims[i]@,
                excluded,
                node,
            ));
        }
    }
}

/// A pod is kept from scheduling exactly where one of its claims is not there,
/// or is not bound and is of a class that is not there or binds at once, or is of
/// no class and no volume suits it.
pub proof fn every_claim_is_looked_at(
    before: CycleState,
    pod: PodInfo,
    snapshot: Snapshot,
    excluded: Seq<String>,
    state: CycleState,
    status: StatusView,
)
    requires
        looked_at(before, pod, snapshot, excluded, state, status),
        pod.pvc_names@.len() > 0,
    ensures
        status == success() <==> forall|i: int|
            0 <= i < pod.pvc_names@.len() ==> (snapshot.claim(
                pod.namespace@,
                (#[trigger] pod.pvc_names@[i])@,
            ) matches Some(pvc) && (pvc.bound || match pvc.storage_class_name {
                Some(name) => snapshot.storage_classes.at(name@) matches Some(class)
                    && class.wait_for_first_consumer,
                None => exists|k: int|
                    0 <= k < snapshot.pvs.entries@.len() && suits(
                        (#[trigger] snapshot.pvs.entries@[k]).1,
                        pvc,
                        excluded,
                    ),
            })),
{
    let claims = pod.pvc_names@;
    let entries = snapshot.pvs.entries@;
    no_claim_verdict(claims, snapshot, pod.namespace@, excluded);
    assert forall|i: int| 0 <= i < claims.len() implies (claim_verdict(
        snapshot,
        pod.namespace@,
        (#[trigger] claims[i])@,
        excluded,
    ) is None <==> (snapshot.claim(pod.namespace@, claims[i]@) matches Some(pvc) && (pvc.bound
        || match pvc.storage_class_name {
        Some(name) => snapshot.storage_classes.at(name@) matches Some(class)
            && class.wait_for_first_consumer,
        None => exists|k: int|
            0 <= k < entries.len() && suits((#[trigger] entries[k]).1, pvc, excluded),
    }))) by {
        if let Some(pvc) = snapshot.claim(pod.namespace@, claims[i]@) {
            let free = suitable(entries, pvc, excluded);
            if free.len() > 0 {
                suitable_holds(entries, pvc, excluded, free[0]);
                assert(free.contains(free[0]));
                let k = choose|k: int|
                    0 <= k < entries.len() && (#[trigger] entries[k]).1 == free[0] && suits(
                        free[0],
                        pvc,
                        excluded,
                    );
                assert(suits(entries[k].1, pvc, excluded));
            }
            if exists|k: int|
                0 <= k < entries.len() && suits((#[trigger] entries[k]).1, pvc, excluded) {
                let k = choose|k: int|
                    0 <= k < entries.len() && suits((#[trigger] entries[k]).1, pvc, excluded);
                suitable_holds(entries, pvc, excluded, entries[k].1);
                assert(free.contains(entries[k].1));
                assert(free.len() > 0);
            }
        }
    }
}

/// The volume that is taken on a node may be used there. It is one set aside, if
/// one of those that may be used there is, and then the smallest of its kind.
pub proof fn smallest_fitting_volume_is_taken(pvs: Seq<PvInfo>, node: NodeInfo, i: int)
    requires
        0 <= i < pvs.len(),
        usable_on(pvs[i], node),
    ensures
        choice(pvs, node) matches Some(v) && {
            &&& usable_on(v, node)
            &&& pvs.contains(v)
            &&& pvs[i].claim_ref is Some ==> v.claim_ref is Some
            &&& (pvs[i].claim_ref is Some) == (v.claim_ref is Some) ==> v.capacity_bytes
                <= pvs[i].capacity_bytes
        },
{
    choice_is_best(pvs, node);
    assert(usable_on(pvs[i], node));
}

/// What is reserved for a claim on a node is what the last constraint of the claim
/// takes there.
pub proof fn last_constraint_is_reserved(c: Seq<PvcConstraint>, node: Seq<char>, i: int)
    requires
        0 <= i < c.len(),
        c[i] is Static,
        forall|j: int|
            i < j < c.len() ==> (#[trigger] c[j] matches PvcConstraint::Static {
                claim_key,
                by_node,
                fallback,
            } ==> claim_key@ != c[i]->claim_key@),
    ensures
        pick_of(c, node, c[i]->claim_key@) == c[i]->by_node.text(node),
    decreases c.len(),
{
    let t = c.drop_last();
    if i < t.len() {
        assert(c[c.len() - 1] == c.last());
        assert(t[i] == c[i]);
        assert forall|j: int| i < j < t.len() implies (#[trigger] t[j] matches PvcConstraint::Static {
            claim_key,
            by_node,
            fallback,
        } ==> claim_key@ != t[i]->claim_key@) by {
            assert(t[j] == c[j]);
        }
        last_constraint_is_reserved(t, node, i);
    }
}

/// A reservation fails exactly where some claim, wherever in the list, has
/// neither a volume on the node nor a class to provision one.
pub proof fn every_claim_is_provided(c: Seq<PvcConstraint>, node: Seq<char>)
    ensures
        unprovided(c, node) is None <==> forall|i: int|
            0 <= i < c.len() ==> (#[trigger] c[i] matches PvcConstraint::Static {
                claim_key,
                by_node,
                fallback,
            } ==> by_node.at(node) is Some || fallback is Some),
    decreases c.len(),
{
    if c.len() > 0 {
        let t = c.drop_last();
        let last = c.len() - 1;
        every_claim_is_provided(t, node);
        assert(c[last] == c.last());
        assert forall|i: int| 0 <= i < last implies #[trigger] c[i] == t[i] by {}
        if unprovided(t, node) is Some {
            let i = choose|i: int|
                0 <= i < t.len() && !(#[trigger] t[i] matches PvcConstraint::Static {
                    claim_key,
                    by_node,
                    fallback,
                } ==> by_node.at(node) is Some || fallback is Some);
            assert(c[i] == t[i]);
        }
    }
}

} // verus!
