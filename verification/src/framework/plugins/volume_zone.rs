//! `VolumeZone`: a pod's volumes must be reachable from its node, for volumes
//! whose zone is a label of the volume.
//!
//! A label may name several zones, joined by two underscores; the node's must
//! be one of them. A region is one name.

use super::{always_on, event_on};
use crate::cache::{NodeInfo, PodInfo, Snapshot};
use crate::events::{ActionType, ClusterEvent, EventResource};
use crate::framework::status::{skip, success, unresolvable, Status, StatusView};
use crate::framework::{
    events_of, filter_switched_off, ClusterEventWithHint, CycleState, FilterPlugin, NoHint, Plugin,
    PreFilterPlugin,
};
use crate::maps::Labels;
use crate::text::{chars_of, string_of, text_eq};
use vstd::prelude::*;

verus! {

pub const NAME: &'static str = "VolumeZone";

pub const ZONE: &'static str = "topology.kubernetes.io/zone";

pub const BETA_ZONE: &'static str = "failure-domain.beta.kubernetes.io/zone";

pub const REGION: &'static str = "topology.kubernetes.io/region";

pub const BETA_REGION: &'static str = "failure-domain.beta.kubernetes.io/region";

/// The value of the first of two equivalent keys that is present.
pub open spec fn either_label(labels: Labels, key: Seq<char>, old_key: Seq<char>) -> Option<
    Seq<char>,
> {
    match labels.text(key) {
        Some(v) => Some(v),
        None => labels.text(old_key),
    }
}

fn first(labels: &Labels, key: &str, old_key: &str) -> (r: Option<String>)
    ensures
        match either_label(*labels, key@, old_key@) {
            Some(v) => r is Some && r->Some_0@ == v,
            None => r is None,
        },
{
    match labels.get(key) {
        Some(v) => Some(v.clone()),
        None => match labels.get(old_key) {
            Some(v) => Some(v.clone()),
            None => None,
        },
    }
}

/// The place of the first separator.
pub open spec fn first_separator(s: Seq<char>) -> Option<int>
    decreases s.len(),
{
    if s.len() < 2 {
        None
    } else if s[0] == '_' && s[1] == '_' {
        Some(0)
    } else {
        match first_separator(s.skip(1)) {
            Some(i) => Some(i + 1),
            None => None,
        }
    }
}

proof fn separator_at(s: Seq<char>, i: int)
    requires
        0 <= i,
        forall|k: int| 0 <= k < i && k + 1 < s.len() ==> !((#[trigger] s[k]) == '_' && s[k + 1] == '_'),
        i + 1 < s.len() ==> s[i] == '_' && s[i + 1] == '_',
    ensures
        first_separator(s) == if i + 1 < s.len() {
            Some(i)
        } else {
            None
        },
    decreases s.len(),
{
    if s.len() >= 2 && i > 0 {
        assert(!(s[0] == '_' && s[1] == '_'));
        let t = s.skip(1);
        assert forall|k: int| 0 <= k < i - 1 && k + 1 < t.len() implies !((#[trigger] t[k]) == '_'
            && t[k + 1] == '_') by {
            assert(!(s[k + 1] == '_' && s[k + 2] == '_'));
        }
        separator_at(t, i - 1);
    }
}

/// Whether a value is one of those that a label names.
pub open spec fn names(label: Seq<char>, value: Seq<char>) -> bool
    decreases label.len(),
{
    match first_separator(label) {
        None => label == value,
        Some(i) => if 0 <= i && i + 2 <= label.len() {
            label.take(i) == value || names(label.skip(i + 2), value)
        } else {
            false
        },
    }
}

fn label_names(label: &str, value: &str) -> (r: bool)
    ensures
        r == names(label@, value@),
{
    let chars = chars_of(label);
    let n: usize = chars.len();
    let mut from: usize = 0;
    assert(label@.skip(0) =~= label@);
    loop
        invariant
            from <= n,
            n == chars@.len(),
            chars@ == label@,
            names(label@, value@) == names(label@.skip(from as int), value@),
        decreases n - from,
    {
        let ghost rest = label@.skip(from as int);
        let mut i: usize = from;
        while i < n && !(i + 1 < n && chars[i] == '_' && chars[i + 1] == '_')
            invariant
                from <= i <= n,
                n == chars@.len(),
                chars@ == label@,
                rest == label@.skip(from as int),
                forall|k: int|
                    0 <= k < i - from && k + 1 < rest.len() ==> !((#[trigger] rest[k]) == '_'
                        && rest[k + 1] == '_'),
            decreases n - i,
        {
            assert(rest[i - from] == chars@[i as int]);
            if i + 1 < n {
                assert(rest[i - from + 1] == chars@[i + 1]);
            }
            i += 1;
        }
        let piece = string_of(&chars, from, i);
        if i == n {
            proof {
                separator_at(rest, i - from);
                assert(label@.subrange(from as int, n as int) =~= rest);
            }
            return text_eq(piece.as_str(), value);
        }
        proof {
            assert(rest[i - from] == chars@[i as int] && rest[i - from + 1] == chars@[i + 1]);
            separator_at(rest, i - from);
            assert(label@.subrange(from as int, i as int) =~= rest.take(i - from));
            assert(rest.skip(i - from + 2) =~= label@.skip(i + 2));
        }
        if text_eq(piece.as_str(), value) {
            return true;
        }
        from = i + 2;
    }
}

/// The zone and region that each of the pod's volumes names.
pub struct WantedZones(pub Vec<(Option<String>, Option<String>)>);

pub struct VolumeZone;

pub open spec fn subscriptions() -> Seq<ClusterEvent> {
    seq![
        event_on(EventResource::PersistentVolumeClaim, ActionType::UPDATE),
        event_on(EventResource::PersistentVolume, ActionType::ADD | ActionType::UPDATE),
    ]
}

impl Plugin for VolumeZone {
    type Hint = NoHint;

    open spec fn name_view(&self) -> Seq<char> {
        NAME@
    }

    fn name(&self) -> (r: &'static str) {
        NAME
    }

    fn events_to_register(&self) -> (r: Vec<ClusterEventWithHint<NoHint>>)
        ensures
            events_of(r@) == subscriptions(),
            crate::framework::unhinted(r@),
    {
        let mut out: Vec<ClusterEventWithHint<NoHint>> = Vec::new();
        out.push(always_on(EventResource::PersistentVolumeClaim, ActionType::UPDATE));
        out.push(
            always_on(EventResource::PersistentVolume, ActionType::ADD | ActionType::UPDATE),
        );
        assert(events_of(out@) =~= subscriptions());
        out
    }
}

/// A zone and a region, each where there is one.
pub type Place = (Option<Seq<char>>, Option<Seq<char>>);

pub open spec fn text_view(t: Option<String>) -> Option<Seq<char>> {
    match t {
        Some(s) => Some(s@),
        None => None,
    }
}

pub open spec fn place_views(v: Seq<(Option<String>, Option<String>)>) -> Seq<Place> {
    v.map_values(|p: (Option<String>, Option<String>)| (text_view(p.0), text_view(p.1)))
}

/// The labels of the volume that a claim is bound to.
pub open spec fn volume_labels(snapshot: Snapshot, namespace: Seq<char>, claim: Seq<char>) -> Option<
    Labels,
> {
    match snapshot.claim(namespace, claim) {
        Some(pvc) => match pvc.volume_name {
            Some(name) => match snapshot.pvs.at(name@) {
                Some(pv) => Some(pv.labels),
                None => None,
            },
            None => None,
        },
        None => None,
    }
}

/// The zone and region that the volume of each bound claim names, where it
/// names either.
pub open spec fn wanted_places(
    claims: Seq<String>,
    namespace: Seq<char>,
    snapshot: Snapshot,
) -> Seq<Place>
    decreases claims.len(),
{
    if claims.len() == 0 {
        Seq::empty()
    } else {
        let rest = wanted_places(claims.drop_last(), namespace, snapshot);
        match volume_labels(snapshot, namespace, claims.last()@) {
            Some(labels) => {
                let zone = either_label(labels, ZONE@, BETA_ZONE@);
                let region = either_label(labels, REGION@, BETA_REGION@);
                if zone is Some || region is Some {
                    rest.push((zone, region))
                } else {
                    rest
                }
            },
            None => rest,
        }
    }
}

fn collect_places(pod: &PodInfo, snapshot: &Snapshot) -> (r: Vec<(Option<String>, Option<String>)>)
    ensures
        place_views(r@) == wanted_places(pod.pvc_names@, pod.namespace@, *snapshot),
{
    let claims = &pod.pvc_names;
    let mut out: Vec<(Option<String>, Option<String>)> = Vec::new();
    let mut i: usize = 0;
    assert(place_views(out@) =~= Seq::<Place>::empty());
    while i < claims.len()
        invariant
            i <= claims@.len(),
            place_views(out@) == wanted_places(
                claims@.take(i as int),
                pod.namespace@,
                *snapshot,
            ),
        decreases claims@.len() - i,
    {
        let ghost before = out@;
        match snapshot.pvc(pod.namespace.as_str(), claims[i].as_str()) {
            Some(pvc) => match &pvc.volume_name {
                Some(name) => match snapshot.pv(name.as_str()) {
                    Some(pv) => {
                        let zone = first(&pv.labels, ZONE, BETA_ZONE);
                        let region = first(&pv.labels, REGION, BETA_REGION);
                        if zone.is_some() || region.is_some() {
                            let ghost z = text_view(zone);
                            let ghost g = text_view(region);
                            out.push((zone, region));
                            assert(place_views(out@) =~= place_views(before).push((z, g)));
                        }
                    },
                    None => {},
                },
                None => {},
            },
            None => {},
        }
        i += 1;
        assert(claims@.take(i as int).drop_last() =~= claims@.take(i - 1));
    }
    assert(claims@.take(i as int) =~= claims@);
    out
}

impl PreFilterPlugin for VolumeZone {
    open spec fn pre_filter_view(
        &self,
        before: CycleState,
        pod: PodInfo,
        snapshot: Snapshot,
        after: CycleState,
        status: StatusView,
    ) -> bool {
        let wanted = wanted_places(pod.pvc_names@, pod.namespace@, snapshot);
        if wanted.len() == 0 {
            status == skip() && filter_switched_off(before, after, NAME@)
        } else {
            &&& status == success()
            &&& after.only_slot(&before, NAME@)
            &&& after.same_skips(&before)
            &&& after.value::<WantedZones>(NAME@) matches Some(w) && place_views(w.0@) == wanted
        }
    }

    fn pre_filter(&self, state: &mut CycleState, pod: &PodInfo, snapshot: &Snapshot) -> (r: (
        Status,
        Option<Vec<String>>,
    ))
        ensures
            r.1 is None,
    {
        let wanted = collect_places(pod, snapshot);
        if wanted.len() == 0 {
            state.skip_filter(NAME);
            return (Status::skip(), None);
        }
        state.write(NAME, WantedZones(wanted));
        (Status::success(), None)
    }
}

/// A node's zone is one of those that a volume names, where it names any.
pub open spec fn zone_reachable(named: Option<Seq<char>>, actual: Option<Seq<char>>) -> bool {
    match named {
        Some(label) => actual is Some && names(label, actual->Some_0),
        None => true,
    }
}

/// A node's region is the one that a volume names, where it names one.
pub open spec fn region_reachable(named: Option<Seq<char>>, actual: Option<Seq<char>>) -> bool {
    named is Some ==> actual == named
}

fn is_region_reachable(named: &Option<String>, actual: &Option<String>) -> (r: bool)
    ensures
        r == region_reachable(text_view(*named), text_view(*actual)),
{
    match named {
        Some(label) => match actual {
            Some(a) => text_eq(label.as_str(), a.as_str()),
            None => false,
        },
        None => true,
    }
}

fn is_zone_reachable(named: &Option<String>, actual: &Option<String>) -> (r: bool)
    ensures
        r == zone_reachable(text_view(*named), text_view(*actual)),
{
    match named {
        Some(label) => match actual {
            Some(a) => label_names(label.as_str(), a.as_str()),
            None => false,
        },
        None => true,
    }
}

/// Every volume is reachable from the node.
pub open spec fn all_reachable(wanted: Seq<Place>, node: NodeInfo) -> bool {
    forall|i: int|
        0 <= i < wanted.len() ==> {
            &&& zone_reachable(
                (#[trigger] wanted[i]).0,
                either_label(node.labels, ZONE@, BETA_ZONE@),
            )
            &&& region_reachable(wanted[i].1, either_label(node.labels, REGION@, BETA_REGION@))
        }
}

impl FilterPlugin for VolumeZone {
    open spec fn filter_view(&self, state: CycleState, pod: PodInfo, node: NodeInfo) -> StatusView {
        match state.value::<WantedZones>(NAME@) {
            None => success(),
            Some(w) => if all_reachable(place_views(w.0@), node) {
                success()
            } else {
                unresolvable(NAME@, "node(s) had no available volume zone"@)
            },
        }
    }

    fn filter(&self, state: &CycleState, pod: &PodInfo, node: &NodeInfo) -> (r: Status) {
        let wanted = match state.read::<WantedZones>(NAME) {
            Some(w) => &w.0,
            None => {
                return Status::success();
            },
        };
        let zone = first(&node.labels, ZONE, BETA_ZONE);
        let region = first(&node.labels, REGION, BETA_REGION);
        let ghost all = place_views(wanted@);
        let mut i: usize = 0;
        while i < wanted.len()
            invariant
                i <= wanted@.len(),
                all == place_views(wanted@),
                state.value::<WantedZones>(NAME@) matches Some(w) && w.0@ == wanted@,
                text_view(zone) == either_label(node.labels, ZONE@, BETA_ZONE@),
                text_view(region) == either_label(node.labels, REGION@, BETA_REGION@),
                forall|k: int|
                    0 <= k < i ==> {
                        &&& zone_reachable(
                            (#[trigger] all[k]).0,
                            either_label(node.labels, ZONE@, BETA_ZONE@),
                        )
                        &&& region_reachable(
                            all[k].1,
                            either_label(node.labels, REGION@, BETA_REGION@),
                        )
                    },
            decreases wanted@.len() - i,
        {
            assert(all[i as int] == (text_view(wanted@[i as int].0), text_view(
                wanted@[i as int].1,
            )));
            if !is_zone_reachable(&wanted[i].0, &zone) || !is_region_reachable(
                &wanted[i].1,
                &region,
            ) {
                assert(!all_reachable(all, *node));
                return Status::unresolvable(NAME, "node(s) had no available volume zone");
            }
            i += 1;
        }
        Status::success()
    }
}

/// A label without a separator names its own value and no other.
pub proof fn plain_labels_name_themselves(label: Seq<char>, value: Seq<char>)
    requires
        first_separator(label) is None,
    ensures
        names(label, value) == (label == value),
{
}

/// The volume of a claim, where the claim is bound to one, is reachable from the
/// node: by its zone and by its region, where it names them.
pub open spec fn reachable(pod: PodInfo, snapshot: Snapshot, node: NodeInfo, i: int) -> bool {
    match volume_labels(snapshot, pod.namespace@, pod.pvc_names@[i]@) {
        Some(labels) => {
            &&& either_label(labels, ZONE@, BETA_ZONE@) matches Some(zones) ==> (either_label(
                node.labels,
                ZONE@,
                BETA_ZONE@,
            ) matches Some(zone) && names(zones, zone))
            &&& either_label(labels, REGION@, BETA_REGION@) matches Some(region) ==> either_label(
                node.labels,
                REGION@,
                BETA_REGION@,
            ) == Some(region)
        },
        None => true,
    }
}

spec fn place_reachable(p: Place, node: NodeInfo) -> bool {
    zone_reachable(p.0, either_label(node.labels, ZONE@, BETA_ZONE@)) && region_reachable(
        p.1,
        either_label(node.labels, REGION@, BETA_REGION@),
    )
}

proof fn places_reachable(pod: PodInfo, snapshot: Snapshot, node: NodeInfo, claims: Seq<String>)
    requires
        claims.len() <= pod.pvc_names@.len(),
        claims == pod.pvc_names@.take(claims.len() as int),
    ensures
        all_reachable(wanted_places(claims, pod.namespace@, snapshot), node) <==> forall|i: int|
            0 <= i < claims.len() ==> #[trigger] reachable(pod, snapshot, node, i),
    decreases claims.len(),
{
    if claims.len() > 0 {
        let t = claims.drop_last();
        let last = claims.len() - 1;
        assert(t =~= pod.pvc_names@.take(t.len() as int));
        places_reachable(pod, snapshot, node, t);
        let all = wanted_places(claims, pod.namespace@, snapshot);
        let rest = wanted_places(t, pod.namespace@, snapshot);
        assert(claims.last() == pod.pvc_names@[last]);
        if all_reachable(all, node) {
            assert(all_reachable(rest, node)) by {
                assert forall|i: int| 0 <= i < rest.len() implies place_reachable(
                    #[trigger] rest[i],
                    node,
                ) by {
                    assert(all[i] == rest[i]);
                }
            }
            if all.len() > rest.len() {
                assert(place_reachable(all[rest.len() as int], node));
            }
            assert(reachable(pod, snapshot, node, last));
            assert forall|i: int| 0 <= i < claims.len() implies #[trigger] reachable(
                pod,
                snapshot,
                node,
                i,
            ) by {
                if i < last {
                    assert(0 <= i < t.len());
                }
            }
        }
        if forall|i: int| 0 <= i < claims.len() ==> #[trigger] reachable(pod, snapshot, node, i) {
            assert(reachable(pod, snapshot, node, last));
            assert forall|i: int| 0 <= i < all.len() implies place_reachable(
                #[trigger] all[i],
                node,
            ) by {
                if i < rest.len() {
                    assert(all[i] == rest[i]);
                }
            }
        }
    }
}

/// A node passes exactly where the volume of every bound claim of the pod,
/// wherever in the list, is reachable from it. Where the filter is switched off,
/// every volume is reachable from every node.
pub proof fn passing_means_reachable(
    plugin: VolumeZone,
    before: CycleState,
    pod: PodInfo,
    snapshot: Snapshot,
    state: CycleState,
    status: StatusView,
    node: NodeInfo,
)
    requires
        plugin.pre_filter_view(before, pod, snapshot, state, status),
    ensures
        status == success() ==> (plugin.filter_view(state, pod, node) == success() <==> forall|i: int|
            0 <= i < pod.pvc_names@.len() ==> #[trigger] reachable(pod, snapshot, node, i)),
        status != success() ==> forall|i: int|
            0 <= i < pod.pvc_names@.len() ==> #[trigger] reachable(pod, snapshot, node, i),
{
    assert(pod.pvc_names@ =~= pod.pvc_names@.take(pod.pvc_names@.len() as int));
    places_reachable(pod, snapshot, node, pod.pvc_names@);
}

proof fn separator_found(a: Seq<char>, b: Seq<char>)
    requires
        forall|i: int| 0 <= i < a.len() ==> #[trigger] a[i] != '_',
    ensures
        first_separator(a + seq!['_', '_'] + b) == Some(a.len() as int),
    decreases a.len(),
{
    let s = a + seq!['_', '_'] + b;
    if a.len() > 0 {
        let t = a.skip(1);
        assert(a[0] != '_');
        assert forall|i: int| 0 <= i < t.len() implies #[trigger] t[i] != '_' by {
            assert(a[i + 1] != '_');
        }
        separator_found(t, b);
        assert(s.skip(1) =~= t + seq!['_', '_'] + b);
    }
}

/// A label names what stands before its first separator, and what the rest
/// names, and nothing else.
pub proof fn joined_labels_name_each(a: Seq<char>, b: Seq<char>, value: Seq<char>)
    requires
        forall|i: int| 0 <= i < a.len() ==> #[trigger] a[i] != '_',
    ensures
        names(a + seq!['_', '_'] + b, value) <==> value == a || names(b, value),
{
    let s = a + seq!['_', '_'] + b;
    separator_found(a, b);
    assert(s.take(a.len() as int) =~= a);
    assert(s.skip(a.len() as int + 2) =~= b);
}

} // verus!
