//! `NodeVolumeLimits`: a node attaches only so many volumes of a CSI driver.
//!
//! A volume is identified by its driver and handle, so one that two pods mount
//! counts once. A claim that is not bound yet stands for a volume of its
//! storage class's provisioner. Volumes that linger attached after their pod
//! has gone are counted; inline volumes are not attached and are not.

use super::{always_on, event_on};
use crate::cache::{NodeInfo, PodInfo, Snapshot, VolumeAttachmentInfo};
use crate::events::{ActionType, ClusterEvent, EventResource};
use crate::framework::status::{skip, success, unschedulable, Status, StatusView};
use crate::framework::{
    events_of, filter_switched_off, ClusterEventWithHint, CycleState, FilterPlugin, NoHint, Plugin,
    PreFilterPlugin,
};
use crate::maps::{find_key, find_key_at, find_key_index, first_of, keys_ascending, StrMap};
use crate::text::{debug_text, joined, quoted, text_eq, text_less, text_less_irreflexive};
use std::sync::Arc;
use vstd::prelude::*;

verus! {

pub const NAME: &'static str = "NodeVolumeLimits";

pub const ATTACHED_KEY: &'static str = "NodeVolumeLimits/attached";

pub const LIMITS_KEY: &'static str = "NodeVolumeLimits/limits";

/// Volume identity to driver.
pub struct WantedVolumes(pub StrMap<String>);

/// Node to the volumes attached there.
pub struct AttachedVolumesByNode(pub StrMap<StrMap<String>>);

/// Node to each driver's limit there; `None` is no limit.
pub struct LimitsByNodeAndDriver(pub StrMap<StrMap<Option<i32>>>);

pub struct NodeVolumeLimits;

pub open spec fn subscriptions() -> Seq<ClusterEvent> {
    seq![
        event_on(EventResource::AssignedPod, ActionType::DELETE),
        event_on(EventResource::PersistentVolumeClaim, ActionType::ADD | ActionType::UPDATE),
        event_on(EventResource::CsiNode, ActionType::ADD | ActionType::UPDATE),
        event_on(EventResource::VolumeAttachment, ActionType::DELETE),
    ]
}

impl Plugin for NodeVolumeLimits {
    type Hint = NoHint;

    open spec fn name_view(&self) -> Seq<char> {
        NAME@
    }

    fn name(&self) -> (r: &'static str) {
        NAME
    }

    fn events_to_register(&self) -> (r: Vec<ClusterEventWithHint<NoHint>>)
        ensures
            events_of(r@) == subscriptions(),
            crate::framework::unhinted(r@),
    {
        let mut out: Vec<ClusterEventWithHint<NoHint>> = Vec::new();
        out.push(always_on(EventResource::AssignedPod, ActionType::DELETE));
        out.push(
            always_on(EventResource::PersistentVolumeClaim, ActionType::ADD | ActionType::UPDATE),
        );
        out.push(always_on(EventResource::CsiNode, ActionType::ADD | ActionType::UPDATE));
        out.push(always_on(EventResource::VolumeAttachment, ActionType::DELETE));
        assert(events_of(out@) =~= subscriptions());
        out
    }
}

/// An identity and the driver that attaches it.
pub type Volume = (Seq<char>, Seq<char>);

/// A text that is there and not empty.
pub open spec fn filled(t: Option<String>) -> bool {
    t is Some && t->Some_0@ != ""@
}

fn is_filled(t: &Option<String>) -> (r: bool)
    ensures
        r == filled(*t),
{
    match t {
        Some(s) => !text_eq(s.as_str(), ""),
        None => false,
    }
}

/// The volume a claim of a namespace stands for: by driver and handle where it
/// is bound to one, else as a volume of its class's provisioner, else by the
/// name of the volume, where that has a driver.
pub open spec fn volume_of(snapshot: Snapshot, namespace: Seq<char>, claim: Seq<char>) -> Option<
    Volume,
> {
    match snapshot.claim(namespace, claim) {
        None => None,
        Some(pvc) => {
            let pv = match pvc.volume_name {
                Some(name) => snapshot.pvs.at(name@),
                None => None,
            };
            let class = match pvc.storage_class_name {
                Some(name) => snapshot.storage_classes.at(name@),
                None => None,
            };
            if pv is Some && filled(pv->Some_0.csi_driver) && filled(
                pv->Some_0.csi_volume_handle,
            ) {
                let driver = pv->Some_0.csi_driver->Some_0@;
                Some((driver + "/"@ + pv->Some_0.csi_volume_handle->Some_0@, driver))
            } else if class is Some && class->Some_0.provisioner@ != ""@ {
                Some(("pvc:"@ + namespace + "/"@ + claim, class->Some_0.provisioner@))
            } else if pv is Some && filled(pv->Some_0.csi_driver) {
                Some(("pv:"@ + pv->Some_0.name@, pv->Some_0.csi_driver->Some_0@))
            } else {
                None
            }
        },
    }
}

fn resolve_volume(snapshot: &Snapshot, namespace: &str, claim: &str) -> (r: Option<(String, String)>)
    ensures
        match volume_of(*snapshot, namespace@, claim@) {
            Some((id, driver)) => r is Some && r->Some_0.0@ == id && r->Some_0.1@ == driver,
            None => r is None,
        },
{
    let pvc = match snapshot.pvc(namespace, claim) {
        Some(p) => p,
        None => {
            return None;
        },
    };
    let pv = match &pvc.volume_name {
        Some(name) => snapshot.pv(name.as_str()),
        None => None,
    };
    match pv {
        Some(v) => {
            if is_filled(&v.csi_driver) && is_filled(&v.csi_volume_handle) {
                match (&v.csi_driver, &v.csi_volume_handle) {
                    (Some(driver), Some(handle)) => {
                        let id = joined(driver.as_str(), "/");
                        let id = joined(id.as_str(), handle.as_str());
                        return Some((id, driver.clone()));
                    },
                    _ => {},
                }
            }
        },
        None => {},
    }
    match &pvc.storage_class_name {
        Some(name) => match snapshot.storage_class(name.as_str()) {
            Some(class) => {
                if !text_eq(class.provisioner.as_str(), "") {
                    let id = joined("pvc:", namespace);
                    let id = joined(id.as_str(), "/");
                    let id = joined(id.as_str(), claim);
                    return Some((id, class.provisioner.clone()));
                }
            },
            None => {},
        },
        None => {},
    }
    match pv {
        Some(v) => {
            if is_filled(&v.csi_driver) {
                match &v.csi_driver {
                    Some(driver) => {
                        return Some((joined("pv:", v.name.as_str()), driver.clone()));
                    },
                    None => {},
                }
            }
        },
        None => {},
    }
    None
}

/// The driver that a list of volumes gives an identity: that of its last.
pub open spec fn driver_of(volumes: Seq<Volume>, id: Seq<char>) -> Option<Seq<char>>
    decreases volumes.len(),
{
    if volumes.len() == 0 {
        None
    } else if volumes.last().0 == id {
        Some(volumes.last().1)
    } else {
        driver_of(volumes.drop_last(), id)
    }
}

/// The volumes of a list of claims.
pub open spec fn claim_volumes(claims: Seq<String>, namespace: Seq<char>, snapshot: Snapshot) -> Seq<
    Volume,
>
    decreases claims.len(),
{
    if claims.len() == 0 {
        Seq::empty()
    } else {
        let rest = claim_volumes(claims.drop_last(), namespace, snapshot);
        match volume_of(snapshot, namespace, claims.last()@) {
            Some(v) => rest.push(v),
            None => rest,
        }
    }
}

/// The volumes of the pods of a list.
pub open spec fn pod_volumes(pods: Seq<Arc<PodInfo>>, snapshot: Snapshot) -> Seq<Volume>
    decreases pods.len(),
{
    if pods.len() == 0 {
        Seq::empty()
    } else {
        pod_volumes(pods.drop_last(), snapshot) + claim_volumes(
            pods.last().pvc_names@,
            pods.last().namespace@,
            snapshot,
        )
    }
}

/// The volume of an attachment to a node: that of its volume object, by the
/// driver that names, or else by the attacher.
pub open spec fn attachment_volume(
    a: VolumeAttachmentInfo,
    node: Seq<char>,
    snapshot: Snapshot,
) -> Option<Volume> {
    let pv = match a.pv_name {
        Some(name) => snapshot.pvs.at(name@),
        None => None,
    };
    if a.node_name@ == node && pv is Some && filled(pv->Some_0.csi_volume_handle) {
        let driver = if filled(pv->Some_0.csi_driver) {
            pv->Some_0.csi_driver->Some_0@
        } else {
            a.attacher@
        };
        if driver == ""@ {
            None
        } else {
            Some((driver + "/"@ + pv->Some_0.csi_volume_handle->Some_0@, driver))
        }
    } else {
        None
    }
}

/// The volumes of the attachments to a node.
pub open spec fn attachment_volumes(
    a: Seq<(String, VolumeAttachmentInfo)>,
    node: Seq<char>,
    snapshot: Snapshot,
) -> Seq<Volume>
    decreases a.len(),
{
    if a.len() == 0 {
        Seq::empty()
    } else {
        let rest = attachment_volumes(a.drop_last(), node, snapshot);
        match attachment_volume(a.last().1, node, snapshot) {
            Some(v) => rest.push(v),
            None => rest,
        }
    }
}

/// A map holds the volumes of a list.
pub open spec fn holds(m: StrMap<String>, volumes: Seq<Volume>) -> bool {
    &&& m.ordered()
    &&& forall|id: Seq<char>| #[trigger] m.text(id) == driver_of(volumes, id)
}

proof fn holds_push(before: StrMap<String>, after: StrMap<String>, volumes: Seq<Volume>, v: Volume)
    requires
        holds(before, volumes),
        after.ordered(),
        forall|x: Seq<char>| #[trigger]
            after.text(x) == if x == v.0 {
                Some(v.1)
            } else {
                before.text(x)
            },
    ensures
        holds(after, volumes.push(v)),
{
    assert(volumes.push(v).drop_last() =~= volumes);
    assert forall|id: Seq<char>| #[trigger] after.text(id) == driver_of(volumes.push(v), id) by {
        let was = before.text(id);
    }
}

/// Add the volumes of a pod's claims.
fn add_claims(
    out: &mut StrMap<String>,
    pod: &PodInfo,
    snapshot: &Snapshot,
    Ghost(base): Ghost<Seq<Volume>>,
)
    requires
        holds(*old(out), base),
    ensures
        holds(*final(out), base + claim_volumes(pod.pvc_names@, pod.namespace@, *snapshot)),
{
    let claims = &pod.pvc_names;
    let mut i: usize = 0;
    proof {
        assert(claims@.take(0) =~= Seq::empty());
        assert(base + Seq::<Volume>::empty() =~= base);
    }
    while i < claims.len()
        invariant
            i <= claims@.len(),
            claims@ == pod.pvc_names@,
            holds(*out, base + claim_volumes(claims@.take(i as int), pod.namespace@, *snapshot)),
        decreases claims@.len() - i,
    {
        let ghost before = *out;
        let ghost sofar = base + claim_volumes(claims@.take(i as int), pod.namespace@, *snapshot);
        proof {
            assert(claims@.take(i + 1).drop_last() =~= claims@.take(i as int));
        }
        match resolve_volume(snapshot, pod.namespace.as_str(), claims[i].as_str()) {
            Some((id, driver)) => {
                let ghost v = (id@, driver@);
                out.insert(id, driver);
                proof {
                    holds_push(before, *out, sofar, v);
                    assert(sofar.push(v) =~= base + claim_volumes(
                        claims@.take(i + 1),
                        pod.namespace@,
                        *snapshot,
                    ));
                }
            },
            None => {},
        }
        i += 1;
    }
    assert(claims@.take(i as int) =~= claims@);
}

/// A pod's attachable volumes.
pub fn volumes_for_pod(pod: &PodInfo, snapshot: &Snapshot) -> (r: StrMap<String>)
    ensures
        holds(r, claim_volumes(pod.pvc_names@, pod.namespace@, *snapshot)),
{
    let mut out: StrMap<String> = StrMap::new();
    let ghost none = Seq::<Volume>::empty();
    add_claims(&mut out, pod, snapshot, Ghost(none));
    assert(none + claim_volumes(pod.pvc_names@, pod.namespace@, *snapshot) =~= claim_volumes(
        pod.pvc_names@,
        pod.namespace@,
        *snapshot,
    ));
    out
}

/// The volumes of the pods on the nodes of a name.
pub open spec fn mounted_on(nodes: Seq<Arc<NodeInfo>>, name: Seq<char>, snapshot: Snapshot) -> Seq<
    Volume,
>
    decreases nodes.len(),
{
    if nodes.len() == 0 {
        Seq::empty()
    } else {
        let rest = mounted_on(nodes.drop_last(), name, snapshot);
        if nodes.last().name@ == name {
            rest + pod_volumes(nodes.last().pods@, snapshot)
        } else {
            rest
        }
    }
}

/// The volumes attached to a node: those of its pods and those that linger.
pub open spec fn attached_to(name: Seq<char>, snapshot: Snapshot) -> Seq<Volume> {
    mounted_on(snapshot.nodes@, name, snapshot) + attachment_volumes(
        snapshot.volume_attachments.entries@,
        name,
        snapshot,
    )
}

fn resolve_attachment(a: &VolumeAttachmentInfo, node: &str, snapshot: &Snapshot) -> (r: Option<
    (String, String),
>)
    ensures
        match attachment_volume(*a, node@, *snapshot) {
            Some((id, driver)) => r is Some && r->Some_0.0@ == id && r->Some_0.1@ == driver,
            None => r is None,
        },
{
    if !text_eq(a.node_name.as_str(), node) {
        return None;
    }
    let pv = match &a.pv_name {
        Some(name) => match snapshot.pv(name.as_str()) {
            Some(v) => v,
            None => {
                return None;
            },
        },
        None => {
            return None;
        },
    };
    if !is_filled(&pv.csi_volume_handle) {
        return None;
    }
    let driver = if is_filled(&pv.csi_driver) {
        match &pv.csi_driver {
            Some(d) => d.clone(),
            None => a.attacher.clone(),
        }
    } else {
        a.attacher.clone()
    };
    if text_eq(driver.as_str(), "") {
        return None;
    }
    match &pv.csi_volume_handle {
        Some(handle) => {
            let id = joined(driver.as_str(), "/");
            let id = joined(id.as_str(), handle.as_str());
            Some((id, driver))
        },
        None => None,
    }
}

/// Add the volumes of a node's pods.
fn add_pods(
    out: &mut StrMap<String>,
    node: &NodeInfo,
    snapshot: &Snapshot,
    Ghost(base): Ghost<Seq<Volume>>,
)
    requires
        holds(*old(out), base),
    ensures
        holds(*final(out), base + pod_volumes(node.pods@, *snapshot)),
{
    let pods = &node.pods;
    let mut i: usize = 0;
    proof {
        assert(pods@.take(0) =~= Seq::empty());
        assert(base + Seq::<Volume>::empty() =~= base);
    }
    while i < pods.len()
        invariant
            i <= pods@.len(),
            pods@ == node.pods@,
            holds(*out, base + pod_volumes(pods@.take(i as int), *snapshot)),
        decreases pods@.len() - i,
    {
        let ghost sofar = base + pod_volumes(pods@.take(i as int), *snapshot);
        let ghost own = claim_volumes(
            pods@[i as int].pvc_names@,
            pods@[i as int].namespace@,
            *snapshot,
        );
        add_claims(out, &pods[i], snapshot, Ghost(sofar));
        i += 1;
        proof {
            assert(pods@.take(i as int).drop_last() =~= pods@.take(i - 1));
            assert(sofar + own =~= base + pod_volumes(pods@.take(i as int), *snapshot));
        }
    }
    assert(pods@.take(i as int) =~= pods@);
}

fn attached_volumes(name: &str, snapshot: &Snapshot) -> (r: StrMap<String>)
    ensures
        holds(r, attached_to(name@, *snapshot)),
{
    let nodes = &snapshot.nodes;
    let mut out: StrMap<String> = StrMap::new();
    let mut i: usize = 0;
    while i < nodes.len()
        invariant
            i <= nodes@.len(),
            nodes@ == snapshot.nodes@,
            holds(out, mounted_on(nodes@.take(i as int), name@, *snapshot)),
        decreases nodes@.len() - i,
    {
        let ghost sofar = mounted_on(nodes@.take(i as int), name@, *snapshot);
        if text_eq(nodes[i].name.as_str(), name) {
            add_pods(&mut out, &nodes[i], snapshot, Ghost(sofar));
        }
        i += 1;
        assert(nodes@.take(i as int).drop_last() =~= nodes@.take(i - 1));
    }
    assert(nodes@.take(i as int) =~= nodes@);
    let ghost base = mounted_on(nodes@, name@, *snapshot);
    let list = &snapshot.volume_attachments.entries;
    let mut j: usize = 0;
    proof {
        assert(list@.take(0) =~= Seq::empty());
        assert(base + Seq::<Volume>::empty() =~= base);
    }
    while j < list.len()
        invariant
            j <= list@.len(),
            list@ == snapshot.volume_attachments.entries@,
            holds(out, base + attachment_volumes(list@.take(j as int), name@, *snapshot)),
        decreases list@.len() - j,
    {
        let ghost before = out;
        let ghost sofar = base + attachment_volumes(list@.take(j as int), name@, *snapshot);
        proof {
            assert(list@.take(j + 1).drop_last() =~= list@.take(j as int));
        }
        match resolve_attachment(&list[j].1, name, snapshot) {
            Some((id, driver)) => {
                let ghost v = (id@, driver@);
                out.insert(id, driver);
                proof {
                    holds_push(before, out, sofar, v);
                    assert(sofar.push(v) =~= base + attachment_volumes(
                        list@.take(j + 1),
                        name@,
                        *snapshot,
                    ));
                }
            },
            None => {},
        }
        j += 1;
    }
    assert(list@.take(j as int) =~= list@);
    out
}

/// A node of the name is listed.
pub open spec fn listed(nodes: Seq<Arc<NodeInfo>>, name: Seq<char>) -> bool {
    exists|i: int| 0 <= i < nodes.len() && (#[trigger] nodes[i]).name@ == name
}

/// Every node's attached volumes: of the nodes that are listed and of any
/// other that a volume is attached to.
pub open spec fn attached_everywhere(m: StrMap<StrMap<String>>, snapshot: Snapshot) -> bool {
    forall|n: Seq<char>|
        match (#[trigger] m.at(n)) {
            Some(volumes) => (listed(snapshot.nodes@, n) || attached_to(n, snapshot).len() > 0)
                && holds(volumes, attached_to(n, snapshot)),
            None => !listed(snapshot.nodes@, n) && attached_to(n, snapshot).len() == 0,
        }
}

/// What the map holds so far is right.
spec fn rightly(m: StrMap<StrMap<String>>, snapshot: Snapshot) -> bool {
    forall|n: Seq<char>|
        match (#[trigger] m.at(n)) {
            Some(volumes) => (listed(snapshot.nodes@, n) || attached_to(n, snapshot).len() > 0)
                && holds(volumes, attached_to(n, snapshot)),
            None => true,
        }
}

proof fn unlisted_mounts_nothing(nodes: Seq<Arc<NodeInfo>>, name: Seq<char>, snapshot: Snapshot)
    requires
        !listed(nodes, name),
    ensures
        mounted_on(nodes, name, snapshot).len() == 0,
    decreases nodes.len(),
{
    if nodes.len() > 0 {
        assert(nodes[nodes.len() - 1].name@ != name);
        assert(!listed(nodes.drop_last(), name)) by {
            if listed(nodes.drop_last(), name) {
                let i = choose|i: int|
                    0 <= i < nodes.drop_last().len() && (#[trigger] nodes.drop_last()[i]).name@
                        == name;
                assert(nodes[i].name@ == name);
            }
        }
        unlisted_mounts_nothing(nodes.drop_last(), name, snapshot);
    }
}

/// Every attachment of a list is accounted for.
spec fn accounted(
    m: StrMap<StrMap<String>>,
    a: Seq<(String, VolumeAttachmentInfo)>,
    snapshot: Snapshot,
) -> bool {
    forall|n: Seq<char>|
        (#[trigger] attachment_volumes(a, n, snapshot)).len() > 0 ==> m.at(n) is Some
}

pub fn attached_volumes_by_node(snapshot: &Snapshot) -> (r: StrMap<StrMap<String>>)
    ensures
        attached_everywhere(r, *snapshot),
{
    let nodes = &snapshot.nodes;
    let mut out: StrMap<StrMap<String>> = StrMap::new();
    let mut i: usize = 0;
    while i < nodes.len()
        invariant
            i <= nodes@.len(),
            nodes@ == snapshot.nodes@,
            rightly(out, *snapshot),
            forall|k: int| 0 <= k < i ==> out.at((#[trigger] nodes@[k]).name@) is Some,
        decreases nodes@.len() - i,
    {
        let ghost before = out;
        let name = nodes[i].name.as_str();
        assert(listed(nodes@, name@)) by {
            assert(nodes@[i as int].name@ == name@);
        }
        if !out.contains_key(name) {
            out.insert(name.to_owned(), attached_volumes(name, snapshot));
        }
        proof {
            assert forall|n: Seq<char>|
                match (#[trigger] out.at(n)) {
                    Some(volumes) => (listed(snapshot.nodes@, n) || attached_to(n, *snapshot).len()
                        > 0) && holds(volumes, attached_to(n, *snapshot)),
                    None => true,
                } by {
                let was = before.at(n);
            }
            assert forall|k: int| 0 <= k < i + 1 implies out.at(
                (#[trigger] nodes@[k]).name@,
            ) is Some by {
                if k < i {
                    assert(before.at(nodes@[k].name@) is Some);
                }
            }
        }
        i += 1;
    }
    let list = &snapshot.volume_attachments.entries;
    let mut j: usize = 0;
    while j < list.len()
        invariant
            j <= list@.len(),
            nodes@ == snapshot.nodes@,
            list@ == snapshot.volume_attachments.entries@,
            rightly(out, *snapshot),
            forall|k: int| 0 <= k < nodes@.len() ==> out.at((#[trigger] nodes@[k]).name@) is Some,
            accounted(out, list@.take(j as int), *snapshot),
        decreases list@.len() - j,
    {
        let ghost before = out;
        let name = list[j].1.node_name.as_str();
        let found = resolve_attachment(&list[j].1, name, snapshot);
        if found.is_some() && !out.contains_key(name) {
            out.insert(name.to_owned(), attached_volumes(name, snapshot));
        }
        proof {
            let a = list@[j as int].1;
            let shorter = list@.take(j as int);
            let longer = list@.take(j + 1);
            assert(longer.drop_last() =~= shorter);
            if found is Some {
                attachment_counts(list@, j as int, name@, *snapshot);
            }
            assert forall|n: Seq<char>|
                match (#[trigger] out.at(n)) {
                    Some(volumes) => (listed(snapshot.nodes@, n) || attached_to(n, *snapshot).len()
                        > 0) && holds(volumes, attached_to(n, *snapshot)),
                    None => true,
                } by {
                let was = before.at(n);
            }
            assert forall|n: Seq<char>|
                (#[trigger] attachment_volumes(longer, n, *snapshot)).len() > 0 implies out.at(
                n,
            ) is Some by {
                let was = before.at(n);
                let short = attachment_volumes(shorter, n, *snapshot);
                if n != name@ {
                    assert(attachment_volume(a, n, *snapshot) is None);
                }
            }
            assert forall|k: int| 0 <= k < nodes@.len() implies out.at(
                (#[trigger] nodes@[k]).name@,
            ) is Some by {
                assert(before.at(nodes@[k].name@) is Some);
            }
        }
        j += 1;
    }
    assert(list@.take(j as int) =~= list@);
    proof {
        assert forall|n: Seq<char>|
            match (#[trigger] out.at(n)) {
                Some(volumes) => (listed(snapshot.nodes@, n) || attached_to(n, *snapshot).len() > 0)
                    && holds(volumes, attached_to(n, *snapshot)),
                None => !listed(snapshot.nodes@, n) && attached_to(n, *snapshot).len() == 0,
            } by {
            if out.at(n) is None {
                let none = attachment_volumes(list@, n, *snapshot);
                unlisted_mounts_nothing(nodes@, n, *snapshot);
            }
        }
    }
    out
}

/// An attachment to a node that stands in a list counts among those of the
/// list.
proof fn attachment_counts(
    a: Seq<(String, VolumeAttachmentInfo)>,
    i: int,
    node: Seq<char>,
    snapshot: Snapshot,
)
    requires
        0 <= i < a.len(),
        attachment_volume(a[i].1, node, snapshot) is Some,
    ensures
        attachment_volumes(a, node, snapshot).len() > 0,
    decreases a.len(),
{
    if i < a.len() - 1 {
        assert(a.drop_last()[i] == a[i]);
        attachment_counts(a.drop_last(), i, node, snapshot);
    }
}

/// Every listed node's limits, where it has a CSI record.
pub open spec fn limits_everywhere(
    m: StrMap<StrMap<Option<i32>>>,
    nodes: Seq<Arc<NodeInfo>>,
    snapshot: Snapshot,
) -> bool {
    forall|n: Seq<char>|
        match (#[trigger] m.at(n)) {
            Some(limits) => listed(nodes, n) && snapshot.csi_nodes.at(n) is Some
                && limits.entries@ == snapshot.csi_nodes.at(n)->Some_0.drivers.entries@,
            None => !listed(nodes, n) || snapshot.csi_nodes.at(n) is None,
        }
}

fn copy_limits(m: &StrMap<Option<i32>>) -> (r: StrMap<Option<i32>>)
    ensures
        r.entries@ == m.entries@,
{
    let mut out: Vec<(String, Option<i32>)> = Vec::new();
    let mut i: usize = 0;
    while i < m.entries.len()
        invariant
            i <= m.entries@.len(),
            out@ == m.entries@.take(i as int),
        decreases m.entries@.len() - i,
    {
        out.push((m.entries[i].0.clone(), m.entries[i].1));
        i += 1;
        assert(m.entries@.take(i as int) =~= m.entries@.take(i - 1).push(m.entries@[i - 1]));
    }
    assert(m.entries@.take(i as int) =~= m.entries@);
    StrMap { entries: out }
}

pub fn limits_by_node(snapshot: &Snapshot) -> (r: StrMap<StrMap<Option<i32>>>)
    ensures
        limits_everywhere(r, snapshot.nodes@, *snapshot),
{
    let nodes = &snapshot.nodes;
    let mut out: StrMap<StrMap<Option<i32>>> = StrMap::new();
    let mut i: usize = 0;
    while i < nodes.len()
        invariant
            i <= nodes@.len(),
            nodes@ == snapshot.nodes@,
            limits_everywhere(out, nodes@.take(i as int), *snapshot),
        decreases nodes@.len() - i,
    {
        let ghost before = out;
        match snapshot.csi_node(nodes[i].name.as_str()) {
            Some(csi) => {
                out.insert(nodes[i].name.clone(), copy_limits(&csi.drivers));
            },
            None => {},
        }
        i += 1;
        proof {
            let shorter = nodes@.take(i - 1);
            let longer = nodes@.take(i as int);
            assert forall|n: Seq<char>|
                match (#[trigger] out.at(n)) {
                    Some(limits) => listed(longer, n) && snapshot.csi_nodes.at(n) is Some
                        && limits.entries@ == snapshot.csi_nodes.at(n)->Some_0.drivers.entries@,
                    None => !listed(longer, n) || snapshot.csi_nodes.at(n) is None,
                } by {
                let was = before.at(n);
                if listed(shorter, n) {
                    let k = choose|k: int|
                        0 <= k < shorter.len() && (#[trigger] shorter[k]).name@ == n;
                    assert(longer[k].name@ == n);
                }
                assert(longer[i - 1] == nodes@[i - 1]);
                if listed(longer, n) && nodes@[i - 1].name@ != n {
                    let k = choose|k: int|
                        0 <= k < longer.len() && (#[trigger] longer[k]).name@ == n;
                    assert(shorter[k].name@ == n);
                }
            }
        }
    }
    assert(nodes@.take(i as int) =~= nodes@);
    out
}

impl PreFilterPlugin for NodeVolumeLimits {
    open spec fn pre_filter_view(
        &self,
        before: CycleState,
        pod: PodInfo,
        snapshot: Snapshot,
        after: CycleState,
        status: StatusView,
    ) -> bool {
        let volumes = claim_volumes(pod.pvc_names@, pod.namespace@, snapshot);
        if volumes.len() == 0 {
            status == skip() && filter_switched_off(before, after, NAME@)
        } else {
            &&& status == success()
            &&& after.same_skips(&before)
            &&& forall|p: Seq<char>|
                p != NAME@ && p != ATTACHED_KEY@ && p != LIMITS_KEY@ ==> #[trigger] after.slots.at(
                    p,
                ) == before.slots.at(p)
            &&& after.value::<WantedVolumes>(NAME@) matches Some(w) && holds(w.0, volumes)
            &&& after.value::<AttachedVolumesByNode>(ATTACHED_KEY@) matches Some(a)
                && attached_everywhere(a.0, snapshot)
            &&& after.value::<LimitsByNodeAndDriver>(LIMITS_KEY@) matches Some(l)
                && limits_everywhere(l.0, snapshot.nodes@, snapshot)
        }
    }

    fn pre_filter(&self, state: &mut CycleState, pod: &PodInfo, snapshot: &Snapshot) -> (r: (
        Status,
        Option<Vec<String>>,
    ))
        ensures
            r.1 is None,
    {
        let wanted = volumes_for_pod(pod, snapshot);
        let ghost volumes = claim_volumes(pod.pvc_names@, pod.namespace@, *snapshot);
        proof {
            nonempty_holds(wanted, volumes);
            reveal_strlit("NodeVolumeLimits");
            reveal_strlit("NodeVolumeLimits/attached");
            reveal_strlit("NodeVolumeLimits/limits");
            assert(NAME@.len() == 16 && ATTACHED_KEY@.len() == 25 && LIMITS_KEY@.len() == 23);
        }
        if wanted.entries.len() == 0 {
            state.skip_filter(NAME);
            return (Status::skip(), None);
        }
        state.write(NAME, WantedVolumes(wanted));
        let ghost one = *state;
        state.write(ATTACHED_KEY, AttachedVolumesByNode(attached_volumes_by_node(snapshot)));
        let ghost two = *state;
        state.write(LIMITS_KEY, LimitsByNodeAndDriver(limits_by_node(snapshot)));
        proof {
            assert(two.slots.at(NAME@) == one.slots.at(NAME@));
            assert(state.slots.at(NAME@) == two.slots.at(NAME@));
            assert(state.slots.at(ATTACHED_KEY@) == two.slots.at(ATTACHED_KEY@));
            assert forall|p: Seq<char>|
                p != NAME@ && p != ATTACHED_KEY@ && p != LIMITS_KEY@ implies #[trigger] state.slots.at(
                p,
            ) == old(state).slots.at(p) by {
                let a = one.slots.at(p);
                let b = two.slots.at(p);
            }
        }
        (Status::success(), None)
    }
}

proof fn nonempty_holds(m: StrMap<String>, volumes: Seq<Volume>)
    requires
        holds(m, volumes),
    ensures
        m.entries@.len() == 0 <==> volumes.len() == 0,
{
    if volumes.len() > 0 {
        let id = volumes.last().0;
        assert(driver_of(volumes, id) is Some);
        assert(m.text(id) is Some);
    }
    if m.entries@.len() > 0 {
        let id = m.entries@[0].0@;
        assert(m.text(id) is Some);
    }
}

/// How many entries of a map are of a driver.
pub open spec fn of_driver(e: Seq<(String, String)>, driver: Seq<char>) -> nat
    decreases e.len(),
{
    if e.len() == 0 {
        0
    } else {
        of_driver(e.drop_last(), driver) + if e.last().1@ == driver {
            1nat
        } else {
            0nat
        }
    }
}

/// How many wanted volumes of a driver are not attached yet.
pub open spec fn newly_of_driver(
    e: Seq<(String, String)>,
    attached: Seq<(String, String)>,
    driver: Seq<char>,
) -> nat
    decreases e.len(),
{
    if e.len() == 0 {
        0
    } else {
        newly_of_driver(e.drop_last(), attached, driver) + if e.last().1@ == driver
            && find_key(attached, e.last().0@) is None {
            1nat
        } else {
            0nat
        }
    }
}

/// The driver would pass its limit on the node.
pub open spec fn exceeds(
    wanted: Seq<(String, String)>,
    attached: Seq<(String, String)>,
    limits: StrMap<Option<i32>>,
    driver: Seq<char>,
) -> bool {
    match limits.at(driver) {
        Some(Some(limit)) => limit >= 0 && of_driver(attached, driver) + newly_of_driver(
            wanted,
            attached,
            driver,
        ) > limit,
        _ => false,
    }
}

/// The driver of the first volume of a list that is not attached yet and whose
/// driver would pass its limit.
pub open spec fn first_exceeding(
    list: Seq<(String, String)>,
    wanted: Seq<(String, String)>,
    attached: Seq<(String, String)>,
    limits: StrMap<Option<i32>>,
) -> Option<Seq<char>>
    decreases list.len(),
{
    if list.len() == 0 {
        None
    } else {
        match first_exceeding(list.drop_last(), wanted, attached, limits) {
            Some(d) => Some(d),
            None => if find_key(attached, list.last().0@) is None && exceeds(
                wanted,
                attached,
                limits,
                list.last().1@,
            ) {
                Some(list.last().1@)
            } else {
                None
            },
        }
    }
}

fn count_of_driver(e: &Vec<(String, String)>, driver: &str) -> (r: usize)
    ensures
        r == of_driver(e@, driver@),
{
    let mut n: usize = 0;
    let mut i: usize = 0;
    while i < e.len()
        invariant
            i <= e@.len(),
            n <= i,
            n == of_driver(e@.take(i as int), driver@),
        decreases e@.len() - i,
    {
        if text_eq(e[i].1.as_str(), driver) {
            n += 1;
        }
        i += 1;
        assert(e@.take(i as int).drop_last() =~= e@.take(i - 1));
    }
    assert(e@.take(i as int) =~= e@);
    n
}

fn count_newly(e: &Vec<(String, String)>, attached: &StrMap<String>, driver: &str) -> (r: usize)
    ensures
        r == newly_of_driver(e@, attached.entries@, driver@),
{
    let mut n: usize = 0;
    let mut i: usize = 0;
    while i < e.len()
        invariant
            i <= e@.len(),
            n <= i,
            n == newly_of_driver(e@.take(i as int), attached.entries@, driver@),
        decreases e@.len() - i,
    {
        if text_eq(e[i].1.as_str(), driver) && !attached.contains_key(e[i].0.as_str()) {
            n += 1;
        }
        i += 1;
        assert(e@.take(i as int).drop_last() =~= e@.take(i - 1));
    }
    assert(e@.take(i as int) =~= e@);
    n
}

fn is_exceeding(
    wanted: &Vec<(String, String)>,
    attached: &StrMap<String>,
    limits: &StrMap<Option<i32>>,
    driver: &str,
) -> (r: bool)
    ensures
        r == exceeds(wanted@, attached.entries@, *limits, driver@),
{
    match limits.get(driver) {
        Some(Some(limit)) => {
            let already: usize = count_of_driver(&attached.entries, driver);
            let want: usize = count_newly(wanted, attached, driver);
            *limit >= 0 && (already as u128) + (want as u128) > *limit as u128
        },
        _ => false,
    }
}

fn find_exceeding(
    wanted: &Vec<(String, String)>,
    attached: &StrMap<String>,
    limits: &StrMap<Option<i32>>,
) -> (r: Option<String>)
    ensures
        match first_exceeding(wanted@, wanted@, attached.entries@, *limits) {
            Some(d) => r is Some && r->Some_0@ == d,
            None => r is None,
        },
{
    let mut found: Option<String> = None;
    let mut i: usize = 0;
    while i < wanted.len()
        invariant
            i <= wanted@.len(),
            match first_exceeding(wanted@.take(i as int), wanted@, attached.entries@, *limits) {
                Some(d) => found is Some && found->Some_0@ == d,
                None => found is None,
            },
        decreases wanted@.len() - i,
    {
        if found.is_none() && !attached.contains_key(wanted[i].0.as_str()) && is_exceeding(
            wanted,
            attached,
            limits,
            wanted[i].1.as_str(),
        ) {
            found = Some(wanted[i].1.clone());
        }
        i += 1;
        assert(wanted@.take(i as int).drop_last() =~= wanted@.take(i - 1));
    }
    assert(wanted@.take(i as int) =~= wanted@);
    found
}

/// The volumes attached to a node, as a cycle knows them; none where it does
/// not.
pub open spec fn known_attached(state: CycleState, node: Seq<char>) -> Seq<(String, String)> {
    match state.value::<AttachedVolumesByNode>(ATTACHED_KEY@) {
        Some(a) => match a.0.at(node) {
            Some(volumes) => volumes.entries@,
            None => Seq::empty(),
        },
        None => Seq::empty(),
    }
}

pub open spec fn known_limits(state: CycleState, node: Seq<char>) -> Option<StrMap<Option<i32>>> {
    match state.value::<LimitsByNodeAndDriver>(LIMITS_KEY@) {
        Some(l) => l.0.at(node),
        None => None,
    }
}

/// The verdict on wanted and attached volumes under a node's limits.
pub open spec fn limit_verdict(
    wanted: Seq<(String, String)>,
    attached: Seq<(String, String)>,
    limits: StrMap<Option<i32>>,
) -> StatusView {
    match first_exceeding(wanted, wanted, attached, limits) {
        Some(driver) => unschedulable(
            NAME@,
            "node(s) exceed max volume count for driver "@ + quoted(driver),
        ),
        None => success(),
    }
}

impl FilterPlugin for NodeVolumeLimits {
    open spec fn filter_view(&self, state: CycleState, pod: PodInfo, node: NodeInfo) -> StatusView {
        match (state.value::<WantedVolumes>(NAME@), known_limits(state, node.name@)) {
            (Some(w), Some(limits)) => limit_verdict(
                w.0.entries@,
                known_attached(state, node.name@),
                limits,
            ),
            _ => success(),
        }
    }

    fn filter(&self, state: &CycleState, pod: &PodInfo, node: &NodeInfo) -> (r: Status) {
        let wanted = match state.read::<WantedVolumes>(NAME) {
            Some(w) => &w.0.entries,
            None => {
                return Status::success();
            },
        };
        let limits = match state.read::<LimitsByNodeAndDriver>(LIMITS_KEY) {
            Some(l) => match l.0.get(node.name.as_str()) {
                Some(limits) => limits,
                None => {
                    return Status::success();
                },
            },
            None => {
                return Status::success();
            },
        };
        let nothing: StrMap<String> = StrMap::new();
        let attached = match state.read::<AttachedVolumesByNode>(ATTACHED_KEY) {
            Some(a) => match a.0.get(node.name.as_str()) {
                Some(volumes) => volumes,
                None => &nothing,
            },
            None => &nothing,
        };
        match find_exceeding(wanted, attached, limits) {
            Some(driver) => {
                let name = debug_text(driver.as_str());
                let text = joined("node(s) exceed max volume count for driver ", name.as_str());
                Status::unschedulable(NAME, text.as_str())
            },
            None => Status::success(),
        }
    }
}

/// A volume that is attached already takes no further slot: where every wanted
/// volume is attached, the node is within its limits.
pub proof fn attached_volumes_are_free(
    list: Seq<(String, String)>,
    wanted: Seq<(String, String)>,
    attached: Seq<(String, String)>,
    limits: StrMap<Option<i32>>,
)
    requires
        forall|i: int| 0 <= i < list.len() ==> find_key(attached, (#[trigger] list[i]).0@) is Some,
    ensures
        first_exceeding(list, wanted, attached, limits) is None,
    decreases list.len(),
{
    if list.len() > 0 {
        assert forall|i: int| 0 <= i < list.drop_last().len() implies find_key(
            attached,
            (#[trigger] list.drop_last()[i]).0@,
        ) is Some by {
            assert(list.drop_last()[i] == list[i]);
        }
        attached_volumes_are_free(list.drop_last(), wanted, attached, limits);
        assert(find_key(attached, list[list.len() - 1].0@) is Some);
    }
}

/// The identities of a list of volumes that are of a driver and not in another
/// list.
pub open spec fn new_ids(volumes: Seq<Volume>, known: Seq<Volume>, driver: Seq<char>) -> Set<
    Seq<char>,
> {
    Set::new(
        |id: Seq<char>|
            driver_of(volumes, id) == Some(driver) && driver_of(known, id) is None,
    )
}

spec fn entry_ids(
    e: Seq<(String, String)>,
    attached: Seq<(String, String)>,
    driver: Seq<char>,
) -> Set<Seq<char>> {
    Set::new(
        |id: Seq<char>|
            (find_key(e, id) matches Some(d) && d@ == driver) && find_key(attached, id) is None,
    )
}

proof fn entries_are_counted(
    e: Seq<(String, String)>,
    attached: Seq<(String, String)>,
    driver: Seq<char>,
)
    requires
        keys_ascending(e),
    ensures
        entry_ids(e, attached, driver).finite(),
        entry_ids(e, attached, driver).len() == newly_of_driver(e, attached, driver),
    decreases e.len(),
{
    let all = entry_ids(e, attached, driver);
    if e.len() == 0 {
        assert(all =~= Set::empty());
    } else {
        let t = e.drop_last();
        let last = e.len() - 1;
        let key = e[last].0@;
        assert forall|i: int, j: int| 0 <= i < j < t.len() implies text_less(
            (#[trigger] t[i]).0@,
            (#[trigger] t[j]).0@,
        ) by {
            assert(text_less(e[i].0@, e[j].0@));
        }
        entries_are_counted(t, attached, driver);
        let rest = entry_ids(t, attached, driver);
        assert forall|i: int| 0 <= i < last implies (#[trigger] e[i]).0@ != key by {
            assert(text_less(e[i].0@, e[last].0@));
            text_less_irreflexive(key);
        }
        find_key_at(e, key, last);
        if find_key(t, key) is Some {
            let i = find_key_index(t, key);
            assert(e[i].0@ != key);
        }
        assert forall|k: Seq<char>| k != key implies #[trigger] find_key(e, k) == find_key(t, k) by {
            if find_key(t, k) is Some {
                let i = find_key_index(t, k);
                assert forall|j: int| 0 <= j < i implies (#[trigger] e[j]).0@ != k by {
                    assert(t[j].0@ != k);
                }
                find_key_at(e, k, i);
            } else if find_key(e, k) is Some {
                let i = find_key_index(e, k);
                first_of(t, k, i);
            }
        }
        if e[last].1@ == driver && find_key(attached, key) is None {
            assert(all =~= rest.insert(key));
            assert(!rest.contains(key));
        } else {
            assert(all =~= rest);
        }
    }
}

proof fn all_are_new(e: Seq<(String, String)>, driver: Seq<char>)
    ensures
        newly_of_driver(e, Seq::empty(), driver) == of_driver(e, driver),
    decreases e.len(),
{
    if e.len() > 0 {
        all_are_new(e.drop_last(), driver);
    }
}

proof fn nothing_exceeds(
    list: Seq<(String, String)>,
    wanted: Seq<(String, String)>,
    attached: Seq<(String, String)>,
    limits: StrMap<Option<i32>>,
)
    ensures
        first_exceeding(list, wanted, attached, limits) is None <==> forall|i: int|
            0 <= i < list.len() && find_key(attached, (#[trigger] list[i]).0@) is None ==> !exceeds(
                wanted,
                attached,
                limits,
                list[i].1@,
            ),
    decreases list.len(),
{
    if list.len() > 0 {
        let t = list.drop_last();
        let last = list.len() - 1;
        nothing_exceeds(t, wanted, attached, limits);
        assert(list[last] == list.last());
        assert forall|i: int| 0 <= i < last implies #[trigger] list[i] == t[i] by {}
        if first_exceeding(t, wanted, attached, limits) is Some {
            let i = choose|i: int|
                0 <= i < t.len() && find_key(attached, (#[trigger] t[i]).0@) is None && exceeds(
                    wanted,
                    attached,
                    limits,
                    t[i].1@,
                );
            assert(list[i] == t[i]);
        }
    }
}

/// A listed node with a CSI record passes exactly where, for every driver that
/// the pod brings a volume of that is not attached there yet, the volumes of the
/// driver attached to the node and the new ones, each counted once, are within
/// the driver's limit, if it has one.
pub proof fn passing_means_within_limits(
    plugin: NodeVolumeLimits,
    before: CycleState,
    pod: PodInfo,
    snapshot: Snapshot,
    state: CycleState,
    status: StatusView,
    node: NodeInfo,
)
    requires
        plugin.pre_filter_view(before, pod, snapshot, state, status),
        status == success(),
        listed(snapshot.nodes@, node.name@),
        snapshot.csi_nodes.at(node.name@) is Some,
    ensures
        ({
            let wanted = claim_volumes(pod.pvc_names@, pod.namespace@, snapshot);
            let attached = attached_to(node.name@, snapshot);
            plugin.filter_view(state, pod, node) == success() <==> forall|d: Seq<char>|
                (snapshot.csi_nodes.at(node.name@)->Some_0.drivers.at(d) matches Some(Some(limit))
                    ==> limit >= 0 && !(#[trigger] new_ids(wanted, attached, d)).is_empty()
                    ==> new_ids(attached, Seq::empty(), d).len() + new_ids(
                    wanted,
                    attached,
                    d,
                ).len() <= limit)
        }),
{
    let wanted = claim_volumes(pod.pvc_names@, pod.namespace@, snapshot);
    let attached = attached_to(node.name@, snapshot);
    let wm = state.value::<WantedVolumes>(NAME@)->Some_0.0;
    let we = wm.entries@;
    let am = state.value::<AttachedVolumesByNode>(ATTACHED_KEY@)->Some_0.0.at(node.name@);
    assert(am is Some);
    let ae = am->Some_0.entries@;
    let limits = state.value::<LimitsByNodeAndDriver>(LIMITS_KEY@)->Some_0.0.at(node.name@);
    assert(limits is Some);
    let lm = limits->Some_0;
    assert(forall|d: Seq<char>| lm.at(d) == snapshot.csi_nodes.at(node.name@)->Some_0.drivers.at(d));
    nothing_exceeds(we, we, ae, lm);
    assert forall|id: Seq<char>| #[trigger] driver_of(wanted, id) == (match find_key(we, id) {
        Some(d) => Some(d@),
        None => None,
    }) by {
        assert(wm.text(id) == driver_of(wanted, id));
    }
    assert forall|id: Seq<char>| #[trigger] driver_of(attached, id) == (match find_key(ae, id) {
        Some(d) => Some(d@),
        None => None,
    }) by {
        assert(am->Some_0.text(id) == driver_of(attached, id));
    }
    assert forall|d: Seq<char>| true implies #[trigger] new_ids(wanted, attached, d).len()
        == newly_of_driver(we, ae, d) && new_ids(attached, Seq::empty(), d).len() == of_driver(
        ae,
        d,
    ) && new_ids(wanted, attached, d) == entry_ids(we, ae, d) by {
        entries_are_counted(we, ae, d);
        entries_are_counted(ae, Seq::empty(), d);
        all_are_new(ae, d);
        assert(new_ids(wanted, attached, d) =~= entry_ids(we, ae, d));
        assert(new_ids(attached, Seq::empty(), d) =~= entry_ids(ae, Seq::empty(), d));
    }
    if plugin.filter_view(state, pod, node) == success() {
        assert forall|d: Seq<char>| (lm.at(d) matches Some(Some(limit)) && limit >= 0 && !(
        #[trigger] new_ids(wanted, attached, d)).is_empty()) implies new_ids(
            attached,
            Seq::empty(),
            d,
        ).len() + new_ids(wanted, attached, d).len() <= lm.at(d)->Some_0->Some_0 by {
            let id = choose|id: Seq<char>| new_ids(wanted, attached, d).contains(id);
            assert(new_ids(wanted, attached, d).contains(id));
            assert(entry_ids(we, ae, d).contains(id));
            let i = find_key_index(we, id);
            assert(!exceeds(we, ae, lm, we[i].1@));
        }
    } else {
        let i = choose|i: int|
            0 <= i < we.len() && find_key(ae, (#[trigger] we[i]).0@) is None && exceeds(
                we,
                ae,
                lm,
                we[i].1@,
            );
        let d = we[i].1@;
        let id = we[i].0@;
        assert forall|j: int| 0 <= j < i implies (#[trigger] we[j]).0@ != id by {
            assert(text_less(we[j].0@, we[i].0@));
            text_less_irreflexive(id);
        }
        find_key_at(we, id, i);
        assert(entry_ids(we, ae, d).contains(id));
        assert(new_ids(wanted, attached, d).contains(id));
        assert(!new_ids(wanted, attached, d).is_empty());
    }
}

/// The volumes of a list of claims are exactly those that its claims stand for.
pub proof fn every_claim_brings_its_volume(
    claims: Seq<String>,
    namespace: Seq<char>,
    snapshot: Snapshot,
    v: Volume,
)
    ensures
        claim_volumes(claims, namespace, snapshot).contains(v) <==> exists|i: int|
            0 <= i < claims.len() && volume_of(snapshot, namespace, (#[trigger] claims[i])@)
                == Some(v),
    decreases claims.len(),
{
    if claims.len() > 0 {
        let t = claims.drop_last();
        let last = claims.len() - 1;
        every_claim_brings_its_volume(t, namespace, snapshot, v);
        let all = claim_volumes(claims, namespace, snapshot);
        let rest = claim_volumes(t, namespace, snapshot);
        assert(claims[last] == claims.last());
        assert forall|i: int| 0 <= i < last implies #[trigger] claims[i] == t[i] by {}
        if rest.contains(v) {
            let k = choose|k: int| 0 <= k < rest.len() && rest[k] == v;
            assert(all[k] == v);
            let i = choose|i: int|
                0 <= i < t.len() && volume_of(snapshot, namespace, (#[trigger] t[i])@) == Some(v);
            assert(claims[i] == t[i]);
        }
        if volume_of(snapshot, namespace, claims[last]@) == Some(v) {
            assert(all[all.len() - 1] == v);
        }
        if all.contains(v) && !rest.contains(v) {
            let k = choose|k: int| 0 <= k < all.len() && all[k] == v;
            if k < rest.len() {
                assert(rest[k] == v);
            }
        }
    }
}

proof fn pods_bring_volumes(pods: Seq<Arc<PodInfo>>, snapshot: Snapshot, v: Volume)
    ensures
        pod_volumes(pods, snapshot).contains(v) <==> exists|p: int, i: int|
            0 <= p < pods.len() && 0 <= i < pods[p].pvc_names@.len() && volume_of(
                snapshot,
                pods[p].namespace@,
                (#[trigger] pods[p].pvc_names@[i])@,
            ) == Some(v),
    decreases pods.len(),
{
    if pods.len() > 0 {
        let t = pods.drop_last();
        let last = pods.len() - 1;
        let p = pods.last();
        pods_bring_volumes(t, snapshot, v);
        every_claim_brings_its_volume(p.pvc_names@, p.namespace@, snapshot, v);
        let all = pod_volumes(pods, snapshot);
        let rest = pod_volumes(t, snapshot);
        let more = claim_volumes(p.pvc_names@, p.namespace@, snapshot);
        assert(pods[last] == p);
        if rest.contains(v) {
            let k = choose|k: int| 0 <= k < rest.len() && rest[k] == v;
            assert(all[k] == v);
            let (q, i) = choose|q: int, i: int|
                0 <= q < t.len() && 0 <= i < t[q].pvc_names@.len() && volume_of(
                    snapshot,
                    t[q].namespace@,
                    (#[trigger] t[q].pvc_names@[i])@,
                ) == Some(v);
            assert(volume_of(snapshot, pods[q].namespace@, pods[q].pvc_names@[i]@) == Some(v));
        }
        if more.contains(v) {
            let k = choose|k: int| 0 <= k < more.len() && more[k] == v;
            assert(all[rest.len() + k] == v);
            let i = choose|i: int|
                0 <= i < p.pvc_names@.len() && volume_of(
                    snapshot,
                    p.namespace@,
                    (#[trigger] p.pvc_names@[i])@,
                ) == Some(v);
            assert(volume_of(snapshot, pods[last].namespace@, pods[last].pvc_names@[i]@) == Some(v));
        }
        if all.contains(v) {
            let k = choose|k: int| 0 <= k < all.len() && all[k] == v;
            if k < rest.len() {
                assert(rest[k] == v);
            } else {
                assert(more[k - rest.len()] == v);
            }
        }
        if exists|q: int, i: int|
            0 <= q < pods.len() && 0 <= i < pods[q].pvc_names@.len() && volume_of(
                snapshot,
                pods[q].namespace@,
                (#[trigger] pods[q].pvc_names@[i])@,
            ) == Some(v) {
            let (q, i) = choose|q: int, i: int|
                0 <= q < pods.len() && 0 <= i < pods[q].pvc_names@.len() && volume_of(
                    snapshot,
                    pods[q].namespace@,
                    (#[trigger] pods[q].pvc_names@[i])@,
                ) == Some(v);
            if q < last {
                assert(volume_of(snapshot, t[q].namespace@, t[q].pvc_names@[i]@) == Some(v));
            } else {
                assert(volume_of(snapshot, p.namespace@, p.pvc_names@[i]@) == Some(v));
            }
        }
    }
}

/// Every volume of every pod on a node counts as attached there.
pub proof fn volumes_of_pods_are_attached(
    nodes: Seq<Arc<NodeInfo>>,
    snapshot: Snapshot,
    n: int,
    p: int,
    i: int,
)
    requires
        0 <= n < nodes.len(),
        0 <= p < nodes[n].pods@.len(),
        0 <= i < nodes[n].pods@[p].pvc_names@.len(),
        volume_of(
            snapshot,
            nodes[n].pods@[p].namespace@,
            nodes[n].pods@[p].pvc_names@[i]@,
        ) is Some,
    ensures
        mounted_on(nodes, nodes[n].name@, snapshot).contains(
            volume_of(
                snapshot,
                nodes[n].pods@[p].namespace@,
                nodes[n].pods@[p].pvc_names@[i]@,
            )->Some_0,
        ),
    decreases nodes.len(),
{
    let name = nodes[n].name@;
    let pods = nodes[n].pods@;
    let v = volume_of(snapshot, pods[p].namespace@, pods[p].pvc_names@[i]@)->Some_0;
    let t = nodes.drop_last();
    let last = nodes.len() - 1;
    let rest = mounted_on(t, name, snapshot);
    let all = mounted_on(nodes, name, snapshot);
    if n < last {
        volumes_of_pods_are_attached(t, snapshot, n, p, i);
        let k = choose|k: int| 0 <= k < rest.len() && rest[k] == v;
        assert(all[k] == v);
    } else {
        pods_bring_volumes(pods, snapshot, v);
        assert(volume_of(snapshot, pods[p].namespace@, pods[p].pvc_names@[i]@) == Some(v));
        let more = pod_volumes(pods, snapshot);
        let k = choose|k: int| 0 <= k < more.len() && more[k] == v;
        assert(all[rest.len() + k] == v);
    }
}

/// The volumes that linger on a node are exactly those of its attachments.
pub proof fn every_attachment_counts(
    a: Seq<(String, VolumeAttachmentInfo)>,
    node: Seq<char>,
    snapshot: Snapshot,
    v: Volume,
)
    ensures
        attachment_volumes(a, node, snapshot).contains(v) <==> exists|i: int|
            0 <= i < a.len() && attachment_volume((#[trigger] a[i]).1, node, snapshot) == Some(v),
    decreases a.len(),
{
    if a.len() > 0 {
        let t = a.drop_last();
        let last = a.len() - 1;
        every_attachment_counts(t, node, snapshot, v);
        let all = attachment_volumes(a, node, snapshot);
        let rest = attachment_volumes(t, node, snapshot);
        assert(a[last] == a.last());
        assert forall|i: int| 0 <= i < last implies #[trigger] a[i] == t[i] by {}
        if rest.contains(v) {
            let k = choose|k: int| 0 <= k < rest.len() && rest[k] == v;
            assert(all[k] == v);
            let i = choose|i: int|
                0 <= i < t.len() && attachment_volume((#[trigger] t[i]).1, node, snapshot) == Some(
                    v,
                );
            assert(a[i] == t[i]);
        }
        if attachment_volume(a[last].1, node, snapshot) == Some(v) {
            assert(all[all.len() - 1] == v);
        }
        if all.contains(v) && !rest.contains(v) {
            let k = choose|k: int| 0 <= k < all.len() && all[k] == v;
            if k < rest.len() {
                assert(rest[k] == v);
            }
        }
    }
}

/// An identity has a driver exactly where a volume of the list has it.
pub proof fn identities_are_listed(volumes: Seq<Volume>, id: Seq<char>)
    ensures
        driver_of(volumes, id) is Some <==> exists|i: int|
            0 <= i < volumes.len() && (#[trigger] volumes[i]).0 == id,
        driver_of(volumes, id) matches Some(d) ==> volumes.contains((id, d)),
    decreases volumes.len(),
{
    if volumes.len() > 0 {
        let t = volumes.drop_last();
        let last = volumes.len() - 1;
        identities_are_listed(t, id);
        assert(volumes[last] == volumes.last());
        assert forall|i: int| 0 <= i < last implies #[trigger] volumes[i] == t[i] by {}
        if volumes.last().0 != id && driver_of(t, id) is Some {
            let d = driver_of(t, id)->Some_0;
            let k = choose|k: int| 0 <= k < t.len() && t[k] == (id, d);
            assert(volumes[k] == (id, d));
        }
    }
}

} // verus!
