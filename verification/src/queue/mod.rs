//! The scheduling queue: which pod is tried next, and when a stuck pod is tried
//! again.
//!
//! Pods ready to schedule are *active*, in the order of the sort plugin. Pods
//! that failed a cycle serve *backoff*, in the order in which they come due.
//! Rejected pods are *parked* until an event that a plugin declared says
//! otherwise; nothing polls them.
//!
//! An event that arrives while a cycle runs is recorded behind the marker of
//! every pod in flight, and replayed for such a pod if its cycle fails.
//!
//! Times are nanoseconds of one clock, handed in by the caller.

pub mod backoff;
pub mod hints;

use crate::cache::PodInfo;
use crate::events::ClusterEvent;
use crate::framework::status::Code;
use crate::framework::{
    unref, ChangedObject, PreEnqueuePlugin, QueueSortPlugin, QueueingHintFn,
};
use crate::text::{text_eq, views};
use backoff::{backoff_of, by_expiry, due, later, later_by, others, pods_of, scheduled, BackoffQueue, Entry};
use hints::{HintRegistry, RequeueDecision};
use std::sync::Arc;
use vstd::prelude::*;

verus! {

/// How long a pod may be parked before it is retried regardless: five minutes.
pub const DEFAULT_MAX_IN_UNSCHEDULABLE: u64 = 300_000_000_000;

/// A pod waiting for something to change, and what it is waiting on.
pub struct Unschedulable {
    pub pod: Arc<PodInfo>,
    /// Plugins that rejected it: retry after backoff.
    pub unschedulable_plugins: Arc<Vec<String>>,
    /// Plugins that rejected it with progress: retry at once.
    pub pending_plugins: Arc<Vec<String>>,
    pub since: u64,
}

impl Unschedulable {
    fn copy(&self) -> (r: Self)
        ensures
            r == *self,
    {
        Unschedulable {
            pod: self.pod.clone(),
            unschedulable_plugins: self.unschedulable_plugins.clone(),
            pending_plugins: self.pending_plugins.clone(),
            since: self.since,
        }
    }
}

/// What a parked entry says.
pub struct Parked {
    pub pod: Arc<PodInfo>,
    pub unschedulable: Seq<Seq<char>>,
    pub pending: Seq<Seq<char>>,
    pub since: u64,
}

impl View for Unschedulable {
    type V = Parked;

    open spec fn view(&self) -> Parked {
        Parked {
            pod: self.pod,
            unschedulable: views(self.unschedulable_plugins@),
            pending: views(self.pending_plugins@),
            since: self.since,
        }
    }
}

/// The entries of a parked list.
pub open spec fn parked_views(p: Seq<Unschedulable>) -> Seq<Parked> {
    p.map_values(|u: Unschedulable| u@)
}

/// One entry in the timeline of cycles and events.
pub enum InFlight {
    /// A cycle started for this pod.
    PodMarker(String),
    /// An event arrived while a cycle was running.
    Event { event: ClusterEvent, old: Option<ChangedObject>, new: Option<ChangedObject> },
}

/// What a timeline entry says.
pub enum Moment {
    Marker(Seq<char>),
    Change { event: ClusterEvent, old: Option<ChangedObject>, new: Option<ChangedObject> },
}

fn copy_object(o: &Option<ChangedObject>) -> (r: Option<ChangedObject>)
    ensures
        r == *o,
{
    match o {
        Some(c) => Some(c.copy()),
        None => None,
    }
}

impl InFlight {
    fn copy(&self) -> (r: Self)
        ensures
            r == *self,
    {
        match self {
            InFlight::PodMarker(uid) => InFlight::PodMarker(uid.clone()),
            InFlight::Event { event, old, new } => InFlight::Event {
                event: *event,
                old: copy_object(old),
                new: copy_object(new),
            },
        }
    }
}

impl View for InFlight {
    type V = Moment;

    open spec fn view(&self) -> Moment {
        match *self {
            InFlight::PodMarker(uid) => Moment::Marker(uid@),
            InFlight::Event { event, old, new } => Moment::Change { event, old, new },
        }
    }
}

/// The entries of a timeline.
pub open spec fn moments(t: Seq<InFlight>) -> Seq<Moment> {
    t.map_values(|m: InFlight| m@)
}

/// Which pod goes first, which may enter, and what wakes a parked one.
pub struct Rules<L: QueueSortPlugin, P: PreEnqueuePlugin, H: QueueingHintFn> {
    pub less: L,
    pub pre_enqueue: P,
    pub hints: HintRegistry<H>,
    pub max_in_unschedulable: u64,
}

pub struct SchedulingQueue<L: QueueSortPlugin, P: PreEnqueuePlugin, H: QueueingHintFn> {
    pub rules: Rules<L, P, H>,
    pub active: Vec<Arc<PodInfo>>,
    pub unschedulable: Vec<Unschedulable>,
    pub backoff: BackoffQueue,
    pub in_flight: Vec<InFlight>,
    /// Pods in the middle of a cycle.
    pub in_flight_uids: Vec<String>,
    pub rescued: u64,
}

/// The contents of a queue.
pub struct QueueView {
    pub active: Seq<Arc<PodInfo>>,
    pub parked: Seq<Parked>,
    pub backoff: Seq<Entry>,
    pub timeline: Seq<Moment>,
    pub flying: Seq<Seq<char>>,
    pub rescued: u64,
    pub initial: u64,
    pub max: u64,
}

/// The uid is of a pod in the list.
pub open spec fn listed(pods: Seq<Arc<PodInfo>>, uid: Seq<char>) -> bool {
    exists|i: int| 0 <= i < pods.len() && (#[trigger] pods[i]).uid@ == uid
}

/// Where a pod belongs in the active list: before the first it goes before.
pub open spec fn place<L: QueueSortPlugin>(pods: Seq<Arc<PodInfo>>, pod: PodInfo, less: L) -> int
    decreases pods.len(),
{
    if pods.len() == 0 || less.less_view(pod, *pods[0]) {
        0
    } else {
        1 + place(pods.skip(1), pod, less)
    }
}

proof fn place_is<L: QueueSortPlugin>(pods: Seq<Arc<PodInfo>>, pod: PodInfo, less: L, i: int)
    requires
        0 <= i <= pods.len(),
        forall|k: int| 0 <= k < i ==> !less.less_view(pod, *#[trigger] pods[k]),
        i < pods.len() ==> less.less_view(pod, *pods[i]),
    ensures
        place(pods, pod, less) == i,
    decreases pods.len(),
{
    if pods.len() > 0 && i > 0 {
        assert(!less.less_view(pod, *pods[0]));
        assert forall|k: int| 0 <= k < i - 1 implies !less.less_view(
            pod,
            *#[trigger] pods.skip(1)[k],
        ) by {
            assert(pods.skip(1)[k] == pods[k + 1]);
        }
        place_is(pods.skip(1), pod, less, i - 1);
    }
}

proof fn place_bounds<L: QueueSortPlugin>(pods: Seq<Arc<PodInfo>>, pod: PodInfo, less: L)
    ensures
        0 <= place(pods, pod, less) <= pods.len(),
        forall|k: int|
            0 <= k < place(pods, pod, less) ==> !less.less_view(pod, *#[trigger] pods[k]),
        place(pods, pod, less) < pods.len() ==> less.less_view(
            pod,
            *pods[place(pods, pod, less)],
        ),
    decreases pods.len(),
{
    if pods.len() > 0 && !less.less_view(pod, crate::maps::shared(pods[0])) {
        place_bounds(pods.skip(1), pod, less);
        let r = place(pods.skip(1), pod, less);
        assert forall|k: int| 0 <= k < r + 1 implies !less.less_view(
            pod,
            *#[trigger] pods[k],
        ) by {
            if k > 0 {
                assert(pods.skip(1)[k - 1] == pods[k]);
            }
        }
    }
}

/// The active list with a pod in its place, unless it is there already.
pub open spec fn activated<L: QueueSortPlugin>(
    active: Seq<Arc<PodInfo>>,
    pod: Arc<PodInfo>,
    less: L,
) -> Seq<Arc<PodInfo>> {
    if listed(active, pod.uid@) {
        active
    } else {
        active.insert(place(active, *pod, less), pod)
    }
}

/// The active list with several pods put in, in turn.
pub open spec fn all_activated<L: QueueSortPlugin>(
    active: Seq<Arc<PodInfo>>,
    pods: Seq<Arc<PodInfo>>,
    less: L,
) -> Seq<Arc<PodInfo>>
    decreases pods.len(),
{
    if pods.len() == 0 {
        active
    } else {
        activated(all_activated(active, pods.drop_last(), less), pods.last(), less)
    }
}

/// The parked entries of every pod but one.
pub open spec fn unparked(p: Seq<Parked>, uid: Seq<char>) -> Seq<Parked>
    decreases p.len(),
{
    if p.len() == 0 {
        Seq::empty()
    } else if p.last().pod.uid@ != uid {
        unparked(p.drop_last(), uid).push(p.last())
    } else {
        unparked(p.drop_last(), uid)
    }
}

/// The parked entries with one for a pod, in place of any it had.
pub open spec fn parked_with(p: Seq<Parked>, entry: Parked) -> Seq<Parked> {
    unparked(p, entry.pod.uid@).push(entry)
}

/// A pod that is held without having been tried.
pub open spec fn held(pod: Arc<PodInfo>, now: u64) -> Parked {
    Parked { pod, unschedulable: Seq::empty(), pending: Seq::empty(), since: now }
}

/// The queue after a pod is offered: active where admission lets it in, else
/// held.
pub open spec fn offered<L: QueueSortPlugin, P: PreEnqueuePlugin, H: QueueingHintFn>(
    q: QueueView,
    rules: Rules<L, P, H>,
    pod: Arc<PodInfo>,
    now: u64,
) -> QueueView {
    if rules.pre_enqueue.pre_enqueue_view(*pod).code == Code::Success {
        QueueView { active: activated(q.active, pod, rules.less), ..q }
    } else {
        QueueView { parked: parked_with(q.parked, held(pod, now)), ..q }
    }
}

/// The queue after several pods are offered in turn.
pub open spec fn all_offered<L: QueueSortPlugin, P: PreEnqueuePlugin, H: QueueingHintFn>(
    q: QueueView,
    rules: Rules<L, P, H>,
    pods: Seq<Arc<PodInfo>>,
    now: u64,
) -> QueueView
    decreases pods.len(),
{
    if pods.len() == 0 {
        q
    } else {
        offered(all_offered(q, rules, pods.drop_last(), now), rules, pods.last(), now)
    }
}

/// The queue after a pod starts to serve backoff.
pub open spec fn penalised(q: QueueView, pod: Arc<PodInfo>, now: u64) -> QueueView {
    QueueView {
        backoff: scheduled(
            q.backoff,
            Entry {
                expiry: later(now, backoff_of(pod.attempts, q.initial, q.max)) as u64,
                pod,
            },
        ),
        ..q
    }
}

/// The queue after several pods start to serve backoff.
pub open spec fn all_penalised(q: QueueView, pods: Seq<Arc<PodInfo>>, now: u64) -> QueueView
    decreases pods.len(),
{
    if pods.len() == 0 {
        q
    } else {
        penalised(all_penalised(q, pods.drop_last(), now), pods.last(), now)
    }
}

/// A woken pod serves its backoff where admission lets it in, else it is held.
pub open spec fn readmitted<L: QueueSortPlugin, P: PreEnqueuePlugin, H: QueueingHintFn>(
    q: QueueView,
    rules: Rules<L, P, H>,
    pod: Arc<PodInfo>,
    now: u64,
) -> QueueView {
    if rules.pre_enqueue.pre_enqueue_view(*pod).code == Code::Success {
        penalised(q, pod, now)
    } else {
        offered(q, rules, pod, now)
    }
}

pub open spec fn all_readmitted<L: QueueSortPlugin, P: PreEnqueuePlugin, H: QueueingHintFn>(
    q: QueueView,
    rules: Rules<L, P, H>,
    pods: Seq<Arc<PodInfo>>,
    now: u64,
) -> QueueView
    decreases pods.len(),
{
    if pods.len() == 0 {
        q
    } else {
        readmitted(all_readmitted(q, rules, pods.drop_last(), now), rules, pods.last(), now)
    }
}

/// The decision on a parked entry for an event.
pub open spec fn parked_decision<L: QueueSortPlugin, P: PreEnqueuePlugin, H: QueueingHintFn>(
    rules: Rules<L, P, H>,
    entry: Parked,
    event: ClusterEvent,
    old: Option<ChangedObject>,
    new: Option<ChangedObject>,
) -> RequeueDecision {
    rules.hints.decision(*entry.pod, entry.unschedulable, entry.pending, event, old, new)
}

/// The parked entries with a given decision for an event.
pub open spec fn decided<L: QueueSortPlugin, P: PreEnqueuePlugin, H: QueueingHintFn>(
    p: Seq<Parked>,
    rules: Rules<L, P, H>,
    event: ClusterEvent,
    old: Option<ChangedObject>,
    new: Option<ChangedObject>,
    wanted: RequeueDecision,
) -> Seq<Parked>
    decreases p.len(),
{
    if p.len() == 0 {
        Seq::empty()
    } else {
        let rest = decided(p.drop_last(), rules, event, old, new, wanted);
        if parked_decision(rules, p.last(), event, old, new) == wanted {
            rest.push(p.last())
        } else {
            rest
        }
    }
}

/// The pods of a list of parked entries.
pub open spec fn parked_pods(p: Seq<Parked>) -> Seq<Arc<PodInfo>> {
    p.map_values(|e: Parked| e.pod)
}

/// The events recorded after the first marker of a pod, in order.
pub open spec fn replay(t: Seq<Moment>, uid: Seq<char>) -> Seq<Moment>
    decreases t.len(),
{
    if t.len() == 0 {
        Seq::empty()
    } else if t[0] == Moment::Marker(uid) {
        changes(t.skip(1))
    } else {
        replay(t.skip(1), uid)
    }
}

/// The events of a timeline.
pub open spec fn changes(t: Seq<Moment>) -> Seq<Moment>
    decreases t.len(),
{
    if t.len() == 0 {
        Seq::empty()
    } else if t[0] is Change {
        seq![t[0]] + changes(t.skip(1))
    } else {
        changes(t.skip(1))
    }
}

/// The first decision among a list of events that is not to skip.
pub open spec fn first_decision<L: QueueSortPlugin, P: PreEnqueuePlugin, H: QueueingHintFn>(
    rules: Rules<L, P, H>,
    entry: Parked,
    events: Seq<Moment>,
) -> RequeueDecision
    decreases events.len(),
{
    if events.len() == 0 {
        RequeueDecision::Skip
    } else {
        let here = match events[0] {
            Moment::Change { event, old, new } => parked_decision(rules, entry, event, old, new),
            Moment::Marker(_) => RequeueDecision::Skip,
        };
        if here != RequeueDecision::Skip {
            here
        } else {
            first_decision(rules, entry, events.skip(1))
        }
    }
}

/// A timeline without the markers of one pod.
pub open spec fn unmarked(t: Seq<Moment>, uid: Seq<char>) -> Seq<Moment>
    decreases t.len(),
{
    if t.len() == 0 {
        Seq::empty()
    } else if t.last() == Moment::Marker(uid) {
        unmarked(t.drop_last(), uid)
    } else {
        unmarked(t.drop_last(), uid).push(t.last())
    }
}

/// A list of uids without one.
pub open spec fn landed(uids: Seq<Seq<char>>, uid: Seq<char>) -> Seq<Seq<char>>
    decreases uids.len(),
{
    if uids.len() == 0 {
        Seq::empty()
    } else if uids.last() == uid {
        landed(uids.drop_last(), uid)
    } else {
        landed(uids.drop_last(), uid).push(uids.last())
    }
}

/// Some entry of a timeline marks a pod.
pub open spec fn marks_any(t: Seq<Moment>) -> bool {
    exists|i: int| 0 <= i < t.len() && (#[trigger] t[i]) is Marker
}

/// A timeline from its first marker on: earlier events can be replayed for
/// nobody. As it is, where it has no marker.
pub open spec fn from_marker(t: Seq<Moment>) -> Seq<Moment>
    decreases t.len(),
{
    if t.len() == 0 || t[0] is Marker || !marks_any(t) {
        t
    } else {
        from_marker(t.skip(1))
    }
}

/// The timeline once a pod's cycle is over.
pub open spec fn trimmed(t: Seq<Moment>, flying: Seq<Seq<char>>, uid: Seq<char>) -> Seq<Moment> {
    if landed(flying, uid).len() == 0 {
        Seq::empty()
    } else {
        from_marker(unmarked(t, uid))
    }
}

/// The parked entries whose time is up, or not.
pub open spec fn overdue(p: Seq<Parked>, now: u64, limit: u64, wanted: bool) -> Seq<Parked>
    decreases p.len(),
{
    if p.len() == 0 {
        Seq::empty()
    } else {
        let rest = overdue(p.drop_last(), now, limit, wanted);
        if timed_out(p.last(), now, limit) == wanted {
            rest.push(p.last())
        } else {
            rest
        }
    }
}

/// Parked for the limit or longer.
pub open spec fn timed_out(entry: Parked, now: u64, limit: u64) -> bool {
    if now >= entry.since {
        now - entry.since >= limit
    } else {
        limit == 0
    }
}

/// The pods of a list of uids that are parked, in the order of the list.
pub open spec fn released(p: Seq<Parked>, uids: Seq<Seq<char>>) -> Seq<Arc<PodInfo>>
    decreases uids.len(),
{
    if uids.len() == 0 {
        Seq::empty()
    } else {
        let rest = released(p, uids.drop_last());
        match parked_at(all_unparked(p, uids.drop_last()), uids.last()) {
            Some(e) => rest.push(e.pod),
            None => rest,
        }
    }
}

/// The parked entries without those of a list of uids.
pub open spec fn all_unparked(p: Seq<Parked>, uids: Seq<Seq<char>>) -> Seq<Parked>
    decreases uids.len(),
{
    if uids.len() == 0 {
        p
    } else {
        unparked(all_unparked(p, uids.drop_last()), uids.last())
    }
}

/// The parked entry of a pod.
pub open spec fn parked_at(p: Seq<Parked>, uid: Seq<char>) -> Option<Parked>
    decreases p.len(),
{
    if p.len() == 0 {
        None
    } else if p.last().pod.uid@ == uid {
        Some(p.last())
    } else {
        parked_at(p.drop_last(), uid)
    }
}

/// A list of pods without those of one uid.
pub open spec fn dropped(pods: Seq<Arc<PodInfo>>, uid: Seq<char>) -> Seq<Arc<PodInfo>>
    decreases pods.len(),
{
    if pods.len() == 0 {
        Seq::empty()
    } else if pods.last().uid@ != uid {
        dropped(pods.drop_last(), uid).push(pods.last())
    } else {
        dropped(pods.drop_last(), uid)
    }
}

/// No pod is parked twice.
pub open spec fn parked_once(p: Seq<Parked>) -> bool {
    forall|i: int, j: int|
        0 <= i < j < p.len() ==> (#[trigger] p[i]).pod.uid@ != (#[trigger] p[j]).pod.uid@
}

/// No pod is active twice.
pub open spec fn active_once(a: Seq<Arc<PodInfo>>) -> bool {
    forall|i: int, j: int|
        0 <= i < j < a.len() ==> (#[trigger] a[i]).uid@ != (#[trigger] a[j]).uid@
}

impl<L: QueueSortPlugin, P: PreEnqueuePlugin, H: QueueingHintFn> View for SchedulingQueue<L, P, H> {
    type V = QueueView;

    open spec fn view(&self) -> QueueView {
        QueueView {
            active: self.active@,
            parked: parked_views(self.unschedulable@),
            backoff: self.backoff.entries@,
            timeline: moments(self.in_flight@),
            flying: views(self.in_flight_uids@),
            rescued: self.rescued,
            initial: self.backoff.initial,
            max: self.backoff.max,
        }
    }
}

/// What holds of every queue: no pod is active twice or parked twice, and the
/// pods in backoff are ordered by when they come due.
pub open spec fn well_formed(q: QueueView) -> bool {
    &&& active_once(q.active)
    &&& parked_once(q.parked)
    &&& by_expiry(q.backoff)
}

proof fn activation_keeps_once<L: QueueSortPlugin>(
    active: Seq<Arc<PodInfo>>,
    pod: Arc<PodInfo>,
    less: L,
)
    requires
        active_once(active),
    ensures
        active_once(activated(active, pod, less)),
{
    if !listed(active, pod.uid@) {
        place_bounds(active, crate::maps::shared(pod), less);
        let r = place(active, crate::maps::shared(pod), less);
        let all = active.insert(r, pod);
        assert forall|i: int, j: int| 0 <= i < j < all.len() implies (#[trigger] all[i]).uid@
            != (#[trigger] all[j]).uid@ by {
            let i0 = if i < r { i } else { i - 1 };
            let j0 = if j < r { j } else { j - 1 };
            if i != r && j != r {
                assert(all[i] == active[i0] && all[j] == active[j0]);
            } else if j == r {
                assert(all[i] == active[i]);
            } else {
                assert(all[j] == active[j - 1]);
            }
        }
    }
}

proof fn unparked_once(p: Seq<Parked>, uid: Seq<char>)
    ensures
        parked_once(p) ==> parked_once(unparked(p, uid)),
        forall|i: int| 0 <= i < unparked(p, uid).len() ==> (#[trigger] unparked(p, uid)[i]).pod.uid@
            != uid,
        forall|i: int|
            0 <= i < unparked(p, uid).len() ==> p.contains(#[trigger] unparked(p, uid)[i]),
    decreases p.len(),
{
    if p.len() > 0 {
        let t = p.drop_last();
        unparked_once(t, uid);
        let o = unparked(p, uid);
        let ot = unparked(t, uid);
        assert forall|i: int| 0 <= i < o.len() implies p.contains(#[trigger] o[i]) by {
            if i < ot.len() {
                assert(o[i] == ot[i]);
                assert(t.contains(ot[i]));
                let k = choose|k: int| 0 <= k < t.len() && t[k] == ot[i];
                assert(p[k] == o[i]);
            } else {
                assert(p[p.len() - 1] == o[i]);
            }
        }
        if parked_once(p) {
            assert(parked_once(t)) by {
                assert forall|i: int, j: int| 0 <= i < j < t.len() implies (
                #[trigger] t[i]).pod.uid@ != (#[trigger] t[j]).pod.uid@ by {
                    assert(t[i] == p[i] && t[j] == p[j]);
                }
            }
            assert forall|i: int, j: int| 0 <= i < j < o.len() implies (#[trigger] o[i]).pod.uid@
                != (#[trigger] o[j]).pod.uid@ by {
                assert(o[i] == ot[i]);
                if j < ot.len() {
                    assert(o[j] == ot[j]);
                } else {
                    assert(t.contains(ot[i]));
                    let k = choose|k: int| 0 <= k < t.len() && t[k] == ot[i];
                    assert(p[k] == ot[i] && p[p.len() - 1] == o[j]);
                }
            }
        }
    }
}

proof fn parked_with_once(p: Seq<Parked>, entry: Parked)
    requires
        parked_once(p),
    ensures
        parked_once(parked_with(p, entry)),
{
    unparked_once(p, entry.pod.uid@);
    let o = unparked(p, entry.pod.uid@);
    let all = o.push(entry);
    assert forall|i: int, j: int| 0 <= i < j < all.len() implies (#[trigger] all[i]).pod.uid@ != (
    #[trigger] all[j]).pod.uid@ by {
        assert(all[i] == o[i]);
        if j < o.len() {
            assert(all[j] == o[j]);
        }
    }
}

impl<L: QueueSortPlugin, P: PreEnqueuePlugin, H: QueueingHintFn> SchedulingQueue<L, P, H> {
    pub open spec fn wf(&self) -> bool {
        well_formed(self@)
    }

    pub fn new(
        hints: HintRegistry<H>,
        less: L,
        pre_enqueue: P,
        backoff: BackoffQueue,
        max_in_unschedulable: u64,
    ) -> (r: Self)
        requires
            backoff.wf(),
        ensures
            r.wf(),
            r.rules == (Rules { less, pre_enqueue, hints, max_in_unschedulable }),
            r@.active.len() == 0,
            r@.parked.len() == 0,
            r@.backoff == backoff.entries@,
            r@.timeline.len() == 0,
            r@.flying.len() == 0,
            r@.rescued == 0,
            r@.initial == backoff.initial,
            r@.max == backoff.max,
    {
        SchedulingQueue {
            rules: Rules { less, pre_enqueue, hints, max_in_unschedulable },
            active: Vec::new(),
            unschedulable: Vec::new(),
            backoff,
            in_flight: Vec::new(),
            in_flight_uids: Vec::new(),
            rescued: 0,
        }
    }

    /// Offer a pod to the queue. One that admission turns away is held without
    /// being counted as a scheduling failure.
    pub fn add(&mut self, pod: Arc<PodInfo>, now: u64)
        requires
            old(self).wf(),
        ensures
            final(self).wf(),
            final(self).rules == old(self).rules,
            final(self)@ == offered(old(self)@, old(self).rules, pod, now),
    {
        let admitted = self.rules.pre_enqueue.pre_enqueue(&pod).is_success();
        if admitted {
            self.push_active(pod);
        } else {
            let none: Vec<String> = Vec::new();
            assert(views(none@) =~= Seq::<Seq<char>>::empty());
            let none = Arc::new(none);
            let entry = Unschedulable {
                pod,
                unschedulable_plugins: none.clone(),
                pending_plugins: none,
                since: now,
            };
            self.park(entry);
        }
    }

    fn park(&mut self, entry: Unschedulable)
        requires
            old(self).wf(),
        ensures
            final(self).wf(),
            final(self).rules == old(self).rules,
            final(self)@ == (QueueView {
                parked: parked_with(old(self)@.parked, entry@),
                ..old(self)@
            }),
    {
        proof {
            parked_with_once(self@.parked, entry@);
        }
        let uid = entry.pod.uid.clone();
        let _ = self.unpark(uid.as_str());
        let ghost rest = self.unschedulable@;
        let ghost view = entry@;
        self.unschedulable.push(entry);
        assert(parked_views(self.unschedulable@) =~= parked_views(rest).push(view));
    }

    /// Take a pod out of the parked ones.
    fn unpark(&mut self, uid: &str) -> (r: Option<Arc<PodInfo>>)
        requires
            old(self).wf(),
        ensures
            final(self).wf(),
            final(self).rules == old(self).rules,
            final(self)@ == (QueueView { parked: unparked(old(self)@.parked, uid@), ..old(self)@ }),
            match parked_at(old(self)@.parked, uid@) {
                Some(e) => r == Some(e.pod),
                None => r is None,
            },
    {
        let ghost all = self@.parked;
        proof {
            unparked_once(all, uid@);
        }
        let mut found: Option<Arc<PodInfo>> = None;
        let mut rest: Vec<Unschedulable> = Vec::new();
        assert(all.take(0) =~= Seq::empty());
        assert(parked_views(rest@) =~= Seq::<Parked>::empty());
        let mut i: usize = 0;
        while i < self.unschedulable.len()
            invariant
                i <= self.unschedulable@.len(),
                *self == *old(self),
                all == parked_views(self.unschedulable@),
                parked_views(rest@) == unparked(all.take(i as int), uid@),
                match parked_at(all.take(i as int), uid@) {
                    Some(e) => found == Some(e.pod),
                    None => found is None,
                },
            decreases self.unschedulable@.len() - i,
        {
            let e = &self.unschedulable[i];
            let ghost kept = rest@;
            if text_eq(e.pod.uid.as_str(), uid) {
                found = Some(e.pod.clone());
            } else {
                rest.push(e.copy());
                assert(parked_views(rest@) =~= parked_views(kept).push(e@));
            }
            i += 1;
            proof {
                assert(all.take(i as int).drop_last() =~= all.take(i - 1));
                assert(all.take(i as int).last() == e@);
            }
        }
        assert(all.take(i as int) =~= all);
        self.unschedulable = rest;
        found
    }

    fn push_active(&mut self, pod: Arc<PodInfo>)
        requires
            old(self).wf(),
        ensures
            final(self).wf(),
            final(self).rules == old(self).rules,
            final(self)@ == (QueueView {
                active: activated(old(self)@.active, pod, old(self).rules.less),
                ..old(self)@
            }),
    {
        proof {
            activation_keeps_once(self.active@, pod, self.rules.less);
        }
        let mut i: usize = 0;
        while i < self.active.len()
            invariant
                i <= self.active@.len(),
                *self == *old(self),
                self.wf(),
                forall|k: int| 0 <= k < i ==> (#[trigger] self.active@[k]).uid@ != pod.uid@,
            decreases self.active@.len() - i,
        {
            if text_eq(self.active[i].uid.as_str(), pod.uid.as_str()) {
                assert(self.active@[i as int].uid@ == pod.uid@);
                return ;
            }
            i += 1;
        }
        let mut at: usize = 0;
        while at < self.active.len() && !self.rules.less.less(&pod, &self.active[at])
            invariant
                at <= self.active@.len(),
                *self == *old(self),
                forall|k: int|
                    0 <= k < at ==> !self.rules.less.less_view(*pod, *#[trigger] self.active@[k]),
            decreases self.active@.len() - at,
        {
            at += 1;
        }
        proof {
            place_is(self.active@, crate::maps::shared(pod), self.rules.less, at as int);
        }
        self.active.insert(at, pod);
    }

    fn push_backoff(&mut self, pod: Arc<PodInfo>, now: u64)
        requires
            old(self).wf(),
        ensures
            final(self).wf(),
            final(self).rules == old(self).rules,
            final(self)@ == penalised(old(self)@, pod, now),
    {
        let attempts: u32 = pod.attempts;
        self.backoff.push(pod, attempts, now);
    }

    /// Make the pods active whose penalty has expired.
    fn drain_expired_backoff(&mut self, now: u64)
        requires
            old(self).wf(),
        ensures
            final(self).wf(),
            final(self).rules == old(self).rules,
            final(self)@ == drained(old(self)@, old(self).rules.less, now),
    {
        let ready = self.backoff.pop_expired(now);
        let ghost start = *self;
        let mut i: usize = 0;
        while i < ready.len()
            invariant
                i <= ready@.len(),
                self.wf(),
                self.rules == start.rules,
                self@ == (QueueView {
                    active: all_activated(
                        start@.active,
                        ready@.take(i as int),
                        start.rules.less,
                    ),
                    ..start@
                }),
            decreases ready@.len() - i,
        {
            self.push_active(ready[i].clone());
            i += 1;
            assert(ready@.take(i as int).drop_last() =~= ready@.take(i - 1));
        }
        assert(ready@.take(i as int) =~= ready@);
    }

    /// Take the next pod to schedule, once the pods due from backoff are in.
    /// `None` where there is none: the caller waits for an arrival, or for
    /// [`SchedulingQueue::next_backoff_expiry`].
    pub fn pop(&mut self, now: u64) -> (r: Option<Arc<PodInfo>>)
        requires
            old(self).wf(),
        ensures
            final(self).wf(),
            final(self).rules == old(self).rules,
            ({
                let q = drained(old(self)@, old(self).rules.less, now);
                if q.active.len() == 0 {
                    r is None && final(self)@ == q
                } else {
                    r == Some(q.active[0]) && final(self)@ == taken_off(q)
                }
            }),
    {
        self.drain_expired_backoff(now);
        let ghost q = self@;
        if self.active.len() == 0 {
            return None;
        }
        let pod = self.active.remove(0);
        let ghost uids = self.in_flight_uids@;
        let ghost timeline = self.in_flight@;
        self.in_flight_uids.push(pod.uid.clone());
        self.in_flight.push(InFlight::PodMarker(pod.uid.clone()));
        proof {
            assert(self.active@ =~= q.active.skip(1));
            assert(views(self.in_flight_uids@) =~= views(uids).push(pod.uid@));
            assert(moments(self.in_flight@) =~= moments(timeline).push(Moment::Marker(pod.uid@)));
            assert(active_once(self.active@)) by {
                assert forall|i: int, j: int| 0 <= i < j < self.active@.len() implies (
                #[trigger] self.active@[i]).uid@ != (#[trigger] self.active@[j]).uid@ by {
                    assert(self.active@[i] == q.active[i + 1]);
                    assert(self.active@[j] == q.active[j + 1]);
                }
            }
        }
        Some(pod)
    }

    /// When the next penalty expires.
    pub fn next_backoff_expiry(&self) -> (r: Option<u64>)
        requires
            self.wf(),
        ensures
            match r {
                Some(t) => self@.backoff.len() > 0 && t == self@.backoff[0].expiry,
                None => self@.backoff.len() == 0,
            },
    {
        self.backoff.next_expiry()
    }

    /// A cycle finished: drop the pod's marker, and the events that no marker
    /// left needs.
    pub fn done(&mut self, uid: &str)
        requires
            old(self).wf(),
        ensures
            final(self).wf(),
            final(self).rules == old(self).rules,
            final(self)@ == (QueueView {
                flying: landed(old(self)@.flying, uid@),
                timeline: trimmed(old(self)@.timeline, old(self)@.flying, uid@),
                ..old(self)@
            }),
    {
        let uids = leave_uid(&self.in_flight_uids, uid);
        let kept = leave_marker(&self.in_flight, uid);
        if uids.len() == 0 {
            let empty: Vec<InFlight> = Vec::new();
            assert(moments(empty@) =~= Seq::<Moment>::empty());
            self.in_flight = empty;
        } else {
            self.in_flight = skip_to_marker(&kept);
        }
        self.in_flight_uids = uids;
    }

    /// A cycle rejected this pod: replay what happened while it ran, then park
    /// it unless an event already sends it back.
    pub fn add_unschedulable(
        &mut self,
        pod: Arc<PodInfo>,
        unschedulable_plugins: Vec<String>,
        pending_plugins: Vec<String>,
        now: u64,
    )
        requires
            old(self).wf(),
        ensures
            final(self).wf(),
            final(self).rules == old(self).rules,
            final(self)@ == rejected(
                old(self)@,
                old(self).rules,
                Parked {
                    pod,
                    unschedulable: views(unschedulable_plugins@),
                    pending: views(pending_plugins@),
                    since: now,
                },
            ),
    {
        let entry = Unschedulable {
            pod,
            unschedulable_plugins: Arc::new(unschedulable_plugins),
            pending_plugins: Arc::new(pending_plugins),
            since: now,
        };
        match self.replay_decision(&entry) {
            RequeueDecision::Immediately => {
                self.push_active(entry.pod);
            },
            RequeueDecision::AfterBackoff => {
                self.push_backoff(entry.pod, now);
            },
            RequeueDecision::Skip => {
                self.park(entry);
            },
        }
    }

    fn decide_for(
        &self,
        entry: &Unschedulable,
        event: &ClusterEvent,
        old: Option<&ChangedObject>,
        new: Option<&ChangedObject>,
    ) -> (r: RequeueDecision)
        ensures
            r == parked_decision(self.rules, entry@, *event, unref(old), unref(new)),
    {
        self.rules.hints.decide(
            &entry.pod,
            &entry.unschedulable_plugins,
            &entry.pending_plugins,
            event,
            old,
            new,
        )
    }

    fn replay_decision(&self, entry: &Unschedulable) -> (r: RequeueDecision)
        ensures
            r == first_decision(
                self.rules,
                entry@,
                replay(self@.timeline, entry.pod.uid@),
            ),
    {
        let ghost uid = entry.pod.uid@;
        let ghost all = self@.timeline;
        let mut i: usize = 0;
        assert(all.skip(0) =~= all);
        while i < self.in_flight.len() && !is_marker(&self.in_flight[i], entry.pod.uid.as_str())
            invariant
                i <= self.in_flight@.len(),
                all == moments(self.in_flight@),
                uid == entry.pod.uid@,
                replay(all, uid) == replay(all.skip(i as int), uid),
            decreases self.in_flight@.len() - i,
        {
            assert(all.skip(i as int).skip(1) =~= all.skip(i + 1));
            i += 1;
        }
        if i == self.in_flight.len() {
            assert(all.skip(i as int) =~= Seq::empty());
            return RequeueDecision::Skip;
        }
        assert(all.skip(i as int).skip(1) =~= all.skip(i + 1));
        i += 1;
        while i < self.in_flight.len()
            invariant
                i <= self.in_flight@.len(),
                all == moments(self.in_flight@),
                first_decision(self.rules, entry@, replay(all, uid)) == first_decision(
                    self.rules,
                    entry@,
                    changes(all.skip(i as int)),
                ),
                uid == entry.pod.uid@,
            decreases self.in_flight@.len() - i,
        {
            let ghost here = all.skip(i as int);
            proof {
                assert(here.skip(1) =~= all.skip(i + 1));
                assert(here[0] == self.in_flight@[i as int]@);
            }
            match &self.in_flight[i] {
                InFlight::PodMarker(_) => {},
                InFlight::Event { event, old, new } => {
                    proof {
                        let c = changes(here);
                        assert(c[0] == here[0]);
                        assert(c.skip(1) =~= changes(here.skip(1)));
                    }
                    let decision = self.decide_for(entry, event, old.as_ref(), new.as_ref());
                    if decision != RequeueDecision::Skip {
                        return decision;
                    }
                },
            }
            i += 1;
        }
        assert(all.skip(i as int) =~= Seq::empty());
        RequeueDecision::Skip
    }

    /// Something changed in the cluster: reconsider every parked pod, and
    /// record the event for the cycles that run.
    pub fn move_all_to_active_or_backoff(
        &mut self,
        event: ClusterEvent,
        old_object: Option<ChangedObject>,
        new_object: Option<ChangedObject>,
        now: u64,
    )
        requires
            old(self).wf(),
        ensures
            final(self).wf(),
            final(self).rules == old(self).rules,
            final(self)@ == moved(
                old(self)@,
                old(self).rules,
                event,
                old_object,
                new_object,
                now,
            ),
    {
        let ghost rules = self.rules;
        let ghost all = self@.parked;
        let mut to_active: Vec<Arc<PodInfo>> = Vec::new();
        let mut to_backoff: Vec<Arc<PodInfo>> = Vec::new();
        let mut kept: Vec<Unschedulable> = Vec::new();
        let mut i: usize = 0;
        proof {
            assert(all.take(0) =~= Seq::empty());
            assert(parked_views(kept@) =~= Seq::<Parked>::empty());
            assert(parked_pods(Seq::empty()) =~= Seq::<Arc<PodInfo>>::empty());
        }
        while i < self.unschedulable.len()
            invariant
                i <= self.unschedulable@.len(),
                *self == *old(self),
                rules == self.rules,
                all == parked_views(self.unschedulable@),
                parked_views(kept@) == decided(
                    all.take(i as int),
                    rules,
                    event,
                    old_object,
                    new_object,
                    RequeueDecision::Skip,
                ),
                to_active@ == parked_pods(
                    decided(
                        all.take(i as int),
                        rules,
                        event,
                        old_object,
                        new_object,
                        RequeueDecision::Immediately,
                    ),
                ),
                to_backoff@ == parked_pods(
                    decided(
                        all.take(i as int),
                        rules,
                        event,
                        old_object,
                        new_object,
                        RequeueDecision::AfterBackoff,
                    ),
                ),
            decreases self.unschedulable@.len() - i,
        {
            let entry = &self.unschedulable[i];
            let ghost kept_before = kept@;
            let ghost now_before = to_active@;
            let ghost late_before = to_backoff@;
            let ghost shorter = all.take(i as int);
            let decision = self.decide_for(
                entry,
                &event,
                old_object.as_ref(),
                new_object.as_ref(),
            );
            match decision {
                RequeueDecision::Skip => {
                    kept.push(entry.copy());
                },
                RequeueDecision::Immediately => {
                    to_active.push(entry.pod.clone());
                },
                RequeueDecision::AfterBackoff => {
                    to_backoff.push(entry.pod.clone());
                },
            }
            i += 1;
            proof {
                let longer = all.take(i as int);
                assert(longer.drop_last() =~= shorter);
                assert(longer.last() == entry@);
                let skip = decided(
                    shorter,
                    rules,
                    event,
                    old_object,
                    new_object,
                    RequeueDecision::Skip,
                );
                let at_once = decided(
                    shorter,
                    rules,
                    event,
                    old_object,
                    new_object,
                    RequeueDecision::Immediately,
                );
                let later = decided(
                    shorter,
                    rules,
                    event,
                    old_object,
                    new_object,
                    RequeueDecision::AfterBackoff,
                );
                match decision {
                    RequeueDecision::Skip => {
                        assert(parked_views(kept@) =~= parked_views(kept_before).push(entry@));
                    },
                    RequeueDecision::Immediately => {
                        assert(parked_pods(at_once.push(entry@)) =~= parked_pods(at_once).push(
                            entry.pod,
                        ));
                    },
                    RequeueDecision::AfterBackoff => {
                        assert(parked_pods(later.push(entry@)) =~= parked_pods(later).push(
                            entry.pod,
                        ));
                    },
                }
            }
        }
        assert(all.take(i as int) =~= all);
        proof {
            decided_once(all, rules, event, old_object, new_object, RequeueDecision::Skip);
        }
        if self.in_flight_uids.len() > 0 {
            let ghost timeline = self.in_flight@;
            self.in_flight.push(
                InFlight::Event { event, old: old_object, new: new_object },
            );
            assert(moments(self.in_flight@) =~= moments(timeline).push(
                Moment::Change { event, old: old_object, new: new_object },
            ));
        }
        self.unschedulable = kept;
        let ghost start = *self;
        assert(start@ == remaining(old(self)@, rules, event, old_object, new_object));
        let mut j: usize = 0;
        while j < to_active.len()
            invariant
                j <= to_active@.len(),
                self.wf(),
                self.rules == rules,
                self@ == all_offered(start@, rules, to_active@.take(j as int), now),
            decreases to_active@.len() - j,
        {
            self.add(to_active[j].clone(), now);
            j += 1;
            assert(to_active@.take(j as int).drop_last() =~= to_active@.take(j - 1));
        }
        assert(to_active@.take(j as int) =~= to_active@);
        let ghost second = *self;
        let mut k: usize = 0;
        while k < to_backoff.len()
            invariant
                k <= to_backoff@.len(),
                self.wf(),
                self.rules == rules,
                self@ == all_readmitted(second@, rules, to_backoff@.take(k as int), now),
            decreases to_backoff@.len() - k,
        {
            if self.rules.pre_enqueue.pre_enqueue(&to_backoff[k]).is_success() {
                self.push_backoff(to_backoff[k].clone(), now);
            } else {
                self.add(to_backoff[k].clone(), now);
            }
            k += 1;
            assert(to_backoff@.take(k as int).drop_last() =~= to_backoff@.take(k - 1));
        }
        assert(to_backoff@.take(k as int) =~= to_backoff@);
    }

    /// The safety net: retry what has been parked too long. Returns each pod
    /// rescued with the plugins that had rejected it, since every rescue means
    /// that one of them did not subscribe to what unblocked the pod.
    pub fn flush_timed_out(&mut self, now: u64) -> (r: Vec<(Arc<PodInfo>, Vec<String>)>)
        requires
            old(self).wf(),
        ensures
            final(self).wf(),
            final(self).rules == old(self).rules,
            ({
                let limit = old(self).rules.max_in_unschedulable;
                let late = overdue(old(self)@.parked, now, limit, true);
                &&& final(self)@ == all_penalised(
                    QueueView {
                        parked: overdue(old(self)@.parked, now, limit, false),
                        rescued: later(old(self)@.rescued, late.len() as int) as u64,
                        ..old(self)@
                    },
                    parked_pods(late),
                    now,
                )
                &&& r@.len() == late.len()
                &&& forall|i: int|
                    0 <= i < r@.len() ==> (#[trigger] r@[i]).0 == late[i].pod && views(r@[i].1@)
                        == late[i].unschedulable + late[i].pending
            }),
    {
        let ghost all = self@.parked;
        let limit: u64 = self.rules.max_in_unschedulable;
        let mut kept: Vec<Unschedulable> = Vec::new();
        let mut expired: Vec<Unschedulable> = Vec::new();
        let mut i: usize = 0;
        proof {
            assert(all.take(0) =~= Seq::empty());
            assert(parked_views(kept@) =~= Seq::<Parked>::empty());
        }
        while i < self.unschedulable.len()
            invariant
                i <= self.unschedulable@.len(),
                *self == *old(self),
                limit == self.rules.max_in_unschedulable,
                all == parked_views(self.unschedulable@),
                parked_views(kept@) == overdue(all.take(i as int), now, limit, false),
                parked_views(expired@) == overdue(all.take(i as int), now, limit, true),
            decreases self.unschedulable@.len() - i,
        {
            let entry = &self.unschedulable[i];
            let ghost kept_before = kept@;
            let ghost expired_before = expired@;
            let late = if now >= entry.since {
                now - entry.since >= limit
            } else {
                limit == 0
            };
            if late {
                expired.push(entry.copy());
                assert(parked_views(expired@) =~= parked_views(expired_before).push(entry@));
            } else {
                kept.push(entry.copy());
                assert(parked_views(kept@) =~= parked_views(kept_before).push(entry@));
            }
            i += 1;
            proof {
                assert(all.take(i as int).drop_last() =~= all.take(i - 1));
                assert(all.take(i as int).last() == entry@);
            }
        }
        assert(all.take(i as int) =~= all);
        proof {
            overdue_once(all, now, limit, false);
        }
        self.unschedulable = kept;
        self.rescued = later_by(self.rescued, expired.len() as u64);
        let ghost start = *self;
        let ghost late = overdue(all, now, limit, true);
        let mut out: Vec<(Arc<PodInfo>, Vec<String>)> = Vec::new();
        let mut j: usize = 0;
        while j < expired.len()
            invariant
                j <= expired@.len(),
                late == parked_views(expired@),
                self.wf(),
                self.rules == start.rules,
                self@ == all_penalised(start@, parked_pods(late).take(j as int), now),
                out@.len() == j,
                forall|k: int|
                    0 <= k < j ==> (#[trigger] out@[k]).0 == late[k].pod && views(out@[k].1@)
                        == late[k].unschedulable + late[k].pending,
            decreases expired@.len() - j,
        {
            let entry = &expired[j];
            let mut blamed = crate::api::copy_texts(&entry.unschedulable_plugins);
            let mut more = crate::api::copy_texts(&entry.pending_plugins);
            blamed.append(&mut more);
            proof {
                assert(views(blamed@) =~= late[j as int].unschedulable + late[j as int].pending);
                assert(parked_pods(late)[j as int] == entry.pod);
            }
            out.push((entry.pod.clone(), blamed));
            self.push_backoff(entry.pod.clone(), now);
            j += 1;
            assert(parked_pods(late).take(j as int).drop_last() =~= parked_pods(late).take(j - 1));
        }
        assert(parked_pods(late).take(j as int) =~= parked_pods(late));
        out
    }

    /// When the first parked pod times out.
    pub fn next_timeout_deadline(&self) -> (r: Option<u64>)
        ensures
            match r {
                None => self@.parked.len() == 0,
                Some(t) => {
                    &&& exists|i: int|
                        0 <= i < self@.parked.len() && t == later(
                            (#[trigger] self@.parked[i]).since,
                            self.rules.max_in_unschedulable as int,
                        )
                    &&& forall|i: int|
                        0 <= i < self@.parked.len() ==> t <= later(
                            (#[trigger] self@.parked[i]).since,
                            self.rules.max_in_unschedulable as int,
                        )
                },
            },
    {
        if self.unschedulable.len() == 0 {
            return None;
        }
        let limit: u64 = self.rules.max_in_unschedulable;
        let ghost all = self@.parked;
        let mut best: u64 = later_by(self.unschedulable[0].since, limit);
        let mut i: usize = 1;
        assert(all[0].since == self.unschedulable@[0].since);
        while i < self.unschedulable.len()
            invariant
                1 <= i <= self.unschedulable@.len(),
                all == parked_views(self.unschedulable@),
                limit == self.rules.max_in_unschedulable,
                exists|k: int|
                    0 <= k < all.len() && best == later((#[trigger] all[k]).since, limit as int),
                forall|k: int|
                    0 <= k < i ==> best <= later((#[trigger] all[k]).since, limit as int),
            decreases self.unschedulable@.len() - i,
        {
            let deadline: u64 = later_by(self.unschedulable[i].since, limit);
            assert(all[i as int].since == self.unschedulable@[i as int].since);
            if deadline < best {
                best = deadline;
            }
            i += 1;
        }
        Some(best)
    }

    /// Offer parked pods again, for a caller that knows what no event can say.
    pub fn activate(&mut self, uids: &Vec<String>, now: u64)
        requires
            old(self).wf(),
        ensures
            final(self).wf(),
            final(self).rules == old(self).rules,
            final(self)@ == all_offered(
                QueueView {
                    parked: all_unparked(old(self)@.parked, views(uids@)),
                    ..old(self)@
                },
                old(self).rules,
                released(old(self)@.parked, views(uids@)),
                now,
            ),
    {
        let ghost names = views(uids@);
        let ghost first = *self;
        let mut pods: Vec<Arc<PodInfo>> = Vec::new();
        let mut i: usize = 0;
        assert(names.take(0) =~= Seq::empty());
        while i < uids.len()
            invariant
                i <= uids@.len(),
                names == views(uids@),
                self.wf(),
                self.rules == first.rules,
                self@ == (QueueView {
                    parked: all_unparked(first@.parked, names.take(i as int)),
                    ..first@
                }),
                pods@ == released(first@.parked, names.take(i as int)),
            decreases uids@.len() - i,
        {
            proof {
                assert(names.take(i + 1).drop_last() =~= names.take(i as int));
                assert(names.take(i + 1).last() == uids@[i as int]@);
            }
            match self.unpark(uids[i].as_str()) {
                Some(pod) => {
                    pods.push(pod);
                },
                None => {},
            }
            i += 1;
        }
        assert(names.take(i as int) =~= names);
        let ghost start = *self;
        let mut j: usize = 0;
        while j < pods.len()
            invariant
                j <= pods@.len(),
                self.wf(),
                self.rules == start.rules,
                self@ == all_offered(start@, start.rules, pods@.take(j as int), now),
            decreases pods@.len() - j,
        {
            self.add(pods[j].clone(), now);
            j += 1;
            assert(pods@.take(j as int).drop_last() =~= pods@.take(j - 1));
        }
        assert(pods@.take(j as int) =~= pods@);
    }

    /// Drop a pod entirely: it was deleted.
    pub fn remove(&mut self, uid: &str)
        requires
            old(self).wf(),
        ensures
            final(self).wf(),
            final(self).rules == old(self).rules,
            final(self)@ == (QueueView {
                active: dropped(old(self)@.active, uid@),
                parked: unparked(old(self)@.parked, uid@),
                backoff: others(old(self)@.backoff, uid@),
                ..old(self)@
            }),
    {
        let _ = self.unpark(uid);
        let mut active: Vec<Arc<PodInfo>> = Vec::new();
        let mut i: usize = 0;
        while i < self.active.len()
            invariant
                i <= self.active@.len(),
                active@ == dropped(self.active@.take(i as int), uid@),
            decreases self.active@.len() - i,
        {
            if !text_eq(self.active[i].uid.as_str(), uid) {
                active.push(self.active[i].clone());
            }
            i += 1;
            assert(self.active@.take(i as int).drop_last() =~= self.active@.take(i - 1));
        }
        assert(self.active@.take(i as int) =~= self.active@);
        proof {
            dropped_once(self.active@, uid@);
        }
        self.active = active;
        let _ = self.backoff.remove(uid);
    }

    pub fn active_len(&self) -> (r: usize)
        ensures
            r == self@.active.len(),
    {
        self.active.len()
    }

    pub fn unschedulable_len(&self) -> (r: usize)
        ensures
            r == self@.parked.len(),
    {
        self.unschedulable.len()
    }

    pub fn backoff_len(&self) -> (r: usize)
        ensures
            r == self@.backoff.len(),
    {
        self.backoff.len()
    }

    /// How many pods the safety net has rescued.
    pub fn rescued_by_timeout(&self) -> (r: u64)
        ensures
            r == self@.rescued,
    {
        self.rescued
    }
}

/// The queue once the pods due from backoff are active.
pub open spec fn drained<L: QueueSortPlugin>(q: QueueView, less: L, now: u64) -> QueueView {
    let n = due(q.backoff, now) as int;
    QueueView {
        active: all_activated(q.active, pods_of(q.backoff.take(n)), less),
        backoff: q.backoff.skip(n),
        ..q
    }
}

/// The queue once its first active pod is in flight.
pub open spec fn taken_off(q: QueueView) -> QueueView {
    QueueView {
        active: q.active.skip(1),
        flying: q.flying.push(q.active[0].uid@),
        timeline: q.timeline.push(Moment::Marker(q.active[0].uid@)),
        ..q
    }
}

/// The queue after a cycle rejected a pod: where an event recorded during the
/// cycle sends it, else parked.
pub open spec fn rejected<L: QueueSortPlugin, P: PreEnqueuePlugin, H: QueueingHintFn>(
    q: QueueView,
    rules: Rules<L, P, H>,
    entry: Parked,
) -> QueueView {
    match first_decision(rules, entry, replay(q.timeline, entry.pod.uid@)) {
        RequeueDecision::Immediately => QueueView {
            active: activated(q.active, entry.pod, rules.less),
            ..q
        },
        RequeueDecision::AfterBackoff => penalised(q, entry.pod, entry.since),
        RequeueDecision::Skip => QueueView { parked: parked_with(q.parked, entry), ..q },
    }
}

/// The queue with the event recorded, where a cycle runs, and the woken pods
/// taken from the parked ones.
pub open spec fn remaining<L: QueueSortPlugin, P: PreEnqueuePlugin, H: QueueingHintFn>(
    q: QueueView,
    rules: Rules<L, P, H>,
    event: ClusterEvent,
    old: Option<ChangedObject>,
    new: Option<ChangedObject>,
) -> QueueView {
    QueueView {
        parked: decided(q.parked, rules, event, old, new, RequeueDecision::Skip),
        timeline: if q.flying.len() > 0 {
            q.timeline.push(Moment::Change { event, old, new })
        } else {
            q.timeline
        },
        ..q
    }
}

/// The queue after an event: the pods it wakes at once are offered again, then
/// those it wakes after backoff are readmitted.
pub open spec fn moved<L: QueueSortPlugin, P: PreEnqueuePlugin, H: QueueingHintFn>(
    q: QueueView,
    rules: Rules<L, P, H>,
    event: ClusterEvent,
    old: Option<ChangedObject>,
    new: Option<ChangedObject>,
    now: u64,
) -> QueueView {
    let at_once = parked_pods(
        decided(q.parked, rules, event, old, new, RequeueDecision::Immediately),
    );
    let after_backoff = parked_pods(
        decided(q.parked, rules, event, old, new, RequeueDecision::AfterBackoff),
    );
    all_readmitted(
        all_offered(remaining(q, rules, event, old, new), rules, at_once, now),
        rules,
        after_backoff,
        now,
    )
}

fn is_marker(m: &InFlight, uid: &str) -> (r: bool)
    ensures
        r == (m@ == Moment::Marker(uid@)),
{
    match m {
        InFlight::PodMarker(u) => text_eq(u.as_str(), uid),
        InFlight::Event { .. } => false,
    }
}

fn leave_uid(uids: &Vec<String>, uid: &str) -> (r: Vec<String>)
    ensures
        views(r@) == landed(views(uids@), uid@),
{
    let ghost all = views(uids@);
    let mut out: Vec<String> = Vec::new();
    let mut i: usize = 0;
    assert(all.take(0) =~= Seq::empty());
    assert(views(out@) =~= Seq::<Seq<char>>::empty());
    while i < uids.len()
        invariant
            i <= uids@.len(),
            all == views(uids@),
            views(out@) == landed(all.take(i as int), uid@),
        decreases uids@.len() - i,
    {
        let ghost before = out@;
        if !text_eq(uids[i].as_str(), uid) {
            out.push(uids[i].clone());
            assert(views(out@) =~= views(before).push(uids@[i as int]@));
        }
        i += 1;
        assert(all.take(i as int).drop_last() =~= all.take(i - 1));
        assert(all.take(i as int).last() == uids@[i - 1]@);
    }
    assert(all.take(i as int) =~= all);
    out
}

fn leave_marker(t: &Vec<InFlight>, uid: &str) -> (r: Vec<InFlight>)
    ensures
        moments(r@) == unmarked(moments(t@), uid@),
{
    let ghost all = moments(t@);
    let mut out: Vec<InFlight> = Vec::new();
    let mut i: usize = 0;
    assert(all.take(0) =~= Seq::empty());
    assert(moments(out@) =~= Seq::<Moment>::empty());
    while i < t.len()
        invariant
            i <= t@.len(),
            all == moments(t@),
            moments(out@) == unmarked(all.take(i as int), uid@),
        decreases t@.len() - i,
    {
        let ghost before = out@;
        if !is_marker(&t[i], uid) {
            out.push(t[i].copy());
            assert(moments(out@) =~= moments(before).push(t@[i as int]@));
        }
        i += 1;
        assert(all.take(i as int).drop_last() =~= all.take(i - 1));
        assert(all.take(i as int).last() == t@[i - 1]@);
    }
    assert(all.take(i as int) =~= all);
    out
}

fn skip_to_marker(t: &Vec<InFlight>) -> (r: Vec<InFlight>)
    ensures
        moments(r@) == from_marker(moments(t@)),
{
    let ghost all = moments(t@);
    let mut first: usize = 0;
    while first < t.len() && !matches!(t[first], InFlight::PodMarker(_))
        invariant
            first <= t@.len(),
            all == moments(t@),
            forall|k: int| 0 <= k < first ==> !((#[trigger] all[k]) is Marker),
        decreases t@.len() - first,
    {
        assert(all[first as int] == t@[first as int]@);
        first += 1;
    }
    let mut from: usize = first;
    if first == t.len() {
        from = 0;
    }
    proof {
        if first < t.len() {
            assert(all[first as int] == t@[first as int]@);
            marker_found(all, first as int);
        } else {
            assert(!marks_any(all));
            assert(all.skip(0) =~= all);
        }
    }
    let mut out: Vec<InFlight> = Vec::new();
    let mut i: usize = from;
    while i < t.len()
        invariant
            from <= i <= t@.len(),
            all == moments(t@),
            moments(out@) == all.subrange(from as int, i as int),
        decreases t@.len() - i,
    {
        let ghost before = out@;
        out.push(t[i].copy());
        assert(moments(out@) =~= moments(before).push(t@[i as int]@));
        i += 1;
        assert(all.subrange(from as int, i as int) =~= all.subrange(from as int, i - 1).push(
            all[i - 1],
        ));
    }
    assert(all.subrange(from as int, t@.len() as int) =~= all.skip(from as int));
    out
}

proof fn marker_found(t: Seq<Moment>, n: int)
    requires
        0 <= n < t.len(),
        t[n] is Marker,
        forall|k: int| 0 <= k < n ==> !((#[trigger] t[k]) is Marker),
    ensures
        from_marker(t) == t.skip(n),
    decreases n,
{
    assert(marks_any(t));
    if n > 0 {
        assert(!(t[0] is Marker));
        assert(t.skip(1)[n - 1] == t[n]);
        assert forall|k: int| 0 <= k < n - 1 implies !((#[trigger] t.skip(1)[k]) is Marker) by {
            assert(t.skip(1)[k] == t[k + 1]);
        }
        marker_found(t.skip(1), n - 1);
        assert(t.skip(1).skip(n - 1) =~= t.skip(n));
    } else {
        assert(t.skip(0) =~= t);
    }
}

proof fn decided_once<L: QueueSortPlugin, P: PreEnqueuePlugin, H: QueueingHintFn>(
    p: Seq<Parked>,
    rules: Rules<L, P, H>,
    event: ClusterEvent,
    old: Option<ChangedObject>,
    new: Option<ChangedObject>,
    wanted: RequeueDecision,
)
    ensures
        parked_once(p) ==> parked_once(decided(p, rules, event, old, new, wanted)),
        forall|i: int|
            0 <= i < decided(p, rules, event, old, new, wanted).len() ==> p.contains(
                #[trigger] decided(p, rules, event, old, new, wanted)[i],
            ),
    decreases p.len(),
{
    if p.len() > 0 {
        let t = p.drop_last();
        decided_once(t, rules, event, old, new, wanted);
        subset_push(p, decided(t, rules, event, old, new, wanted), decided(p, rules, event, old, new, wanted));
    }
}

proof fn overdue_once(p: Seq<Parked>, now: u64, limit: u64, wanted: bool)
    ensures
        parked_once(p) ==> parked_once(overdue(p, now, limit, wanted)),
        forall|i: int|
            0 <= i < overdue(p, now, limit, wanted).len() ==> p.contains(
                #[trigger] overdue(p, now, limit, wanted)[i],
            ),
    decreases p.len(),
{
    if p.len() > 0 {
        let t = p.drop_last();
        overdue_once(t, now, limit, wanted);
        subset_push(p, overdue(t, now, limit, wanted), overdue(p, now, limit, wanted));
    }
}

proof fn subset_push(p: Seq<Parked>, ot: Seq<Parked>, o: Seq<Parked>)
    requires
        p.len() > 0,
        o == ot || o == ot.push(p.last()),
        parked_once(p.drop_last()) ==> parked_once(ot),
        forall|i: int| 0 <= i < ot.len() ==> p.drop_last().contains(#[trigger] ot[i]),
    ensures
        parked_once(p) ==> parked_once(o),
        forall|i: int| 0 <= i < o.len() ==> p.contains(#[trigger] o[i]),
{
    let t = p.drop_last();
    assert forall|i: int| 0 <= i < o.len() implies p.contains(#[trigger] o[i]) by {
        if i < ot.len() {
            assert(o[i] == ot[i]);
            assert(t.contains(ot[i]));
            let k = choose|k: int| 0 <= k < t.len() && t[k] == ot[i];
            assert(p[k] == o[i]);
        } else {
            assert(p[p.len() - 1] == o[i]);
        }
    }
    if parked_once(p) {
        assert(parked_once(t)) by {
            assert forall|i: int, j: int| 0 <= i < j < t.len() implies (#[trigger] t[i]).pod.uid@
                != (#[trigger] t[j]).pod.uid@ by {
                assert(t[i] == p[i] && t[j] == p[j]);
            }
        }
        assert forall|i: int, j: int| 0 <= i < j < o.len() implies (#[trigger] o[i]).pod.uid@ != (
        #[trigger] o[j]).pod.uid@ by {
            assert(o[i] == ot[i]);
            if j < ot.len() {
                assert(o[j] == ot[j]);
            } else {
                assert(t.contains(ot[i]));
                let k = choose|k: int| 0 <= k < t.len() && t[k] == ot[i];
                assert(p[k] == ot[i] && p[p.len() - 1] == o[j]);
            }
        }
    }
}

proof fn dropped_once(a: Seq<Arc<PodInfo>>, uid: Seq<char>)
    ensures
        active_once(a) ==> active_once(dropped(a, uid)),
        !listed(dropped(a, uid), uid),
        forall|i: int| 0 <= i < dropped(a, uid).len() ==> a.contains(#[trigger] dropped(a, uid)[i]),
    decreases a.len(),
{
    if a.len() > 0 {
        let t = a.drop_last();
        dropped_once(t, uid);
        let o = dropped(a, uid);
        let ot = dropped(t, uid);
        assert forall|i: int| 0 <= i < o.len() implies a.contains(#[trigger] o[i]) by {
            if i < ot.len() {
                assert(o[i] == ot[i]);
                assert(t.contains(ot[i]));
                let k = choose|k: int| 0 <= k < t.len() && t[k] == ot[i];
                assert(a[k] == o[i]);
            } else {
                assert(a[a.len() - 1] == o[i]);
            }
        }
        assert(!listed(o, uid)) by {
            if listed(o, uid) {
                let k = choose|k: int| 0 <= k < o.len() && (#[trigger] o[k]).uid@ == uid;
                if k < ot.len() {
                    assert(ot[k] == o[k]);
                }
            }
        }
        if active_once(a) {
            assert(active_once(t)) by {
                assert forall|i: int, j: int| 0 <= i < j < t.len() implies (#[trigger] t[i]).uid@
                    != (#[trigger] t[j]).uid@ by {
                    assert(t[i] == a[i] && t[j] == a[j]);
                }
            }
            assert forall|i: int, j: int| 0 <= i < j < o.len() implies (#[trigger] o[i]).uid@ != (
            #[trigger] o[j]).uid@ by {
                assert(o[i] == ot[i]);
                if j < ot.len() {
                    assert(o[j] == ot[j]);
                } else {
                    assert(t.contains(ot[i]));
                    let k = choose|k: int| 0 <= k < t.len() && t[k] == ot[i];
                    assert(a[k] == ot[i] && a[a.len() - 1] == o[j]);
                }
            }
        }
    }
}

proof fn unmarked_front(t: Seq<Moment>, uid: Seq<char>)
    requires
        t.len() > 0,
    ensures
        unmarked(t, uid) == if t[0] == Moment::Marker(uid) {
            unmarked(t.skip(1), uid)
        } else {
            seq![t[0]] + unmarked(t.skip(1), uid)
        },
    decreases t.len(),
{
    if t.len() == 1 {
        assert(t.drop_last() =~= Seq::empty());
        assert(t.skip(1) =~= Seq::empty());
        assert(seq![t[0]] + Seq::<Moment>::empty() =~= Seq::<Moment>::empty().push(t[0]));
    } else {
        let d = t.drop_last();
        unmarked_front(d, uid);
        assert(d.skip(1) =~= t.skip(1).drop_last());
        assert(t.skip(1).last() == t.last());
        let rest = unmarked(d.skip(1), uid);
        assert((seq![t[0]] + rest).push(t.last()) =~= seq![t[0]] + rest.push(t.last()));
    }
}

proof fn unmarked_changes(t: Seq<Moment>, uid: Seq<char>)
    ensures
        changes(unmarked(t, uid)) == changes(t),
    decreases t.len(),
{
    if t.len() > 0 {
        unmarked_front(t, uid);
        unmarked_changes(t.skip(1), uid);
        if t[0] != Moment::Marker(uid) {
            assert(unmarked(t, uid).skip(1) =~= unmarked(t.skip(1), uid));
        }
    }
}

proof fn unmarked_replay(t: Seq<Moment>, uid: Seq<char>, other: Seq<char>)
    requires
        other != uid,
    ensures
        replay(unmarked(t, uid), other) == replay(t, other),
    decreases t.len(),
{
    if t.len() > 0 {
        unmarked_front(t, uid);
        unmarked_replay(t.skip(1), uid, other);
        unmarked_changes(t.skip(1), uid);
        if t[0] != Moment::Marker(uid) {
            assert(unmarked(t, uid).skip(1) =~= unmarked(t.skip(1), uid));
        }
    }
}

proof fn from_marker_replay(t: Seq<Moment>, uid: Seq<char>)
    ensures
        replay(from_marker(t), uid) == replay(t, uid),
    decreases t.len(),
{
    if t.len() > 0 && !(t[0] is Marker) && marks_any(t) {
        from_marker_replay(t.skip(1), uid);
    }
}

/// The end of one pod's cycle loses no event of another: what is replayed for
/// a pod that is still in flight stays the same.
pub proof fn done_keeps_replay(
    timeline: Seq<Moment>,
    flying: Seq<Seq<char>>,
    uid: Seq<char>,
    other: Seq<char>,
)
    requires
        other != uid,
        flying.contains(other),
    ensures
        replay(trimmed(timeline, flying, uid), other) == replay(timeline, other),
{
    landed_keeps(flying, uid, other);
    unmarked_replay(timeline, uid, other);
    from_marker_replay(unmarked(timeline, uid), other);
}

proof fn landed_keeps(flying: Seq<Seq<char>>, uid: Seq<char>, other: Seq<char>)
    requires
        other != uid,
        flying.contains(other),
    ensures
        landed(flying, uid).contains(other),
    decreases flying.len(),
{
    let t = flying.drop_last();
    if flying.last() == other {
        let l = landed(flying, uid);
        assert(l[l.len() - 1] == other);
    } else {
        let k = choose|k: int| 0 <= k < flying.len() && flying[k] == other;
        assert(t[k] == other);
        landed_keeps(t, uid, other);
        let m = choose|m: int| 0 <= m < landed(t, uid).len() && landed(t, uid)[m] == other;
        assert(landed(flying, uid)[m] == other);
    }
}

proof fn changes_push(t: Seq<Moment>, m: Moment)
    requires
        m is Change,
    ensures
        changes(t.push(m)) == changes(t).push(m),
    decreases t.len(),
{
    let all = t.push(m);
    if t.len() == 0 {
        assert(all.skip(1) =~= Seq::empty());
        assert(changes(all.skip(1)) =~= Seq::empty());
        assert(changes(t) =~= Seq::empty());
        assert(all[0] == m);
        assert(seq![m] + Seq::<Moment>::empty() =~= Seq::<Moment>::empty().push(m));
    } else {
        assert(all[0] == t[0]);
        assert(all.skip(1) =~= t.skip(1).push(m));
        changes_push(t.skip(1), m);
        let c = changes(t.skip(1));
        assert(seq![t[0]] + c.push(m) =~= (seq![t[0]] + c).push(m));
    }
}

/// An event that arrives while a pod's cycle runs is not lost: it is the last
/// to be replayed for the pod.
pub proof fn recorded_events_are_replayed(timeline: Seq<Moment>, uid: Seq<char>, event: Moment)
    requires
        event is Change,
        timeline.contains(Moment::Marker(uid)),
    ensures
        replay(timeline.push(event), uid) == replay(timeline, uid).push(event),
    decreases timeline.len(),
{
    let all = timeline.push(event);
    let k = choose|k: int| 0 <= k < timeline.len() && timeline[k] == Moment::Marker(uid);
    assert(all.skip(1) =~= timeline.skip(1).push(event));
    if timeline[0] == Moment::Marker(uid) {
        changes_push(timeline.skip(1), event);
    } else {
        assert(timeline.skip(1)[k - 1] == Moment::Marker(uid));
        assert(timeline.skip(1).contains(Moment::Marker(uid)));
        recorded_events_are_replayed(timeline.skip(1), uid, event);
    }
}

/// A list in which no pod goes before an earlier one.
pub open spec fn in_order<L: QueueSortPlugin>(pods: Seq<Arc<PodInfo>>, less: L) -> bool {
    forall|i: int, j: int|
        0 <= i < j < pods.len() ==> !less.less_view(*#[trigger] pods[j], *#[trigger] pods[i])
}

/// The order of a sort plugin is strict, and what does not go before carries
/// over.
pub open spec fn strict_order<L: QueueSortPlugin>(less: L) -> bool {
    &&& forall|a: PodInfo, b: PodInfo| #[trigger] less.less_view(a, b) ==> !less.less_view(b, a)
    &&& forall|a: PodInfo, b: PodInfo, c: PodInfo|
        !(#[trigger] less.less_view(a, b)) && !(#[trigger] less.less_view(b, c))
            ==> !less.less_view(a, c)
}

/// Activation keeps the active list in order.
pub proof fn activation_keeps_order<L: QueueSortPlugin>(
    active: Seq<Arc<PodInfo>>,
    pod: Arc<PodInfo>,
    less: L,
)
    requires
        strict_order(less),
        in_order(active, less),
    ensures
        in_order(activated(active, pod, less), less),
{
    if !listed(active, pod.uid@) {
        let p = crate::maps::shared(pod);
        place_bounds(active, p, less);
        let r = place(active, p, less);
        let all = active.insert(r, pod);
        assert forall|i: int, j: int| 0 <= i < j < all.len() implies !less.less_view(
            *#[trigger] all[j],
            *#[trigger] all[i],
        ) by {
            let i0 = if i < r { i } else { i - 1 };
            let j0 = if j < r { j } else { j - 1 };
            if i != r && j != r {
                assert(all[i] == active[i0] && all[j] == active[j0]);
            } else if j == r {
                assert(all[i] == active[i]);
            } else {
                assert(all[j] == active[j - 1]);
                assert(less.less_view(p, *active[r]));
                assert(!less.less_view(*active[r], p));
                if j - 1 > r {
                    assert(!less.less_view(*active[j - 1], *active[r]));
                }
            }
        }
    }
}

/// A deleted pod is nowhere: not active, not parked, not in backoff.
pub proof fn removed_everywhere(q: QueueView, uid: Seq<char>)
    ensures
        !listed(dropped(q.active, uid), uid),
        parked_at(unparked(q.parked, uid), uid) is None,
        !backoff::waits(others(q.backoff, uid), uid),
{
    dropped_once(q.active, uid);
    unparked_once(q.parked, uid);
    backoff::others_ordered(q.backoff, uid);
    parked_nowhere(unparked(q.parked, uid), uid);
}

proof fn parked_nowhere(p: Seq<Parked>, uid: Seq<char>)
    requires
        forall|i: int| 0 <= i < p.len() ==> (#[trigger] p[i]).pod.uid@ != uid,
    ensures
        parked_at(p, uid) is None,
    decreases p.len(),
{
    if p.len() > 0 {
        assert(p[p.len() - 1].pod.uid@ != uid);
        assert forall|i: int| 0 <= i < p.drop_last().len() implies (
        #[trigger] p.drop_last()[i]).pod.uid@ != uid by {
            assert(p[i].pod.uid@ != uid);
        }
        parked_nowhere(p.drop_last(), uid);
    }
}

/// An event that wakes none of a pod's plugins leaves it parked.
pub proof fn unrelated_events_leave_pods_parked<
    L: QueueSortPlugin,
    P: PreEnqueuePlugin,
    H: QueueingHintFn,
>(
    p: Seq<Parked>,
    rules: Rules<L, P, H>,
    event: ClusterEvent,
    old: Option<ChangedObject>,
    new: Option<ChangedObject>,
)
    requires
        forall|i: int|
            0 <= i < p.len() ==> parked_decision(rules, #[trigger] p[i], event, old, new)
                == RequeueDecision::Skip,
    ensures
        decided(p, rules, event, old, new, RequeueDecision::Skip) == p,
        decided(p, rules, event, old, new, RequeueDecision::Immediately).len() == 0,
        decided(p, rules, event, old, new, RequeueDecision::AfterBackoff).len() == 0,
    decreases p.len(),
{
    if p.len() > 0 {
        let t = p.drop_last();
        assert forall|i: int| 0 <= i < t.len() implies parked_decision(
            rules,
            #[trigger] t[i],
            event,
            old,
            new,
        ) == RequeueDecision::Skip by {
            assert(t[i] == p[i]);
        }
        unrelated_events_leave_pods_parked(t, rules, event, old, new);
        assert(p[p.len() - 1] == p.last());
        assert(t.push(p.last()) =~= p);
    } else {
        assert(decided(p, rules, event, old, new, RequeueDecision::Skip) =~= p);
    }
}

/// Every pod of a list is admitted, or was in another list before.
pub open spec fn admitted_or_in<P: PreEnqueuePlugin>(
    pods: Seq<Arc<PodInfo>>,
    before: Seq<Arc<PodInfo>>,
    admission: P,
) -> bool {
    forall|i: int|
        0 <= i < pods.len() ==> before.contains(#[trigger] pods[i]) || admission.pre_enqueue_view(
            *pods[i],
        ).code == Code::Success
}

proof fn offering_admits<L: QueueSortPlugin, P: PreEnqueuePlugin, H: QueueingHintFn>(
    q: QueueView,
    rules: Rules<L, P, H>,
    pods: Seq<Arc<PodInfo>>,
    now: u64,
    before: Seq<Arc<PodInfo>>,
)
    requires
        admitted_or_in(q.active, before, rules.pre_enqueue),
    ensures
        admitted_or_in(all_offered(q, rules, pods, now).active, before, rules.pre_enqueue),
    decreases pods.len(),
{
    if pods.len() > 0 {
        offering_admits(q, rules, pods.drop_last(), now, before);
        let a = all_offered(q, rules, pods.drop_last(), now).active;
        let pod = pods.last();
        let all = all_offered(q, rules, pods, now).active;
        if all != a {
            place_bounds(a, crate::maps::shared(pod), rules.less);
            let r = place(a, crate::maps::shared(pod), rules.less);
            assert forall|i: int| 0 <= i < all.len() implies before.contains(#[trigger] all[i])
                || rules.pre_enqueue.pre_enqueue_view(*all[i]).code == Code::Success by {
                if i < r {
                    assert(all[i] == a[i]);
                } else if i > r {
                    assert(all[i] == a[i - 1]);
                }
            }
        }
    }
}

proof fn readmitting_keeps_active<L: QueueSortPlugin, P: PreEnqueuePlugin, H: QueueingHintFn>(
    q: QueueView,
    rules: Rules<L, P, H>,
    pods: Seq<Arc<PodInfo>>,
    now: u64,
)
    ensures
        all_readmitted(q, rules, pods, now).active == q.active,
    decreases pods.len(),
{
    if pods.len() > 0 {
        readmitting_keeps_active(q, rules, pods.drop_last(), now);
    }
}

/// An event brings no pod into the active list that admission would hold: what
/// is active after it was active before, or is admitted.
pub proof fn events_respect_admission<L: QueueSortPlugin, P: PreEnqueuePlugin, H: QueueingHintFn>(
    q: QueueView,
    rules: Rules<L, P, H>,
    event: ClusterEvent,
    old: Option<ChangedObject>,
    new: Option<ChangedObject>,
    now: u64,
)
    ensures
        admitted_or_in(
            moved(q, rules, event, old, new, now).active,
            q.active,
            rules.pre_enqueue,
        ),
{
    let at_once = parked_pods(
        decided(q.parked, rules, event, old, new, RequeueDecision::Immediately),
    );
    let after_backoff = parked_pods(
        decided(q.parked, rules, event, old, new, RequeueDecision::AfterBackoff),
    );
    let rest = remaining(q, rules, event, old, new);
    assert(admitted_or_in(rest.active, q.active, rules.pre_enqueue)) by {
        assert forall|i: int| 0 <= i < q.active.len() implies q.active.contains(
            #[trigger] q.active[i],
        ) by {}
    }
    offering_admits(rest, rules, at_once, now, q.active);
    readmitting_keeps_active(
        all_offered(rest, rules, at_once, now),
        rules,
        after_backoff,
        now,
    );
}

/// How many pods wait: active, parked and in backoff.
pub open spec fn waiting(q: QueueView) -> nat {
    q.active.len() + q.parked.len() + q.backoff.len()
}

/// A pod is active or parked.
pub open spec fn known(q: QueueView, uid: Seq<char>) -> bool {
    listed(q.active, uid) || held_by(q.parked, uid)
}

/// A pod waits: active, parked or in backoff.
pub open spec fn waits_in(q: QueueView, uid: Seq<char>) -> bool {
    known(q, uid) || backoff::waits(q.backoff, uid)
}

/// A pod is parked.
pub open spec fn held_by(p: Seq<Parked>, uid: Seq<char>) -> bool {
    exists|i: int| 0 <= i < p.len() && (#[trigger] p[i]).pod.uid@ == uid
}

proof fn unparked_absent(p: Seq<Parked>, uid: Seq<char>)
    requires
        !held_by(p, uid),
    ensures
        unparked(p, uid) == p,
    decreases p.len(),
{
    if p.len() > 0 {
        let t = p.drop_last();
        assert(p[p.len() - 1].pod.uid@ != uid);
        assert forall|i: int| 0 <= i < t.len() implies (#[trigger] t[i]).pod.uid@ != uid by {
            assert(p[i].pod.uid@ != uid);
        }
        unparked_absent(t, uid);
        assert(t.push(p.last()) =~= p);
    } else {
        assert(unparked(p, uid) =~= p);
    }
}

/// A pod that was not known comes in and nothing else changes.
proof fn offering_adds<L: QueueSortPlugin, P: PreEnqueuePlugin, H: QueueingHintFn>(
    q: QueueView,
    rules: Rules<L, P, H>,
    pod: Arc<PodInfo>,
    now: u64,
)
    requires
        !known(q, pod.uid@),
    ensures
        waiting(offered(q, rules, pod, now)) == waiting(q) + 1,
        forall|u: Seq<char>| #[trigger]
            known(offered(q, rules, pod, now), u) <==> known(q, u) || u == pod.uid@,
{
    let r = offered(q, rules, pod, now);
    if rules.pre_enqueue.pre_enqueue_view(crate::maps::shared(pod)).code == Code::Success {
        place_bounds(q.active, crate::maps::shared(pod), rules.less);
        let at = place(q.active, crate::maps::shared(pod), rules.less);
        assert(r.active == q.active.insert(at, pod));
        assert forall|u: Seq<char>| #[trigger] known(r, u) <==> known(q, u) || u == pod.uid@ by {
            if listed(q.active, u) {
                let i = choose|i: int| 0 <= i < q.active.len() && (#[trigger] q.active[i]).uid@ == u;
                let k = if i < at {
                    i
                } else {
                    i + 1
                };
                assert(r.active[k] == q.active[i]);
            }
            if u == pod.uid@ {
                assert(r.active[at].uid@ == u);
            }
            if listed(r.active, u) && u != pod.uid@ {
                let i = choose|i: int| 0 <= i < r.active.len() && (#[trigger] r.active[i]).uid@ == u;
                let k = if i < at {
                    i
                } else {
                    i - 1
                };
                assert(r.active[i] == q.active[k]);
            }
        }
    } else {
        unparked_absent(q.parked, pod.uid@);
        let last = held(pod, now);
        assert(r.parked == q.parked.push(last));
        assert forall|u: Seq<char>| #[trigger] known(r, u) <==> known(q, u) || u == pod.uid@ by {
            if held_by(q.parked, u) {
                let i = choose|i: int| 0 <= i < q.parked.len() && (#[trigger] q.parked[i]).pod.uid@ == u;
                assert(r.parked[i] == q.parked[i]);
            }
            if u == pod.uid@ {
                assert(r.parked[q.parked.len() as int].pod.uid@ == u);
            }
            if held_by(r.parked, u) && u != pod.uid@ {
                let i = choose|i: int| 0 <= i < r.parked.len() && (#[trigger] r.parked[i]).pod.uid@ == u;
                assert(r.parked[i] == q.parked[i]);
            }
        }
    }
}

proof fn all_offering_adds<L: QueueSortPlugin, P: PreEnqueuePlugin, H: QueueingHintFn>(
    q: QueueView,
    rules: Rules<L, P, H>,
    pods: Seq<Arc<PodInfo>>,
    now: u64,
)
    requires
        active_once(pods),
        forall|i: int| 0 <= i < pods.len() ==> !known(q, (#[trigger] pods[i]).uid@),
    ensures
        all_offered(q, rules, pods, now).backoff == q.backoff,
        waiting(all_offered(q, rules, pods, now)) == waiting(q) + pods.len(),
        forall|u: Seq<char>| #[trigger]
            known(all_offered(q, rules, pods, now), u) <==> known(q, u) || listed(pods, u),
    decreases pods.len(),
{
    if pods.len() > 0 {
        let t = pods.drop_last();
        let last = pods.len() - 1;
        assert forall|i: int, j: int| 0 <= i < j < t.len() implies (#[trigger] t[i]).uid@ != (
        #[trigger] t[j]).uid@ by {
            assert(pods[i].uid@ != pods[j].uid@);
        }
        assert forall|i: int| 0 <= i < t.len() implies !known(q, (#[trigger] t[i]).uid@) by {
            assert(!known(q, pods[i].uid@));
        }
        all_offering_adds(q, rules, t, now);
        let mid = all_offered(q, rules, t, now);
        let pod = pods.last();
        assert(!known(mid, pod.uid@)) by {
            assert(!known(q, pods[last].uid@));
            if listed(t, pod.uid@) {
                let i = choose|i: int| 0 <= i < t.len() && (#[trigger] t[i]).uid@ == pod.uid@;
                assert(pods[i].uid@ != pods[last].uid@);
            }
        }
        offering_adds(mid, rules, pod, now);
        let r = all_offered(q, rules, pods, now);
        assert forall|u: Seq<char>| #[trigger] known(r, u) <==> known(q, u) || listed(pods, u) by {
            let was = known(mid, u);
            listed_push(t, pods, u);
        }
    }
}

proof fn listed_push(t: Seq<Arc<PodInfo>>, pods: Seq<Arc<PodInfo>>, u: Seq<char>)
    requires
        pods.len() > 0,
        t == pods.drop_last(),
    ensures
        listed(pods, u) <==> listed(t, u) || u == pods.last().uid@,
{
    if listed(t, u) {
        let i = choose|i: int| 0 <= i < t.len() && (#[trigger] t[i]).uid@ == u;
        assert(pods[i].uid@ == u);
    }
    if u == pods.last().uid@ {
        assert(pods[pods.len() - 1].uid@ == u);
    }
    if listed(pods, u) {
        let i = choose|i: int| 0 <= i < pods.len() && (#[trigger] pods[i]).uid@ == u;
        if i < t.len() {
            assert(t[i].uid@ == u);
        }
    }
}

proof fn all_readmitting_adds<L: QueueSortPlugin, P: PreEnqueuePlugin, H: QueueingHintFn>(
    q: QueueView,
    rules: Rules<L, P, H>,
    pods: Seq<Arc<PodInfo>>,
    now: u64,
)
    requires
        active_once(pods),
        forall|i: int| 0 <= i < pods.len() ==> !known(q, (#[trigger] pods[i]).uid@),
    ensures
        waiting(all_readmitted(q, rules, pods, now)) == waiting(q) + pods.len(),
        forall|u: Seq<char>| #[trigger]
            known(all_readmitted(q, rules, pods, now), u) ==> known(q, u) || listed(pods, u),
        forall|u: Seq<char>| #[trigger]
            waits_in(all_readmitted(q, rules, pods, now), u) <==> waits_in(q, u) || listed(pods, u),
    decreases pods.len(),
{
    if pods.len() > 0 {
        let t = pods.drop_last();
        let last = pods.len() - 1;
        assert forall|i: int, j: int| 0 <= i < j < t.len() implies (#[trigger] t[i]).uid@ != (
        #[trigger] t[j]).uid@ by {
            assert(pods[i].uid@ != pods[j].uid@);
        }
        assert forall|i: int| 0 <= i < t.len() implies !known(q, (#[trigger] t[i]).uid@) by {
            assert(!known(q, pods[i].uid@));
        }
        all_readmitting_adds(q, rules, t, now);
        let mid = all_readmitted(q, rules, t, now);
        let pod = pods.last();
        assert(!known(mid, pod.uid@)) by {
            assert(!known(q, pods[last].uid@));
            if listed(t, pod.uid@) {
                let i = choose|i: int| 0 <= i < t.len() && (#[trigger] t[i]).uid@ == pod.uid@;
                assert(pods[i].uid@ != pods[last].uid@);
            }
        }
        offering_adds(mid, rules, pod, now);
        backoff::due_bounds(
            mid.backoff,
            later(now, backoff_of(pod.attempts, mid.initial, mid.max)) as u64,
        );
        let r = all_readmitted(q, rules, pods, now);
        assert forall|u: Seq<char>| #[trigger] known(r, u) implies known(q, u) || listed(
            pods,
            u,
        ) by {
            let was = known(mid, u);
            let then = known(offered(mid, rules, pod, now), u);
            listed_push(t, pods, u);
        }
        let entry = Entry {
            expiry: later(now, backoff_of(pod.attempts, mid.initial, mid.max)) as u64,
            pod,
        };
        assert forall|u: Seq<char>| #[trigger] waits_in(r, u) <==> waits_in(q, u) || listed(
            pods,
            u,
        ) by {
            let was = waits_in(mid, u);
            let then = known(offered(mid, rules, pod, now), u);
            listed_push(t, pods, u);
            scheduled_waits(mid.backoff, entry, u);
        }
    }
}

proof fn scheduled_waits(e: Seq<Entry>, entry: Entry, u: Seq<char>)
    ensures
        backoff::waits(scheduled(e, entry), u) <==> backoff::waits(e, u) || u == entry.pod.uid@,
{
    let at = due(e, entry.expiry) as int;
    backoff::due_bounds(e, entry.expiry);
    let r = scheduled(e, entry);
    if backoff::waits(e, u) {
        let i = choose|i: int| 0 <= i < e.len() && (#[trigger] e[i]).pod.uid@ == u;
        let k = if i < at {
            i
        } else {
            i + 1
        };
        assert(r[k] == e[i]);
    }
    if u == entry.pod.uid@ {
        assert(r[at].pod.uid@ == u);
    }
    if backoff::waits(r, u) && u != entry.pod.uid@ {
        let i = choose|i: int| 0 <= i < r.len() && (#[trigger] r[i]).pod.uid@ == u;
        let k = if i < at {
            i
        } else {
            i - 1
        };
        assert(r[i] == e[k]);
    }
}

proof fn held_push(t: Seq<Parked>, p: Seq<Parked>, u: Seq<char>)
    requires
        p.len() > 0,
        t == p.drop_last(),
    ensures
        held_by(p, u) <==> held_by(t, u) || u == p.last().pod.uid@,
{
    if held_by(t, u) {
        let i = choose|i: int| 0 <= i < t.len() && (#[trigger] t[i]).pod.uid@ == u;
        assert(p[i].pod.uid@ == u);
    }
    if u == p.last().pod.uid@ {
        assert(p[p.len() - 1].pod.uid@ == u);
    }
    if held_by(p, u) {
        let i = choose|i: int| 0 <= i < p.len() && (#[trigger] p[i]).pod.uid@ == u;
        if i < t.len() {
            assert(t[i].pod.uid@ == u);
        }
    }
}

proof fn pods_held(p: Seq<Parked>, u: Seq<char>)
    ensures
        listed(parked_pods(p), u) <==> held_by(p, u),
{
    let pods = parked_pods(p);
    if listed(pods, u) {
        let i = choose|i: int| 0 <= i < pods.len() && (#[trigger] pods[i]).uid@ == u;
        assert(p[i].pod.uid@ == u);
    }
    if held_by(p, u) {
        let i = choose|i: int| 0 <= i < p.len() && (#[trigger] p[i]).pod.uid@ == u;
        assert(pods[i].uid@ == u);
    }
}

proof fn decisions_cover<L: QueueSortPlugin, P: PreEnqueuePlugin, H: QueueingHintFn>(
    p: Seq<Parked>,
    rules: Rules<L, P, H>,
    event: ClusterEvent,
    old: Option<ChangedObject>,
    new: Option<ChangedObject>,
    u: Seq<char>,
)
    ensures
        held_by(p, u) <==> {
            ||| held_by(decided(p, rules, event, old, new, RequeueDecision::Skip), u)
            ||| held_by(decided(p, rules, event, old, new, RequeueDecision::Immediately), u)
            ||| held_by(decided(p, rules, event, old, new, RequeueDecision::AfterBackoff), u)
        },
    decreases p.len(),
{
    if p.len() > 0 {
        let t = p.drop_last();
        decisions_cover(t, rules, event, old, new, u);
        held_push(t, p, u);
        let wanted = parked_decision(rules, p.last(), event, old, new);
        let longer = decided(p, rules, event, old, new, wanted);
        assert(longer.drop_last() =~= decided(t, rules, event, old, new, wanted));
        held_push(longer.drop_last(), longer, u);
    }
}

proof fn decisions_partition<L: QueueSortPlugin, P: PreEnqueuePlugin, H: QueueingHintFn>(
    p: Seq<Parked>,
    rules: Rules<L, P, H>,
    event: ClusterEvent,
    old: Option<ChangedObject>,
    new: Option<ChangedObject>,
)
    ensures
        decided(p, rules, event, old, new, RequeueDecision::Skip).len() + decided(
            p,
            rules,
            event,
            old,
            new,
            RequeueDecision::Immediately,
        ).len() + decided(p, rules, event, old, new, RequeueDecision::AfterBackoff).len()
            == p.len(),
    decreases p.len(),
{
    if p.len() > 0 {
        decisions_partition(p.drop_last(), rules, event, old, new);
    }
}

proof fn decided_as<L: QueueSortPlugin, P: PreEnqueuePlugin, H: QueueingHintFn>(
    p: Seq<Parked>,
    rules: Rules<L, P, H>,
    event: ClusterEvent,
    old: Option<ChangedObject>,
    new: Option<ChangedObject>,
    wanted: RequeueDecision,
    i: int,
)
    requires
        0 <= i < decided(p, rules, event, old, new, wanted).len(),
    ensures
        parked_decision(rules, decided(p, rules, event, old, new, wanted)[i], event, old, new)
            == wanted,
        p.contains(decided(p, rules, event, old, new, wanted)[i]),
    decreases p.len(),
{
    let t = p.drop_last();
    let rest = decided(t, rules, event, old, new, wanted);
    decided_once(p, rules, event, old, new, wanted);
    if i < rest.len() {
        decided_as(t, rules, event, old, new, wanted, i);
    }
}

/// Two entries of a parked list with different decisions are of different pods.
proof fn decisions_differ<L: QueueSortPlugin, P: PreEnqueuePlugin, H: QueueingHintFn>(
    p: Seq<Parked>,
    rules: Rules<L, P, H>,
    event: ClusterEvent,
    old: Option<ChangedObject>,
    new: Option<ChangedObject>,
    a: RequeueDecision,
    b: RequeueDecision,
    i: int,
    j: int,
)
    requires
        parked_once(p),
        a != b,
        0 <= i < decided(p, rules, event, old, new, a).len(),
        0 <= j < decided(p, rules, event, old, new, b).len(),
    ensures
        decided(p, rules, event, old, new, a)[i].pod.uid@ != decided(
            p,
            rules,
            event,
            old,
            new,
            b,
        )[j].pod.uid@,
{
    decided_as(p, rules, event, old, new, a, i);
    decided_as(p, rules, event, old, new, b, j);
    let x = decided(p, rules, event, old, new, a)[i];
    let y = decided(p, rules, event, old, new, b)[j];
    let m = choose|m: int| 0 <= m < p.len() && p[m] == x;
    let n = choose|n: int| 0 <= n < p.len() && p[n] == y;
    assert(m != n);
    if m < n {
        assert(p[m].pod.uid@ != p[n].pod.uid@);
    } else {
        assert(p[n].pod.uid@ != p[m].pod.uid@);
    }
}

/// An event loses no waiting pod and doubles none: the same pods wait after it as
/// before, and as many. No pod may be both active and parked, since one that is woken while
/// it is active already comes in once.
pub proof fn events_keep_every_pod<L: QueueSortPlugin, P: PreEnqueuePlugin, H: QueueingHintFn>(
    q: QueueView,
    rules: Rules<L, P, H>,
    event: ClusterEvent,
    old: Option<ChangedObject>,
    new: Option<ChangedObject>,
    now: u64,
)
    requires
        well_formed(q),
        forall|i: int| 0 <= i < q.parked.len() ==> !listed(q.active, (#[trigger] q.parked[i]).pod.uid@),
    ensures
        waiting(moved(q, rules, event, old, new, now)) == waiting(q),
        forall|u: Seq<char>| #[trigger]
            waits_in(moved(q, rules, event, old, new, now), u) <==> waits_in(q, u),
{
    let p = q.parked;
    let skip = decided(p, rules, event, old, new, RequeueDecision::Skip);
    let first = decided(p, rules, event, old, new, RequeueDecision::Immediately);
    let second = decided(p, rules, event, old, new, RequeueDecision::AfterBackoff);
    let at_once = parked_pods(first);
    let after_backoff = parked_pods(second);
    let rest = remaining(q, rules, event, old, new);
    decided_once(p, rules, event, old, new, RequeueDecision::Immediately);
    decided_once(p, rules, event, old, new, RequeueDecision::AfterBackoff);
    decisions_partition(p, rules, event, old, new);
    assert(active_once(at_once)) by {
        assert forall|i: int, j: int| 0 <= i < j < at_once.len() implies (
        #[trigger] at_once[i]).uid@ != (#[trigger] at_once[j]).uid@ by {
            assert(first[i].pod.uid@ != first[j].pod.uid@);
        }
    }
    assert(active_once(after_backoff)) by {
        assert forall|i: int, j: int| 0 <= i < j < after_backoff.len() implies (
        #[trigger] after_backoff[i]).uid@ != (#[trigger] after_backoff[j]).uid@ by {
            assert(second[i].pod.uid@ != second[j].pod.uid@);
        }
    }
    assert forall|i: int| 0 <= i < at_once.len() implies !known(rest, (#[trigger] at_once[i]).uid@) by {
        let u = at_once[i].uid@;
        assert(p.contains(first[i]));
        let k = choose|k: int| 0 <= k < p.len() && p[k] == first[i];
        assert(!listed(q.active, p[k].pod.uid@));
        if held_by(skip, u) {
            let j = choose|j: int| 0 <= j < skip.len() && (#[trigger] skip[j]).pod.uid@ == u;
            decisions_differ(
                p,
                rules,
                event,
                old,
                new,
                RequeueDecision::Immediately,
                RequeueDecision::Skip,
                i,
                j,
            );
        }
    }
    all_offering_adds(rest, rules, at_once, now);
    let mid = all_offered(rest, rules, at_once, now);
    assert forall|i: int| 0 <= i < after_backoff.len() implies !known(
        mid,
        (#[trigger] after_backoff[i]).uid@,
    ) by {
        let u = after_backoff[i].uid@;
        assert(p.contains(second[i]));
        let k = choose|k: int| 0 <= k < p.len() && p[k] == second[i];
        assert(!listed(q.active, p[k].pod.uid@));
        if held_by(skip, u) {
            let j = choose|j: int| 0 <= j < skip.len() && (#[trigger] skip[j]).pod.uid@ == u;
            decisions_differ(
                p,
                rules,
                event,
                old,
                new,
                RequeueDecision::AfterBackoff,
                RequeueDecision::Skip,
                i,
                j,
            );
        }
        if listed(at_once, u) {
            let j = choose|j: int| 0 <= j < at_once.len() && (#[trigger] at_once[j]).uid@ == u;
            decisions_differ(
                p,
                rules,
                event,
                old,
                new,
                RequeueDecision::AfterBackoff,
                RequeueDecision::Immediately,
                i,
                j,
            );
        }
    }
    all_readmitting_adds(mid, rules, after_backoff, now);
    assert forall|u: Seq<char>| #[trigger]
        waits_in(moved(q, rules, event, old, new, now), u) <==> waits_in(q, u) by {
        let was = waits_in(mid, u);
        let then = known(mid, u);
        decisions_cover(p, rules, event, old, new, u);
        pods_held(first, u);
        pods_held(second, u);
    }
}

proof fn activated_holds<L: QueueSortPlugin>(
    active: Seq<Arc<PodInfo>>,
    pod: Arc<PodInfo>,
    less: L,
    uid: Seq<char>,
    x: Arc<PodInfo>,
)
    ensures
        listed(activated(active, pod, less), uid) <==> listed(active, uid) || pod.uid@ == uid,
        active.contains(x) ==> activated(active, pod, less).contains(x),
        activated(active, pod, less).contains(x) ==> active.contains(x) || x == pod,
{
    let all = activated(active, pod, less);
    if listed(active, pod.uid@) {
    } else {
        let r = place(active, crate::maps::shared(pod), less);
        place_bounds(active, crate::maps::shared(pod), less);
        assert(all[r] == pod);
        if listed(active, uid) {
            let i = choose|i: int| 0 <= i < active.len() && (#[trigger] active[i]).uid@ == uid;
            let k = if i < r { i } else { i + 1 };
            assert(all[k] == active[i]);
            assert(all[k].uid@ == uid);
        }
        if listed(all, uid) && pod.uid@ != uid {
            let k = choose|k: int| 0 <= k < all.len() && (#[trigger] all[k]).uid@ == uid;
            let i = if k < r { k } else { k - 1 };
            assert(all[k] == active[i]);
            assert(active[i].uid@ == uid);
        }
        if active.contains(x) {
            let i = choose|i: int| 0 <= i < active.len() && active[i] == x;
            let k = if i < r { i } else { i + 1 };
            assert(all[k] == x);
        }
        if all.contains(x) && x != pod {
            let k = choose|k: int| 0 <= k < all.len() && all[k] == x;
            let i = if k < r { k } else { k - 1 };
            assert(active[i] == x);
        }
    }
}

proof fn all_activated_holds<L: QueueSortPlugin>(
    active: Seq<Arc<PodInfo>>,
    pods: Seq<Arc<PodInfo>>,
    less: L,
    uid: Seq<char>,
    x: Arc<PodInfo>,
)
    ensures
        listed(all_activated(active, pods, less), uid) <==> listed(active, uid) || listed(pods, uid),
        active.contains(x) ==> all_activated(active, pods, less).contains(x),
        all_activated(active, pods, less).contains(x) ==> active.contains(x) || pods.contains(x),
        strict_order(less) && in_order(active, less) ==> in_order(
            all_activated(active, pods, less),
            less,
        ),
    decreases pods.len(),
{
    if pods.len() > 0 {
        let t = pods.drop_last();
        let last = pods.len() - 1;
        all_activated_holds(active, t, less, uid, x);
        let rest = all_activated(active, t, less);
        activated_holds(rest, pods.last(), less, uid, x);
        if strict_order(less) && in_order(active, less) {
            activation_keeps_order(rest, pods.last(), less);
        }
        assert(pods[last] == pods.last());
        if listed(t, uid) {
            let i = choose|i: int| 0 <= i < t.len() && (#[trigger] t[i]).uid@ == uid;
            assert(pods[i].uid@ == uid);
        }
        if listed(pods, uid) && pods.last().uid@ != uid {
            let i = choose|i: int| 0 <= i < pods.len() && (#[trigger] pods[i]).uid@ == uid;
            assert(t[i].uid@ == uid);
        }
        if t.contains(x) {
            let i = choose|i: int| 0 <= i < t.len() && t[i] == x;
            assert(pods[i] == x);
        }
    }
}

/// Before a pod is taken, every pod whose penalty has expired by now, and no
/// other, has joined the active ones. None of them goes before the pod that is
/// taken.
pub proof fn the_first_pod_is_next<L: QueueSortPlugin>(q: QueueView, less: L, now: u64)
    requires
        strict_order(less),
        in_order(q.active, less),
        by_expiry(q.backoff),
    ensures
        forall|uid: Seq<char>| #[trigger]
            listed(drained(q, less, now).active, uid) <==> listed(q.active, uid) || exists|i: int|
                0 <= i < q.backoff.len() && (#[trigger] q.backoff[i]).expiry <= now
                    && q.backoff[i].pod.uid@ == uid,
        forall|p: Arc<PodInfo>| #[trigger]
            q.active.contains(p) ==> drained(q, less, now).active.contains(p),
        forall|e: Entry| #[trigger]
            drained(q, less, now).backoff.contains(e) <==> q.backoff.contains(e) && e.expiry > now,
        in_order(drained(q, less, now).active, less),
        forall|p: Arc<PodInfo>| #[trigger]
            drained(q, less, now).active.contains(p) ==> p == drained(q, less, now).active[0]
                || !less.less_view(*p, *drained(q, less, now).active[0]),
{
    let d = drained(q, less, now);
    let n = due(q.backoff, now) as int;
    backoff::due_bounds(q.backoff, now);
    let early = q.backoff.take(n);
    let pods = pods_of(early);
    assert forall|uid: Seq<char>| #[trigger] listed(d.active, uid) <==> listed(q.active, uid)
        || exists|i: int|
        0 <= i < q.backoff.len() && (#[trigger] q.backoff[i]).expiry <= now
            && q.backoff[i].pod.uid@ == uid by {
        all_activated_holds(q.active, pods, less, uid, arbitrary());
        if listed(pods, uid) {
            let i = choose|i: int| 0 <= i < pods.len() && (#[trigger] pods[i]).uid@ == uid;
            assert(q.backoff[i].expiry <= now && q.backoff[i].pod.uid@ == uid);
        }
        if exists|i: int|
            0 <= i < q.backoff.len() && (#[trigger] q.backoff[i]).expiry <= now
                && q.backoff[i].pod.uid@ == uid {
            let i = choose|i: int|
                0 <= i < q.backoff.len() && (#[trigger] q.backoff[i]).expiry <= now
                    && q.backoff[i].pod.uid@ == uid;
            if i >= n {
                assert(q.backoff[n].expiry <= q.backoff[i].expiry);
            }
            assert(pods[i].uid@ == uid);
        }
    }
    assert forall|p: Arc<PodInfo>| #[trigger] q.active.contains(p) implies d.active.contains(p) by {
        all_activated_holds(q.active, pods, less, p.uid@, p);
    }
    all_activated_holds(q.active, pods, less, arbitrary(), arbitrary());
    assert forall|e: Entry| #[trigger] d.backoff.contains(e) <==> q.backoff.contains(e) && e.expiry
        > now by {
        if d.backoff.contains(e) {
            let i = choose|i: int| 0 <= i < d.backoff.len() && d.backoff[i] == e;
            assert(q.backoff[i + n] == e);
            assert(q.backoff[n].expiry <= q.backoff[i + n].expiry);
        }
        if q.backoff.contains(e) && e.expiry > now {
            let i = choose|i: int| 0 <= i < q.backoff.len() && q.backoff[i] == e;
            assert(d.backoff[i - n] == e);
        }
    }
    assert forall|p: Arc<PodInfo>| #[trigger] d.active.contains(p) implies p == d.active[0]
        || !less.less_view(*p, *d.active[0]) by {
        let i = choose|i: int| 0 <= i < d.active.len() && d.active[i] == p;
        if i > 0 {
            assert(!less.less_view(*d.active[i], *d.active[0]));
        }
    }
}

/// Of the parked entries exactly those are late that have been parked for the
/// limit, or longer, by now; each of the others stays.
pub proof fn only_the_late_are_rescued(p: Seq<Parked>, now: u64, limit: u64, e: Parked)
    requires
        e.since <= now,
    ensures
        overdue(p, now, limit, true).contains(e) <==> p.contains(e) && now - e.since >= limit,
        overdue(p, now, limit, false).contains(e) <==> p.contains(e) && now - e.since < limit,
        overdue(p, now, limit, true).len() + overdue(p, now, limit, false).len() == p.len(),
    decreases p.len(),
{
    if p.len() > 0 {
        let t = p.drop_last();
        only_the_late_are_rescued(t, now, limit, e);
        pushed_holds(p, overdue(t, now, limit, true), overdue(p, now, limit, true), e);
        pushed_holds(p, overdue(t, now, limit, false), overdue(p, now, limit, false), e);
    }
}

proof fn pushed_holds(p: Seq<Parked>, ot: Seq<Parked>, o: Seq<Parked>, e: Parked)
    requires
        p.len() > 0,
        o == ot || o == ot.push(p.last()),
    ensures
        p.contains(e) <==> p.drop_last().contains(e) || p.last() == e,
        o == ot.push(p.last()) ==> (o.contains(e) <==> ot.contains(e) || p.last() == e),
{
    let t = p.drop_last();
    if t.contains(e) {
        let i = choose|i: int| 0 <= i < t.len() && t[i] == e;
        assert(p[i] == e);
    }
    if p.last() == e {
        assert(p[p.len() - 1] == e);
    }
    if p.contains(e) && p.last() != e {
        let i = choose|i: int| 0 <= i < p.len() && p[i] == e;
        assert(t[i] == e);
    }
    if o == ot.push(p.last()) {
        if ot.contains(e) {
            let i = choose|i: int| 0 <= i < ot.len() && ot[i] == e;
            assert(o[i] == e);
        }
        if p.last() == e {
            assert(o[o.len() - 1] == e);
        }
        if o.contains(e) && p.last() != e {
            let i = choose|i: int| 0 <= i < o.len() && o[i] == e;
            assert(ot[i] == e);
        }
    }
}

proof fn decided_holds<L: QueueSortPlugin, P: PreEnqueuePlugin, H: QueueingHintFn>(
    p: Seq<Parked>,
    rules: Rules<L, P, H>,
    event: ClusterEvent,
    old: Option<ChangedObject>,
    new: Option<ChangedObject>,
    wanted: RequeueDecision,
    e: Parked,
)
    ensures
        decided(p, rules, event, old, new, wanted).contains(e) <==> p.contains(e)
            && parked_decision(rules, e, event, old, new) == wanted,
    decreases p.len(),
{
    if p.len() > 0 {
        let t = p.drop_last();
        decided_holds(t, rules, event, old, new, wanted, e);
        pushed_holds(
            p,
            decided(t, rules, event, old, new, wanted),
            decided(p, rules, event, old, new, wanted),
            e,
        );
    }
}

proof fn unparked_holds(p: Seq<Parked>, uid: Seq<char>, e: Parked)
    ensures
        unparked(p, uid).contains(e) <==> p.contains(e) && e.pod.uid@ != uid,
    decreases p.len(),
{
    if p.len() > 0 {
        let t = p.drop_last();
        unparked_holds(t, uid, e);
        pushed_holds(p, unparked(t, uid), unparked(p, uid), e);
    }
}

/// Taking a pod out of the parked ones takes its entries and no other.
pub proof fn unparking_takes_one_pod(p: Seq<Parked>, uid: Seq<char>, e: Parked)
    ensures
        unparked(p, uid).contains(e) <==> p.contains(e) && e.pod.uid@ != uid,
        parked_with(p, e).contains(e),
{
    unparked_holds(p, uid, e);
    let all = parked_with(p, e);
    assert(all[all.len() - 1] == e);
}

/// A pod of a list was offered: it is active where it is admitted, else held.
/// Entries of other pods are as they were.
proof fn offers_hold<L: QueueSortPlugin, P: PreEnqueuePlugin, H: QueueingHintFn>(
    q: QueueView,
    rules: Rules<L, P, H>,
    pods: Seq<Arc<PodInfo>>,
    now: u64,
    x: Arc<PodInfo>,
    e: Parked,
)
    requires
        active_once(pods),
    ensures
        ({
            let r = all_offered(q, rules, pods, now);
            let admitted = rules.pre_enqueue.pre_enqueue_view(*x).code == Code::Success;
            &&& listed(q.active, x.uid@) ==> listed(r.active, x.uid@)
            &&& pods.contains(x) && admitted ==> listed(r.active, x.uid@)
            &&& pods.contains(x) && !admitted ==> r.parked.contains(held(x, now))
            &&& q.parked.contains(e) && !listed(pods, e.pod.uid@) ==> r.parked.contains(e)
            &&& r.backoff == q.backoff
            &&& r.initial == q.initial && r.max == q.max
        }),
    decreases pods.len(),
{
    if pods.len() > 0 {
        let t = pods.drop_last();
        let p = pods.last();
        let last = pods.len() - 1;
        assert(active_once(t)) by {
            assert forall|i: int, j: int| 0 <= i < j < t.len() implies (#[trigger] t[i]).uid@ != (
            #[trigger] t[j]).uid@ by {
                assert(pods[i].uid@ != pods[j].uid@);
            }
        }
        offers_hold(q, rules, t, now, x, e);
        let rest = all_offered(q, rules, t, now);
        activated_holds(rest.active, p, rules.less, x.uid@, x);
        let h = held(p, now);
        assert(parked_with(rest.parked, h).last() == h);
        if t.contains(x) {
            let i = choose|i: int| 0 <= i < t.len() && t[i] == x;
            assert(pods[i].uid@ != pods[last].uid@);
        }
        if pods.contains(x) {
            let i = choose|i: int| 0 <= i < pods.len() && pods[i] == x;
            if i < last {
                assert(t[i] == x);
            }
        }
        if listed(t, e.pod.uid@) {
            let i = choose|i: int| 0 <= i < t.len() && (#[trigger] t[i]).uid@ == e.pod.uid@;
            assert(pods[i].uid@ == e.pod.uid@);
        }
        if p.uid@ == e.pod.uid@ {
            assert(pods[last].uid@ == e.pod.uid@);
        }
        parked_with_holds(rest.parked, h, e);
        parked_with_holds(rest.parked, h, held(x, now));
    }
}

proof fn parked_with_holds(p: Seq<Parked>, entry: Parked, e: Parked)
    ensures
        parked_with(p, entry).contains(e) <==> e == entry || (p.contains(e) && e.pod.uid@
            != entry.pod.uid@),
{
    unparked_holds(p, entry.pod.uid@, e);
    let rest = unparked(p, entry.pod.uid@);
    let all = parked_with(p, entry);
    assert(all[all.len() - 1] == entry);
    if rest.contains(e) {
        let i = choose|i: int| 0 <= i < rest.len() && rest[i] == e;
        assert(all[i] == e);
    }
    if all.contains(e) && e != entry {
        let i = choose|i: int| 0 <= i < all.len() && all[i] == e;
        assert(rest[i] == e);
    }
}

/// When a pod that starts to serve backoff comes due.
pub open spec fn penalty(q: QueueView, pod: Arc<PodInfo>, now: u64) -> Entry {
    Entry { expiry: later(now, backoff_of(pod.attempts, q.initial, q.max)) as u64, pod }
}

proof fn readmissions_hold<L: QueueSortPlugin, P: PreEnqueuePlugin, H: QueueingHintFn>(
    q: QueueView,
    rules: Rules<L, P, H>,
    pods: Seq<Arc<PodInfo>>,
    now: u64,
    x: Arc<PodInfo>,
    e: Parked,
)
    requires
        active_once(pods),
    ensures
        ({
            let r = all_readmitted(q, rules, pods, now);
            let admitted = rules.pre_enqueue.pre_enqueue_view(*x).code == Code::Success;
            &&& r.active == q.active
            &&& pods.contains(x) && admitted ==> r.backoff.contains(penalty(q, x, now))
            &&& pods.contains(x) && !admitted ==> r.parked.contains(held(x, now))
            &&& q.parked.contains(e) && !listed(pods, e.pod.uid@) ==> r.parked.contains(e)
            &&& r.initial == q.initial && r.max == q.max
        }),
    decreases pods.len(),
{
    readmitting_keeps_active(q, rules, pods, now);
    if pods.len() > 0 {
        let t = pods.drop_last();
        let p = pods.last();
        let last = pods.len() - 1;
        assert(active_once(t)) by {
            assert forall|i: int, j: int| 0 <= i < j < t.len() implies (#[trigger] t[i]).uid@ != (
            #[trigger] t[j]).uid@ by {
                assert(pods[i].uid@ != pods[j].uid@);
            }
        }
        readmissions_hold(q, rules, t, now, x, e);
        let rest = all_readmitted(q, rules, t, now);
        let h = held(p, now);
        if t.contains(x) {
            let i = choose|i: int| 0 <= i < t.len() && t[i] == x;
            assert(pods[i].uid@ != pods[last].uid@);
        }
        if pods.contains(x) {
            let i = choose|i: int| 0 <= i < pods.len() && pods[i] == x;
            if i < last {
                assert(t[i] == x);
            }
        }
        if listed(t, e.pod.uid@) {
            let i = choose|i: int| 0 <= i < t.len() && (#[trigger] t[i]).uid@ == e.pod.uid@;
            assert(pods[i].uid@ == e.pod.uid@);
        }
        if p.uid@ == e.pod.uid@ {
            assert(pods[last].uid@ == e.pod.uid@);
        }
        parked_with_holds(rest.parked, h, e);
        parked_with_holds(rest.parked, h, held(x, now));
        let entry = penalty(q, p, now);
        scheduled_holds(rest.backoff, entry, penalty(q, x, now));
    }
}

proof fn scheduled_holds(b: Seq<Entry>, entry: Entry, e: Entry)
    ensures
        scheduled(b, entry).contains(e) <==> e == entry || b.contains(e),
{
    backoff::due_bounds(b, entry.expiry);
    let r = due(b, entry.expiry) as int;
    let all = scheduled(b, entry);
    assert(all[r] == entry);
    if b.contains(e) {
        let i = choose|i: int| 0 <= i < b.len() && b[i] == e;
        let k = if i < r { i } else { i + 1 };
        assert(all[k] == e);
    }
    if all.contains(e) && e != entry {
        let k = choose|k: int| 0 <= k < all.len() && all[k] == e;
        let i = if k < r { k } else { k - 1 };
        assert(b[i] == e);
    }
}

/// A pod that serves backoff comes due after the wait for its attempts, and no
/// other pod's time moves.
pub proof fn penalties_run_from_now(q: QueueView, pod: Arc<PodInfo>, now: u64, e: Entry)
    ensures
        penalised(q, pod, now).backoff.contains(e) <==> q.backoff.contains(e) || (e.pod == pod
            && e.expiry == later(now, backoff_of(pod.attempts, q.initial, q.max)) as u64),
        penalised(q, pod, now).backoff.len() == q.backoff.len() + 1,
{
    backoff::due_bounds(q.backoff, penalty(q, pod, now).expiry);
    scheduled_holds(q.backoff, penalty(q, pod, now), e);
}

proof fn decided_are_apart<L: QueueSortPlugin, P: PreEnqueuePlugin, H: QueueingHintFn>(
    p: Seq<Parked>,
    rules: Rules<L, P, H>,
    event: ClusterEvent,
    old: Option<ChangedObject>,
    new: Option<ChangedObject>,
    wanted: RequeueDecision,
    e: Parked,
)
    requires
        parked_once(p),
        p.contains(e),
        parked_decision(rules, e, event, old, new) != wanted,
    ensures
        !listed(parked_pods(decided(p, rules, event, old, new, wanted)), e.pod.uid@),
{
    let d = decided(p, rules, event, old, new, wanted);
    let pods = parked_pods(d);
    if listed(pods, e.pod.uid@) {
        let i = choose|i: int| 0 <= i < pods.len() && (#[trigger] pods[i]).uid@ == e.pod.uid@;
        assert(d.contains(d[i]));
        decided_holds(p, rules, event, old, new, wanted, d[i]);
        let a = choose|a: int| 0 <= a < p.len() && p[a] == d[i];
        let b = choose|b: int| 0 <= b < p.len() && p[b] == e;
        assert(a == b) by {
            if a < b {
                assert(p[a].pod.uid@ != p[b].pod.uid@);
            } else if b < a {
                assert(p[b].pod.uid@ != p[a].pod.uid@);
            }
        }
    }
}

proof fn decided_pods_once<L: QueueSortPlugin, P: PreEnqueuePlugin, H: QueueingHintFn>(
    p: Seq<Parked>,
    rules: Rules<L, P, H>,
    event: ClusterEvent,
    old: Option<ChangedObject>,
    new: Option<ChangedObject>,
    wanted: RequeueDecision,
)
    requires
        parked_once(p),
    ensures
        active_once(parked_pods(decided(p, rules, event, old, new, wanted))),
{
    decided_once(p, rules, event, old, new, wanted);
    let d = decided(p, rules, event, old, new, wanted);
    let pods = parked_pods(d);
    assert forall|i: int, j: int| 0 <= i < j < pods.len() implies (#[trigger] pods[i]).uid@ != (
    #[trigger] pods[j]).uid@ by {
        assert(d[i].pod.uid@ != d[j].pod.uid@);
    }
}

/// An event sends each parked pod where the decision on it says: nowhere, into
/// the active list, or into backoff for its wait from now. One that admission
/// turns away is held.
pub proof fn events_send_each_pod_its_way<
    L: QueueSortPlugin,
    P: PreEnqueuePlugin,
    H: QueueingHintFn,
>(
    q: QueueView,
    rules: Rules<L, P, H>,
    event: ClusterEvent,
    old: Option<ChangedObject>,
    new: Option<ChangedObject>,
    now: u64,
    e: Parked,
)
    requires
        parked_once(q.parked),
        q.parked.contains(e),
    ensures
        ({
            let r = moved(q, rules, event, old, new, now);
            let admitted = rules.pre_enqueue.pre_enqueue_view(*e.pod).code == Code::Success;
            match rules.hints.decision(*e.pod, e.unschedulable, e.pending, event, old, new) {
                RequeueDecision::Skip => r.parked.contains(e),
                RequeueDecision::Immediately => if admitted {
                    listed(r.active, e.pod.uid@)
                } else {
                    r.parked.contains(held(e.pod, now))
                },
                RequeueDecision::AfterBackoff => if admitted {
                    r.backoff.contains(penalty(q, e.pod, now))
                } else {
                    r.parked.contains(held(e.pod, now))
                },
            }
        }),
{
    let p = q.parked;
    let now_list = decided(p, rules, event, old, new, RequeueDecision::Immediately);
    let wait_list = decided(p, rules, event, old, new, RequeueDecision::AfterBackoff);
    let at_once = parked_pods(now_list);
    let after = parked_pods(wait_list);
    let base = remaining(q, rules, event, old, new);
    let mid = all_offered(base, rules, at_once, now);
    decided_pods_once(p, rules, event, old, new, RequeueDecision::Immediately);
    decided_pods_once(p, rules, event, old, new, RequeueDecision::AfterBackoff);
    decided_holds(p, rules, event, old, new, RequeueDecision::Skip, e);
    decided_holds(p, rules, event, old, new, RequeueDecision::Immediately, e);
    decided_holds(p, rules, event, old, new, RequeueDecision::AfterBackoff, e);
    let d = parked_decision(rules, e, event, old, new);
    if d != RequeueDecision::Immediately {
        decided_are_apart(p, rules, event, old, new, RequeueDecision::Immediately, e);
    } else {
        let i = choose|i: int| 0 <= i < now_list.len() && now_list[i] == e;
        assert(at_once[i] == e.pod);
    }
    if d != RequeueDecision::AfterBackoff {
        decided_are_apart(p, rules, event, old, new, RequeueDecision::AfterBackoff, e);
    } else {
        let i = choose|i: int| 0 <= i < wait_list.len() && wait_list[i] == e;
        assert(after[i] == e.pod);
    }
    offers_hold(base, rules, at_once, now, e.pod, e);
    readmissions_hold(mid, rules, after, now, e.pod, e);
    readmissions_hold(mid, rules, after, now, e.pod, held(e.pod, now));
}

/// The first event of a list that wakes the pod decides; where none does, it is
/// left alone.
pub proof fn first_waking_event_decides<
    L: QueueSortPlugin,
    P: PreEnqueuePlugin,
    H: QueueingHintFn,
>(rules: Rules<L, P, H>, entry: Parked, events: Seq<Moment>)
    ensures
        first_decision(rules, entry, events) == RequeueDecision::Skip ==> forall|i: int|
            0 <= i < events.len() ==> #[trigger] decision_at(rules, entry, events, i)
                == RequeueDecision::Skip,
        first_decision(rules, entry, events) != RequeueDecision::Skip ==> exists|i: int|
            0 <= i < events.len() && #[trigger] decision_at(rules, entry, events, i)
                == first_decision(rules, entry, events) && forall|j: int|
                0 <= j < i ==> #[trigger] decision_at(rules, entry, events, j)
                    == RequeueDecision::Skip,
    decreases events.len(),
{
    if events.len() > 0 {
        let t = events.skip(1);
        first_waking_event_decides(rules, entry, t);
        assert forall|i: int| 0 < i < events.len() implies #[trigger] decision_at(
            rules,
            entry,
            events,
            i,
        ) == decision_at(rules, entry, t, i - 1) by {}
        let here = decision_at(rules, entry, events, 0);
        let r = first_decision(rules, entry, events);
        if here != RequeueDecision::Skip {
            assert(here == r);
        } else if r != RequeueDecision::Skip {
            let i = choose|i: int|
                0 <= i < t.len() && #[trigger] decision_at(rules, entry, t, i) == r && forall|j: int|
                    0 <= j < i ==> #[trigger] decision_at(rules, entry, t, j)
                        == RequeueDecision::Skip;
            assert(decision_at(rules, entry, events, i + 1) == r);
            assert forall|j: int| 0 <= j < i + 1 implies #[trigger] decision_at(
                rules,
                entry,
                events,
                j,
            ) == RequeueDecision::Skip by {
                if j > 0 {
                    assert(decision_at(rules, entry, t, j - 1) == RequeueDecision::Skip);
                }
            }
        } else {
            assert forall|i: int| 0 <= i < events.len() implies #[trigger] decision_at(
                rules,
                entry,
                events,
                i,
            ) == RequeueDecision::Skip by {
                if i > 0 {
                    assert(decision_at(rules, entry, t, i - 1) == RequeueDecision::Skip);
                }
            }
        }
    }
}

/// The decision on an entry for the event at a place of a timeline.
pub open spec fn decision_at<L: QueueSortPlugin, P: PreEnqueuePlugin, H: QueueingHintFn>(
    rules: Rules<L, P, H>,
    entry: Parked,
    events: Seq<Moment>,
    i: int,
) -> RequeueDecision {
    match events[i] {
        Moment::Change { event, old, new } => rules.hints.decision(
            *entry.pod,
            entry.unschedulable,
            entry.pending,
            event,
            old,
            new,
        ),
        Moment::Marker(_) => RequeueDecision::Skip,
    }
}

proof fn changes_hold(t: Seq<Moment>, m: Moment)
    ensures
        changes(t).contains(m) <==> m is Change && t.contains(m),
    decreases t.len(),
{
    if t.len() > 0 {
        let r = t.skip(1);
        changes_hold(r, m);
        let c = changes(t);
        let cr = changes(r);
        if cr.contains(m) {
            let k = choose|k: int| 0 <= k < cr.len() && cr[k] == m;
            if t[0] is Change {
                assert(c[k + 1] == m);
            }
        }
        if r.contains(m) {
            let k = choose|k: int| 0 <= k < r.len() && r[k] == m;
            assert(t[k + 1] == m);
        }
        if t[0] == m && m is Change {
            assert(c[0] == m);
        }
        if c.contains(m) && !cr.contains(m) {
            let k = choose|k: int| 0 <= k < c.len() && c[k] == m;
            if t[0] is Change {
                if k > 0 {
                    assert(cr[k - 1] == m);
                }
            }
        }
        if t.contains(m) && t[0] != m {
            let k = choose|k: int| 0 <= k < t.len() && t[k] == m;
            assert(r[k - 1] == m);
        }
    }
}

/// What is replayed for a pod are exactly the events that came after a marker of
/// the pod.
pub proof fn later_events_are_replayed(t: Seq<Moment>, uid: Seq<char>, m: Moment)
    ensures
        replay(t, uid).contains(m) <==> m is Change && exists|i: int, j: int|
            0 <= i < j < t.len() && #[trigger] t[i] == Moment::Marker(uid) && #[trigger] t[j] == m,
    decreases t.len(),
{
    if t.len() > 0 {
        let r = t.skip(1);
        if t[0] == Moment::Marker(uid) {
            changes_hold(r, m);
            if r.contains(m) {
                let k = choose|k: int| 0 <= k < r.len() && r[k] == m;
                assert(t[0] == Moment::Marker(uid) && t[k + 1] == m);
            }
            if exists|i: int, j: int|
                0 <= i < j < t.len() && #[trigger] t[i] == Moment::Marker(uid) && #[trigger] t[j]
                    == m {
                let (i, j) = choose|i: int, j: int|
                    0 <= i < j < t.len() && #[trigger] t[i] == Moment::Marker(uid)
                        && #[trigger] t[j] == m;
                assert(r[j - 1] == m);
            }
        } else {
            later_events_are_replayed(r, uid, m);
            if exists|i: int, j: int|
                0 <= i < j < r.len() && #[trigger] r[i] == Moment::Marker(uid) && #[trigger] r[j]
                    == m {
                let (i, j) = choose|i: int, j: int|
                    0 <= i < j < r.len() && #[trigger] r[i] == Moment::Marker(uid)
                        && #[trigger] r[j] == m;
                assert(t[i + 1] == Moment::Marker(uid) && t[j + 1] == m);
            }
            if exists|i: int, j: int|
                0 <= i < j < t.len() && #[trigger] t[i] == Moment::Marker(uid) && #[trigger] t[j]
                    == m {
                let (i, j) = choose|i: int, j: int|
                    0 <= i < j < t.len() && #[trigger] t[i] == Moment::Marker(uid)
                        && #[trigger] t[j] == m;
                assert(r[i - 1] == Moment::Marker(uid) && r[j - 1] == m);
            }
        }
    }
}

/// A rejected pod ends up in one place: parked where no event since it was taken
/// wakes it, else active or in backoff.
pub proof fn rejected_pods_are_kept<L: QueueSortPlugin, P: PreEnqueuePlugin, H: QueueingHintFn>(
    q: QueueView,
    rules: Rules<L, P, H>,
    entry: Parked,
)
    ensures
        waits_in(rejected(q, rules, entry), entry.pod.uid@),
        (forall|i: int, j: int|
            0 <= i < j < q.timeline.len() && #[trigger] q.timeline[i] == Moment::Marker(
                entry.pod.uid@,
            ) ==> #[trigger] decision_at(rules, entry, q.timeline, j) == RequeueDecision::Skip)
            ==> rejected(q, rules, entry).parked.contains(entry),
{
    let uid = entry.pod.uid@;
    let events = replay(q.timeline, uid);
    let r = rejected(q, rules, entry);
    first_waking_event_decides(rules, entry, events);
    activated_holds(q.active, entry.pod, rules.less, uid, entry.pod);
    parked_with_holds(q.parked, entry, entry);
    let due = penalty(q, entry.pod, entry.since);
    scheduled_holds(q.backoff, due, due);
    let d = first_decision(rules, entry, events);
    if d == RequeueDecision::Skip {
        let k = choose|k: int| 0 <= k < r.parked.len() && r.parked[k] == entry;
        assert(r.parked[k].pod.uid@ == uid);
        assert(held_by(r.parked, uid));
    } else if d == RequeueDecision::AfterBackoff {
        let k = choose|k: int| 0 <= k < r.backoff.len() && r.backoff[k] == due;
        assert(r.backoff[k].pod.uid@ == uid);
        assert(backoff::waits(r.backoff, uid));
    }
    if (forall|i: int, j: int|
        0 <= i < j < q.timeline.len() && #[trigger] q.timeline[i] == Moment::Marker(uid)
            ==> #[trigger] decision_at(rules, entry, q.timeline, j) == RequeueDecision::Skip) && d
        != RequeueDecision::Skip {
        let i = choose|i: int|
            0 <= i < events.len() && #[trigger] decision_at(rules, entry, events, i) == d;
        let m = events[i];
        assert(events.contains(m));
        later_events_are_replayed(q.timeline, uid, m);
        let (a, b) = choose|a: int, b: int|
            0 <= a < b < q.timeline.len() && #[trigger] q.timeline[a] == Moment::Marker(uid)
                && #[trigger] q.timeline[b] == m;
        assert(decision_at(rules, entry, q.timeline, b) == decision_at(rules, entry, events, i));
    }
}

/// Removing a pod takes what waits of it and nothing of any other.
pub proof fn removal_spares_others(
    q: QueueView,
    uid: Seq<char>,
    p: Arc<PodInfo>,
    parked: Parked,
    entry: Entry,
)
    ensures
        dropped(q.active, uid).contains(p) <==> q.active.contains(p) && p.uid@ != uid,
        unparked(q.parked, uid).contains(parked) <==> q.parked.contains(parked)
            && parked.pod.uid@ != uid,
        others(q.backoff, uid).contains(entry) <==> q.backoff.contains(entry) && entry.pod.uid@
            != uid,
{
    dropped_holds(q.active, uid, p);
    unparked_holds(q.parked, uid, parked);
    others_hold(q.backoff, uid, entry);
}

proof fn dropped_holds(a: Seq<Arc<PodInfo>>, uid: Seq<char>, p: Arc<PodInfo>)
    ensures
        dropped(a, uid).contains(p) <==> a.contains(p) && p.uid@ != uid,
    decreases a.len(),
{
    if a.len() > 0 {
        let t = a.drop_last();
        dropped_holds(t, uid, p);
        let all = dropped(a, uid);
        let rest = dropped(t, uid);
        if rest.contains(p) {
            let k = choose|k: int| 0 <= k < rest.len() && rest[k] == p;
            assert(all[k] == p);
        }
        if t.contains(p) {
            let k = choose|k: int| 0 <= k < t.len() && t[k] == p;
            assert(a[k] == p);
        }
        if a.last() == p {
            assert(a[a.len() - 1] == p);
            if p.uid@ != uid {
                assert(all[all.len() - 1] == p);
            }
        }
        if all.contains(p) && !rest.contains(p) {
            let k = choose|k: int| 0 <= k < all.len() && all[k] == p;
            if k < rest.len() {
                assert(rest[k] == p);
            }
        }
        if a.contains(p) && a.last() != p {
            let k = choose|k: int| 0 <= k < a.len() && a[k] == p;
            assert(t[k] == p);
        }
    }
}

proof fn others_hold(b: Seq<Entry>, uid: Seq<char>, e: Entry)
    ensures
        others(b, uid).contains(e) <==> b.contains(e) && e.pod.uid@ != uid,
    decreases b.len(),
{
    if b.len() > 0 {
        let t = b.drop_last();
        others_hold(t, uid, e);
        let all = others(b, uid);
        let rest = others(t, uid);
        if rest.contains(e) {
            let k = choose|k: int| 0 <= k < rest.len() && rest[k] == e;
            assert(all[k] == e);
        }
        if t.contains(e) {
            let k = choose|k: int| 0 <= k < t.len() && t[k] == e;
            assert(b[k] == e);
        }
        if b.last() == e {
            assert(b[b.len() - 1] == e);
            if e.pod.uid@ != uid {
                assert(all[all.len() - 1] == e);
            }
        }
        if all.contains(e) && !rest.contains(e) {
            let k = choose|k: int| 0 <= k < all.len() && all[k] == e;
            if k < rest.len() {
                assert(rest[k] == e);
            }
        }
        if b.contains(e) && b.last() != e {
            let k = choose|k: int| 0 <= k < b.len() && b[k] == e;
            assert(t[k] == e);
        }
    }
}

proof fn all_unparked_holds(p: Seq<Parked>, uids: Seq<Seq<char>>, e: Parked)
    ensures
        all_unparked(p, uids).contains(e) <==> p.contains(e) && !uids.contains(e.pod.uid@),
    decreases uids.len(),
{
    if uids.len() > 0 {
        let t = uids.drop_last();
        all_unparked_holds(p, t, e);
        unparked_holds(all_unparked(p, t), uids.last(), e);
        let uid = e.pod.uid@;
        if t.contains(uid) {
            let k = choose|k: int| 0 <= k < t.len() && t[k] == uid;
            assert(uids[k] == uid);
        }
        if uids.last() == uid {
            assert(uids[uids.len() - 1] == uid);
        }
        if uids.contains(uid) && uids.last() != uid {
            let k = choose|k: int| 0 <= k < uids.len() && uids[k] == uid;
            assert(t[k] == uid);
        }
    }
}

proof fn parked_at_holds(p: Seq<Parked>, uid: Seq<char>)
    ensures
        match parked_at(p, uid) {
            Some(e) => p.contains(e) && e.pod.uid@ == uid,
            None => forall|e: Parked| #[trigger] p.contains(e) ==> e.pod.uid@ != uid,
        },
    decreases p.len(),
{
    if p.len() > 0 {
        let t = p.drop_last();
        parked_at_holds(t, uid);
        if p.last().pod.uid@ == uid {
            assert(p[p.len() - 1] == p.last());
        } else {
            if let Some(e) = parked_at(t, uid) {
                let k = choose|k: int| 0 <= k < t.len() && t[k] == e;
                assert(p[k] == e);
            } else {
                assert forall|e: Parked| #[trigger] p.contains(e) implies e.pod.uid@ != uid by {
                    let k = choose|k: int| 0 <= k < p.len() && p[k] == e;
                    if k < t.len() {
                        assert(t[k] == e);
                        assert(t.contains(e));
                    }
                }
            }
        }
    }
}

proof fn released_holds(p: Seq<Parked>, uids: Seq<Seq<char>>, e: Parked)
    requires
        parked_once(p),
    ensures
        active_once(released(p, uids)),
        forall|i: int| 0 <= i < released(p, uids).len() ==> uids.contains(
            (#[trigger] released(p, uids)[i]).uid@,
        ),
        p.contains(e) && uids.contains(e.pod.uid@) ==> released(p, uids).contains(e.pod),
    decreases uids.len(),
{
    if uids.len() > 0 {
        let t = uids.drop_last();
        let u = uids.last();
        released_holds(p, t, e);
        let left = all_unparked(p, t);
        parked_at_holds(left, u);
        let rest = released(p, t);
        let all = released(p, uids);
        assert forall|i: int| 0 <= i < all.len() implies uids.contains((#[trigger] all[i]).uid@) by {
            if i < rest.len() {
                assert(all[i] == rest[i]);
                assert(t.contains(rest[i].uid@));
                let k = choose|k: int| 0 <= k < t.len() && t[k] == rest[i].uid@;
                assert(uids[k] == all[i].uid@);
            } else {
                assert(uids[uids.len() - 1] == all[i].uid@);
            }
        }
        if let Some(x) = parked_at(left, u) {
            all_unparked_holds(p, t, x);
            assert(!t.contains(u));
            assert forall|i: int, j: int| 0 <= i < j < all.len() implies (#[trigger] all[i]).uid@
                != (#[trigger] all[j]).uid@ by {
                assert(all[i] == rest[i]);
                if j < rest.len() {
                    assert(all[j] == rest[j]);
                } else {
                    assert(t.contains(rest[i].uid@));
                }
            }
        }
        if p.contains(e) && uids.contains(e.pod.uid@) {
            if t.contains(e.pod.uid@) {
                let k = choose|k: int| 0 <= k < rest.len() && rest[k] == e.pod;
                assert(all[k] == e.pod);
            } else {
                let k = choose|k: int| 0 <= k < uids.len() && uids[k] == e.pod.uid@;
                if k < t.len() {
                    assert(t[k] == e.pod.uid@);
                }
                assert(u == e.pod.uid@);
                all_unparked_holds(p, t, e);
                assert(left.contains(e));
                let x = parked_at(left, u)->Some_0;
                all_unparked_holds(p, t, x);
                let a = choose|a: int| 0 <= a < p.len() && p[a] == x;
                let b = choose|b: int| 0 <= b < p.len() && p[b] == e;
                assert(a == b) by {
                    if a < b {
                        assert(p[a].pod.uid@ != p[b].pod.uid@);
                    } else if b < a {
                        assert(p[b].pod.uid@ != p[a].pod.uid@);
                    }
                }
                assert(all[all.len() - 1] == e.pod);
            }
        }
    }
}

/// Activating offers exactly the parked pods that are named: each of them is
/// active where it is admitted and else held, and every other stays parked.
pub proof fn named_pods_are_activated<L: QueueSortPlugin, P: PreEnqueuePlugin, H: QueueingHintFn>(
    q: QueueView,
    rules: Rules<L, P, H>,
    uids: Seq<Seq<char>>,
    now: u64,
    e: Parked,
)
    requires
        parked_once(q.parked),
        q.parked.contains(e),
    ensures
        ({
            let r = all_offered(
                QueueView { parked: all_unparked(q.parked, uids), ..q },
                rules,
                released(q.parked, uids),
                now,
            );
            if !uids.contains(e.pod.uid@) {
                r.parked.contains(e)
            } else if rules.pre_enqueue.pre_enqueue_view(*e.pod).code == Code::Success {
                listed(r.active, e.pod.uid@)
            } else {
                r.parked.contains(held(e.pod, now))
            }
        }),
{
    let base = QueueView { parked: all_unparked(q.parked, uids), ..q };
    let pods = released(q.parked, uids);
    released_holds(q.parked, uids, e);
    all_unparked_holds(q.parked, uids, e);
    if !uids.contains(e.pod.uid@) && listed(pods, e.pod.uid@) {
        let i = choose|i: int| 0 <= i < pods.len() && (#[trigger] pods[i]).uid@ == e.pod.uid@;
        assert(uids.contains(pods[i].uid@));
    }
    offers_hold(base, rules, pods, now, e.pod, e);
}

} // verus!
