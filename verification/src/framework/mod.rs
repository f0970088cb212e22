//! The scheduling framework: extension points, and the contract every plugin
//! is held to.
//!
//! Everything from [`PreFilterPlugin`] through [`ScorePlugin`] is a function of
//! the snapshot and the pod: no clock, no randomness, no environment. Each
//! extension point names what its plugin answers as a spec function, and the
//! method returns exactly that.
//!
//! A pod that a plugin rejected is tried again only through an event that the
//! plugin subscribed to in [`Plugin::events_to_register`].

pub mod plugins;
pub mod registry;
pub mod status;

use crate::api::{Node, Pod};
use crate::cache::{NodeInfo, PodInfo, Snapshot};
use crate::events::ClusterEvent;
use crate::maps::StrMap;
use crate::text::{contains_text, has_text};
use status::{Status, StatusView};
use std::sync::Arc;
use vstd::prelude::*;

verus! {

/// What one plugin keeps between its extension points during a cycle.
pub enum Slot {
    Unit(()),
    Number(u32),
    Text(String),
    Ports(plugins::node_ports::WantedPorts),
    PodAffinity(plugins::inter_pod_affinity::AffinityState),
    Spread(plugins::pod_topology_spread::SpreadState),
    Fit(plugins::node_resources_fit::FitState),
    Images(plugins::image_locality::PreScoreState),
    Zones(plugins::volume_zone::WantedZones),
    Restrictions(plugins::volume_restrictions::VolumeRestrictionsState),
    Volumes(plugins::node_volume_limits::WantedVolumes),
    Attached(plugins::node_volume_limits::AttachedVolumesByNode),
    Limits(plugins::node_volume_limits::LimitsByNodeAndDriver),
    Pvcs(plugins::volume_binding::WantedPvcs),
    Claims(plugins::dynamic_resources::WantedClaims),
}

impl Slot {
    /// Which of the kinds of value a slot holds.
    pub open spec fn kind(self) -> int {
        match self {
            Slot::Unit(_) => 0,
            Slot::Number(_) => 1,
            Slot::Text(_) => 2,
            Slot::Ports(_) => 3,
            Slot::PodAffinity(_) => 4,
            Slot::Spread(_) => 5,
            Slot::Fit(_) => 6,
            Slot::Images(_) => 7,
            Slot::Zones(_) => 8,
            Slot::Restrictions(_) => 9,
            Slot::Volumes(_) => 10,
            Slot::Attached(_) => 11,
            Slot::Limits(_) => 12,
            Slot::Pvcs(_) => 13,
            Slot::Claims(_) => 14,
        }
    }
}

/// A type whose values a cycle state can hold.
pub trait CycleValue: Sized {
    /// The kind of slot that holds the values of this type, and of no other.
    spec fn kind() -> int;

    /// The slot that holds a value.
    spec fn slot_of(self) -> Slot;

    /// The value of this type in a slot, if that is what it holds.
    spec fn value_in(slot: Slot) -> Option<Self>;

    fn into_slot(self) -> (r: Slot)
        ensures
            r == self.slot_of(),
    ;

    fn from_slot(slot: &Slot) -> (r: Option<&Self>)
        ensures
            match Self::value_in(*slot) {
                Some(v) => r == Some(&v),
                None => r is None,
            },
    ;

    /// What is put into a slot is found there.
    proof fn held(self)
        ensures
            Self::value_in(self.slot_of()) == Some(self),
    ;

    /// A value of this type is in a slot exactly where the slot is of its kind.
    proof fn told_apart(slot: Slot)
        ensures
            Self::value_in(slot) is Some <==> slot.kind() == Self::kind(),
    ;
}

impl CycleValue for u32 {
    open spec fn kind() -> int {
        1
    }

    open spec fn slot_of(self) -> Slot {
        Slot::Number(self)
    }

    open spec fn value_in(slot: Slot) -> Option<Self> {
        match slot {
            Slot::Number(v) => Some(v),
            _ => None,
        }
    }

    fn into_slot(self) -> (r: Slot) {
        Slot::Number(self)
    }

    fn from_slot(slot: &Slot) -> (r: Option<&Self>) {
        match slot {
            Slot::Number(v) => Some(v),
            _ => None,
        }
    }

    proof fn held(self) {
    }

    proof fn told_apart(slot: Slot) {
    }
}

impl CycleValue for String {
    open spec fn kind() -> int {
        2
    }

    open spec fn slot_of(self) -> Slot {
        Slot::Text(self)
    }

    open spec fn value_in(slot: Slot) -> Option<Self> {
        match slot {
            Slot::Text(v) => Some(v),
            _ => None,
        }
    }

    fn into_slot(self) -> (r: Slot) {
        Slot::Text(self)
    }

    fn from_slot(slot: &Slot) -> (r: Option<&Self>) {
        match slot {
            Slot::Text(v) => Some(v),
            _ => None,
        }
    }

    proof fn held(self) {
    }

    proof fn told_apart(slot: Slot) {
    }
}

impl CycleValue for plugins::node_ports::WantedPorts {
    open spec fn kind() -> int {
        3
    }

    open spec fn slot_of(self) -> Slot {
        Slot::Ports(self)
    }

    open spec fn value_in(slot: Slot) -> Option<Self> {
        match slot {
            Slot::Ports(v) => Some(v),
            _ => None,
        }
    }

    fn into_slot(self) -> (r: Slot) {
        Slot::Ports(self)
    }

    fn from_slot(slot: &Slot) -> (r: Option<&Self>) {
        match slot {
            Slot::Ports(v) => Some(v),
            _ => None,
        }
    }

    proof fn held(self) {
    }

    proof fn told_apart(slot: Slot) {
    }
}

impl CycleValue for () {
    open spec fn kind() -> int {
        0
    }

    open spec fn slot_of(self) -> Slot {
        Slot::Unit(self)
    }

    open spec fn value_in(slot: Slot) -> Option<Self> {
        match slot {
            Slot::Unit(v) => Some(v),
            _ => None,
        }
    }

    fn into_slot(self) -> (r: Slot) {
        Slot::Unit(self)
    }

    fn from_slot(slot: &Slot) -> (r: Option<&Self>) {
        match slot {
            Slot::Unit(v) => Some(v),
            _ => None,
        }
    }

    proof fn held(self) {
    }

    proof fn told_apart(slot: Slot) {
    }
}

impl CycleValue for plugins::inter_pod_affinity::AffinityState {
    open spec fn kind() -> int {
        4
    }

    open spec fn slot_of(self) -> Slot {
        Slot::PodAffinity(self)
    }

    open spec fn value_in(slot: Slot) -> Option<Self> {
        match slot {
            Slot::PodAffinity(v) => Some(v),
            _ => None,
        }
    }

    fn into_slot(self) -> (r: Slot) {
        Slot::PodAffinity(self)
    }

    fn from_slot(slot: &Slot) -> (r: Option<&Self>) {
        match slot {
            Slot::PodAffinity(v) => Some(v),
            _ => None,
        }
    }

    proof fn held(self) {
    }

    proof fn told_apart(slot: Slot) {
    }
}

impl CycleValue for plugins::pod_topology_spread::SpreadState {
    open spec fn kind() -> int {
        5
    }

    open spec fn slot_of(self) -> Slot {
        Slot::Spread(self)
    }

    open spec fn value_in(slot: Slot) -> Option<Self> {
        match slot {
            Slot::Spread(v) => Some(v),
            _ => None,
        }
    }

    fn into_slot(self) -> (r: Slot) {
        Slot::Spread(self)
    }

    fn from_slot(slot: &Slot) -> (r: Option<&Self>) {
        match slot {
            Slot::Spread(v) => Some(v),
            _ => None,
        }
    }

    proof fn held(self) {
    }

    proof fn told_apart(slot: Slot) {
    }
}

impl CycleValue for plugins::node_resources_fit::FitState {
    open spec fn kind() -> int {
        6
    }

    open spec fn slot_of(self) -> Slot {
        Slot::Fit(self)
    }

    open spec fn value_in(slot: Slot) -> Option<Self> {
        match slot {
            Slot::Fit(v) => Some(v),
            _ => None,
        }
    }

    fn into_slot(self) -> (r: Slot) {
        Slot::Fit(self)
    }

    fn from_slot(slot: &Slot) -> (r: Option<&Self>) {
        match slot {
            Slot::Fit(v) => Some(v),
            _ => None,
        }
    }

    proof fn held(self) {
    }

    proof fn told_apart(slot: Slot) {
    }
}

impl CycleValue for plugins::image_locality::PreScoreState {
    open spec fn kind() -> int {
        7
    }

    open spec fn slot_of(self) -> Slot {
        Slot::Images(self)
    }

    open spec fn value_in(slot: Slot) -> Option<Self> {
        match slot {
            Slot::Images(v) => Some(v),
            _ => None,
        }
    }

    fn into_slot(self) -> (r: Slot) {
        Slot::Images(self)
    }

    fn from_slot(slot: &Slot) -> (r: Option<&Self>) {
        match slot {
            Slot::Images(v) => Some(v),
            _ => None,
        }
    }

    proof fn held(self) {
    }

    proof fn told_apart(slot: Slot) {
    }
}

impl CycleValue for plugins::volume_zone::WantedZones {
    open spec fn kind() -> int {
        8
    }

    open spec fn slot_of(self) -> Slot {
        Slot::Zones(self)
    }

    open spec fn value_in(slot: Slot) -> Option<Self> {
        match slot {
            Slot::Zones(v) => Some(v),
            _ => None,
        }
    }

    fn into_slot(self) -> (r: Slot) {
        Slot::Zones(self)
    }

    fn from_slot(slot: &Slot) -> (r: Option<&Self>) {
        match slot {
            Slot::Zones(v) => Some(v),
            _ => None,
        }
    }

    proof fn held(self) {
    }

    proof fn told_apart(slot: Slot) {
    }
}

impl CycleValue for plugins::volume_restrictions::VolumeRestrictionsState {
    open spec fn kind() -> int {
        9
    }

    open spec fn slot_of(self) -> Slot {
        Slot::Restrictions(self)
    }

    open spec fn value_in(slot: Slot) -> Option<Self> {
        match slot {
            Slot::Restrictions(v) => Some(v),
            _ => None,
        }
    }

    fn into_slot(self) -> (r: Slot) {
        Slot::Restrictions(self)
    }

    fn from_slot(slot: &Slot) -> (r: Option<&Self>) {
        match slot {
            Slot::Restrictions(v) => Some(v),
            _ => None,
        }
    }

    proof fn held(self) {
    }

    proof fn told_apart(slot: Slot) {
    }
}

impl CycleValue for plugins::node_volume_limits::WantedVolumes {
    open spec fn kind() -> int {
        10
    }

    open spec fn slot_of(self) -> Slot {
        Slot::Volumes(self)
    }

    open spec fn value_in(slot: Slot) -> Option<Self> {
        match slot {
            Slot::Volumes(v) => Some(v),
            _ => None,
        }
    }

    fn into_slot(self) -> (r: Slot) {
        Slot::Volumes(self)
    }

    fn from_slot(slot: &Slot) -> (r: Option<&Self>) {
        match slot {
            Slot::Volumes(v) => Some(v),
            _ => None,
        }
    }

    proof fn held(self) {
    }

    proof fn told_apart(slot: Slot) {
    }
}

impl CycleValue for plugins::node_volume_limits::AttachedVolumesByNode {
    open spec fn kind() -> int {
        11
    }

    open spec fn slot_of(self) -> Slot {
        Slot::Attached(self)
    }

    open spec fn value_in(slot: Slot) -> Option<Self> {
        match slot {
            Slot::Attached(v) => Some(v),
            _ => None,
        }
    }

    fn into_slot(self) -> (r: Slot) {
        Slot::Attached(self)
    }

    fn from_slot(slot: &Slot) -> (r: Option<&Self>) {
        match slot {
            Slot::Attached(v) => Some(v),
            _ => None,
        }
    }

    proof fn held(self) {
    }

    proof fn told_apart(slot: Slot) {
    }
}

impl CycleValue for plugins::node_volume_limits::LimitsByNodeAndDriver {
    open spec fn kind() -> int {
        12
    }

    open spec fn slot_of(self) -> Slot {
        Slot::Limits(self)
    }

    open spec fn value_in(slot: Slot) -> Option<Self> {
        match slot {
            Slot::Limits(v) => Some(v),
            _ => None,
        }
    }

    fn into_slot(self) -> (r: Slot) {
        Slot::Limits(self)
    }

    fn from_slot(slot: &Slot) -> (r: Option<&Self>) {
        match slot {
            Slot::Limits(v) => Some(v),
            _ => None,
        }
    }

    proof fn held(self) {
    }

    proof fn told_apart(slot: Slot) {
    }
}

impl CycleValue for plugins::volume_binding::WantedPvcs {
    open spec fn kind() -> int {
        13
    }

    open spec fn slot_of(self) -> Slot {
        Slot::Pvcs(self)
    }

    open spec fn value_in(slot: Slot) -> Option<Self> {
        match slot {
            Slot::Pvcs(v) => Some(v),
            _ => None,
        }
    }

    fn into_slot(self) -> (r: Slot) {
        Slot::Pvcs(self)
    }

    fn from_slot(slot: &Slot) -> (r: Option<&Self>) {
        match slot {
            Slot::Pvcs(v) => Some(v),
            _ => None,
        }
    }

    proof fn held(self) {
    }

    proof fn told_apart(slot: Slot) {
    }
}

impl CycleValue for plugins::dynamic_resources::WantedClaims {
    open spec fn kind() -> int {
        14
    }

    open spec fn slot_of(self) -> Slot {
        Slot::Claims(self)
    }

    open spec fn value_in(slot: Slot) -> Option<Self> {
        match slot {
            Slot::Claims(v) => Some(v),
            _ => None,
        }
    }

    fn into_slot(self) -> (r: Slot) {
        Slot::Claims(self)
    }

    fn from_slot(slot: &Slot) -> (r: Option<&Self>) {
        match slot {
            Slot::Claims(v) => Some(v),
            _ => None,
        }
    }

    proof fn held(self) {
    }

    proof fn told_apart(slot: Slot) {
    }
}

/// Per-cycle scratch space, written by the points that run once per pod and
/// read by the later points of the same plugin.
pub struct CycleState {
    pub slots: StrMap<Slot>,
    /// Plugins whose filter, or score, is switched off for this cycle.
    pub skipped_filter: Vec<String>,
    pub skipped_score: Vec<String>,
}

impl Default for CycleState {
    fn default() -> (r: Self)
        ensures
            forall|p: Seq<char>| (#[trigger] r.slots.at(p)) is None,
            forall|p: Seq<char>| !#[trigger] r.no_filter(p),
            forall|p: Seq<char>| !#[trigger] r.no_score(p),
            r.skipped_filter@.len() == 0,
            r.skipped_score@.len() == 0,
    {
        CycleState {
            slots: StrMap::new(),
            skipped_filter: Vec::new(),
            skipped_score: Vec::new(),
        }
    }
}

impl CycleState {
    /// The value of a type that a plugin has written.
    pub open spec fn value<T: CycleValue>(&self, plugin: Seq<char>) -> Option<T> {
        match self.slots.at(plugin) {
            Some(slot) => T::value_in(slot),
            None => None,
        }
    }

    /// Whether a plugin's filter is switched off.
    pub open spec fn no_filter(&self, plugin: Seq<char>) -> bool {
        has_text(self.skipped_filter@, plugin)
    }

    /// Whether a plugin's score is switched off.
    pub open spec fn no_score(&self, plugin: Seq<char>) -> bool {
        has_text(self.skipped_score@, plugin)
    }

    /// Every slot but the one of `plugin` is as in `other`.
    pub open spec fn only_slot(&self, other: &CycleState, plugin: Seq<char>) -> bool {
        forall|p: Seq<char>| p != plugin ==> #[trigger] self.slots.at(p) == other.slots.at(p)
    }

    /// Nothing is skipped that `other` does not skip, and the reverse.
    pub open spec fn same_skips(&self, other: &CycleState) -> bool {
        self.skipped_filter == other.skipped_filter && self.skipped_score == other.skipped_score
    }

    pub fn write<T: CycleValue>(&mut self, plugin: &str, value: T)
        ensures
            final(self).only_slot(old(self), plugin@),
            final(self).slots.at(plugin@) == Some(value.slot_of()),
            final(self).value::<T>(plugin@) == Some(value),
            final(self).same_skips(old(self)),
    {
        proof {
            value.held();
        }
        self.slots.insert(plugin.to_owned(), value.into_slot());
    }

    /// What `plugin` wrote, where it is of this type.
    pub fn read<T: CycleValue>(&self, plugin: &str) -> (r: Option<&T>)
        ensures
            match self.value::<T>(plugin@) {
                Some(v) => r == Some(&v),
                None => r is None,
            },
    {
        match self.slots.get(plugin) {
            Some(slot) => T::from_slot(slot),
            None => None,
        }
    }

    pub fn skip_filter(&mut self, plugin: &str)
        ensures
            forall|p: Seq<char>| #[trigger]
                final(self).no_filter(p) <==> old(self).no_filter(p) || p == plugin@,
            final(self).skipped_score == old(self).skipped_score,
            final(self).slots == old(self).slots,
    {
        let ghost before = self.skipped_filter@;
        self.skipped_filter.push(plugin.to_owned());
        proof {
            assert(self.skipped_filter@.drop_last() =~= before);
            pushed(before, self.skipped_filter@);
        }
    }

    pub fn filter_skipped(&self, plugin: &str) -> (r: bool)
        ensures
            r == self.no_filter(plugin@),
    {
        contains_text(&self.skipped_filter, plugin)
    }

    pub fn skip_score(&mut self, plugin: &str)
        ensures
            forall|p: Seq<char>| #[trigger]
                final(self).no_score(p) <==> old(self).no_score(p) || p == plugin@,
            final(self).skipped_filter == old(self).skipped_filter,
            final(self).slots == old(self).slots,
    {
        let ghost before = self.skipped_score@;
        self.skipped_score.push(plugin.to_owned());
        proof {
            assert(self.skipped_score@.drop_last() =~= before);
            pushed(before, self.skipped_score@);
        }
    }

    pub fn score_skipped(&self, plugin: &str) -> (r: bool)
        ensures
            r == self.no_score(plugin@),
    {
        contains_text(&self.skipped_score, plugin)
    }
}

proof fn pushed(before: Seq<String>, after: Seq<String>)
    requires
        after.len() == before.len() + 1,
        after.drop_last() == before,
    ensures
        forall|p: Seq<char>| #[trigger]
            has_text(after, p) <==> has_text(before, p) || p == after.last()@,
{
    assert forall|p: Seq<char>| #[trigger]
        has_text(after, p) <==> has_text(before, p) || p == after.last()@ by {
        if has_text(after, p) {
            let i = choose|i: int| 0 <= i < after.len() && (#[trigger] after[i])@ == p;
            if i < before.len() {
                assert(after.drop_last()[i] == after[i]);
                assert(before[i]@ == p);
            }
        }
        if has_text(before, p) {
            let i = choose|i: int| 0 <= i < before.len() && (#[trigger] before[i])@ == p;
            assert(after.drop_last()[i] == after[i]);
            assert(after[i]@ == p);
        }
        assert(after[after.len() - 1] == after.last());
    }
}

/// What a plugin leaves behind when it has nothing to filter: its filter is
/// skipped and nothing else changes.
pub open spec fn filter_switched_off(before: CycleState, after: CycleState, plugin: Seq<char>) -> bool {
    &&& after.slots == before.slots
    &&& after.skipped_score == before.skipped_score
    &&& forall|p: Seq<char>| #[trigger]
        after.no_filter(p) <==> before.no_filter(p) || p == plugin
}

/// What a plugin leaves behind when it has nothing to score.
pub open spec fn score_switched_off(before: CycleState, after: CycleState, plugin: Seq<char>) -> bool {
    &&& after.slots == before.slots
    &&& after.skipped_filter == before.skipped_filter
    &&& forall|p: Seq<char>| #[trigger]
        after.no_score(p) <==> before.no_score(p) || p == plugin
}

/// A plugin wrote `value` and changed nothing else.
pub open spec fn wrote<T: CycleValue>(
    before: CycleState,
    after: CycleState,
    plugin: Seq<char>,
    value: T,
) -> bool {
    &&& after.only_slot(&before, plugin)
    &&& after.same_skips(&before)
    &&& after.value::<T>(plugin) == Some(value)
}

/// Score bounds: every plugin's score is mapped into this range before it is
/// weighted and summed.
pub const MIN_NODE_SCORE: i64 = 0;

pub const MAX_NODE_SCORE: i64 = 100;

/// What every plugin has.
pub trait Plugin {
    /// What narrows the plugin's subscriptions.
    type Hint: QueueingHintFn;

    spec fn name_view(&self) -> Seq<char>;

    fn name(&self) -> (r: &'static str)
        ensures
            r@ == self.name_view(),
    ;

    /// The events that could make a pod this plugin rejected schedulable. None,
    /// for a plugin that never rejects.
    fn events_to_register(&self) -> (r: Vec<ClusterEventWithHint<Self::Hint>>)
        default_ensures
            r@.len() == 0,
    {
        Vec::new()
    }
}

/// The events of a list of subscriptions.
pub open spec fn events_of<H>(subs: Seq<ClusterEventWithHint<H>>) -> Seq<ClusterEvent> {
    subs.map_values(|s: ClusterEventWithHint<H>| s.event)
}

/// No subscription of the list is narrowed.
pub open spec fn unhinted<H>(subs: Seq<ClusterEventWithHint<H>>) -> bool {
    forall|i: int| 0 <= i < subs.len() ==> (#[trigger] subs[i]).hint is None
}

/// A subscription, optionally narrowed by a hint.
pub struct ClusterEventWithHint<H> {
    pub event: ClusterEvent,
    /// `None` is "requeue on every such event".
    pub hint: Option<H>,
}

impl<H> ClusterEventWithHint<H> {
    pub fn always(event: ClusterEvent) -> (r: Self)
        ensures
            r.event == event,
            r.hint is None,
    {
        Self { event, hint: None }
    }
}

/// Whether a change is worth waking a particular pod for. A hint that cannot
/// decide answers [`QueueingHint::Queue`].
pub trait QueueingHintFn {
    spec fn hint_view(
        &self,
        pod: PodInfo,
        old: Option<ChangedObject>,
        new: Option<ChangedObject>,
    ) -> QueueingHint;

    fn hint(&self, pod: &PodInfo, old: Option<&ChangedObject>, new: Option<&ChangedObject>) -> (r:
        QueueingHint)
        ensures
            r == self.hint_view(*pod, unref(old), unref(new)),
    ;
}

/// The object behind an optional reference.
pub open spec fn unref<T>(o: Option<&T>) -> Option<T> {
    match o {
        Some(v) => Some(*v),
        None => None,
    }
}

/// The hint of a subscription that has none: every matching event counts.
pub struct NoHint;

impl QueueingHintFn for NoHint {
    open spec fn hint_view(
        &self,
        pod: PodInfo,
        old: Option<ChangedObject>,
        new: Option<ChangedObject>,
    ) -> QueueingHint {
        QueueingHint::Queue
    }

    fn hint(&self, pod: &PodInfo, old: Option<&ChangedObject>, new: Option<&ChangedObject>) -> (r:
        QueueingHint) {
        QueueingHint::Queue
    }
}

#[derive(Clone, Copy, Debug, PartialEq, Eq, Structural)]
pub enum QueueingHint {
    /// This pod could not have been helped by this change.
    Skip,
    /// Retry this pod.
    Queue,
}

/// The object a hint reasons about.
#[derive(Clone, Debug)]
pub enum ChangedObject {
    Node(Arc<Node>),
    Pod(Arc<Pod>),
    /// Any other object, in its serialized form.
    Other(String),
}

impl ChangedObject {
    pub fn copy(&self) -> (r: Self)
        ensures
            r == *self,
    {
        match self {
            ChangedObject::Node(n) => ChangedObject::Node(n.clone()),
            ChangedObject::Pod(p) => ChangedObject::Pod(p.clone()),
            ChangedObject::Other(t) => ChangedObject::Other(t.clone()),
        }
    }
}

/// Runs before a pod is admitted to the active queue. A rejection here is
/// quiet: the pod has not entered scheduling.
pub trait PreEnqueuePlugin: Plugin {
    spec fn pre_enqueue_view(&self, pod: PodInfo) -> StatusView;

    fn pre_enqueue(&self, pod: &PodInfo) -> (r: Status)
        ensures
            r@ == self.pre_enqueue_view(*pod),
    ;
}

/// Orders the active queue.
pub trait QueueSortPlugin: Plugin {
    spec fn less_view(&self, a: PodInfo, b: PodInfo) -> bool;

    fn less(&self, a: &PodInfo, b: &PodInfo) -> (r: bool)
        ensures
            r == self.less_view(*a, *b),
    ;
}

/// Once per pod per cycle, before any node is looked at.
pub trait PreFilterPlugin: Plugin {
    /// What the plugin may answer and leave in the cycle state.
    spec fn pre_filter_view(
        &self,
        before: CycleState,
        pod: PodInfo,
        snapshot: Snapshot,
        after: CycleState,
        status: StatusView,
    ) -> bool;

    /// May reject the pod outright, or return a restricted node set.
    fn pre_filter(&self, state: &mut CycleState, pod: &PodInfo, snapshot: &Snapshot) -> (r: (
        Status,
        Option<Vec<String>>,
    ))
        ensures
            self.pre_filter_view(*old(state), *pod, *snapshot, *final(state), r.0@),
    ;
}

/// Incremental re-evaluation: preemption removes victims hypothetically and
/// must see the resulting state.
pub trait PreFilterExtensions {
    /// What the cycle state becomes when a pod joins (`joins`) or leaves a node.
    spec fn adjusted_view(
        &self,
        before: CycleState,
        pod: PodInfo,
        other: PodInfo,
        node: NodeInfo,
        joins: bool,
        after: CycleState,
    ) -> bool;

    fn add_pod(
        &self,
        state: &mut CycleState,
        pod: &PodInfo,
        pod_to_add: &PodInfo,
        node: &NodeInfo,
    ) -> (r: Status)
        ensures
            self.adjusted_view(*old(state), *pod, *pod_to_add, *node, true, *final(state)),
    ;

    fn remove_pod(
        &self,
        state: &mut CycleState,
        pod: &PodInfo,
        pod_to_remove: &PodInfo,
        node: &NodeInfo,
    ) -> (r: Status)
        ensures
            self.adjusted_view(*old(state), *pod, *pod_to_remove, *node, false, *final(state)),
    ;
}

/// Per node.
pub trait FilterPlugin: Plugin {
    spec fn filter_view(&self, state: CycleState, pod: PodInfo, node: NodeInfo) -> StatusView;

    fn filter(&self, state: &CycleState, pod: &PodInfo, node: &NodeInfo) -> (r: Status)
        ensures
            r@ == self.filter_view(*state, *pod, *node),
    ;
}

/// Once per pod, before scoring. `Skip` switches the plugin's score off.
pub trait PreScorePlugin: Plugin {
    spec fn pre_score_view(
        &self,
        before: CycleState,
        pod: PodInfo,
        nodes: Seq<Arc<NodeInfo>>,
        after: CycleState,
        status: StatusView,
    ) -> bool;

    fn pre_score(&self, state: &mut CycleState, pod: &PodInfo, nodes: &Vec<Arc<NodeInfo>>) -> (r:
        Status)
        ensures
            self.pre_score_view(*old(state), *pod, nodes@, *final(state), r@),
    ;
}

/// Per feasible node.
pub trait ScorePlugin: Plugin {
    /// The score of a node, where the plugin comes to one.
    spec fn score_view(&self, state: CycleState, pod: PodInfo, node: NodeInfo) -> int;

    fn score(&self, state: &CycleState, pod: &PodInfo, node: &NodeInfo) -> (r: Result<i64, Status>)
        ensures
            r is Ok ==> r->Ok_0 == self.score_view(*state, *pod, *node),
    ;

    /// Map the scores of all nodes onto the common range. They stay as they are,
    /// for a plugin whose scores are in it already.
    fn normalize(&self, state: &CycleState, pod: &PodInfo, scores: &mut Vec<i64>) -> (r: Status)
        default_ensures
            r@ == status::success(),
            final(scores)@ == old(scores)@,
    {
        Status::success()
    }

    /// What the mapped scores are multiplied by.
    fn weight(&self) -> (r: i64)
        default_ensures
            r == 1,
    {
        1
    }
}

/// The characters of an optional text.
pub open spec fn text_of(t: Option<String>) -> Option<Seq<char>> {
    match t {
        Some(s) => Some(s@),
        None => None,
    }
}

/// Runs only where no node was feasible. It may name a node that is being made
/// room on.
pub trait PostFilterPlugin: Plugin {
    /// What the plugin may answer, leave in the cycle state and name.
    spec fn post_filter_view(
        &self,
        before: CycleState,
        pod: PodInfo,
        snapshot: Snapshot,
        node_statuses: status::NodeToStatus,
        after: CycleState,
        status: StatusView,
        node: Option<Seq<char>>,
    ) -> bool;

    fn post_filter(
        &self,
        state: &mut CycleState,
        pod: &PodInfo,
        snapshot: &Snapshot,
        node_statuses: &status::NodeToStatus,
    ) -> (r: (Status, Option<String>))
        ensures
            self.post_filter_view(
                *old(state),
                *pod,
                *snapshot,
                *node_statuses,
                *final(state),
                r.0@,
                text_of(r.1),
            ),
    ;
}

/// Claims stateful resources for the chosen node.
pub trait ReservePlugin: Plugin {
    /// What the plugin may answer to a reservation, what becomes of it and what
    /// it leaves in the cycle state.
    spec fn reserve_view(
        &self,
        before: CycleState,
        pod: PodInfo,
        node: Seq<char>,
        after: CycleState,
        reserved: &Self,
        status: StatusView,
    ) -> bool;

    /// What becomes of the plugin and the cycle state once a pod's claims on a
    /// node are given up.
    spec fn unreserve_view(
        &self,
        before: CycleState,
        pod: PodInfo,
        node: Seq<char>,
        after: CycleState,
        released: &Self,
    ) -> bool;

    fn reserve(&mut self, state: &mut CycleState, pod: &PodInfo, node: &str) -> (r: Status)
        ensures
            old(self).reserve_view(*old(state), *pod, node@, *final(state), final(self), r@),
    ;

    /// Never fails, and does nothing where nothing is claimed.
    fn unreserve(&mut self, state: &mut CycleState, pod: &PodInfo, node: &str)
        ensures
            old(self).unreserve_view(*old(state), *pod, node@, *final(state), final(self)),
    ;
}

/// Can hold a pod in the binding cycle, for at most the nanoseconds returned.
pub trait PermitPlugin: Plugin {
    /// What the plugin may answer, how long it may hold the pod, and what it may
    /// leave in the cycle state.
    spec fn permit_view(
        &self,
        before: CycleState,
        pod: PodInfo,
        node: Seq<char>,
        after: CycleState,
        status: StatusView,
        hold: Option<u64>,
    ) -> bool;

    fn permit(&self, state: &mut CycleState, pod: &PodInfo, node: &str) -> (r: (
        Status,
        Option<u64>,
    ))
        ensures
            self.permit_view(*old(state), *pod, node@, *final(state), r.0@, r.1),
    ;
}

/// A plugin's own slot holds what it wrote until it writes again: a write by
/// another plugin leaves it alone.
pub proof fn writes_are_separate<T: CycleValue, U: CycleValue>(
    before: CycleState,
    after: CycleState,
    plugin: Seq<char>,
    other: Seq<char>,
    value: U,
)
    requires
        wrote::<U>(before, after, other, value),
        plugin != other,
    ensures
        after.value::<T>(plugin) == before.value::<T>(plugin),
{
}

/// A value is read back at the type it was written at, and at no other: a read
/// at a type of another kind finds nothing. What other plugins read, at either
/// type, is as before.
pub proof fn wrong_type_misses<T: CycleValue, U: CycleValue>(
    before: CycleState,
    after: CycleState,
    plugin: Seq<char>,
    value: T,
    other: Seq<char>,
)
    requires
        wrote::<T>(before, after, plugin, value),
        T::kind() != U::kind(),
        other != plugin,
    ensures
        after.value::<T>(plugin) == Some(value),
        after.value::<U>(plugin) is None,
        after.value::<T>(other) == before.value::<T>(other),
        after.value::<U>(other) == before.value::<U>(other),
{
    let slot = after.slots.at(plugin)->Some_0;
    T::told_apart(slot);
    U::told_apart(slot);
}

/// The kinds of the types that a cycle state can hold.
pub open spec fn kinds() -> Seq<int> {
    seq![
        <u32>::kind(),
        <String>::kind(),
        <plugins::node_ports::WantedPorts>::kind(),
        <()>::kind(),
        <plugins::inter_pod_affinity::AffinityState>::kind(),
        <plugins::pod_topology_spread::SpreadState>::kind(),
        <plugins::node_resources_fit::FitState>::kind(),
        <plugins::image_locality::PreScoreState>::kind(),
        <plugins::volume_zone::WantedZones>::kind(),
        <plugins::volume_restrictions::VolumeRestrictionsState>::kind(),
        <plugins::node_volume_limits::WantedVolumes>::kind(),
        <plugins::node_volume_limits::AttachedVolumesByNode>::kind(),
        <plugins::node_volume_limits::LimitsByNodeAndDriver>::kind(),
        <plugins::volume_binding::WantedPvcs>::kind(),
        <plugins::dynamic_resources::WantedClaims>::kind(),
    ]
}

/// No two of the types share a kind.
pub proof fn kinds_are_distinct()
    ensures
        kinds().no_duplicates(),
{
}

} // verus!
