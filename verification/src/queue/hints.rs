//! Deciding whether a cluster change is worth retrying a pod for.
//!
//! A pod rejected by a plugin is retried only by an event that the plugin
//! registered. Where a hint cannot decide, the answer is to retry.

use crate::cache::PodInfo;
use crate::events::ClusterEvent;
use crate::framework::{unref, ChangedObject, ClusterEventWithHint, QueueingHint, QueueingHintFn};
use crate::text::{text_eq, views};
use vstd::prelude::*;

verus! {

/// Where a pod goes when an event says it is worth another look.
#[derive(Clone, Copy, Debug, PartialEq, Eq, Structural)]
pub enum RequeueDecision {
    /// Nothing this pod was rejected for has changed.
    Skip,
    /// Retry it once its backoff is served.
    AfterBackoff,
    /// Retry it at once: its rejection came with progress.
    Immediately,
}

/// Which events each plugin subscribed to, in the order registered.
pub struct HintRegistry<H: QueueingHintFn> {
    pub groups: Vec<(String, Vec<ClusterEventWithHint<H>>)>,
}

/// Whether a subscription wants a pod retried on an event.
pub open spec fn subscription_wants<H: QueueingHintFn>(
    sub: ClusterEventWithHint<H>,
    pod: PodInfo,
    event: ClusterEvent,
    old: Option<ChangedObject>,
    new: Option<ChangedObject>,
) -> bool {
    &&& sub.event.wakes(event)
    &&& match sub.hint {
        None => true,
        Some(h) => h.hint_view(pod, old, new) == QueueingHint::Queue,
    }
}

/// Whether any of a list of subscriptions does.
pub open spec fn list_wants<H: QueueingHintFn>(
    subs: Seq<ClusterEventWithHint<H>>,
    pod: PodInfo,
    event: ClusterEvent,
    old: Option<ChangedObject>,
    new: Option<ChangedObject>,
) -> bool {
    exists|i: int| 0 <= i < subs.len() && subscription_wants(#[trigger] subs[i], pod, event, old, new)
}

impl<H: QueueingHintFn> HintRegistry<H> {
    /// Whether a plugin that rejected a pod wants it retried.
    pub open spec fn wants(
        &self,
        plugin: Seq<char>,
        pod: PodInfo,
        event: ClusterEvent,
        old: Option<ChangedObject>,
        new: Option<ChangedObject>,
    ) -> bool {
        exists|i: int|
            0 <= i < self.groups@.len() && (#[trigger] self.groups@[i]).0@ == plugin && list_wants(
                self.groups@[i].1@,
                pod,
                event,
                old,
                new,
            )
    }

    /// Some plugin of a list wants the pod retried.
    pub open spec fn any_wants(
        &self,
        plugins: Seq<Seq<char>>,
        pod: PodInfo,
        event: ClusterEvent,
        old: Option<ChangedObject>,
        new: Option<ChangedObject>,
    ) -> bool {
        exists|i: int|
            0 <= i < plugins.len() && self.wants(#[trigger] plugins[i], pod, event, old, new)
    }

    /// The routing decision for one pod against one event. A plugin that
    /// rejected with progress decides first.
    pub open spec fn decision(
        &self,
        pod: PodInfo,
        unschedulable: Seq<Seq<char>>,
        pending: Seq<Seq<char>>,
        event: ClusterEvent,
        old: Option<ChangedObject>,
        new: Option<ChangedObject>,
    ) -> RequeueDecision {
        if self.any_wants(pending, pod, event, old, new) {
            RequeueDecision::Immediately
        } else if self.any_wants(unschedulable, pod, event, old, new) {
            RequeueDecision::AfterBackoff
        } else {
            RequeueDecision::Skip
        }
    }

    pub fn new() -> (r: Self)
        ensures
            r.groups@.len() == 0,
    {
        HintRegistry { groups: Vec::new() }
    }

    /// Add a plugin's subscriptions to those it has.
    pub fn register(&mut self, plugin: &str, events: Vec<ClusterEventWithHint<H>>)
        ensures
            final(self).groups@.len() == old(self).groups@.len() + 1,
            final(self).groups@.drop_last() == old(self).groups@,
            final(self).groups@.last().0@ == plugin@,
            final(self).groups@.last().1 == events,
    {
        let ghost before = self.groups@;
        self.groups.push((plugin.to_owned(), events));
        assert(self.groups@.drop_last() =~= before);
    }

    fn plugin_wants_requeue(
        &self,
        plugin: &str,
        pod: &PodInfo,
        event: &ClusterEvent,
        old: Option<&ChangedObject>,
        new: Option<&ChangedObject>,
    ) -> (r: bool)
        ensures
            r == self.wants(plugin@, *pod, *event, unref(old), unref(new)),
    {
        let mut i: usize = 0;
        while i < self.groups.len()
            invariant
                i <= self.groups@.len(),
                forall|k: int|
                    0 <= k < i ==> !((#[trigger] self.groups@[k]).0@ == plugin@ && list_wants(
                        self.groups@[k].1@,
                        *pod,
                        *event,
                        unref(old),
                        unref(new),
                    )),
            decreases self.groups@.len() - i,
        {
            if text_eq(self.groups[i].0.as_str(), plugin) && any_subscription_wants(
                &self.groups[i].1,
                pod,
                event,
                old,
                new,
            ) {
                assert(self.groups@[i as int].0@ == plugin@);
                return true;
            }
            i += 1;
        }
        false
    }

    fn any_plugin_wants(
        &self,
        plugins: &Vec<String>,
        pod: &PodInfo,
        event: &ClusterEvent,
        old: Option<&ChangedObject>,
        new: Option<&ChangedObject>,
    ) -> (r: bool)
        ensures
            r == self.any_wants(views(plugins@), *pod, *event, unref(old), unref(new)),
    {
        let mut i: usize = 0;
        while i < plugins.len()
            invariant
                i <= plugins@.len(),
                forall|k: int|
                    0 <= k < i ==> !self.wants(
                        #[trigger] views(plugins@)[k],
                        *pod,
                        *event,
                        unref(old),
                        unref(new),
                    ),
            decreases plugins@.len() - i,
        {
            assert(views(plugins@)[i as int] == plugins@[i as int]@);
            if self.plugin_wants_requeue(plugins[i].as_str(), pod, event, old, new) {
                return true;
            }
            i += 1;
        }
        false
    }

    pub fn decide(
        &self,
        pod: &PodInfo,
        unschedulable_plugins: &Vec<String>,
        pending_plugins: &Vec<String>,
        event: &ClusterEvent,
        old: Option<&ChangedObject>,
        new: Option<&ChangedObject>,
    ) -> (r: RequeueDecision)
        ensures
            r == self.decision(
                *pod,
                views(unschedulable_plugins@),
                views(pending_plugins@),
                *event,
                unref(old),
                unref(new),
            ),
    {
        if self.any_plugin_wants(pending_plugins, pod, event, old, new) {
            return RequeueDecision::Immediately;
        }
        if self.any_plugin_wants(unschedulable_plugins, pod, event, old, new) {
            return RequeueDecision::AfterBackoff;
        }
        RequeueDecision::Skip
    }
}

fn any_subscription_wants<H: QueueingHintFn>(
    subs: &Vec<ClusterEventWithHint<H>>,
    pod: &PodInfo,
    event: &ClusterEvent,
    old: Option<&ChangedObject>,
    new: Option<&ChangedObject>,
) -> (r: bool)
    ensures
        r == list_wants(subs@, *pod, *event, unref(old), unref(new)),
{
    let mut i: usize = 0;
    while i < subs.len()
        invariant
            i <= subs@.len(),
            forall|k: int|
                0 <= k < i ==> !subscription_wants(
                    #[trigger] subs@[k],
                    *pod,
                    *event,
                    unref(old),
                    unref(new),
                ),
        decreases subs@.len() - i,
    {
        let wanted = subs[i].event.matches(event) && match &subs[i].hint {
            None => true,
            Some(h) => h.hint(pod, old, new) == QueueingHint::Queue,
        };
        if wanted {
            assert(subscription_wants(subs@[i as int], *pod, *event, unref(old), unref(new)));
            return true;
        }
        i += 1;
    }
    false
}

/// A plugin that registered nothing wakes no pod.
pub proof fn silence_never_wakes<H: QueueingHintFn>(
    registry: HintRegistry<H>,
    plugin: Seq<char>,
    pod: PodInfo,
    event: ClusterEvent,
    old: Option<ChangedObject>,
    new: Option<ChangedObject>,
)
    requires
        forall|i: int|
            0 <= i < registry.groups@.len() ==> (#[trigger] registry.groups@[i]).0@ != plugin,
    ensures
        !registry.wants(plugin, pod, event, old, new),
{
}

/// A rejected pod is retried only by an event that a plugin which rejected it
/// registered.
pub proof fn only_registered_events_wake<H: QueueingHintFn>(
    registry: HintRegistry<H>,
    pod: PodInfo,
    unschedulable: Seq<Seq<char>>,
    pending: Seq<Seq<char>>,
    event: ClusterEvent,
    old: Option<ChangedObject>,
    new: Option<ChangedObject>,
)
    requires
        forall|i: int, k: int|
            0 <= i < registry.groups@.len() && 0 <= k < registry.groups@[i].1@.len() && (
            unschedulable.contains(registry.groups@[i].0@) || pending.contains(
                registry.groups@[i].0@,
            )) ==> !(#[trigger] registry.groups@[i].1@[k]).event.wakes(event),
    ensures
        registry.decision(pod, unschedulable, pending, event, old, new) == RequeueDecision::Skip,
{
    assert forall|i: int| 0 <= i < pending.len() implies !registry.wants(
        #[trigger] pending[i],
        pod,
        event,
        old,
        new,
    ) by {
        assert(pending.contains(pending[i]));
    }
    assert forall|i: int| 0 <= i < unschedulable.len() implies !registry.wants(
        #[trigger] unschedulable[i],
        pod,
        event,
        old,
        new,
    ) by {
        assert(unschedulable.contains(unschedulable[i]));
    }
}

/// A later registration takes no subscription away.
pub proof fn registering_keeps_subscriptions<H: QueueingHintFn>(
    before: HintRegistry<H>,
    after: HintRegistry<H>,
    plugin: Seq<char>,
    pod: PodInfo,
    event: ClusterEvent,
    old: Option<ChangedObject>,
    new: Option<ChangedObject>,
)
    requires
        after.groups@.len() == before.groups@.len() + 1,
        after.groups@.drop_last() == before.groups@,
        before.wants(plugin, pod, event, old, new),
    ensures
        after.wants(plugin, pod, event, old, new),
{
    let i = choose|i: int|
        0 <= i < before.groups@.len() && (#[trigger] before.groups@[i]).0@ == plugin && list_wants(
            before.groups@[i].1@,
            pod,
            event,
            old,
            new,
        );
    assert(after.groups@[i] == before.groups@[i]);
}

/// Every plugin that rejected a pod is asked, wherever it stands in its list,
/// and every one of its subscriptions counts. One that rejected with progress
/// sends the pod back at once; another after backoff, unless one with progress
/// wants it too.
pub proof fn every_rejecting_plugin_is_asked<H: QueueingHintFn>(
    registry: HintRegistry<H>,
    pod: PodInfo,
    unschedulable: Seq<Seq<char>>,
    pending: Seq<Seq<char>>,
    event: ClusterEvent,
    old: Option<ChangedObject>,
    new: Option<ChangedObject>,
    g: int,
    k: int,
)
    requires
        0 <= g < registry.groups@.len(),
        0 <= k < registry.groups@[g].1@.len(),
        registry.groups@[g].1@[k].event.wakes(event),
        registry.groups@[g].1@[k].hint is None || registry.groups@[g].1@[k].hint->Some_0.hint_view(
            pod,
            old,
            new,
        ) == QueueingHint::Queue,
    ensures
        pending.contains(registry.groups@[g].0@) ==> registry.decision(
            pod,
            unschedulable,
            pending,
            event,
            old,
            new,
        ) == RequeueDecision::Immediately,
        unschedulable.contains(registry.groups@[g].0@) ==> registry.decision(
            pod,
            unschedulable,
            pending,
            event,
            old,
            new,
        ) != RequeueDecision::Skip,
        unschedulable.contains(registry.groups@[g].0@) && pending.len() == 0 ==> registry.decision(
            pod,
            unschedulable,
            pending,
            event,
            old,
            new,
        ) == RequeueDecision::AfterBackoff,
{
    let subs = registry.groups@[g].1@;
    let name = registry.groups@[g].0@;
    assert(subscription_wants(subs[k], pod, event, old, new));
    assert(registry.groups@[g].0@ == name && list_wants(subs, pod, event, old, new));
    assert(registry.wants(name, pod, event, old, new));
    if pending.contains(name) {
        let i = choose|i: int| 0 <= i < pending.len() && pending[i] == name;
        assert(registry.wants(pending[i], pod, event, old, new));
    }
    if unschedulable.contains(name) {
        let i = choose|i: int| 0 <= i < unschedulable.len() && unschedulable[i] == name;
        assert(registry.wants(unschedulable[i], pod, event, old, new));
    }
}

} // verus!
