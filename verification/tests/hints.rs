use nodescheduler::cache::PodInfo;
use nodescheduler::events::{unschedulable_timeout, ActionType, ClusterEvent, EventResource};
use nodescheduler::framework::{ChangedObject, ClusterEventWithHint, QueueingHint, QueueingHintFn};
use nodescheduler::queue::hints::{HintRegistry, RequeueDecision};

enum Answer {
    AlwaysSkip,
    AlwaysQueue,
}

impl QueueingHintFn for Answer {
    fn hint_view(
        &self,
        _pod: PodInfo,
        _old: Option<ChangedObject>,
        _new: Option<ChangedObject>,
    ) -> QueueingHint {
        unreachable!()
    }

    fn hint(
        &self,
        _pod: &PodInfo,
        _old: Option<&ChangedObject>,
        _new: Option<&ChangedObject>,
    ) -> QueueingHint {
        match self {
            Answer::AlwaysSkip => QueueingHint::Skip,
            Answer::AlwaysQueue => QueueingHint::Queue,
        }
    }
}

fn node_added() -> ClusterEvent {
    ClusterEvent::new(EventResource::Node, ActionType(ActionType::ADD))
}

fn registry_with(
    plugin: &'static str,
    event: ClusterEvent,
    hint: Option<Answer>,
) -> HintRegistry<Answer> {
    let mut r: HintRegistry<Answer> = HintRegistry::new();
    r.register(plugin, vec![ClusterEventWithHint { event, hint }]);
    r
}

#[test]
fn a_matching_event_sends_the_pod_to_backoff() {
    let r = registry_with("Fit", node_added(), None);
    assert_eq!(
        r.decide(&PodInfo::default(), &vec!["Fit".to_string()], &vec![], &node_added(), None, None),
        RequeueDecision::AfterBackoff
    );
}

#[test]
fn an_unrelated_event_leaves_the_pod_alone() {
    let r = registry_with(
        "Fit",
        ClusterEvent::new(EventResource::Node, ActionType(ActionType::UPDATE_NODE_ALLOCATABLE)),
        None,
    );
    let label_change =
        ClusterEvent::new(EventResource::Node, ActionType(ActionType::UPDATE_NODE_LABEL));

    assert_eq!(
        r.decide(&PodInfo::default(), &vec!["Fit".to_string()], &vec![], &label_change, None, None),
        RequeueDecision::Skip
    );
}

#[test]
fn a_pending_rejection_skips_backoff_entirely() {
    let r = registry_with("DynamicResources", node_added(), None);
    assert_eq!(
        r.decide(&PodInfo::default(), &vec![], &vec!["DynamicResources".to_string()], &node_added(), None, None),
        RequeueDecision::Immediately
    );
}

#[test]
fn pending_wins_when_a_pod_was_rejected_by_both_kinds() {
    let mut r: HintRegistry<Answer> = HintRegistry::new();
    r.register("Fit", vec![ClusterEventWithHint::always(node_added())]);
    r.register("DynamicResources", vec![ClusterEventWithHint::always(node_added())]);

    assert_eq!(
        r.decide(
            &PodInfo::default(),
            &vec!["Fit".to_string()],
            &vec!["DynamicResources".to_string()],
            &node_added(),
            None,
            None
        ),
        RequeueDecision::Immediately
    );
}

#[test]
fn a_hint_can_veto_an_otherwise_matching_event() {
    let r = registry_with("Fit", node_added(), Some(Answer::AlwaysSkip));
    assert_eq!(
        r.decide(&PodInfo::default(), &vec!["Fit".to_string()], &vec![], &node_added(), None, None),
        RequeueDecision::Skip
    );
}

#[test]
fn a_hint_that_says_queue_is_honoured() {
    let r = registry_with("Fit", node_added(), Some(Answer::AlwaysQueue));
    assert_eq!(
        r.decide(&PodInfo::default(), &vec!["Fit".to_string()], &vec![], &node_added(), None, None),
        RequeueDecision::AfterBackoff
    );
}

#[test]
fn a_missing_hint_means_always_requeue() {
    let r = registry_with("Fit", node_added(), None);
    assert_eq!(
        r.decide(&PodInfo::default(), &vec!["Fit".to_string()], &vec![], &node_added(), None, None),
        RequeueDecision::AfterBackoff
    );
}

#[test]
fn a_plugin_that_registered_nothing_never_requeues_its_rejections() {
    let r: HintRegistry<Answer> = HintRegistry::new();
    assert_eq!(
        r.decide(&PodInfo::default(), &vec!["NodeName".to_string()], &vec![], &node_added(), None, None),
        RequeueDecision::Skip
    );
}

#[test]
fn only_the_plugins_that_rejected_this_pod_are_consulted() {
    let r = registry_with("Fit", node_added(), None);
    assert_eq!(
        r.decide(&PodInfo::default(), &vec!["TaintToleration".to_string()], &vec![], &node_added(), None, None),
        RequeueDecision::Skip
    );
}

#[test]
fn registering_a_plugin_twice_keeps_both_subscriptions() {
    let mut r: HintRegistry<Answer> = HintRegistry::new();
    let taint_change =
        ClusterEvent::new(EventResource::Node, ActionType(ActionType::UPDATE_NODE_TAINT));
    r.register("Multi", vec![ClusterEventWithHint::always(node_added())]);
    r.register("Multi", vec![ClusterEventWithHint::always(taint_change)]);

    assert_eq!(
        r.decide(&PodInfo::default(), &vec!["Multi".to_string()], &vec![], &node_added(), None, None),
        RequeueDecision::AfterBackoff
    );
    assert_eq!(
        r.decide(&PodInfo::default(), &vec!["Multi".to_string()], &vec![], &taint_change, None, None),
        RequeueDecision::AfterBackoff
    );
}

#[test]
fn the_timeout_safety_net_reaches_every_rejected_pod() {
    let r = registry_with(
        "Fit",
        ClusterEvent::new(EventResource::Node, ActionType(ActionType::UPDATE_NODE_ALLOCATABLE)),
        None,
    );
    assert_eq!(
        r.decide(
            &PodInfo::default(),
            &vec!["Fit".to_string()],
            &vec![],
            &unschedulable_timeout(),
            None,
            None
        ),
        RequeueDecision::AfterBackoff
    );
}
