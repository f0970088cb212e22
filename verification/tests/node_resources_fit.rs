use nodescheduler::cache::{NodeInfo, PodInfo, Resources, Snapshot};
use nodescheduler::events::{ActionType, ClusterEvent, EventResource};
use nodescheduler::framework::plugins::node_resources_fit::{
    interpolate_shape, NodeResourcesFit, ResourceWeights, ScoringStrategy,
};
use nodescheduler::framework::{
    CycleState, FilterPlugin, Plugin, PreFilterExtensions, PreFilterPlugin, ScorePlugin,
    MAX_NODE_SCORE,
};
use std::sync::Arc;

fn pod(name: &str) -> PodInfo {
    PodInfo { name: name.to_string(), ..Default::default() }
}

fn node(name: &str) -> NodeInfo {
    NodeInfo { name: name.to_string(), ..Default::default() }
}

fn res(milli_cpu: i64, memory: i64) -> Resources {
    Resources { milli_cpu, memory, ..Default::default() }
}

fn node_with(alloc_cpu: i64, alloc_mem: i64, used_cpu: i64, used_mem: i64) -> NodeInfo {
    let mut n = node("n");
    n.allocatable = res(alloc_cpu, alloc_mem);
    n.requested = res(used_cpu, used_mem);
    n.non_zero_requested = res(used_cpu, used_mem);
    n.allocatable_pods = 110;
    n
}

fn pod_wanting(milli_cpu: i64, memory: i64) -> PodInfo {
    let mut p = pod("p");
    p.requests = res(milli_cpu, memory);
    p
}

fn state_for(p: &PodInfo) -> CycleState {
    let mut s = CycleState::default();
    NodeResourcesFit::default().pre_filter(&mut s, p, &Snapshot::default());
    s
}

#[test]
fn a_pod_that_fits_is_admitted() {
    let p = pod_wanting(500, 0);
    let n = node_with(2000, 0, 1000, 0);
    assert!(NodeResourcesFit::default().filter(&state_for(&p), &p, &n).is_success());
}

#[test]
fn a_pod_that_does_not_fit_is_rejected_naming_the_resource() {
    let p = pod_wanting(1500, 0);
    let n = node_with(2000, 0, 1000, 0);

    let s = NodeResourcesFit::default().filter(&state_for(&p), &p, &n);
    assert!(!s.is_success());
    assert_eq!(s.reasons[0], "Insufficient cpu");
}

#[test]
fn a_resource_rejection_is_resolvable_by_preemption() {
    let p = pod_wanting(1500, 0);
    let n = node_with(2000, 0, 1000, 0);
    let s = NodeResourcesFit::default().filter(&state_for(&p), &p, &n);
    assert!(s.code.is_resolvable_by_preemption());
}

#[test]
fn a_pod_requesting_nothing_fits_a_completely_full_node() {
    let p = pod("p");
    let n = node_with(2000, 0, 2000, 0);
    assert!(NodeResourcesFit::default().filter(&state_for(&p), &p, &n).is_success());
}

#[test]
fn fitting_exactly_is_fitting() {
    let p = pod_wanting(1000, 0);
    let n = node_with(2000, 0, 1000, 0);
    assert!(NodeResourcesFit::default().filter(&state_for(&p), &p, &n).is_success());
}

#[test]
fn a_node_at_its_pod_ceiling_is_rejected_before_any_resource_is_checked() {
    let p = pod_wanting(1, 0);
    let mut n = node_with(2000, 0, 0, 0);
    n.allocatable_pods = 1;
    n.add_pod(Arc::new(pod("existing")), 1);

    let s = NodeResourcesFit::default().filter(&state_for(&p), &p, &n);
    assert_eq!(s.reasons[0], "Too many pods");
}

#[test]
fn hypothetically_removing_a_pod_makes_room_under_the_pod_ceiling_too() {
    let p = pod_wanting(1, 0);
    let mut n = node_with(2000, 0, 0, 0);
    n.allocatable_pods = 1;
    n.add_pod(Arc::new(pod("existing")), 1);
    let plugin = NodeResourcesFit::default();
    let mut state = state_for(&p);

    assert_eq!(plugin.filter(&state, &p, &n).reasons[0], "Too many pods");

    let victim = pod("existing");
    plugin.remove_pod(&mut state, &p, &victim, &n);

    assert!(
        plugin.filter(&state, &p, &n).is_success(),
        "the preemptor must fit once the victim is hypothetically gone, including past the pod-count ceiling"
    );
}

#[test]
fn an_extended_resource_the_node_does_not_advertise_is_insufficient() {
    let mut p = pod("gpu-job");
    p.requests.set("nvidia.com/gpu", 1);
    let n = node_with(2000, 0, 0, 0);

    let s = NodeResourcesFit::default().filter(&state_for(&p), &p, &n);
    assert_eq!(s.reasons[0], "Insufficient nvidia.com/gpu");
}

#[test]
fn an_extended_resource_the_node_has_spare_is_admitted() {
    let mut p = pod("gpu-job");
    p.requests.set("nvidia.com/gpu", 1);
    let mut n = node_with(2000, 0, 0, 0);
    n.allocatable.set("nvidia.com/gpu", 4);

    assert!(NodeResourcesFit::default().filter(&state_for(&p), &p, &n).is_success());
}

#[test]
fn hypothetically_removing_a_pod_makes_room() {
    let p = pod_wanting(1500, 0);
    let n = node_with(2000, 0, 1000, 0);
    let plugin = NodeResourcesFit::default();
    let mut state = state_for(&p);

    assert!(!plugin.filter(&state, &p, &n).is_success());

    let victim = pod_wanting(1000, 0);
    plugin.remove_pod(&mut state, &p, &victim, &n);

    assert!(
        plugin.filter(&state, &p, &n).is_success(),
        "the preemptor must fit once the victim is hypothetically gone"
    );
}

#[test]
fn hypothetically_adding_a_pod_consumes_room() {
    let p = pod_wanting(500, 0);
    let n = node_with(2000, 0, 1000, 0);
    let plugin = NodeResourcesFit::default();
    let mut state = state_for(&p);

    assert!(plugin.filter(&state, &p, &n).is_success());

    plugin.add_pod(&mut state, &p, &pod_wanting(600, 0), &n);

    assert!(!plugin.filter(&state, &p, &n).is_success());
}

#[test]
fn least_allocated_prefers_the_emptier_node() {
    let p = pod_wanting(0, 0);
    let plugin = NodeResourcesFit {
        strategy: ScoringStrategy::LeastAllocated,
        weights: ResourceWeights(vec![("cpu".to_string(), 1)]),
        ignored_resources: vec![],
    };
    let state = state_for(&p);

    let empty = node_with(1000, 0, 0, 0);
    let half = node_with(1000, 0, 500, 0);

    let empty_score = plugin.score(&state, &p, &empty).unwrap();
    let half_score = plugin.score(&state, &p, &half).unwrap();
    assert!(empty_score > half_score, "{empty_score} should beat {half_score}");
}

#[test]
fn most_allocated_prefers_the_fuller_node() {
    let p = pod_wanting(0, 0);
    let plugin = NodeResourcesFit {
        strategy: ScoringStrategy::MostAllocated,
        weights: ResourceWeights(vec![("cpu".to_string(), 1)]),
        ignored_resources: vec![],
    };
    let state = state_for(&p);

    let empty = plugin.score(&state, &p, &node_with(1000, 0, 0, 0)).unwrap();
    let half = plugin.score(&state, &p, &node_with(1000, 0, 500, 0)).unwrap();
    assert!(half > empty);
}

#[test]
fn scoring_counts_the_incoming_pod_not_just_what_is_already_there() {
    let plugin = NodeResourcesFit {
        strategy: ScoringStrategy::LeastAllocated,
        weights: ResourceWeights(vec![("cpu".to_string(), 1)]),
        ignored_resources: vec![],
    };
    let n = node_with(1000, 0, 0, 0);

    let small = pod_wanting(100, 0);
    let large = pod_wanting(900, 0);

    let small_score = plugin.score(&state_for(&small), &small, &n).unwrap();
    let large_score = plugin.score(&state_for(&large), &large, &n).unwrap();
    assert!(small_score > large_score);
}

#[test]
fn a_request_less_pod_still_consumes_score_via_the_substitution() {
    let plugin = NodeResourcesFit {
        strategy: ScoringStrategy::LeastAllocated,
        weights: ResourceWeights(vec![("cpu".to_string(), 1)]),
        ignored_resources: vec![],
    };
    let p = pod("no-requests");
    let n = node_with(1000, 0, 0, 0);

    let score = plugin.score(&state_for(&p), &p, &n).unwrap();
    assert_eq!(score, 90);
}

#[test]
fn an_overcommitted_node_does_not_score_outside_the_valid_range() {
    let plugin = NodeResourcesFit {
        strategy: ScoringStrategy::LeastAllocated,
        weights: ResourceWeights(vec![("cpu".to_string(), 1)]),
        ignored_resources: vec![],
    };
    let p = pod_wanting(0, 0);
    let n = node_with(1000, 0, 5000, 0);

    let score = plugin.score(&state_for(&p), &p, &n).unwrap();
    assert!((0..=MAX_NODE_SCORE).contains(&score), "score {score} out of range");
}

#[test]
fn the_requested_to_capacity_shape_interpolates_between_its_points() {
    let shape = vec![(0, 0), (50, 100), (100, 0)];
    assert_eq!(interpolate_shape(&shape, 0), 0);
    assert_eq!(interpolate_shape(&shape, 50), 100);
    assert_eq!(interpolate_shape(&shape, 25), 50);
    assert_eq!(interpolate_shape(&shape, 100), 0);
    assert_eq!(interpolate_shape(&shape, 75), 50);
}

#[test]
fn a_shape_clamps_outside_its_own_range() {
    let shape = vec![(20, 10), (80, 90)];
    assert_eq!(interpolate_shape(&shape, 0), 10);
    assert_eq!(interpolate_shape(&shape, 100), 90);
}

#[test]
fn node_resources_fit_it_does_not_subscribe_to_node_heartbeats() {
    let heartbeat = ClusterEvent::new(EventResource::Node, ActionType(ActionType::UPDATE_NODE_CONDITION));
    for reg in NodeResourcesFit::default().events_to_register() {
        assert!(!reg.event.matches(&heartbeat));
    }
}

#[test]
fn it_wakes_when_a_pod_leaves_or_shrinks() {
    let plugin = NodeResourcesFit::default();
    let events = plugin.events_to_register();
    for happened in [
        ClusterEvent::new(EventResource::AssignedPod, ActionType(ActionType::DELETE)),
        ClusterEvent::new(EventResource::AssignedPod, ActionType(ActionType::UPDATE_POD_SCALE_DOWN)),
        ClusterEvent::new(EventResource::Node, ActionType(ActionType::UPDATE_NODE_ALLOCATABLE)),
    ] {
        assert!(
            events.iter().any(|e| e.event.matches(&happened)),
            "{happened:?} frees capacity and must wake a rejected pod"
        );
    }
}

#[test]
fn a_resource_that_an_extender_judges_is_not_judged_here() {
    let mut p = pod("gpu-job");
    p.requests.set("nvidia.com/gpu", 1);
    let n = node_with(2000, 0, 0, 0);
    let plugin = NodeResourcesFit {
        ignored_resources: vec!["nvidia.com/gpu".to_string()],
        ..NodeResourcesFit::default()
    };
    let mut state = CycleState::default();
    plugin.pre_filter(&mut state, &p, &Snapshot::default());
    assert!(plugin.filter(&state, &p, &n).is_success());
}

#[test]
fn the_score_is_the_weighted_mean_over_the_curve() {
    let plugin = NodeResourcesFit {
        strategy: ScoringStrategy::RequestedToCapacityRatio { shape: vec![(100, 0), (0, 100)] },
        weights: ResourceWeights(vec![("cpu".to_string(), 3), ("memory".to_string(), 1)]),
        ignored_resources: vec![],
    };
    let p = pod_wanting(500, 0);
    let n = node_with(1000, 0, 0, 0);
    assert_eq!(plugin.score(&state_for(&p), &p, &n).unwrap(), 50);
    let full = node_with(1000, 1000, 0, 5000);
    assert_eq!(plugin.score(&state_for(&p), &p, &full).unwrap(), 37);
}
