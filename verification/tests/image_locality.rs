use nodescheduler::cache::{ImageState, NodeInfo, PodInfo};
use nodescheduler::framework::plugins::image_locality::{
    scaled_image_score, ImageLocality, PreScoreState, NAME,
};
use nodescheduler::framework::{CycleState, Plugin, PreScorePlugin, ScorePlugin, MAX_NODE_SCORE};
use nodescheduler::maps::StrMap;
use std::sync::Arc;

fn pod(name: &str) -> PodInfo {
    PodInfo { name: name.to_string(), ..Default::default() }
}

fn node(name: &str) -> NodeInfo {
    NodeInfo { name: name.to_string(), ..Default::default() }
}

fn strmap<V>(entries: Vec<(String, V)>) -> StrMap<V> {
    let mut m = StrMap::new();
    for (k, v) in entries {
        m.insert(k, v);
    }
    m
}

const MB: i64 = 1024 * 1024;

fn node_holding(name: &str, images: &[(&str, i64)]) -> NodeInfo {
    let mut n = node(name);
    n.images = strmap(
        images
            .iter()
            .map(|(img, size)| (img.to_string(), ImageState { size_bytes: *size, num_nodes: 1 }))
            .collect(),
    );
    n
}

fn pod_using(images: &[&str]) -> PodInfo {
    let mut p = pod("p");
    p.images = images.iter().map(|s| s.to_string()).collect();
    p.container_count = images.len();
    p
}

fn state_after_prescore(nodes: &[&NodeInfo]) -> CycleState {
    let nodes: Vec<Arc<NodeInfo>> = nodes.iter().map(|n| Arc::new((*n).clone())).collect();
    let mut s = CycleState::default();
    ImageLocality.pre_score(&mut s, &pod("p"), &nodes);
    s
}

#[test]
fn a_node_holding_the_image_beats_one_that_does_not() {
    let p = pod_using(&["app:v1"]);
    let has = node_holding("has", &[("app:v1", 500 * MB)]);
    let lacks = node("lacks");
    let state = state_after_prescore(&[&has, &lacks]);

    let with = ImageLocality.score(&state, &p, &has).unwrap();
    let without = ImageLocality.score(&state, &p, &lacks).unwrap();
    assert!(with > without);
    assert_eq!(without, 0);
}

#[test]
fn a_widely_cached_image_counts_for_more_than_a_rare_one() {
    let p = pod_using(&["app:v1"]);

    let common = node_holding("common", &[("app:v1", 900 * MB)]);
    let common_others: Vec<NodeInfo> = (1..10).map(|i| node_holding(&format!("c{i}"), &[("app:v1", 900 * MB)])).collect();
    let mut common_cluster: Vec<&NodeInfo> = vec![&common];
    common_cluster.extend(common_others.iter());
    let common_state = state_after_prescore(&common_cluster);

    let rare = node_holding("rare", &[("app:v1", 900 * MB)]);
    let rare_others: Vec<NodeInfo> = (1..10).map(|i| node(&format!("r{i}"))).collect();
    let mut rare_cluster: Vec<&NodeInfo> = vec![&rare];
    rare_cluster.extend(rare_others.iter());
    let rare_state = state_after_prescore(&rare_cluster);

    let common_score = ImageLocality.score(&common_state, &p, &common).unwrap();
    let rare_score = ImageLocality.score(&rare_state, &p, &rare).unwrap();
    assert!(
        common_score > rare_score,
        "a widely cached image ({common_score}) must beat a rare one ({rare_score})"
    );
}

#[test]
fn a_small_image_scores_nothing() {
    let p = pod_using(&["tiny:v1"]);
    let n = node_holding("n", &[("tiny:v1", 5 * MB)]);
    let state = state_after_prescore(&[&n]);

    assert_eq!(ImageLocality.score(&state, &p, &n).unwrap(), 0);
}

#[test]
fn an_enormous_image_is_capped_at_the_maximum() {
    let p = pod_using(&["huge:v1"]);
    let n = node_holding("n", &[("huge:v1", 50_000 * MB)]);
    let state = state_after_prescore(&[&n]);

    assert_eq!(ImageLocality.score(&state, &p, &n).unwrap(), MAX_NODE_SCORE);
}

#[test]
fn the_cap_scales_with_container_count() {
    let one = scaled_image_score(1000 * MB, 1);
    let four = scaled_image_score(1000 * MB, 4);
    assert_eq!(one, MAX_NODE_SCORE);
    assert!(four < MAX_NODE_SCORE);
}

#[test]
fn several_cached_images_accumulate() {
    let p = pod_using(&["a:v1", "b:v1"]);
    let both = node_holding("both", &[("a:v1", 400 * MB), ("b:v1", 400 * MB)]);
    let one = node_holding("one", &[("a:v1", 400 * MB)]);
    let state = state_after_prescore(&[&both, &one]);

    assert!(
        ImageLocality.score(&state, &p, &both).unwrap()
            > ImageLocality.score(&state, &p, &one).unwrap()
    );
}

#[test]
fn scoring_without_prescore_state_does_not_divide_by_zero() {
    let p = pod_using(&["app:v1"]);
    let n = node_holding("n", &[("app:v1", 500 * MB)]);

    let score = ImageLocality.score(&CycleState::default(), &p, &n).unwrap();
    assert!((0..=MAX_NODE_SCORE).contains(&score));
}

#[test]
fn a_count_higher_than_the_cluster_size_is_clamped() {
    let p = pod_using(&["app:v1"]);
    let n = node_holding("n", &[("app:v1", 900 * MB)]);
    let mut state = CycleState::default();
    state.write(
        NAME,
        PreScoreState { total_nodes: 3, image_node_counts: strmap(vec![("app:v1".to_string(), 99)]) },
    );

    let score = ImageLocality.score(&state, &p, &n).unwrap();
    assert!((0..=MAX_NODE_SCORE).contains(&score), "score {score} out of range");
}

#[test]
fn prescore_records_the_cluster_size_the_ratio_needs() {
    let mut state = CycleState::default();
    let a = node("a");
    let b = node("b");
    ImageLocality.pre_score(&mut state, &pod("p"), &vec![Arc::new(a), Arc::new(b)]);

    assert_eq!(state.read::<PreScoreState>(NAME).map(|s| s.total_nodes), Some(2));
}

#[test]
fn prescore_counts_how_many_nodes_actually_hold_each_image() {
    let a = node_holding("a", &[("app:v1", 500 * MB)]);
    let b = node_holding("b", &[("app:v1", 500 * MB)]);
    let c = node("c");
    let mut state = CycleState::default();
    ImageLocality.pre_score(&mut state, &pod("p"), &vec![Arc::new(a), Arc::new(b), Arc::new(c)]);

    assert_eq!(
        state.read::<PreScoreState>(NAME).and_then(|s| s.image_node_counts.get("app:v1")).copied(),
        Some(2),
        "two of the three nodes actually hold the image"
    );
}

#[test]
fn image_locality_it_registers_no_events_because_it_never_rejects() {
    assert!(ImageLocality.events_to_register().is_empty());
}

#[test]
fn scores_stay_as_they_are_and_count_once() {
    let mut scores = vec![100, 0, 37];
    assert!(ImageLocality.normalize(&CycleState::default(), &pod("p"), &mut scores).is_success());
    assert_eq!(scores, vec![100, 0, 37]);
    assert_eq!(ImageLocality.weight(), 1);
    assert!(ImageLocality.events_to_register().is_empty());
}
