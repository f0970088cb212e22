use nodescheduler::framework::plugins::default_normalize_score;

#[test]
fn normalizing_scales_the_largest_score_to_the_maximum() {
    let mut scores = vec![0, 5, 10];
    default_normalize_score(false, &mut scores);
    assert_eq!(scores, [0, 50, 100]);
}

#[test]
fn a_reversed_normalization_makes_the_largest_raw_score_the_worst_node() {
    let mut scores = vec![0, 5, 10];
    default_normalize_score(true, &mut scores);
    assert_eq!(scores, [100, 50, 0]);
}

#[test]
fn an_all_zero_reversed_normalization_gives_every_node_the_maximum() {
    let mut scores = vec![0, 0, 0];
    default_normalize_score(true, &mut scores);
    assert_eq!(scores, [100, 100, 100]);
}

#[test]
fn an_all_zero_forward_normalization_leaves_every_node_at_zero() {
    let mut scores = vec![0, 0, 0];
    default_normalize_score(false, &mut scores);
    assert_eq!(scores, [0, 0, 0]);
}

#[test]
fn a_single_node_normalizes_to_the_extreme_of_its_own_range() {
    let mut one = vec![7];
    default_normalize_score(false, &mut one);
    assert_eq!(one, [100]);

    let mut one_reversed = vec![7];
    default_normalize_score(true, &mut one_reversed);
    assert_eq!(one_reversed, [0]);
}

#[test]
fn equal_nonzero_scores_all_normalize_to_the_same_value() {
    let mut scores = vec![4, 4, 4];
    default_normalize_score(false, &mut scores);
    assert_eq!(scores, [100, 100, 100]);
}

#[test]
fn normalizing_an_empty_score_list_does_not_panic() {
    let mut empty: Vec<i64> = vec![];
    default_normalize_score(true, &mut empty);
    assert!(empty.is_empty());
}
