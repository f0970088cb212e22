use nodescheduler::framework::CycleState;

#[test]
fn cycle_state_round_trips_per_plugin() {
    let mut s = CycleState::default();
    s.write("NodeResourcesFit", 42u32);
    s.write("NodePorts", "hello".to_string());

    assert_eq!(s.read::<u32>("NodeResourcesFit"), Some(&42));
    assert_eq!(s.read::<String>("NodePorts"), Some(&"hello".to_string()));
    assert_eq!(s.read::<u32>("NodePorts"), None, "wrong type must miss, not panic");
    assert_eq!(s.read::<u32>("Absent"), None);
}

#[test]
fn skips_are_tracked_per_extension_point() {
    let mut s = CycleState::default();
    s.skip_filter("VolumeBinding");
    s.skip_score("InterPodAffinity");

    assert!(s.filter_skipped("VolumeBinding"));
    assert!(!s.score_skipped("VolumeBinding"));
    assert!(s.score_skipped("InterPodAffinity"));
    assert!(!s.filter_skipped("InterPodAffinity"));
}
