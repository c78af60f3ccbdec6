use pit_crew_coach::laps::lap_groups;

#[test]
fn segments_follow_the_lap_counter() {
    let laps = [3, 3, 3, 4, 4, 4];
    let breaks = [false; 6];
    assert_eq!(lap_groups(&laps, &breaks), vec![(0, 3, 3), (3, 6, 4)]);
}

#[test]
fn crossings_split_and_count_on_without_a_counter() {
    let laps = [0, 0, 0, 0, 0, 0, 0];
    let breaks = [false, false, true, false, false, true, false];
    assert_eq!(lap_groups(&laps, &breaks), vec![(0, 2, 1), (2, 5, 2), (5, 7, 3)]);
}

#[test]
fn a_counter_ahead_of_the_count_takes_over() {
    let laps = [1, 1, 7, 7, 2];
    let breaks = [false; 5];
    assert_eq!(lap_groups(&laps, &breaks), vec![(0, 2, 1), (2, 4, 7), (4, 5, 8)]);
}

#[test]
fn empty_recordings_have_no_segments() {
    assert!(lap_groups(&[], &[]).is_empty());
    assert_eq!(lap_groups(&[-2], &[false]), vec![(0, 1, 1)]);
}
