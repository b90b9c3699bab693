use present_chain::temperature::{
    find_largest_temp_difference, Recording, COMPARE_INTERVAL_MS, MAX_SENSOR_TEMP,
    MIN_SENSOR_TEMP,
};

fn rec(timestamp: u64, temperature: i64) -> Recording {
    Recording { temperature, timestamp }
}

#[test]
fn no_recordings_no_difference() {
    let recordings: Vec<Recording> = Vec::new();
    assert_eq!(find_largest_temp_difference(&recordings), None);
}

#[test]
fn one_recording_no_difference() {
    let recordings = vec![rec(0, 20)];
    assert_eq!(find_largest_temp_difference(&recordings), None);
}

#[test]
fn two_recordings_within_window() {
    let recordings = vec![rec(0, -5), rec(1000, 10)];
    assert_eq!(find_largest_temp_difference(&recordings), Some((0, 1000, 15)));
}

#[test]
fn window_edge_is_included() {
    let recordings = vec![rec(0, 0), rec(COMPARE_INTERVAL_MS, 30)];
    assert_eq!(
        find_largest_temp_difference(&recordings),
        Some((0, COMPARE_INTERVAL_MS, 30))
    );
}

#[test]
fn recordings_too_far_apart() {
    let recordings = vec![rec(0, -40), rec(COMPARE_INTERVAL_MS + 1, 40)];
    assert_eq!(find_largest_temp_difference(&recordings), None);
}

#[test]
fn largest_gap_wins() {
    let recordings = vec![rec(0, 0), rec(1000, 50), rec(2000, -50)];
    assert_eq!(
        find_largest_temp_difference(&recordings),
        Some((1000, 2000, 100))
    );
}

#[test]
fn first_scanned_pair_wins_a_tie() {
    let recordings = vec![rec(0, 0), rec(100, 10), rec(200, 0)];
    assert_eq!(find_largest_temp_difference(&recordings), Some((0, 100, 10)));
}

#[test]
fn early_recording_out_of_range_of_all_others() {
    let recordings = vec![rec(0, 0), rec(3000, 50), rec(3500, 60)];
    assert_eq!(
        find_largest_temp_difference(&recordings),
        Some((3000, 3500, 10))
    );
}

#[test]
fn fresh_recording_stays_in_sensor_range() {
    for _ in 0..100 {
        let recording = Recording::new();
        assert!(recording.temperature >= MIN_SENSOR_TEMP);
        assert!(recording.temperature <= MAX_SENSOR_TEMP);
    }
}
