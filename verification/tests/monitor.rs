use task_manager::monitor::{expired, private_directory, validate, Snapshot};

fn snap(version: i64, updated: u64, points: Vec<u64>) -> Snapshot {
    Snapshot {
        version: Some(version),
        updated: Some(updated),
        points: Some(points.into_iter().map(Some).collect()),
    }
}

#[test]
fn reject_stale_future_and_disordered_history() {
    let good = snap(1, 2000, vec![1000, 2000]);
    assert!(validate(&good, 2100));
    assert!(!validate(&good, 6000));
    assert!(!validate(&good, 1000));
    let bad = snap(2, 2000, vec![1000, 2000]);
    assert!(!validate(&bad, 2100));
    let bad = snap(1, 2000, vec![2000, 2000]);
    assert!(!validate(&bad, 2100));
    let bad = snap(1, 2000, vec![]);
    assert!(!validate(&bad, 2100));
}

#[test]
fn history_needs_every_field() {
    let missing = Snapshot { version: Some(1), updated: None, points: Some(vec![Some(1)]) };
    assert!(!validate(&missing, 1));
    let no_points = Snapshot { version: Some(1), updated: Some(1), points: None };
    assert!(!validate(&no_points, 1));
    let bad_point = Snapshot { version: Some(1), updated: Some(2), points: Some(vec![None, Some(2)]) };
    assert!(!validate(&bad_point, 2));
    let old_point = snap(1, 70_000, vec![5_000, 70_000]);
    assert!(!validate(&old_point, 70_000));
    let last_not_updated = snap(1, 3000, vec![1000, 2000]);
    assert!(!validate(&last_not_updated, 3000));
    let many = snap(1, 61, (1..=62).collect());
    assert!(!validate(&many, 62));
}

#[test]
fn collector_keeps_a_minute_of_points() {
    let times: Vec<u64> = (0..70).map(|i| i * 1000).collect();
    let k = expired(&times, 69_000);
    assert_eq!(k, 9);
    let kept = snap(1, 69_000, times[k..].to_vec());
    assert!(validate(&kept, 69_500));
    assert_eq!(expired(&[1000, 2000], 2000), 0);
    assert_eq!(expired(&[1000, 70_000], 70_000), 1);
}

#[test]
fn runtime_directory_must_be_private() {
    assert!(private_directory(true, 1000, 1000, 0o40700));
    assert!(!private_directory(true, 1000, 1000, 0o40750));
    assert!(!private_directory(true, 0, 1000, 0o40700));
    assert!(!private_directory(false, 1000, 1000, 0o700));
}
