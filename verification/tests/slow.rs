use task_manager::slow::{Collector, Received};

#[test]
fn stalled_reader_never_blocks_sampling_or_starts_replacements() {
    let mut c: Collector<String> = Collector::new(true);
    assert!(c.poll(Received::Empty, 0));
    c.requested(true);
    assert!(c.status(0).stale);
    for i in 0..1000 {
        assert!(!c.poll(Received::Empty, i));
        assert!(c.status(i).stale);
    }
    assert!(!c.poll(Received::Rows(vec!["fixture".to_string()]), 1000));
    let s = c.status(1000);
    assert!(!s.stale);
    assert_eq!(c.rows[0], "fixture");
    assert_eq!(s.message, "Filesystem capacity refreshes every 5 seconds.");
    assert!(c.poll(Received::Empty, 21_000));
    c.requested(true);
    let s = c.status(21_000);
    assert!(s.stale);
    assert_eq!(s.age_seconds, Some(20));
}

#[test]
fn a_gone_reader_stops_the_collector() {
    let mut c: Collector<String> = Collector::new(true);
    assert!(!c.poll(Received::Disconnected, 0));
    assert!(c.failed);
    assert_eq!(c.status(0).message, "Filesystem capacity unavailable: collector stopped.");
    let mut d: Collector<String> = Collector::new(true);
    assert!(d.poll(Received::Empty, 0));
    d.requested(false);
    assert!(d.failed);
    let never: Collector<String> = Collector::new(false);
    assert!(never.status(0).stale);
    let mut pending: Collector<String> = Collector::new(true);
    assert!(pending.poll(Received::Empty, 0));
    pending.requested(true);
    assert_eq!(
        pending.status(0).message,
        "Filesystem capacity pending or unavailable; other metrics remain live."
    );
}
