use task_manager::history::{save_due, accumulate, has_room, Persistence, Reading, Sampled, Usage, UsageBook, ROWS_LIMIT};
use task_manager::process::Identity;

#[test]
fn usage_accumulates_only_over_continuous_intervals() {
    let row = Usage { read: 10, write: 20, peak_memory: 100 };
    let prev = Reading { ticks: 50, read: Some(1000), write: None };
    let (u, ticks) = accumulate(row, Some(prev), 80, Some(1500), Some(7), 50, true);
    assert_eq!(ticks, Some(30));
    assert_eq!(u.read, 510);
    assert_eq!(u.write, 20);
    assert_eq!(u.peak_memory, 100);
    let (u, ticks) = accumulate(row, Some(prev), 80, Some(1500), Some(7), 500, false);
    assert_eq!(ticks, None);
    assert_eq!((u.read, u.write, u.peak_memory), (10, 20, 500));
    let (_, ticks) = accumulate(row, None, 80, None, None, 0, true);
    assert_eq!(ticks, None);
    let (u, ticks) = accumulate(row, Some(prev), 40, Some(900), None, 0, true);
    assert_eq!(ticks, Some(0));
    assert_eq!(u.read, 10);
}

#[test]
fn history_rows_are_bounded() {
    assert!(has_room(0, false));
    assert!(!has_room(ROWS_LIMIT, false));
    assert!(has_room(ROWS_LIMIT, true));
}

#[test]
fn unreadable_history_is_preserved_until_explicit_reset() {
    let mut p = Persistence::loaded(Some("expected value at line 1 column 1"));
    assert!(!p.may_save());
    assert_eq!(
        p.error.as_deref(),
        Some("Saved history could not be loaded: expected value at line 1 column 1. Original file preserved; reset history to replace it.")
    );
    p.reset_written();
    assert!(p.may_save());
    assert!(p.error.is_none());
}

#[test]
fn save_failures_are_reported_until_a_save_succeeds() {
    let mut p = Persistence::loaded(None);
    assert!(p.may_save());
    assert!(p.error.is_none());
    p.saved(Err("Is a directory (os error 21)".to_string()));
    assert_eq!(p.error.as_deref(), Some("Usage history could not be saved: Is a directory (os error 21)"));
    p.saved(Ok(()));
    assert!(p.error.is_none());
}

fn sampled(key: &str, pid: i32, uid: u32, ticks: u64, read: u64, memory: u64) -> Sampled {
    Sampled {
        key: key.into(),
        id: Identity { pid, start: 1 },
        uid,
        ticks,
        read: Some(read),
        write: Some(0),
        memory,
    }
}

#[test]
fn usage_book_keeps_own_executables_and_accumulates_between_samples() {
    let mut book = UsageBook::new();
    let first = book.sample(&[sampled("/usr/bin/a", 1, 1000, 100, 10, 5), sampled("/usr/bin/b", 2, 0, 7, 0, 9)], 1000, true);
    assert_eq!(first, vec![(true, None), (false, None)]);
    assert_eq!(book.len(), 1);
    assert!(book.usage("/usr/bin/b").is_none());
    let second = book.sample(&[sampled("/usr/bin/a", 1, 1000, 160, 40, 3)], 1000, true);
    assert_eq!(second, vec![(true, Some(60))]);
    let u = book.usage("/usr/bin/a").unwrap();
    assert_eq!((u.read, u.peak_memory), (30, 5));
    let third = book.sample(&[sampled("/usr/bin/a", 1, 1000, 200, 90, 3)], 1000, false);
    assert_eq!(third, vec![(true, None)]);
    assert_eq!(book.usage("/usr/bin/a").unwrap().read, 30);
}

#[test]
fn usage_book_stops_adding_executables_at_the_limit() {
    let mut book = UsageBook::new();
    for i in 0..ROWS_LIMIT {
        book.restore(format!("/bin/{i}"), Usage { read: 0, write: 0, peak_memory: 0 });
    }
    let r = book.sample(&[sampled("/bin/new", 1, 5, 1, 1, 1), sampled("/bin/3", 2, 5, 1, 1, 1)], 5, true);
    assert_eq!(r, vec![(false, None), (true, None)]);
    assert_eq!(book.len(), ROWS_LIMIT);
    book.clear();
    assert_eq!(book.len(), 0);
}

#[test]
fn history_is_written_every_thirty_seconds() {
    assert!(!save_due(29));
    assert!(save_due(30));
    assert!(save_due(31));
}

#[test]
fn sampling_never_lowers_a_row() {
    let mut book = UsageBook::new();
    book.restore("/bin/a".into(), Usage { read: 100, write: 5, peak_memory: 50 });
    book.sample(&[sampled("/bin/a", 1, 7, 10, 1000, 10)], 7, true);
    book.sample(&[sampled("/bin/a", 1, 7, 5, 900, 20)], 7, true);
    let u = book.usage("/bin/a").unwrap();
    assert_eq!((u.read, u.write, u.peak_memory), (100, 5, 50));
    book.sample(&[sampled("/bin/a", 2, 7, 5, 950, 80)], 7, true);
    let u = book.usage("/bin/a").unwrap();
    assert_eq!((u.read, u.peak_memory), (100, 80));
}
