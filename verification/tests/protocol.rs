use task_manager::protocol::{
    action, logs_reply, needs_process, op, request_too_long, targets_acceptable, unknown_action, Action, Bounded, Op,
    REQUEST_LIMIT, RESPONSE_LIMIT,
};
use task_manager::storage::temp_name;

#[test]
fn oversized_response_is_framed_error_and_next_response_survives() {
    let mut frame = Bounded::new(16);
    assert!(frame.accept(b"0123456789"));
    assert!(!frame.accept(b"0123456789"));
    assert_eq!(frame.bytes, b"0123456789");
    assert!(frame.accept(b"abcdef"));
    assert_eq!(frame.bytes.len(), 16);
    assert_eq!(RESPONSE_LIMIT, 16 * 1024 * 1024);
}

#[test]
fn line_limit_applies_before_allocating_entire_request() {
    assert!(request_too_long(REQUEST_LIMIT + 1));
    assert!(!request_too_long(REQUEST_LIMIT));
    assert!(!request_too_long(3));
}

#[test]
fn requests_are_routed() {
    assert_eq!(op("sample"), Op::Sample);
    assert_eq!(op("manage"), Op::Manage);
    assert_eq!(op("inspect"), Op::Inspect);
    assert_eq!(op("signal"), Op::Signal);
    assert_eq!(op("window"), Op::Window);
    assert_eq!(op("float"), Op::Float);
    assert_eq!(op("quit"), Op::Quit);
    assert_eq!(op("Sample"), Op::Unknown);
    assert!(targets_acceptable(1));
    assert!(targets_acceptable(4096));
    assert!(!targets_acceptable(0));
    assert!(!targets_acceptable(4097));
}

#[test]
fn temporary_names_are_per_writer_and_attempt() {
    assert_eq!(temp_name(42, 0), ".task-manager-42-0.tmp");
    assert_eq!(temp_name(7, 13), ".task-manager-7-13.tmp");
}

#[test]
fn management_requests_route_by_category_and_verb() {
    assert_eq!(action("restart", ""), Action::Restart);
    assert_eq!(action("service", "logs"), Action::Service);
    assert_eq!(action("history", "reset"), Action::ResetHistory);
    assert_eq!(action("history", "wipe"), Action::Unknown);
    assert_eq!(action("process", "nice"), Action::Nice);
    assert_eq!(action("process", "explode"), Action::UnknownProcess);
    assert!(needs_process(Action::Dump));
    assert!(!needs_process(Action::Session));
    assert_eq!(unknown_action(Action::UnknownProcess), "Unknown process action");
    assert_eq!(unknown_action(Action::Unknown), "Unknown management action");
    assert!(logs_reply("service", "logs"));
    assert!(!logs_reply("service", "start"));
}
