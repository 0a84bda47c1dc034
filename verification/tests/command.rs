use task_manager::command::{
    must_stop, run, run_for, Capture, Stream, DEFAULT_DEADLINE_MS, ERROR_LIMIT, OUTPUT_LIMIT,
};

#[test]
fn captures_success_and_failure_without_a_shell_in_production() {
    let mut c = run("/usr/bin/printf", &["%s", "a;not-a-command"]);
    assert_eq!(c.program, "/usr/bin/printf");
    assert_eq!(c.args, vec!["%s".to_string(), "a;not-a-command".to_string()]);
    assert!(c.proceed(false).is_ok());
    c.receive(Stream::Stdout, b"a;not-a-command").unwrap();
    assert_eq!(c.exited(true, "exit status: 0").unwrap(), "a;not-a-command");
    let f = run("/usr/bin/false", &[]);
    assert!(f.exited(false, "exit status: 1").is_err());
}

#[test]
fn oversized_stdout_and_stderr_are_rejected_while_running() {
    let deadline = 2000;
    let mut yes = Capture::capture("/usr/bin/yes", &[], deadline, 1024);
    let chunk = b"y\n".repeat(512);
    yes.receive(Stream::Stdout, &chunk).unwrap();
    assert!(yes.receive(Stream::Stdout, b"y\n").unwrap_err().contains("limit"));
    assert_eq!(yes.out.len(), 1024);
    let mut sh = Capture::capture(
        "/bin/sh",
        &["-c", "while :; do printf 'stderr output\\n' >&2; done"],
        deadline,
        1024,
    );
    let flood = b"stderr output\n".repeat(80);
    assert!(sh.receive(Stream::Stderr, &flood).unwrap_err().contains("limit"));
    assert!(sh.err.is_empty());
}

#[test]
fn slow_command_obeys_deadline() {
    let c = Capture::capture("/usr/bin/sleep", &["30"], 50, 1024);
    assert!(c.in_time(10).is_ok());
    assert!(c.in_time(50).unwrap_err().contains("timed out"));
    assert_eq!(c.in_time(51).unwrap_err(), "/usr/bin/sleep timed out");
}

#[test]
fn cancellation_stops_a_running_command_promptly() {
    let c = Capture::capture("/usr/bin/sleep", &["30"], 30000, 1024);
    assert!(c.proceed(false).is_ok());
    assert!(c.proceed(true).unwrap_err().contains("cancelled"));
    assert!(must_stop(true, true));
    assert!(!must_stop(false, true));
    assert!(!must_stop(true, false));
}

#[test]
fn run_uses_default_bounds() {
    let c = run("/usr/bin/true", &[]);
    assert_eq!(c.deadline_ms, DEFAULT_DEADLINE_MS);
    assert_eq!(c.deadline_ms, 4000);
    assert_eq!(c.limit, OUTPUT_LIMIT);
    assert_eq!(c.limit, 8 * 1024 * 1024);
    let d = run_for("/usr/bin/true", &["x"], 250);
    assert_eq!(d.deadline_ms, 250);
    assert_eq!(d.limit, OUTPUT_LIMIT);
    assert!(d.out.is_empty() && d.err.is_empty());
}

#[test]
fn stderr_is_bounded_below_the_output_limit() {
    let mut c = run("/bin/x", &[]);
    let big = vec![b'e'; ERROR_LIMIT];
    c.receive(Stream::Stderr, &big).unwrap();
    assert!(c.receive(Stream::Stderr, b"e").is_err());
    c.receive(Stream::Stdout, &vec![b'o'; ERROR_LIMIT + 10]).unwrap();
    assert_eq!(c.out.len(), ERROR_LIMIT + 10);
}

#[test]
fn failure_reports_trimmed_stderr_or_status() {
    let mut c = run("/usr/bin/systemctl", &["start", "x.service"]);
    c.receive(Stream::Stderr, b"  Unit x.service not found.\n").unwrap();
    assert_eq!(c.exited(false, "exit status: 5").unwrap_err(), "Unit x.service not found.");
    let quiet = run("/usr/bin/false", &[]);
    assert_eq!(
        quiet.exited(false, "exit status: 1").unwrap_err(),
        "/usr/bin/false failed (exit status: 1)"
    );
    let mut blank = run("/usr/bin/false", &[]);
    blank.receive(Stream::Stderr, b" \n\t ").unwrap();
    assert_eq!(
        blank.exited(false, "signal: 9").unwrap_err(),
        "/usr/bin/false failed (signal: 9)"
    );
}

#[test]
fn output_is_decoded_lossily() {
    let mut c = run("/bin/cat", &[]);
    c.receive(Stream::Stdout, &[b'a', 0xff, b'b']).unwrap();
    assert_eq!(c.exited(true, "exit status: 0").unwrap(), "a\u{fffd}b");
}

#[test]
fn spawn_failure_names_the_program() {
    let c = run("/nonexistent", &[]);
    assert_eq!(c.spawn_failed("No such file or directory"), "/nonexistent: No such file or directory");
}
