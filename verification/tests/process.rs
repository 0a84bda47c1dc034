use std::collections::HashSet;
use task_manager::process::{
    check_tune, command_line, critical, parse_stat, protected_ids, tune_report, validate_target,
    Identity, Process, StatError,
};

fn p(pid: i32, parent: i32, name: &str) -> Process {
    Process {
        id: Identity { pid, start: 1 },
        ppid: parent,
        name: name.into(),
        command: String::new(),
        uid: 1000,
        user: String::new(),
        state: "S".into(),
        ticks: 0,
        memory: 0,
        read: None,
        write: None,
        protected: false,
        nice: 0,
        threads: 1,
        virtual_memory: 0,
        gpu_memory: None,
    }
}

#[test]
fn names_can_contain_parentheses() {
    let s = format!("12 (a ) b) S {}", vec!["0"; 21].join(" "));
    assert_eq!(parse_stat(&s).unwrap().0, "a ) b");
}

#[test]
fn short_stat_rejected() {
    assert!(parse_stat("1 (x) S 0").is_err());
}

#[test]
fn stat_errors_are_named() {
    assert_eq!(parse_stat("1 x) S").unwrap_err(), StatError::MissingName);
    assert_eq!(parse_stat("1 (x S").unwrap_err(), StatError::MissingNameEnd);
    assert_eq!(parse_stat("1 (x) S 0").unwrap_err(), StatError::ShortStat);
    assert_eq!(StatError::ShortStat.message(), "short process stat");
    let s = format!("7 (sh) R {}", (1..=22).map(|n| n.to_string()).collect::<Vec<_>>().join(" "));
    let (name, fields) = parse_stat(&s).unwrap();
    assert_eq!(name, "sh");
    assert_eq!(fields[0], "R");
    assert_eq!(fields.len(), 23);
}

#[test]
fn current_identity_and_owner_enforced() {
    let me = p(40, 1, "me");
    let mut id = me.id;
    id.start += 1;
    assert!(validate_target(&me, &id, me.uid, &HashSet::new()).is_err());
    assert!(validate_target(&me, &me.id, me.uid + 1, &HashSet::new()).is_err());
    assert!(validate_target(&me, &me.id, me.uid, &HashSet::from([me.id.pid])).is_err());
    assert!(validate_target(&me, &me.id, me.uid, &HashSet::new()).is_ok());
    assert_eq!(
        validate_target(&me, &id, me.uid, &HashSet::new()).unwrap_err(),
        "Process changed or exited; refresh and try again"
    );
    assert_eq!(
        validate_target(&me, &me.id, 0, &HashSet::new()).unwrap_err(),
        "Only your own processes can be controlled"
    );
    assert_eq!(
        validate_target(&me, &me.id, me.uid, &HashSet::from([40])).unwrap_err(),
        "This process is required by the desktop or monitor"
    );
}

#[test]
fn self_and_its_ancestors_are_protected() {
    let all = vec![p(1, 0, "systemd"), p(10, 1, "Hyprland"), p(20, 10, "terminal"), p(30, 20, "monitor"), p(31, 20, "other")];
    let ids = protected_ids(&all, 30);
    assert!(ids.contains(&30));
    assert!(ids.contains(&20));
    assert!(ids.contains(&10));
    assert!(ids.contains(&1));
    assert!(!ids.contains(&31));
}

#[test]
fn desktop_session_is_critical() {
    assert!(critical(&p(10, 1, "Hyprland")));
    assert!(!critical(&p(11, 1, "firefox")));
}

#[test]
fn command_line_separators_become_spaces() {
    assert_eq!(command_line("sleep\u{0}30\u{0}"), "sleep 30");
}

#[test]
fn tune_requests_are_checked() {
    assert!(check_tune(Some(-20), None, 1024).is_ok());
    assert!(check_tune(Some(19), None, 1024).is_ok());
    assert_eq!(check_tune(Some(20), None, 1024).unwrap_err(), "Nice must be between -20 and 19");
    assert_eq!(check_tune(Some(-21), None, 1024).unwrap_err(), "Nice must be between -20 and 19");
    assert_eq!(check_tune(None, Some(&[]), 1024).unwrap_err(), "Choose at least one valid CPU");
    assert_eq!(check_tune(None, Some(&[0, 1024]), 1024).unwrap_err(), "Choose at least one valid CPU");
    assert!(check_tune(None, Some(&[0, 1023]), 1024).is_ok());
}

#[test]
fn tune_report_counts_threads() {
    assert_eq!(
        tune_report(3, &[]).unwrap(),
        "Updated 3 threads. New threads inherit their creator's settings."
    );
    assert_eq!(
        tune_report(1, &["12: Operation not permitted".to_string(), "13: No such process".to_string()]).unwrap_err(),
        "Updated 1 threads; failures: 12: Operation not permitted; 13: No such process"
    );
}
