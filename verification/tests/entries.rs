use task_manager::desktop_entry::parse;
use task_manager::manage::{
    autostart_commands, service_action, session_target, set_hidden, startup_message,
    valid_startup_key, valid_unit,
};

#[test]
fn comments_and_action_sections_cannot_override_application_fields() {
    let entry = parse("Name=outside\n [Desktop Entry] \nName = Main\n#Hidden=true\nHidden=false\nExec=app --arg=a=b\n[Desktop Action Test]\nName=Other\nHidden=true\n");
    assert_eq!(entry.get("Name").unwrap(), "Main");
    assert_eq!(entry.get("Hidden").unwrap(), "false");
    assert_eq!(entry.get("Exec").unwrap(), "app --arg=a=b");
    assert_eq!(entry.len(), 3);
}

#[test]
fn startup_override_keeps_actions() {
    let s = "[Desktop Entry]\nName=A\nHidden=false\nExec=thing\n[Desktop Action X]\nHidden=false\nExec=other\n";
    let out = set_hidden(s, true).unwrap();
    assert!(out.contains("[Desktop Entry]\nHidden=true"));
    assert!(out.contains("[Desktop Action X]\nHidden=false"));
    assert_eq!(out.matches("Hidden=true").count(), 1);
    assert!(set_hidden("Name=A", true).is_err());
}

#[test]
fn override_reads_back() {
    let s = "[Desktop Entry]\nName=A\nHidden=true\n";
    let out = set_hidden(s, false).unwrap();
    assert_eq!(parse(&out).get("Hidden").unwrap(), "false");
    assert_eq!(parse(&out).get("Name").unwrap(), "A");
    let dup = "[Desktop Entry]\nName=A\n[Desktop Entry]\nName=B\n";
    assert_eq!(set_hidden(dup, true).unwrap_err(), "Duplicate Desktop Entry section");
}

#[test]
fn unit_validation() {
    assert!(valid_unit("app-org.example@session.service"));
    for s in ["--help.service", "x;reboot.service", "a/b.service", "foo.socket"] {
        assert!(!valid_unit(s));
    }
}

#[test]
fn path_traversal_rejected() {
    assert!(!valid_startup_key("../evil.desktop"));
    assert!(valid_startup_key("evil.desktop"));
    assert!(!valid_startup_key(".hidden.desktop"));
    assert!(!valid_startup_key("a\\b.desktop"));
}

#[test]
fn startup_messages() {
    assert!(startup_message(true, "x.desktop").starts_with("Enabled"));
    assert!(startup_message(false, "x.desktop").starts_with("Disabled"));
}

#[test]
fn service_requests_are_built_or_refused() {
    let c = service_action("app.service", "restart", Some("user")).unwrap();
    assert_eq!(c.command.program, "/usr/bin/systemctl");
    assert_eq!(c.command.args[0], "--user");
    assert!(c.command.args.contains(&"app.service".to_string()));
    assert!(c.success.is_some());
    assert!(service_action("x;reboot.service", "restart", None).is_err());
    assert!(service_action("app.service", "explode", None).is_err());
    let logs = service_action("app.service", "logs", Some("system")).unwrap();
    assert_eq!(logs.command.program, "/usr/bin/journalctl");
    assert!(logs.success.is_none());
}

#[test]
fn sessions_belong_to_their_user() {
    assert_eq!(session_target(Some(1000), 1000, Some("3")).unwrap(), "3");
    assert_eq!(session_target(None, 1000, Some("3")).unwrap_err(), "Invalid user");
    assert_eq!(
        session_target(Some(1001), 1000, Some("3")).unwrap_err(),
        "You can only manage your own sessions"
    );
    assert_eq!(session_target(Some(1000), 1000, None).unwrap_err(), "No session selected");
    assert_eq!(session_target(Some(1000), 1000, Some("3;x")).unwrap_err(), "Invalid session");
}

#[test]
fn autostart_lists_exec_lines() {
    let c = autostart_commands("[Desktop Entry]\nExec=app --start\nName=A\n");
    assert!(!c.is_empty());
}
