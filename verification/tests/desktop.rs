use task_manager::desktop::{
    dispatched, window_command, window_outcome, window_present,
    application_icon, group, theme, valid_instance_signature, valid_window_address, Desktop,
    LauncherFile, Window,
};
use task_manager::process::{Identity, Process};

fn p(pid: i32, parent: i32, name: &str) -> Process {
    Process {
        id: Identity { pid, start: 1 },
        ppid: parent,
        name: name.into(),
        command: String::new(),
        uid: 1000,
        user: String::new(),
        state: "S".into(),
        ticks: 0,
        memory: 0,
        read: None,
        write: None,
        protected: false,
        nice: 0,
        threads: 1,
        virtual_memory: 0,
        gpu_memory: None,
    }
}

fn w(pid: i32) -> Window {
    Window {
        pid,
        address: "0x1".into(),
        class: "app".into(),
        title: String::new(),
    }
}

#[test]
fn omarchy_windows_use_brand_icon_only_for_their_namespace() {
    for class in ["org.omarchy.agent", "org.omarchy.terminal", "org.omarchy.btop"] {
        assert_eq!(application_icon(class, None), "omarchy-default");
        assert_eq!(application_icon(class, Some("utilities-terminal")), "omarchy-default");
    }
    assert_eq!(application_icon("chromium", Some("chromium")), "chromium");
    assert_eq!(application_icon("org.omarchyish.app", None), "application-x-executable");
    assert_eq!(application_icon("other", Some("")), "application-x-executable");
}

#[test]
fn nearest_window_owns_process() {
    let g = group(
        &[p(10, 1, "browser"), p(11, 10, "child"), p(12, 10, "other")],
        &[w(10), w(12)],
    );
    assert_eq!(g[&10], vec![10, 11]);
    assert_eq!(g[&12], vec![12]);
}

#[test]
fn shell_jobs_not_terminal_members() {
    let g = group(&[p(10, 1, "terminal"), p(11, 10, "bash"), p(12, 11, "job")], &[w(10)]);
    assert!(!g[&10].contains(&12));
}

#[test]
fn cycles_and_orphans_terminate() {
    assert!(group(&[p(10, 11, "x"), p(11, 10, "y"), p(12, 99, "z")], &[]).is_empty());
}

#[test]
fn window_addresses_and_instances_are_checked() {
    assert!(valid_window_address("0x55d0a1b2"));
    assert!(!valid_window_address("55d0"));
    assert!(!valid_window_address("0xzz"));
    assert!(valid_instance_signature("abc_123_456"));
    assert!(!valid_instance_signature("../x"));
    assert!(!valid_instance_signature("a/b"));
}

#[test]
fn launchers_and_apps_follow_windows() {
    let files = vec![LauncherFile {
        path: "/usr/share/applications/app.desktop".into(),
        file_name: "app.desktop".into(),
        text: Some("[Desktop Entry]\nName=App\nIcon=app-icon\nStartupWMClass=app\n".into()),
    }];
    let d = Desktop::new(&files);
    assert!(d.has_launcher("/usr/share/applications/app.desktop"));
    assert!(!d.has_launcher("/usr/share/applications/other.desktop"));
    let apps = d.apps(&[p(10, 1, "app"), p(11, 10, "helper")], &[w(10)]);
    assert_eq!(apps.len(), 1);
    assert_eq!(apps[0].root, 10);
    assert_eq!(apps[0].targets.len(), 2);
    assert_eq!(apps[0].windows, vec![0]);
}

#[test]
fn theme_needs_three_palette_colours() {
    assert!(theme("background = \"#000000\"\n", "").is_none());
}

#[test]
fn window_requests_are_checked() {
    assert_eq!(window_command("0x1f", true).unwrap(), "/dispatch closewindow address:0x1f");
    assert_eq!(window_command("0x1f", false).unwrap(), "/dispatch focuswindow address:0x1f");
    assert_eq!(window_command("1f", false).unwrap_err(), "Invalid window identity");
    assert!(window_present(&[w(10)], "0x1", 10));
    assert!(!window_present(&[w(10)], "0x1", 11));
    assert!(!window_present(&[w(10)], "0x2", 10));
    assert_eq!(window_outcome(" ok\n", true).unwrap(), "Close requested");
    assert_eq!(window_outcome("ok", false).unwrap(), "Window focused");
    assert_eq!(window_outcome("no such window", false).unwrap_err(), "no such window");
    assert!(dispatched("ok\n"));
    assert!(!dispatched("okay"));
}

#[test]
fn restart_needs_a_known_launcher() {
    let d = Desktop::new(&[]);
    assert_eq!(d.restart_check(1, "/x.desktop").unwrap_err(), "Application launcher unavailable");
    let files = vec![LauncherFile {
        path: "/a/app.desktop".into(),
        file_name: "app.desktop".into(),
        text: Some("[Desktop Entry]\nName=App\n".into()),
    }];
    let d = Desktop::new(&files);
    assert!(d.restart_check(1, "/a/app.desktop").is_ok());
    assert!(d.restart_check(0, "/a/app.desktop").is_err());
    assert!(d.restart_check(4097, "/a/app.desktop").is_err());
}
