use task_manager::command::run;
use task_manager::desktop::{
    launch_outcome, panel_commands, panel_float, panel_window, partially_closed, restart_step,
    still_running, Desktop, LauncherFile, RestartStep, Window,
};
use task_manager::desktop_entry::parse;
use task_manager::manage::{dump_outcome, set_hidden};
use task_manager::process::{
    check_signal, leader_check, signal_for, tune_change, tune_report, Identity, Process, TuneChange, TuneRun,
};

fn window(address: &str, pid: i32, class: &str) -> Window {
    Window { address: address.into(), pid, class: class.into(), title: String::new() }
}

fn process(pid: i32, start: u64, state: &str) -> Process {
    Process {
        id: Identity { pid, start },
        ppid: 1,
        name: "app".into(),
        command: String::new(),
        uid: 1000,
        user: String::new(),
        state: state.into(),
        ticks: 0,
        memory: 0,
        read: None,
        write: None,
        protected: false,
        nice: 0,
        threads: 1,
        virtual_memory: 0,
        gpu_memory: None,
    }
}

#[test]
fn panel_window_is_only_the_parent_task_manager_window() {
    let ws = vec![
        window("0xa", 7, "org.other.App"),
        window("0xb", 8, "io.github.tcballard.TaskManager"),
        window("0xc", 7, "io.github.tcballard.TaskManager"),
        window("0xd", 7, "io.github.tcballard.TaskManager"),
    ];
    assert_eq!(panel_window(&ws, 7).unwrap(), "address:0xc");
    assert_eq!(panel_window(&ws, 9).unwrap_err(), "Task Manager window is not mapped yet");
    assert_eq!(panel_window(&[], 7).unwrap_err(), "Task Manager window is not mapped yet");
    let bad = vec![window("zz", 7, "io.github.tcballard.TaskManager")];
    assert_eq!(panel_window(&bad, 7).unwrap_err(), "Invalid window address");
}

#[test]
fn panel_requests_name_the_selected_window() {
    assert_eq!(
        panel_float("address:0xc", true),
        "/dispatch hl.dsp.window.float({ window = \"address:0xc\", action = \"set\" })"
    );
    assert_eq!(panel_float("address:0xc", false), "/dispatch setfloating address:0xc");
    assert_eq!(
        panel_commands("address:0xc", true, 900, 640, -1280, 20),
        vec![
            "/dispatch hl.dsp.window.resize({ window = \"address:0xc\", x = 900, y = 640 })".to_string(),
            "/dispatch hl.dsp.window.move({ window = \"address:0xc\", x = -1280, y = 20 })".to_string(),
        ]
    );
    assert_eq!(
        panel_commands("address:0xc", false, 900, 640, 10, 0),
        vec![
            "/dispatch resizewindowpixel exact 900 640,address:0xc".to_string(),
            "/dispatch movewindowpixel exact 10 0,address:0xc".to_string(),
        ]
    );
}

#[test]
fn core_dump_kept_only_for_the_same_process() {
    let id = Identity { pid: 42, start: 9 };
    let (remove, reply) = dump_outcome(Ok(String::new()), Some(id), &id, "/d/core.42");
    assert!(!remove);
    assert_eq!(reply.unwrap(), "Core dump saved to /d/core.42");
    let (remove, reply) = dump_outcome(Ok(String::new()), Some(Identity { pid: 42, start: 10 }), &id, "/d/core.42");
    assert!(remove);
    assert_eq!(reply.unwrap_err(), "Process identity could not be verified after capture; dump removed");
    let (remove, reply) = dump_outcome(Ok(String::new()), None, &id, "/d/core.42");
    assert!(remove);
    assert!(reply.is_err());
    let (remove, reply) = dump_outcome(Err(" ptrace: denied \n".into()), Some(id), &id, "/d/core.42");
    assert!(remove);
    assert_eq!(reply.unwrap_err(), "Core dump failed (ptrace permission or timeout): ptrace: denied");
}

#[test]
fn tune_report_keeps_the_first_eight_failures() {
    let failures: Vec<String> = (1..=9).map(|i| format!("{i}: No such process")).collect();
    let message = tune_report(2, &failures).unwrap_err();
    assert_eq!(
        message,
        "Updated 2 threads; failures: 1: No such process; 2: No such process; 3: No such process; \
         4: No such process; 5: No such process; 6: No such process; 7: No such process; \
         8: No such process"
    );
    assert!(!message.contains("9: No such process"));
}

#[test]
fn only_terminate_kill_stop_and_continue_are_sent() {
    for sig in [9, 15, 18, 19] {
        assert!(check_signal(sig).is_ok());
    }
    for sig in [0, 1, 2, 11, 64] {
        assert_eq!(check_signal(sig).unwrap_err(), "Invalid signal");
    }
}

#[test]
fn launcher_paths_compare_by_components() {
    let files = vec![LauncherFile {
        path: "/usr/share/applications/app.desktop".into(),
        file_name: "app.desktop".into(),
        text: Some("[Desktop Entry]\nName=App\n".into()),
    }];
    let d = Desktop::new(&files);
    assert!(d.has_launcher("/usr/share/applications//app.desktop"));
    assert!(d.has_launcher("/usr/share/./applications/app.desktop"));
    assert!(d.has_launcher("/usr/share/applications/app.desktop/"));
    assert!(!d.has_launcher("usr/share/applications/app.desktop"));
    assert!(!d.has_launcher("/usr/share/applications/../applications/app.desktop"));
    assert!(d.restart_check(1, "//usr/share/applications/app.desktop").is_ok());
}

#[test]
fn restart_waits_for_every_target_then_launches() {
    let id = Identity { pid: 5, start: 3 };
    assert!(still_running(&Some(process(5, 3, "S")), &id));
    assert!(!still_running(&Some(process(5, 3, "Z")), &id));
    assert!(!still_running(&Some(process(5, 4, "S")), &id));
    assert!(!still_running(&None, &id));
    assert!(partially_closed("EPERM", false).is_ok());
    assert_eq!(partially_closed("EPERM", true).unwrap_err(), "Application partially closed: EPERM");
    assert!(matches!(restart_step(&[false, false], 5000), RestartStep::Launch));
    assert!(matches!(restart_step(&[false, true], 2999), RestartStep::Wait));
    match restart_step(&[true], 3000) {
        RestartStep::Fail(e) => {
            assert_eq!(e, "Application is still closing. Resolve any save prompts, then launch it again.")
        }
        _ => panic!("expected the restart to give up"),
    }
    assert_eq!(launch_outcome(true).unwrap(), "Application restart requested");
    assert_eq!(launch_outcome(false).unwrap_err(), "Application closed, but its desktop launcher failed");
}

#[test]
fn startup_override_keeps_every_other_field() {
    let text = "[Desktop Entry]\nName=App\nHidden=false\nExec=app\n[Desktop Action New]\nHidden=maybe\n";
    let before = parse(text);
    let out = set_hidden(text, true).unwrap();
    let after = parse(&out);
    assert_eq!(after.get("Hidden").unwrap(), "true");
    assert_eq!(after.get("Name"), before.get("Name"));
    assert_eq!(after.get("Exec"), before.get("Exec"));
    assert_eq!(after.len(), before.len());
}

#[test]
fn failed_command_with_silent_stderr_names_the_program() {
    let c = run("/usr/bin/false", &[]);
    assert_eq!(c.exited(false, "exit status: 1").unwrap_err(), "/usr/bin/false failed (exit status: 1)");
}

#[test]
fn tuning_an_empty_thread_set_is_refused() {
    assert_eq!(tune_report(0, &[]).unwrap_err(), "No threads to update");
    assert_eq!(TuneRun::new().report().unwrap_err(), "No threads to update");
}

#[test]
fn tuning_pass_tallies_each_thread() {
    let mut run = TuneRun::new();
    run.applied(10, Ok(()));
    run.applied(11, Err("Operation not permitted".into()));
    run.failed(12, "Process has exited");
    assert_eq!(run.success, 1);
    assert_eq!(
        run.report().unwrap_err(),
        "Updated 1 threads; failures: 11: Operation not permitted; 12: Process has exited"
    );
    let mut fine = TuneRun::new();
    fine.applied(10, Ok(()));
    fine.applied(11, Ok(()));
    assert_eq!(fine.report().unwrap(), "Updated 2 threads. New threads inherit their creator's settings.");
    assert!(matches!(tune_change(Some(5), true), Ok(TuneChange::Nice(5))));
    assert!(matches!(tune_change(None, true), Ok(TuneChange::Affinity)));
    assert_eq!(tune_change(None, false).err().unwrap(), "No setting supplied");
    let id = Identity { pid: 3, start: 7 };
    assert!(leader_check(Some(id), &id).is_ok());
    assert_eq!(leader_check(None, &id).unwrap_err(), "Process exited");
    assert_eq!(leader_check(Some(Identity { pid: 3, start: 8 }), &id).unwrap_err(), "Process changed");
    assert_eq!(signal_for(true), 9);
    assert_eq!(signal_for(false), 15);
}
