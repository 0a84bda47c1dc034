use task_manager::process::{Identity, Process};
use task_manager::services::{services, users, SessionInfo, UnitFile, UnitInfo};

fn unit(name: &str, active: &str) -> UnitInfo {
    UnitInfo {
        unit: name.to_string(),
        description: Some(format!("{name} description")),
        active: Some(active.to_string()),
        sub: Some("running".to_string()),
    }
}

fn p(pid: i32, uid: u32, user: &str, memory: u64) -> Process {
    Process {
        id: Identity { pid, start: 1 },
        ppid: 1,
        name: "x".into(),
        command: String::new(),
        uid,
        user: user.into(),
        state: "S".into(),
        ticks: 0,
        memory,
        read: None,
        write: None,
        protected: false,
        nice: 0,
        threads: 1,
        virtual_memory: 0,
        gpu_memory: None,
    }
}

#[test]
fn inventory_is_one_row_per_unit_in_name_order() {
    let units = vec![unit("zeta.service", "active"), unit("alpha.service", "inactive"), unit("zeta.service", "failed")];
    let files = vec![
        UnitFile { name: "alpha.service".into(), state: Some("enabled".into()) },
        UnitFile { name: "beta.service".into(), state: Some("disabled".into()) },
    ];
    let rows = services(&units, &files);
    let names: Vec<&str> = rows.iter().map(|r| r.name.as_str()).collect();
    assert_eq!(names, vec!["alpha.service", "beta.service", "zeta.service"]);
    assert_eq!(rows[0].enabled, Some(Some("enabled".to_string())));
    assert_eq!(rows[0].state.as_deref(), Some("inactive"));
    assert_eq!(rows[1].state.as_deref(), Some("inactive"));
    assert_eq!(rows[1].sub.as_deref(), Some("unloaded"));
    assert_eq!(rows[1].description, None);
    assert_eq!(rows[2].state.as_deref(), Some("failed"));
    assert_eq!(rows[2].enabled, None);
}

#[test]
fn users_are_grouped_by_uid_with_their_sessions() {
    let processes = vec![p(1, 1000, "me", 10), p(2, 0, "root", 5), p(3, 1000, "me", 20)];
    let sessions = vec![
        SessionInfo { uid: Some(1000), user: Some("me".into()) },
        SessionInfo { uid: None, user: None },
        SessionInfo { uid: Some(1001), user: Some("guest".into()) },
    ];
    let rows = users(&processes, &sessions);
    let uids: Vec<u32> = rows.iter().map(|r| r.uid).collect();
    assert_eq!(uids, vec![0, 1000, 1001]);
    assert_eq!(rows[1].count, 2);
    assert_eq!(rows[1].memory, 30);
    assert_eq!(rows[1].name.as_deref(), Some("me"));
    assert_eq!(rows[1].sessions, vec![0]);
    assert_eq!(rows[2].count, 0);
    assert_eq!(rows[2].name.as_deref(), Some("guest"));
    assert_eq!(rows[2].sessions, vec![2]);
    assert!(rows[0].sessions.is_empty());
}
