use task_manager::metrics::{
    capacity, continuous, cores, counter_delta, cpu_mhz, cpu_model, cpu_ticks, cpu_usage, disk,
    disk_activity, load, memory, mounts, net, response_counts, unescape_mount, BasicSampler,
    Sampler,
};
use task_manager::process::{Identity, Process};
use task_manager::table::Table;

fn proc_with(pid: i32, ticks: u64, read: Option<u64>) -> Process {
    Process {
        id: Identity { pid, start: 5 },
        ppid: 1,
        name: "x".into(),
        command: String::new(),
        uid: 1000,
        user: String::new(),
        state: "S".into(),
        ticks,
        memory: 0,
        read,
        write: None,
        protected: false,
        nice: 0,
        threads: 1,
        virtual_memory: 0,
        gpu_memory: None,
    }
}

#[test]
fn suspend_gap_invalidates_rates() {
    assert!(continuous(1_000_000, 1_010_000));
    assert!(!continuous(1_000_000, 301_000_000));
    assert!(!continuous(20_000_000, 20_000_000));
}

#[test]
fn continuity_edges() {
    assert!(!continuous(0, 0));
    assert!(continuous(14_999_999, 14_999_999));
    assert!(!continuous(15_000_000, 15_000_000));
    assert!(!continuous(1_000_000, 1_500_000));
    assert!(continuous(1_000_000, 1_499_999));
    assert!(!continuous(1_000_000, -1_000_000_000_000));
}

#[test]
fn mount_escapes() {
    assert_eq!(unescape_mount("/a\\040b"), "/a b");
}

#[test]
fn mount_escapes_in_order() {
    assert_eq!(unescape_mount("/x\\011y\\012z\\134w"), "/x\ty\nz\\w");
    assert_eq!(unescape_mount("\\134040"), "\\040");
}

#[test]
fn counter_reset_and_bad_time() {
    assert_eq!(counter_delta(1, 2), None);
    assert_eq!(counter_delta(200, 100), Some(100));
    assert_eq!(counter_delta(7, 7), Some(0));
}

#[test]
fn cpu_lines_are_totalled() {
    let stat = "cpu  10 0 10 70 10 0 0 0 0 0\ncpu0 5 0 5 35 5\nintr 1 2\ncpu1 1 2\n";
    let c = cpu_ticks(stat);
    assert_eq!(c.len(), 2);
    assert_eq!(c[0], ("cpu".to_string(), 100, 80));
    assert_eq!(c[1], ("cpu0".to_string(), 50, 40));
    assert_eq!(cores(c.len()), 1);
    assert_eq!(cores(0), 1);
    assert_eq!(cores(9), 8);
}

#[test]
fn cpu_usage_needs_growth() {
    let prev = vec![("cpu".to_string(), 100u64, 80u64)];
    assert_eq!(cpu_usage(&prev, &("cpu".to_string(), 200, 130)), Some((50, 100)));
    assert_eq!(cpu_usage(&prev, &("cpu".to_string(), 100, 80)), None);
    assert_eq!(cpu_usage(&prev, &("cpu".to_string(), 150, 140)), None);
    assert_eq!(cpu_usage(&prev, &("cpu1".to_string(), 200, 130)), None);
}

#[test]
fn meminfo_in_bytes() {
    let m = memory("MemTotal:       1000 kB\nMemAvailable:    400 kB\nCached: 10 kB\nSReclaimable: 5 kB\nSwapTotal: 0 kB\nSwapFree: 0 kB\n");
    assert_eq!(m.total, 1024000);
    assert_eq!(m.available, 409600);
    assert_eq!(m.used, 614400);
    assert_eq!(m.cache, 15360);
    assert_eq!(m.swap_used, 0);
    assert_eq!(m.buffers, 0);
}

#[test]
fn network_counters() {
    let t = net("Inter-|   Receive\n face |bytes\n  eth0: 100 1 0 0 0 0 0 0 200 2 0 0 0 0 0 0\n lo: 5\n");
    assert_eq!(t.get("eth0"), Some((100, 200)));
    assert_eq!(t.get("lo"), None);
    assert_eq!(t.len(), 1);
}

#[test]
fn disks_are_whole_block_devices() {
    let text = "   8       0 sda 10 0 4 5 20 0 8 7 0 30 12 0 0 0 0\n   8       1 sda1 1 0 2 0 0 0 0 0 0 0 0\n   7       0 loop0 1 0 2 3 0 0 4 0 0 0 0\n";
    let blocks = vec!["sda".to_string(), "loop0".to_string()];
    let d = disk(text, &blocks);
    assert_eq!(d.get("sda"), Some((2048, 4096)));
    assert_eq!(d.get("sda1"), None);
    assert_eq!(d.get("loop0"), None);
    let a = disk_activity(text);
    assert_eq!(a.get("sda"), Some((30, 30, 12)));
    assert_eq!(response_counts(30, 12, 20, 2), Some((10, 10)));
    assert_eq!(response_counts(30, 12, 30, 2), None);
}

#[test]
fn mounts_of_devices() {
    let m = mounts("/dev/sda1 /mnt/my\\040disk ext4 rw 0 0\nproc /proc proc rw 0 0\n");
    assert_eq!(m, vec![("/dev/sda1".to_string(), "/mnt/my disk".to_string())]);
    assert_eq!(capacity(100, 4096, 50, 60), (409600, 204800, 163840));
    assert_eq!(capacity(10, 1, 5, 20), (10, 5, 0));
}

#[test]
fn cpuinfo_and_load() {
    let info = "processor\t: 0\nmodel name\t: Test CPU\ncpu MHz\t\t: 1200.5\nprocessor\t: 1\nmodel name\t: Test CPU\ncpu MHz\t\t: 800\n";
    assert_eq!(cpu_model(info), Some("Test CPU".to_string()));
    assert_eq!(cpu_mhz(info), vec!["1200.5".to_string(), "800".to_string()]);
    assert_eq!(cpu_model("processor: 0\n"), None);
    assert_eq!(load("0.10 0.20 0.30 1/100 42\n"), "0.10  0.20  0.30");
}

#[test]
fn first_sample_pending() {
    let mut s = BasicSampler::new();
    let mut nets = Table::new();
    nets.insert("eth0".to_string(), (10u64, 20u64));
    let p = s.sample(1000, 0, vec![("cpu".to_string(), 100, 80)], nets, Table::new());
    assert!(!p.valid);
    assert!(p.cpu.iter().all(|c| c.1.is_none()));
    assert!(p.network.iter().all(|n| n.1.is_none() && n.2.is_none()));
    let mut nets = Table::new();
    nets.insert("eth0".to_string(), (30u64, 25u64));
    let q = s.sample(2000, 1_000_000, vec![("cpu".to_string(), 200, 130)], nets, Table::new());
    assert!(q.valid);
    assert_eq!(q.elapsed_us, 1_000_000);
    assert_eq!(q.cpu[0].1, Some((50, 100)));
    assert_eq!(q.network[0], ("eth0".to_string(), Some(20), Some(5)));
}

#[test]
fn suspended_interval_gives_no_rates() {
    let mut s = BasicSampler::new();
    s.sample(1000, 0, vec![("cpu".to_string(), 100, 80)], Table::new(), Table::new());
    let p = s.sample(301_000, 1_000_000, vec![("cpu".to_string(), 200, 130)], Table::new(), Table::new());
    assert!(!p.valid);
    assert_eq!(p.cpu[0].1, None);
}

#[test]
fn process_rates_follow_identity() {
    let mut s = Sampler::new();
    let first = s.sample(0, Some(10_000_000), vec![], &[proc_with(10, 100, Some(1000))], Table::new(), Table::new(), Table::new());
    assert!(!first.valid);
    assert_eq!(first.processes[0], (None, None, None));
    let second = s.sample(1_000_000, Some(11_000_000), vec![], &[proc_with(10, 150, Some(4000)), proc_with(11, 5, None)], Table::new(), Table::new(), Table::new());
    assert!(second.valid);
    assert_eq!(second.processes[0], (Some(50), Some(3000), None));
    assert_eq!(second.processes[1], (None, None, None));
    s.invalidate();
    let third = s.sample(2_000_000, Some(12_000_000), vec![], &[proc_with(10, 170, Some(4000))], Table::new(), Table::new(), Table::new());
    assert!(!third.valid);
    let fourth = s.sample(3_000_000, Some(13_000_000), vec![], &[proc_with(10, 100, Some(4000))], Table::new(), Table::new(), Table::new());
    assert!(fourth.valid);
    assert_eq!(fourth.processes[0], (None, Some(0), None));
}

#[test]
fn disk_activity_rates() {
    let mut s = Sampler::new();
    let mut d = Table::new();
    d.insert("sda".to_string(), (1000u64, 2000u64));
    let mut a = Table::new();
    a.insert("sda".to_string(), (100u64, 10u64, 50u64));
    s.sample(0, Some(0), vec![], &[], Table::new(), d, a);
    let mut d = Table::new();
    d.insert("sda".to_string(), (1500u64, 2000u64));
    let mut a = Table::new();
    a.insert("sda".to_string(), (600u64, 20u64, 150u64));
    let p = s.sample(1_000_000, Some(1_000_000), vec![], &[], Table::new(), d, a);
    assert!(p.valid);
    assert_eq!(p.disks[0], ("sda".to_string(), Some(500), Some(0)));
    assert_eq!(p.activity[0], (Some(500), Some((10, 100))));
}

#[test]
fn interface_rows_come_in_name_order() {
    let mut s = BasicSampler::new();
    let mut nets = Table::new();
    nets.insert("wlan0".to_string(), (1u64, 1u64));
    nets.insert("eth0".to_string(), (1u64, 1u64));
    nets.insert("lo".to_string(), (1u64, 1u64));
    let p = s.sample(0, 0, vec![], nets, Table::new());
    let names: Vec<&str> = p.network.iter().map(|n| n.0.as_str()).collect();
    assert_eq!(names, vec!["eth0", "lo", "wlan0"]);
}
