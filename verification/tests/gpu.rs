use task_manager::gpu::{
    add_memory, card_name, is_drm_device, nvidia_rows, parse, restart_due, stream_line, GpuTally,
    NvidiaRows, StreamLine,
};

const ROW_A: &str = "00000000:01:00.0, GPU A, 10, 100, 200, 40, 30";
const ROW_B: &str = "00000000:02:00.0, GPU B, 20, 300, 400, 50, 60";

#[test]
fn drm_units_and_capacity() {
    let c = parse("drm-driver: xe\ndrm-client-id: 8\ndrm-pdev: 0000:00:02.0\ndrm-engine-render: 500 ns\ndrm-engine-capacity-render: 2\ndrm-resident-system: 128 KiB\n").unwrap();
    assert_eq!(c.engines.get("render"), Some(500));
    assert_eq!(c.capacity.get("render"), Some(2));
    assert_eq!(c.memory, Some(131072));
    assert!(parse("pos: 0").is_none());
}

#[test]
fn fdinfo_fields() {
    let c = parse("drm-driver: i915\ndrm-client-id: 3\ndrm-pdev: 0000:00:02.0\ndrm-engine-video: 7 ns\ndrm-engine-copy: 9\ndrm-engine-capacity-video: 0\ndrm-resident-a: 1 MiB\ndrm-resident-b: 5\n").unwrap();
    assert_eq!(c.device, "0000:00:02.0");
    assert_eq!(c.id, "3");
    assert_eq!(c.engines.get("video"), Some(7));
    assert_eq!(c.engines.get("copy"), None);
    assert_eq!(c.capacity.get("video"), Some(1));
    assert_eq!(c.memory, Some(1048581));
    assert!(parse("drm-client-id: 3\n").is_none());
    assert!(parse("drm-driver: xe\ndrm-client-id: \n").is_none());
}

#[test]
fn only_drm_descriptors_are_inspected() {
    assert!(is_drm_device(true, 226 << 8));
    assert!(is_drm_device(true, (226 << 8) | 128));
    assert!(is_drm_device(true, 261 << 8));
    assert!(!is_drm_device(false, 226 << 8));
    assert!(!is_drm_device(true, 226));
    assert!(!is_drm_device(true, (1 << 8) | 3));
}

#[test]
fn card_names() {
    assert!(card_name("card0"));
    assert!(card_name("card12"));
    assert!(!card_name("card"));
    assert!(!card_name("card0-DP-1"));
    assert!(!card_name("renderD128"));
}

#[test]
fn nvidia_keeps_multiple_devices_and_non_nvidia_adapters() {
    let rows = nvidia_rows("00000000:01:00.0, GPU A, 10, 100, 200, 40, 30\n00000000:02:00.0, GPU B, N/A, 300, 400, 50, 60\n");
    assert_eq!(rows.len(), 2);
    assert_eq!(rows[0][1], "GPU A");
    assert_eq!(rows[1][1], "GPU B");
    assert_eq!(rows[1][2], "N/A");
    assert!(nvidia_rows("malformed output").is_empty());
    assert!(nvidia_rows(", a, b, c, d, e, f").is_empty());
}

#[test]
fn nvidia_stream_keeps_latest_row_per_device_and_withholds_stale_rows() {
    let older = ROW_A.replace(", 10,", ", 99,");
    let mut rows = NvidiaRows::new();
    for (line, at) in [(format!("{older}\n"), 0u64), (format!("{ROW_B}\n"), 0), (format!("{ROW_A}\n"), 10), ("malformed\n".to_string(), 10)] {
        match stream_line(&line) {
            StreamLine::Reading(bus, row) => rows.record(bus, at, row),
            StreamLine::Skip => {}
            StreamLine::End => break,
        }
    }
    assert_eq!(rows.fresh(100), format!("{ROW_A}\n{ROW_B}"));
    assert_eq!(rows.fresh(3005), ROW_A);
    assert_eq!(rows.fresh(10_000), "");
}

#[test]
fn nvidia_stream_rejects_overlong_lines() {
    let cut = "x".repeat(4096);
    assert!(matches!(stream_line(&cut), StreamLine::End));
    assert!(matches!(stream_line(""), StreamLine::End));
    assert!(matches!(stream_line("no comma\n"), StreamLine::Skip));
}

#[test]
fn nvidia_stream_keeps_at_most_64_devices() {
    let mut rows = NvidiaRows::new();
    for i in 0..70 {
        rows.record(format!("bus{i:03}"), 0, format!("bus{i:03}, x"));
    }
    assert_eq!(rows.fresh(0).lines().count(), 64);
    rows.record("bus000".to_string(), 1, "bus000, y".to_string());
    assert!(rows.fresh(1).starts_with("bus000, y"));
}

#[test]
fn nvidia_restarts_at_most_every_ten_seconds() {
    assert!(restart_due(true, None, 0));
    assert!(!restart_due(false, None, 0));
    assert!(!restart_due(true, Some(1000), 5000));
    assert!(restart_due(true, Some(1000), 11000));
}

#[test]
fn shared_clients_are_counted_once() {
    let c = parse("drm-driver: xe\ndrm-client-id: 8\ndrm-pdev: 0000:00:02.0\ndrm-engine-render: 500 ns\ndrm-engine-capacity-render: 2\ndrm-resident-system: 1 KiB\n").unwrap();
    let mut t = GpuTally::new();
    let (memory, engines) = t.count_client(&c).unwrap();
    assert_eq!(memory, Some(1024));
    assert_eq!(engines.len(), 1);
    assert_eq!(engines[0].engine, "render");
    assert_eq!(engines[0].busy, 500);
    assert_eq!(engines[0].previous, None);
    assert_eq!(engines[0].capacity, 2);
    assert!(t.count_client(&c).is_none());
    t.finish();
    let again = parse("drm-driver: xe\ndrm-client-id: 8\ndrm-pdev: 0000:00:02.0\ndrm-engine-render: 900 ns\n").unwrap();
    let (_, engines) = t.count_client(&again).unwrap();
    assert_eq!(engines[0].previous, Some(500));
    assert_eq!(engines[0].capacity, 1);
    assert_eq!(add_memory(None, Some(5)), Some(5));
    assert_eq!(add_memory(Some(5), None), Some(5));
    assert_eq!(add_memory(Some(u64::MAX), Some(5)), Some(u64::MAX));
}
