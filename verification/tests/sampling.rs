use qube::cgroup::{
    cgroup_limit_writes, cgroup_path, cpu_limit_value, cpu_percent_from, memory_max_bytes,
    memory_swap_max_bytes, parse_memory_value, process_uptime_from, vmrss_bytes_from_status,
    MemoryStats,
};
use qube::lifecycle::format_uptime;

/// A stat line shaped like `/proc/<pid>/stat`: the interesting fields
/// are utime (14th), stime (15th) and starttime (22nd).
fn stat_line(utime: u64, stime: u64, starttime: u64) -> String {
    format!(
        "42 (sleep) S 1 42 42 0 -1 4194304 100 0 0 0 {} {} 0 0 20 0 1 0 {} 1000 0 18446744073709551615",
        utime, stime, starttime
    )
}

#[test]
fn cpu_percent_has_expected_value() {
    // 300 ticks of CPU over 1000 centiseconds of process uptime: 30%.
    let stat = stat_line(200, 100, 500);
    let uptime = "15.00 12.00\n";
    assert_eq!(cpu_percent_from(&stat, uptime), 30);
}

#[test]
fn cpu_percent_is_clamped_to_four_cores() {
    // 5000 ticks over 100 centiseconds would be 5000%.
    let stat = stat_line(5000, 0, 400);
    let uptime = "5.00 1.00\n";
    assert_eq!(cpu_percent_from(&stat, uptime), 400);
}

#[test]
fn cpu_percent_of_future_start_is_zero() {
    let stat = stat_line(100, 100, 10000);
    let uptime = "5.00 1.00\n";
    assert_eq!(cpu_percent_from(&stat, uptime), 0);
}

#[test]
fn cpu_percent_of_short_stat_is_zero() {
    assert_eq!(cpu_percent_from("1 2 3", "5.00"), 0);
}

#[test]
fn cpu_percent_stays_in_range() {
    for (u, s, st, up) in [
        (0u64, 0u64, 0u64, "0.00"),
        (1, 1, 1, "123.45"),
        (u64::MAX, 0, 0, "99999999.99"),
        (123, 456, 789, "1000000.00"),
    ] {
        let pct = cpu_percent_from(&stat_line(u, s, st), up);
        assert!(pct <= 400);
    }
}

#[test]
fn process_uptime_subtracts_start_time() {
    // 1500 centiseconds up, started at 500 ticks: 10 seconds.
    let stat = stat_line(0, 0, 500);
    assert_eq!(process_uptime_from(&stat, "15.00 1.00"), Some(10));
    assert_eq!(process_uptime_from(&stat, "1.00 1.00"), Some(0));
    assert_eq!(process_uptime_from("1 2 3", "15.00"), None);
}

#[test]
fn memory_values_parse_with_trim() {
    assert_eq!(parse_memory_value("123\n"), Some(123));
    assert_eq!(parse_memory_value("  456  "), Some(456));
    assert_eq!(parse_memory_value("max\n"), None);
    assert_eq!(parse_memory_value(""), None);
}

#[test]
fn memory_stats_keep_current_under_max() {
    let s = MemoryStats::from_files("123456\n", "2147483648\n");
    assert_eq!(s.current_bytes, 123456);
    assert_eq!(s.max_bytes, 2147483648);
    assert!(s.current_bytes <= s.max_bytes);

    let clamped = MemoryStats::from_files("300\n", "100\n");
    assert_eq!(clamped.max_bytes, 100);
    assert!(clamped.current_bytes <= clamped.max_bytes);

    let unlimited = MemoryStats::from_files("300\n", "max\n");
    assert_eq!(unlimited.current_bytes, 300);
    assert_eq!(unlimited.max_bytes, 0);

    let unreadable = MemoryStats::from_files("junk\n", "100\n");
    assert_eq!(unreadable.current_bytes, 0);
}

#[test]
fn vmrss_reads_kilobytes_as_bytes() {
    let status = "Name:\tsleep\nVmRSS:\t    2048 kB\nState:\tS\n";
    assert_eq!(vmrss_bytes_from_status(status), 2048 * 1024);
    assert_eq!(vmrss_bytes_from_status("Name:\tsleep\n"), 0);
}

#[test]
fn limit_writes_name_the_cgroup_files() {
    assert_eq!(cgroup_path("web"), "/sys/fs/cgroup/QubeContainers/web");
    assert_eq!(memory_max_bytes(), 2048 * 1024 * 1024);
    assert_eq!(memory_swap_max_bytes(), 1024 * 1024 * 1024);
    assert_eq!(cpu_limit_value(), "200000 100000");
    let writes = cgroup_limit_writes("web");
    assert_eq!(writes.len(), 3);
    assert_eq!(writes[0].path, "/sys/fs/cgroup/QubeContainers/web/memory.max");
    assert_eq!(writes[0].value, "2147483648");
    assert_eq!(writes[1].path, "/sys/fs/cgroup/QubeContainers/web/memory.swap.max");
    assert_eq!(writes[1].value, "1073741824");
    assert_eq!(writes[2].path, "/sys/fs/cgroup/QubeContainers/web/cpu.max");
    assert_eq!(writes[2].value, "200000 100000");
}

#[test]
fn uptime_text_drops_leading_zero_units() {
    assert_eq!(format_uptime(0), "0s");
    assert_eq!(format_uptime(59), "59s");
    assert_eq!(format_uptime(60), "1m 0s");
    assert_eq!(format_uptime(3725), "1h 2m 5s");
    assert_eq!(format_uptime(90061), "1d 1h 1m 1s");
}
