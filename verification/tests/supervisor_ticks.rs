use qube::runtime::record_launch;
use qube::supervisor::{
    orphan_directories, status_shows_alive, supervisor_tick, tick_decision, TickAction,
};
use qube::lifecycle::stop_transition;
use qube::tracking::ContainerEntry;

fn entry(name: &str, pid: i32, command: Vec<String>, timestamp: u64) -> ContainerEntry {
    ContainerEntry {
        name: name.to_string(),
        pid,
        dir: "/tmp".to_string(),
        command,
        image: "ubuntu24rootfs.tar".to_string(),
        ports: "".to_string(),
        isolated: false,
        volumes: vec![],
        env_vars: vec![],
        timestamp,
    }
}

#[test]
fn stopped_records_are_skipped() {
    let e = entry("a", -2, vec!["/bin/sleep".to_string()], 0);
    for now in [0u64, 5, 100, u64::MAX] {
        assert_eq!(tick_decision(&e, now, false), TickAction::Skip);
        assert_eq!(tick_decision(&e, now, true), TickAction::Skip);
    }
}

#[test]
fn fresh_queued_records_are_in_grace() {
    let e = entry("a", -1, vec!["/bin/sleep".to_string()], 1000);
    assert_eq!(tick_decision(&e, 1000, false), TickAction::Skip);
    assert_eq!(tick_decision(&e, 1004, false), TickAction::Skip);
    assert_eq!(tick_decision(&e, 998, false), TickAction::Skip);
    assert_eq!(tick_decision(&e, 1005, false), TickAction::Restart);
}

#[test]
fn dead_records_restart_or_reap() {
    let with_cmd = entry("a", 4242, vec!["/bin/sleep".to_string(), "30".to_string()], 0);
    assert_eq!(tick_decision(&with_cmd, 100, true), TickAction::Skip);
    assert_eq!(tick_decision(&with_cmd, 100, false), TickAction::Restart);
    let no_cmd = entry("b", 4242, vec![], 0);
    assert_eq!(tick_decision(&no_cmd, 100, false), TickAction::Reap);
}

#[test]
fn one_tick_sorts_the_snapshot() {
    let entries = vec![
        entry("stopped", -2, vec!["x".to_string()], 0),
        entry("dead", 77, vec!["x".to_string()], 0),
        entry("empty", 78, vec![], 0),
        entry("alive", 79, vec!["x".to_string()], 0),
    ];
    let alive = vec![false, false, false, true];
    let (kept, restarts) = supervisor_tick(&entries, 100, &alive);
    assert_eq!(kept.len(), 2);
    assert_eq!(kept[0].name, "stopped");
    assert_eq!(kept[1].name, "alive");
    assert_eq!(restarts.len(), 1);
    assert_eq!(restarts[0].name, "dead");
}

#[test]
fn register_and_launch_yields_one_live_record() {
    let mut entries = vec![entry(
        "Qube-TEST01",
        -1,
        vec!["/bin/sleep".to_string(), "30".to_string()],
        1000,
    )];
    let alive = vec![false];
    let (_, restarts) = supervisor_tick(&entries, 1006, &alive);
    assert_eq!(restarts.len(), 1);
    assert_eq!(restarts[0].name, "Qube-TEST01");
    record_launch(&mut entries, &restarts[0], 4242, 1006);
    let matching: Vec<_> = entries.iter().filter(|e| e.name == "Qube-TEST01").collect();
    assert_eq!(matching.len(), 1);
    assert_eq!(matching[0].pid, 4242);
    assert_eq!(matching[0].timestamp, 1006);
}

#[test]
fn user_stop_is_sticky_across_ticks() {
    let mut entries = vec![entry(
        "Qube-TEST01",
        4242,
        vec!["/bin/sleep".to_string(), "30".to_string()],
        1006,
    )];
    stop_transition(&mut entries, 4242, 1010);
    assert_eq!(entries[0].pid, -2);
    let mut now = 1015u64;
    for _ in 0..5 {
        let alive = vec![false; entries.len()];
        let (kept, restarts) = supervisor_tick(&entries, now, &alive);
        assert!(restarts.is_empty());
        assert_eq!(kept.len(), 1);
        assert_eq!(kept[0].pid, -2);
        assert_eq!(kept[0].name, "Qube-TEST01");
        entries = kept;
        now += 5;
    }
}

#[test]
fn crash_restart_rewrites_the_record() {
    let mut entries = vec![entry(
        "Qube-TEST01",
        4242,
        vec!["/bin/sleep".to_string(), "30".to_string()],
        1006,
    )];
    let alive = vec![false];
    let (kept, restarts) = supervisor_tick(&entries, 1100, &alive);
    assert!(kept.is_empty());
    assert_eq!(restarts.len(), 1);
    entries = kept;
    record_launch(&mut entries, &restarts[0], 5555, 1100);
    assert_eq!(entries.len(), 1);
    assert_eq!(entries[0].name, "Qube-TEST01");
    assert_eq!(entries[0].pid, 5555);
    assert_ne!(entries[0].pid, 4242);
}

#[test]
fn orphan_sweep_picks_untracked_directories() {
    let known = vec![entry("Qube-A", 1, vec![], 0)];
    let dirs = vec![
        "images".to_string(),
        "Qube-A".to_string(),
        "ghost".to_string(),
    ];
    let orphans = orphan_directories(&known, &dirs);
    assert_eq!(orphans, vec!["ghost".to_string()]);
}

#[test]
fn orphan_sweep_of_empty_registry_spares_images() {
    let known: Vec<ContainerEntry> = vec![];
    let dirs = vec!["images".to_string(), "ghost".to_string()];
    let orphans = orphan_directories(&known, &dirs);
    assert_eq!(orphans, vec!["ghost".to_string()]);
}

#[test]
fn status_text_decides_liveness() {
    assert!(status_shows_alive("Name:\tsleep\nState:\tS (sleeping)\nPid:\t42\n"));
    assert!(status_shows_alive("State:\tR (running)\n"));
    assert!(!status_shows_alive("Name:\tsleep\nState:\tZ (zombie)\n"));
    assert!(!status_shows_alive("Name:\tsleep\nPid:\t42\n"));
    assert!(!status_shows_alive(""));
}
