use qube::api::{list_volumes, CommandParams, ContainerError};
use qube::custom::{command_vec, ports_string, CommandValue, ContainerConfig};
use qube::lifecycle::{
    container_status, delete_paths, generate_container_id, get_rootfs, image_path, image_url,
    snapshot_path, start_transition, stop_transition, volume_dest_path, ContainerStatus,
    StartOutcome, StopOutcome,
};
use qube::registry::{find_entry, remove_entries_by_name, upsert_entry};
use qube::runtime::{handshake_bytes, launch_config, pid_from_handshake};
use qube::tracking::{ContainerEntry, VolumeMount};

fn entry(name: &str, pid: i32) -> ContainerEntry {
    ContainerEntry {
        name: name.to_string(),
        pid,
        dir: "/tmp".to_string(),
        command: vec!["/bin/sleep".to_string(), "30".to_string()],
        image: "ubuntu24rootfs.tar".to_string(),
        ports: "".to_string(),
        isolated: false,
        volumes: vec![],
        env_vars: vec![],
        timestamp: 1000,
    }
}

#[test]
fn paths_are_built_exactly() {
    assert_eq!(get_rootfs("Qube-X"), "/var/tmp/Qube_containers/Qube-X/rootfs");
    assert_eq!(image_path("a.tar"), "/var/tmp/Qube_containers/images/a.tar");
    assert_eq!(image_url("a.tar"), "https://files.ewenmacculloch.com/files/a.tar");
    assert_eq!(
        snapshot_path("/home/me", "Qube-X"),
        "/home/me/snapshot-Qube-X.tar.gz"
    );
    assert_eq!(
        volume_dest_path("Qube-X", "/mnt/data"),
        "/var/tmp/Qube_containers/Qube-X/rootfs/mnt/data"
    );
    assert_eq!(
        volume_dest_path("Qube-X", "plain"),
        "/var/tmp/Qube_containers/Qube-X/rootfs/plain"
    );
    let (dir, cgroup) = delete_paths("Qube-X");
    assert_eq!(dir, "/var/tmp/Qube_containers/Qube-X");
    assert_eq!(cgroup, "/sys/fs/cgroup/QubeContainers/Qube-X");
}

#[test]
fn generated_ids_have_the_documented_shape() {
    for _ in 0..16 {
        let id = generate_container_id();
        assert_eq!(id.chars().count(), 11);
        assert!(id.starts_with("Qube-"));
        assert!(id.chars().skip(5).all(|c| c.is_ascii_alphanumeric()));
    }
}

#[test]
fn find_resolves_name_before_pid() {
    let entries = vec![entry("web", 10), entry("11", 20), entry("db", 11)];
    assert_eq!(find_entry(&entries, &"web".to_string()), Some(0));
    // "11" is a record name, so the name match wins over PID 11.
    assert_eq!(find_entry(&entries, &"11".to_string()), Some(1));
    assert_eq!(find_entry(&entries, &"20".to_string()), Some(1));
    assert_eq!(find_entry(&entries, &"db".to_string()), Some(2));
    assert_eq!(find_entry(&entries, &"none".to_string()), None);
    assert_eq!(find_entry(&entries, &"99".to_string()), None);
}

#[test]
fn upsert_replaces_or_appends() {
    let mut entries = vec![entry("a", 1), entry("b", 2)];
    let mut replacement = entry("a", 33);
    replacement.image = "other.tar".to_string();
    upsert_entry(&mut entries, replacement);
    assert_eq!(entries.len(), 2);
    assert_eq!(entries[0].pid, 33);
    assert_eq!(entries[0].image, "other.tar");
    upsert_entry(&mut entries, entry("c", 3));
    assert_eq!(entries.len(), 3);
    assert_eq!(entries[2].name, "c");
}

#[test]
fn distinct_upserts_leave_both_present() {
    let mut entries: Vec<ContainerEntry> = vec![];
    upsert_entry(&mut entries, entry("a", 1));
    upsert_entry(&mut entries, entry("b", 2));
    assert_eq!(entries.len(), 2);
    assert!(entries.iter().any(|e| e.name == "a" && e.pid == 1));
    assert!(entries.iter().any(|e| e.name == "b" && e.pid == 2));
}

#[test]
fn delete_is_idempotent_on_the_registry() {
    let entries = vec![entry("a", 1), entry("b", 2)];
    let once = remove_entries_by_name(&entries, &"a".to_string());
    assert_eq!(once.len(), 1);
    assert_eq!(once[0].name, "b");
    let twice = remove_entries_by_name(&once, &"a".to_string());
    assert_eq!(twice.len(), 1);
    assert_eq!(twice[0].name, "b");
}

#[test]
fn stop_marks_the_record_and_keeps_it() {
    let mut entries = vec![entry("a", 41), entry("b", 42)];
    assert_eq!(stop_transition(&mut entries, 42, 2000), StopOutcome::Stopped);
    assert_eq!(entries.len(), 2);
    assert_eq!(entries[1].pid, -2);
    assert_eq!(entries[1].timestamp, 2000);
    assert_eq!(entries[1].command, vec!["/bin/sleep", "30"]);
    assert_eq!(entries[0].pid, 41);
    assert_eq!(stop_transition(&mut entries, 99, 2001), StopOutcome::NotFound);
}

#[test]
fn start_requeues_only_what_needs_it() {
    let mut entries = vec![entry("run", 41), entry("queued", -1), entry("stopped", -2)];
    assert_eq!(
        start_transition(&mut entries, 0, true, 3000),
        StartOutcome::AlreadyRunning
    );
    assert_eq!(entries[0].pid, 41);
    assert_eq!(
        start_transition(&mut entries, 1, false, 3000),
        StartOutcome::AlreadyQueued
    );
    assert_eq!(
        start_transition(&mut entries, 2, false, 3000),
        StartOutcome::Queued
    );
    assert_eq!(entries[2].pid, -1);
    assert_eq!(entries[2].timestamp, 3000);
}

#[test]
fn status_reflects_pid_and_proc() {
    assert_eq!(container_status(42, true), ContainerStatus::Running);
    assert_eq!(container_status(42, false), ContainerStatus::Exited);
    assert_eq!(container_status(-2, false), ContainerStatus::Stopped);
    assert_eq!(container_status(-1, false), ContainerStatus::Exited);
}

#[test]
fn handshake_round_trips_pids() {
    for pid in [0, 1, 4242, i32::MAX, -1] {
        let bytes = handshake_bytes(pid);
        assert_eq!(pid_from_handshake(&bytes, 4), Some(pid));
    }
    let bytes = handshake_bytes(4242);
    assert_eq!(pid_from_handshake(&bytes, 3), None);
    assert_eq!(pid_from_handshake(&bytes, 0), None);
}

#[test]
fn launch_config_follows_the_record() {
    let mut e = entry("iso", -1);
    e.isolated = true;
    let c = launch_config(&e, false);
    assert_eq!(c.hostname, "Qube");
    assert!(c.unshare_network);
    assert_eq!(c.rootfs, "/var/tmp/Qube_containers/iso/rootfs");
    assert_eq!(c.exec_dir, "/home");
    assert!(c.detach_stdio);
    let plain = launch_config(&entry("p", -1), true);
    assert!(!plain.unshare_network);
    assert!(!plain.detach_stdio);
}

#[test]
fn volume_overview_lists_every_mount() {
    let mut a = entry("a", 1);
    a.volumes = vec![
        VolumeMount { host: "/x".to_string(), guest: "/gx".to_string() },
        VolumeMount { host: "/y".to_string(), guest: "/gy".to_string() },
    ];
    let mut b = entry("b", 2);
    b.volumes = vec![VolumeMount { host: "/z".to_string(), guest: "/gz".to_string() }];
    let infos = list_volumes(&vec![a, b]);
    assert_eq!(infos.len(), 3);
    assert_eq!(infos[0].name, "vol-0");
    assert_eq!(infos[0].host_path, "/x");
    assert_eq!(infos[0].container_path, "/gx");
    assert_eq!(infos[0].container, "a");
    assert_eq!(infos[1].name, "vol-1");
    assert_eq!(infos[2].name, "vol-0");
    assert_eq!(infos[2].container, "b");
}

#[test]
fn manifest_commands_become_one_argv() {
    let single = command_vec(&CommandValue::Single("echo hi".to_string()));
    assert_eq!(single, vec!["echo hi"]);
    let list = command_vec(&CommandValue::List(vec![
        "apt-get update".to_string(),
        "apt-get install -y curl".to_string(),
    ]));
    assert_eq!(list, vec!["apt-get update && apt-get install -y curl"]);
}

#[test]
fn manifest_ports_join_with_commas() {
    assert_eq!(
        ports_string(&Some(vec!["80".to_string(), "443".to_string()])),
        "80,443"
    );
    assert_eq!(ports_string(&None), "");
}

#[test]
fn request_types_carry_their_data() {
    let params = CommandParams { container_id: "Qube-X".to_string() };
    assert_eq!(params.container_id, "Qube-X");
    assert_ne!(ContainerError::InvalidContainerId, ContainerError::ContainerNotFound);
    let config = ContainerConfig {
        system: "ubuntu24rootfs.tar".to_string(),
        cmd: CommandValue::Single("sleep 30".to_string()),
        ports: None,
        isolated: Some(true),
        debug: None,
    };
    assert_eq!(config.system, "ubuntu24rootfs.tar");
    assert_eq!(config.isolated, Some(true));
}
