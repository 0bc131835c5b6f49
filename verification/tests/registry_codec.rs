use qube::tracking::{append_record, parse_line, parse_registry, serialize_entry, serialize_registry, ContainerEntry, VolumeMount};

fn sample_entry() -> ContainerEntry {
    ContainerEntry {
        name: "Qube-TEST01".to_string(),
        pid: -1,
        dir: "/tmp".to_string(),
        command: vec!["/bin/sleep".to_string(), "30".to_string()],
        image: "ubuntu24rootfs.tar".to_string(),
        ports: "".to_string(),
        isolated: false,
        volumes: vec![],
        env_vars: vec![],
        timestamp: 1000,
    }
}

fn full_entry() -> ContainerEntry {
    ContainerEntry {
        name: "Qube-full".to_string(),
        pid: 4242,
        dir: "/home/user/work".to_string(),
        command: vec!["/bin/sh".to_string(), "-c".to_string(), "echo hi".to_string()],
        image: "alpine.tar".to_string(),
        ports: "8080".to_string(),
        isolated: true,
        volumes: vec![
            VolumeMount { host: "/data".to_string(), guest: "/mnt/data".to_string() },
            VolumeMount { host: "/logs".to_string(), guest: "/var/log/app".to_string() },
        ],
        env_vars: vec!["KEY=VALUE".to_string(), "MODE=fast".to_string()],
        timestamp: 1739990000,
    }
}

fn assert_entries_equal(a: &ContainerEntry, b: &ContainerEntry) {
    assert_eq!(a.name, b.name);
    assert_eq!(a.pid, b.pid);
    assert_eq!(a.dir, b.dir);
    assert_eq!(a.command, b.command);
    assert_eq!(a.image, b.image);
    assert_eq!(a.ports, b.ports);
    assert_eq!(a.isolated, b.isolated);
    assert_eq!(a.volumes.len(), b.volumes.len());
    for (x, y) in a.volumes.iter().zip(b.volumes.iter()) {
        assert_eq!(x.host, y.host);
        assert_eq!(x.guest, y.guest);
    }
    assert_eq!(a.env_vars, b.env_vars);
    assert_eq!(a.timestamp, b.timestamp);
}

#[test]
fn line_has_expected_text() {
    let line = serialize_entry(&sample_entry());
    assert_eq!(
        line,
        "Qube-TEST01|-1|/tmp|/bin/sleep\t30|ubuntu24rootfs.tar||false|||1000"
    );
}

#[test]
fn full_line_has_expected_text() {
    let line = serialize_entry(&full_entry());
    assert_eq!(
        line,
        "Qube-full|4242|/home/user/work|/bin/sh\t-c\techo hi|alpine.tar|8080|true|/data:/mnt/data,/logs:/var/log/app|KEY=VALUE,MODE=fast|1739990000"
    );
}

#[test]
fn line_round_trips() {
    let e = full_entry();
    let line = serialize_entry(&e);
    let back = parse_line(&line).expect("line should parse");
    assert_entries_equal(&e, &back);
}

#[test]
fn parse_line_reads_literal_text() {
    let e = parse_line("web|12|/srv|nginx\t-g\tdaemon off;|nginx.tar|80:8080|false|/a:/b|X=1|99")
        .expect("should parse");
    assert_eq!(e.name, "web");
    assert_eq!(e.pid, 12);
    assert_eq!(e.dir, "/srv");
    assert_eq!(e.command, vec!["nginx", "-g", "daemon off;"]);
    assert_eq!(e.image, "nginx.tar");
    assert_eq!(e.ports, "80:8080");
    assert!(!e.isolated);
    assert_eq!(e.volumes.len(), 1);
    assert_eq!(e.volumes[0].host, "/a");
    assert_eq!(e.volumes[0].guest, "/b");
    assert_eq!(e.env_vars, vec!["X=1"]);
    assert_eq!(e.timestamp, 99);
}

#[test]
fn empty_list_fields_read_back_empty() {
    let e = parse_line("bare|-2|/|cmd|img||false|||5").expect("should parse");
    assert!(e.command == vec!["cmd".to_string()]);
    assert!(e.volumes.is_empty());
    assert!(e.env_vars.is_empty());
    assert_eq!(e.pid, -2);
    assert_eq!(e.timestamp, 5);
}

#[test]
fn malformed_lines_are_rejected() {
    assert!(parse_line("").is_none());
    assert!(parse_line("too|few|fields").is_none());
    assert!(parse_line("n|notanumber|/|c|i|p|false|||1").is_none());
    assert!(parse_line("n|1|/|c|i|p|maybe|||1").is_none());
    assert!(parse_line("n|1|/|c|i|p|false|badvolume||1").is_none());
    assert!(parse_line("n|1|/|c|i|p|false|||notatime").is_none());
}

#[test]
fn registry_round_trips_in_order() {
    let a = sample_entry();
    let b = full_entry();
    let text = serialize_registry(&vec![a, b]);
    let back = parse_registry(&text);
    assert_eq!(back.len(), 2);
    assert_entries_equal(&back[0], &sample_entry());
    assert_entries_equal(&back[1], &full_entry());
}

#[test]
fn append_then_list_round_trips() {
    let first = append_record("", &sample_entry());
    let both = append_record(&first, &full_entry());
    let back = parse_registry(&both);
    assert_eq!(back.len(), 2);
    assert_entries_equal(&back[0], &sample_entry());
    assert_entries_equal(&back[1], &full_entry());
}

#[test]
fn append_closes_unterminated_final_line() {
    let text = append_record("garbage without newline", &sample_entry());
    assert!(text.starts_with("garbage without newline\n"));
    let back = parse_registry(&text);
    assert_eq!(back.len(), 1);
    assert_entries_equal(&back[0], &sample_entry());
}

#[test]
fn extreme_field_values_round_trip() {
    let e = ContainerEntry {
        name: "x".to_string(),
        pid: i32::MIN,
        dir: "".to_string(),
        command: vec![],
        image: "".to_string(),
        ports: "".to_string(),
        isolated: true,
        volumes: vec![VolumeMount { host: "".to_string(), guest: "".to_string() }],
        env_vars: vec![],
        timestamp: u64::MAX,
    };
    let line = serialize_entry(&e);
    assert_eq!(line, "x|-2147483648|||||true|:||18446744073709551615");
    let back = parse_line(&line).expect("should parse");
    assert_entries_equal(&e, &back);
}

#[test]
fn one_malformed_line_keeps_the_others() {
    let a = serialize_entry(&sample_entry());
    let b = serialize_entry(&full_entry());
    let text = format!("{}\nthis line is damaged\n{}\n", a, b);
    let back = parse_registry(&text);
    assert_eq!(back.len(), 2);
    assert_entries_equal(&back[0], &sample_entry());
    assert_entries_equal(&back[1], &full_entry());
}
