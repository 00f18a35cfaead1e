//! What the library promises as a whole, on concrete values.

use srvaudit::app::App;
use srvaudit::cli::{extension, file_name, replay_source, report_for, Cli, ReportFormat};
use srvaudit::events::{
    audit_from, audit_from_at, export_names, export_names_now, handle_key, no_data_message,
    on_collected, on_exported, on_tick, slug, summarise, Action, Key,
};
use srvaudit::findings::{analyze, is_sensitive_port, plural, port_name};
use srvaudit::float::Single;
use srvaudit::model::{
    Audit, Container, CronEntry, DirUsage, Exposure, Filesystem, Finding, Listener, PortMapping,
    ProbeOutcome, ProbeStatus, Service, Severity, SudoAvailability, UnitFile,
};
use srvaudit::order::natural_cmp;
use srvaudit::parse::{
    classify_exposure, format_bytes, human_to_bytes, is_env_assignment, merge_inodes, parse_containers, parse_cron, parse_df, parse_du,
    parse_host, parse_netstat_program, parse_port_mappings, parse_ss, parse_ss_users, parse_timers,
};
use srvaudit::probe::{
    assemble, assemble_at, build_script, classify, nonce, shell_list, specs, split_sections,
    CollectOptions, Sections,
};
use srvaudit::report::{blind_note, markdown, text, Flavor};
use srvaudit::rows::{empty_message, ViewRow};
use srvaudit::ssh::{
    control_dir, fits_socket, timeout_message, Run, Session, SshTarget, TargetError,
};
use srvaudit::tab::{Tab, Tone};
use srvaudit::ui::{
    detail_lines, footer, help, session_line, settle_selection, tab_label, table_title, tiles, Ink,
};

fn chars(s: &str) -> Vec<char> {
    s.chars().collect()
}

fn listener(proto: &str, addr: &str, port: &str, process: Option<&str>) -> Listener {
    Listener {
        proto: proto.into(),
        state: "LISTEN".into(),
        addr: addr.into(),
        port: port.into(),
        process: process.map(String::from),
        pid: None,
        users: String::new(),
        exposure: classify_exposure(addr),
    }
}

fn outcome(id: &str, status: ProbeStatus, note: &str) -> ProbeOutcome {
    ProbeOutcome {
        id: id.into(),
        label: format!("label of {id}"),
        command: format!("run {id}"),
        status,
        exit_code: 1,
        note: note.into(),
        raw: String::new(),
    }
}

fn filesystem(mount: &str, fstype: &str, pct: f32, inodes: f32) -> Filesystem {
    Filesystem {
        source: "/dev/sda1".into(),
        fstype: fstype.into(),
        size: "100G".into(),
        used: "91G".into(),
        avail: "9G".into(),
        use_pct: Some(Single { bits: pct.to_bits() }),
        inode_pct: Some(Single { bits: inodes.to_bits() }),
        mount: mount.into(),
    }
}

fn titles(a: &Audit) -> Vec<String> {
    analyze(a).into_iter().map(|f| f.title).collect()
}

// ------------------------------------------------------------- findings ----

#[test]
fn public_ports_change_nothing() {
    let mut a = Audit {
        listeners: vec![
            listener("tcp", "0.0.0.0", "6379", Some("redis-server")),
            listener("tcp", "0.0.0.0", "8081", Some("web")),
        ],
        ..Default::default()
    };
    let before: Vec<String> = analyze(&a)
        .into_iter()
        .map(|f| f.title + &f.detail)
        .collect();
    for port in ["22", "80", "443"] {
        a.listeners.push(listener("tcp", "0.0.0.0", port, Some("x")));
    }
    let after: Vec<String> = analyze(&a)
        .into_iter()
        .map(|f| f.title + &f.detail)
        .collect();
    assert_eq!(before, after);
}

#[test]
fn unknown_exposed_ports_share_one_finding() {
    let a = Audit {
        host: parse_host("SUDO=root\n"),
        listeners: vec![
            listener("tcp", "0.0.0.0", "7081", Some("web")),
            listener("tcp6", "[::]", "7081", Some("web")),
            listener("tcp", "*", "7001", None),
            listener("tcp", "10.0.0.7", "7002", Some("inside")),
        ],
        ..Default::default()
    };
    let f = analyze(&a);
    assert_eq!(f.len(), 1);
    assert_eq!(f[0].severity, Severity::Low);
    assert_eq!(f[0].title, "2 other ports open on every interface");
    assert_eq!(f[0].detail, "7001/tcp (unknown process), 7081/tcp (web)");
    assert_eq!(f[0].tab, "listeners");
}

#[test]
fn hidden_owners_are_a_hint_for_the_unprivileged() {
    let mut a = Audit {
        listeners: vec![listener("tcp", "127.0.0.1", "5432", None)],
        ..Default::default()
    };
    assert_eq!(titles(&a), vec!["Some listeners have no process name"]);
    a.host.sudo = SudoAvailability::Root;
    assert!(titles(&a).is_empty());
}

#[test]
fn disks_are_findings_at_eighty_and_ninety() {
    for (pct, expect) in [
        (79.9f32, None),
        (80.0, Some(Severity::Medium)),
        (89.9, Some(Severity::Medium)),
        (90.0, Some(Severity::High)),
    ] {
        let a = Audit {
            filesystems: vec![filesystem("/", "ext4", pct, 1.0)],
            ..Default::default()
        };
        assert_eq!(analyze(&a).first().map(|f| f.severity), expect, "{pct}");
    }
}

#[test]
fn pseudo_filesystems_are_no_findings() {
    let a = Audit {
        filesystems: vec![filesystem("/run", "tmpfs", 100.0, 100.0)],
        ..Default::default()
    };
    assert!(analyze(&a).is_empty());
}

#[test]
fn inodes_are_findings_of_their_own() {
    let a = Audit {
        filesystems: vec![filesystem("/", "ext4", 10.0, 85.0)],
        ..Default::default()
    };
    assert_eq!(titles(&a), vec!["/ has used 85% of its inodes"]);
}

#[test]
fn failed_units_are_named() {
    let service = |unit: &str, active: &str| Service {
        unit: unit.into(),
        load: "loaded".into(),
        active: active.into(),
        sub: "dead".into(),
        description: String::new(),
    };
    let a = Audit {
        services: vec![
            service("a.service", "failed"),
            service("b.service", "active"),
            service("c.service", "failed"),
        ],
        ..Default::default()
    };
    let f = analyze(&a);
    assert_eq!(f.len(), 1);
    assert_eq!(f[0].title, "2 services failed");
    assert_eq!(
        f[0].detail,
        "a.service, c.service. Check with `systemctl status <unit>`."
    );
}

#[test]
fn containers_that_restart_crash_or_publish_are_findings() {
    let a = Audit {
        containers: parse_containers(
            "1\timg\tloop\trestarting\tRestarting (1)\t\tnow\n\
             2\timg\tdead\texited\tExited (137) 1 hour ago\t\tnow\n\
             3\timg\tdone\texited\tExited (0) 1 hour ago\t\tnow\n\
             4\timg\tweb\trunning\tUp\t0.0.0.0:80->80/tcp\tnow\n",
            "docker",
        ),
        ..Default::default()
    };
    assert_eq!(
        titles(&a),
        vec![
            "1 container port published on 0.0.0.0",
            "Container loop is stuck restarting",
            "1 container exited non-zero",
        ]
    );
}

#[test]
fn boot_jobs_are_listed() {
    let job = |schedule: &str, command: &str| CronEntry {
        source: "crontab:root".into(),
        schedule: schedule.into(),
        user: "root".into(),
        command: command.into(),
    };
    let a = Audit {
        cron: vec![job("@reboot", "one"), job("@daily", "two"), job("@reboot", "three")],
        ..Default::default()
    };
    let f = analyze(&a);
    assert_eq!(f.len(), 1);
    assert_eq!(f[0].title, "2 jobs run at every boot");
    assert_eq!(f[0].detail, "one; three");
}

#[test]
fn memory_and_load_are_findings_past_their_limits() {
    let a = Audit {
        host: parse_host("MEMTOTAL=1000\nMEMUSED=900\nCPUS=2\nLOAD=4.01 1 1\n"),
        ..Default::default()
    };
    assert_eq!(
        titles(&a),
        vec!["Load average 4.01 on 2 CPUs", "Memory is 90% used"]
    );
    let a = Audit {
        host: parse_host("MEMTOTAL=1000\nMEMUSED=899\nCPUS=2\nLOAD=4.0 1 1\n"),
        ..Default::default()
    };
    assert!(analyze(&a).is_empty());
}

#[test]
fn gaps_are_reported() {
    let mut a = Audit {
        probes: vec![
            outcome("a", ProbeStatus::Denied, "no"),
            outcome("b", ProbeStatus::Partial, ""),
            outcome("c", ProbeStatus::Failed, "broken"),
        ],
        ..Default::default()
    };
    a.host.sudo = SudoAvailability::NeedsPassword;
    let f = analyze(&a);
    let t: Vec<&str> = f.iter().map(|f| f.title.as_str()).collect();
    assert_eq!(
        t,
        vec![
            "Probe failed: label of c",
            "1 probe could not read everything",
            "1 probe were denied",
            "sudo needs a password, so privileged probes were skipped",
        ]
    );
    assert_eq!(f[0].detail, "`run c` exited 1 — broken");
    assert!(f[2].detail.contains("unknown, not empty"));
}

#[test]
fn ports_have_names() {
    assert_eq!(port_name(6379), Some("Redis"));
    assert_eq!(port_name(22), Some("SSH"));
    assert_eq!(port_name(1), None);
    assert!(is_sensitive_port(5432));
    assert!(!is_sensitive_port(443));
    assert_eq!(plural(1), "");
    assert_eq!(plural(0), "s");
}

// -------------------------------------------------------------- parsing ----

#[test]
fn exposure_follows_the_address() {
    for addr in ["127.0.0.1", "127.0.0.53%lo", "[::1]", "::1"] {
        assert_eq!(classify_exposure(addr), Exposure::Loopback, "{addr}");
    }
    for addr in ["0.0.0.0", "*", "[::]", "::"] {
        assert_eq!(classify_exposure(addr), Exposure::AllInterfaces, "{addr}");
    }
    assert_eq!(classify_exposure("10.0.3.7%eth0"), Exposure::Interface);
}

#[test]
fn owners_are_read_and_never_made_up() {
    let (name, pid, users) =
        parse_ss_users("users:((\"nginx\",pid=901,fd=6),(\"nginx\",pid=900,fd=6))");
    assert_eq!(name.as_deref(), Some("nginx"));
    assert_eq!(pid, Some(901));
    assert_eq!(users, "users:((\"nginx\",pid=901,fd=6),(\"nginx\",pid=900,fd=6))");
    assert_eq!(parse_ss_users(""), (None, None, String::new()));
    assert_eq!(parse_netstat_program("801/sshd"), (Some("sshd".into()), Some(801)));
    assert_eq!(parse_netstat_program("-"), (None, None));
}

#[test]
fn rows_of_other_protocols_are_left_out() {
    let l = parse_ss("nl UNCONN 0 0 rtnl:kernel *\ntcp LISTEN 0 5 0.0.0.0:80 0.0.0.0:*\n");
    assert_eq!(l.len(), 1);
    assert_eq!(l[0].port, "80");
}

#[test]
fn port_mappings_are_read() {
    let p = parse_port_mappings("0.0.0.0:8080->80/tcp, 9090/udp");
    assert_eq!(p.len(), 2);
    assert_eq!(p[0].render(), "0.0.0.0:8080->80/tcp");
    assert_eq!(p[1].render(), "9090/udp");
    assert!(p[0].is_wide_open() && !p[1].is_wide_open());
    let v6 = PortMapping {
        host_ip: "[::]".into(),
        host_port: "1".into(),
        container_port: "1".into(),
        proto: "tcp".into(),
    };
    assert!(v6.is_wide_open());
}

#[test]
fn both_generations_of_timers_read_the_same() {
    let stamp = "Mon 2026-09-08 00:00:00 UTC";
    let old = parse_timers(&format!("{stamp} 7h left {stamp} 1h ago a.timer a.service\n"));
    let new = parse_timers(&format!("{stamp} 7h {stamp} 1h ago a.timer a.service\n"));
    assert_eq!(old[0].left, new[0].left);
    assert_eq!(old[0].left, "7h");
    assert_eq!(old[0].passed, new[0].passed);
    for rows in [old, new] {
        assert_eq!(rows.len(), 1);
        assert_eq!(rows[0].unit, "a.timer");
        assert_eq!(rows[0].activates, "a.service");
        assert_eq!(rows[0].next, stamp);
        assert_eq!(rows[0].last, stamp);
        assert_eq!(rows[0].passed, "1h ago");
    }
}

#[test]
fn whole_sizes_read_back() {
    let mut bytes: Vec<u64> = (0..1024).collect();
    for unit in 1..6u32 {
        for k in [1, 2, 9, 10, 99, 512, 1023u64] {
            bytes.push(k * 1024u64.pow(unit));
        }
    }
    for b in bytes {
        assert_eq!(human_to_bytes(&format_bytes(b)), Some(b), "{b}");
    }
    assert_eq!(format_bytes(3 * 1024), "3.0K");
    assert_eq!(format_bytes(1023 * 1024u64.pow(5)), "1023P");
    // A size between two whole ones is rounded.
    assert_eq!(human_to_bytes(&format_bytes(1025)), Some(1024));
}

#[test]
fn inodes_change_nothing_else() {
    let mut fs = parse_df(
        "Filesystem Type Size Used Avail Use% Mounted on\n\
         /dev/a ext4 1G 1M 1G 1% /\n/dev/b ext4 2G 2M 2G 2% /b\n",
    );
    merge_inodes(&mut fs, "Filesystem Inodes IUsed IFree IUse% Mounted on\n/dev/b 1 1 1 9% /b\n");
    assert_eq!(fs.len(), 2);
    assert_eq!(fs[0].inode_pct, None);
    assert_eq!(fs[1].inode_pct.map(|p| p.bits), Some(9.0f32.to_bits()));
    assert_eq!(fs[1].size, "2G");
    assert_eq!(fs[1].use_pct.map(|p| p.bits), Some(2.0f32.to_bits()));
}

#[test]
fn directories_of_equal_size_keep_their_order() {
    let d = parse_du("1K\t/a\n2K\t/b\n1K\t/c\n2K\t/d\nbad\t/e\n4K\t/nothing/*\n");
    let paths: Vec<&str> = d.iter().map(|d| d.path.as_str()).collect();
    assert_eq!(paths, vec!["/b", "/d", "/a", "/c", "/e"]);
    assert_eq!(d[4].bytes, 0);
}

#[test]
fn settings_comments_and_noise_are_no_jobs() {
    let c = parse_cron(
        "* * * * * before any source\n\
         ##SRC /etc/crontab\nPATH=/bin\n# note\n\n0 5 * * 1 root tar\n0 5 * * 1 root\nhello\n\
         ##SRC crontab:amy\n@daily tidy up\n\
         ##SRC dir:/etc/cron.weekly\nman-db\nls: cannot access x\n",
    );
    assert_eq!(c.len(), 3);
    assert_eq!((c[0].user.as_str(), c[0].command.as_str()), ("root", "tar"));
    assert_eq!((c[1].user.as_str(), c[1].schedule.as_str()), ("amy", "@daily"));
    assert_eq!(c[2].schedule, "@weekly");
    assert_eq!(c[2].command, "/etc/cron.weekly/man-db");
    assert!(is_env_assignment(&chars("A_1=x")));
    assert!(!is_env_assignment(&chars("1A=x")));
    assert!(!is_env_assignment(&chars("no")));
}

#[test]
fn containers_know_how_they_ended() {
    let mut c: Container = parse_containers("1\ti\tn\tRUNNING\tUp\t\tx\n", "podman").remove(0);
    assert!(c.is_running());
    assert_eq!(c.runtime, "podman");
    assert_eq!(c.exit_code(), None);
    c.status = "Exited ( -1 ) ago".into();
    assert_eq!(c.exit_code(), Some(-1));
}

// --------------------------------------------------------------- probes ----

#[test]
fn quoted_paths_survive_the_shell() {
    let list = shell_list(&vec!["/a b".to_string(), "it's".to_string()]);
    assert_eq!(list, r"'/a b' 'it'\''s'");
}

#[test]
fn sudo_is_only_ever_asked_without_a_prompt() {
    let opts = CollectOptions {
        sudo: true,
        ..Default::default()
    };
    let script = build_script(&opts, &specs(&opts), "n");
    for (i, _) in script.match_indices("sudo ") {
        let rest = &script[i..];
        assert!(
            rest.starts_with("sudo -n ") || rest.starts_with("sudo -n\"") || rest.starts_with("sudo >"),
            "{}",
            &rest[..20]
        );
    }
}

#[test]
fn sudo_stands_in_one_branch_of_the_script() {
    for sudo in [true, false] {
        let opts = CollectOptions {
            sudo,
            ..Default::default()
        };
        let script = build_script(&opts, &specs(&opts), &nonce(1, 2));
        let branch = format!(
            "elif [ {} = 1 ] && command -v sudo >/dev/null 2>&1 && sudo -n true >/dev/null 2>&1; then\n  SA_SUDO=\"sudo -n\"\n",
            if sudo { 1 } else { 0 }
        );
        let (before, after) = script.split_once(&branch).unwrap();
        assert!(!before.contains("sudo"));
        assert!(!after.contains("sudo"));
        assert!(!after.contains("SA_SUDO="));
        assert!(before.contains("SA_SUDO=\n"));
    }
}

#[test]
fn nonces_mix_time_and_process() {
    assert_eq!(nonce(0, 0), "0");
    assert_eq!(nonce(0xff, 0), "ff");
    assert_eq!(nonce(0, 1), "20000");
}

#[test]
fn a_whole_run_comes_back() {
    let mut out = String::from("motd without a line break");
    for (id, body, code) in [("df", "one\ntwo", 0), ("du", "", 1), ("cron", "\n\nx\n\n", -1)] {
        out.push_str(&format!("\n###n:B:{id}\n{body}\n###n:E:{id} {code}\n"));
    }
    let s = split_sections(&out, "n");
    assert_eq!(s.len(), 3);
    assert_eq!(*s.get("df").unwrap(), ("one\ntwo".to_string(), 0));
    assert_eq!(*s.get("du").unwrap(), (String::new(), 1));
    assert_eq!(*s.get("cron").unwrap(), ("x".to_string(), -1));
    assert!(s.get("host").is_none());
    assert!(!s.contains_key("host"));
    assert_eq!(split_sections(&out, "other").len(), 0);
}

#[test]
fn frames_without_a_line_between_them_come_back() {
    let out = "noise\n###n:B:df\none\n###n:E:df 0\n###n:B:du\ntwo\n###n:E:du 3\n";
    let s = split_sections(out, "n");
    assert_eq!(s.len(), 2);
    assert_eq!(*s.get("df").unwrap(), ("one".to_string(), 0));
    assert_eq!(*s.get("du").unwrap(), ("two".to_string(), 3));
}

#[test]
fn refusals_are_told_in_any_case() {
    let (status, note) = classify("\n  Permission DENIED here \nmore", 1, false);
    assert_eq!(status, ProbeStatus::Denied);
    assert_eq!(note, "Permission DENIED here");
    // An answer that is all refusal stays one where failing in part is routine.
    let (status, note) = classify("##SRC crontab:amy\nyou must be root\nAccess denied\n", 1, true);
    assert_eq!(status, ProbeStatus::Denied);
    assert_eq!(note, "you must be root");
    assert_eq!(classify("Command Not Found", 1, true).0, ProbeStatus::Unsupported);
    assert_eq!(classify("x", 3, true).1, "exited 3; some paths were unreadable, the rest is shown");
    assert_eq!(classify("##SKIPPED\n", 7, true).1, "skipped by --no-du");
}

#[test]
fn one_unreadable_cron_file_does_not_cost_the_others() {
    let raw = "##SRC /etc/crontab\n17 * * * * root run-parts /etc/cron.hourly\n\
               ##SRC /etc/cron.d/x\ncat: /etc/cron.d/x: Permission denied";
    assert_eq!(classify(raw, 1, true).0, ProbeStatus::Partial);
    assert_eq!(classify(raw, 1, false).0, ProbeStatus::Denied);
    assert_eq!(classify(raw, 127, true).0, ProbeStatus::Unsupported);
    let mut sections = Sections::new();
    sections.insert("cron".into(), (raw.into(), 1));
    let a = assemble("web-01", &specs(&CollectOptions::default()), &sections, 0);
    assert_eq!(a.cron.len(), 1);
    assert_eq!(a.cron[0].command, "run-parts /etc/cron.hourly");
}

#[test]
fn a_refusal_beside_an_empty_crontab_stays_one() {
    let raw = "##SRC crontab:amy\nno crontab for amy\n##SRC /etc/cron.d/x\ncat: x: Permission denied";
    let (status, note) = classify(raw, 1, true);
    assert_eq!(status, ProbeStatus::Denied);
    assert_eq!(note, "no crontab for amy");
    // Neither settings nor comments nor stray text are an answer.
    for line in ["# m h dom mon dow", "SHELL=/bin/sh", "hello there"] {
        let raw = format!("##SRC /etc/crontab\n{line}\ncat: x: Permission denied");
        assert_eq!(classify(&raw, 1, true).0, ProbeStatus::Denied, "{line}");
    }
    assert_eq!(classify("2 of 3: Permission denied", 1, true).0, ProbeStatus::Denied);
    // A script in a drop-in directory and a size are.
    for answer in ["##SRC dir:/etc/cron.daily\nlogrotate", "4.0K\t/var/lib/a", "12M /var/lib/b"] {
        let raw = format!("{answer}\ncannot read x: Permission denied");
        assert_eq!(classify(&raw, 1, true).0, ProbeStatus::Partial, "{answer}");
    }
    let mut sections = Sections::new();
    sections.insert("cron".into(), (raw.into(), 1));
    sections.insert("timers".into(), (String::new(), 0));
    let a = assemble("web-01", &specs(&CollectOptions::default()), &sections, 0);
    assert!(a.cron.is_empty());
    assert!(empty_message(&a, Tab::Schedules).starts_with("unknown, not empty:\n"));
}

#[test]
fn a_refusal_is_noted_without_the_tags_of_the_probe() {
    let mut sections = Sections::new();
    let raw = "##RUNTIME docker\npermission denied while trying to connect to the Docker daemon socket";
    sections.insert("containers".into(), (raw.into(), 1));
    let a = assemble("web-01", &specs(&CollectOptions::default()), &sections, 0);
    let p = a.probe("containers").unwrap();
    assert_eq!(p.status, ProbeStatus::Denied);
    assert!(a.containers.is_empty());
    assert!(p.note.contains("permission denied"));
    assert_eq!(
        empty_message(&a, Tab::Containers),
        "unknown, not empty:\ndocker ps -a — permission denied while trying to connect to the \
         Docker daemon socket"
    );
}

#[test]
fn lines_of_du_that_are_no_size_are_skipped() {
    let d = parse_du(
        "118G\t/var/lib/postgresql\n\
         du: cannot read directory '/var/lib/private': Permission denied\n4.0K /srv/with a space\n",
    );
    assert_eq!(d.len(), 2);
    assert_eq!(d[0].path, "/var/lib/postgresql");
    assert_eq!(d[0].human, "118G");
    assert_eq!(d[0].bytes, 118 * 1024 * 1024 * 1024);
    assert_eq!((d[1].path.as_str(), d[1].bytes), ("/srv/with a space", 4096));
}

#[test]
fn each_probe_fills_its_part() {
    let specs = specs(&CollectOptions::default());
    let mut sections = Sections::new();
    sections.insert("listeners".into(), ("tcp LISTEN 0 5 0.0.0.0:80 0.0.0.0:*".into(), 0));
    sections.insert("containers".into(), ("permission denied".into(), 1));
    let a = assemble_at("t", &specs, &sections, 7, "then".into());
    assert_eq!(a.collected_at, "then");
    assert_eq!(a.duration_ms, 7);
    assert_eq!(a.listeners.len(), 1);
    assert!(a.containers.is_empty());
    assert_eq!(a.probes.len(), specs.len());
    assert_eq!(a.probe("containers").unwrap().status, ProbeStatus::Denied);
    assert_eq!(a.probe("cron").unwrap().status, ProbeStatus::Failed);
    assert!(a.probe("nothing").is_none());
}

#[test]
fn an_audit_is_dated_now() {
    let specs = specs(&CollectOptions::default());
    let a = assemble("t", &specs, &Sections::new(), 0);
    let then = chrono::DateTime::parse_from_rfc3339(&a.collected_at).unwrap();
    let age = chrono::Utc::now().signed_duration_since(then).num_seconds();
    assert!((-5..60).contains(&age), "{age}");
}

#[test]
fn a_run_without_sections_is_an_error() {
    let specs = specs(&CollectOptions::default());
    let run = Run {
        stdout: "nothing".into(),
        stderr: " Connection refused \n".into(),
        code: Some(255),
    };
    let e = audit_from("web", &specs, "n", &run, 1).unwrap_err();
    assert_eq!(
        e,
        "no audit data came back from web (ssh exited 255)\nConnection refused"
    );
    assert_eq!(no_data_message("w", None, "  "), "no audit data came back from w");
}

#[test]
fn a_run_with_sections_is_an_audit() {
    let specs = specs(&CollectOptions::default());
    let run = Run {
        stdout: "\n###n:B:host\nHOSTNAME=h\n\n###n:E:host 0\n".into(),
        stderr: String::new(),
        code: Some(0),
    };
    let a = audit_from_at("web", &specs, "n", &run, 5, "now".into()).unwrap();
    assert_eq!(a.target, "web");
    assert_eq!(a.host.hostname, "h");
    assert_eq!(a.collected_at, "now");
    assert!(audit_from("web", &specs, "n", &run, 5).is_ok());
}

// ------------------------------------------------------------ dashboard ----

fn small_app() -> App {
    let finding = |title: &str, tab: &str| Finding {
        severity: Severity::Low,
        title: title.into(),
        detail: String::new(),
        tab: tab.into(),
    };
    let audit = Audit {
        listeners: vec![
            listener("tcp", "0.0.0.0", "80", Some("nginx")),
            listener("tcp", "127.0.0.1", "9", Some("Alpha")),
            listener("udp", "0.0.0.0", "53", Some("beta")),
        ],
        findings: vec![
            finding("zebra", "storage"),
            finding("apple", "listeners"),
            finding("mango", "overview"),
        ],
        ..Default::default()
    };
    App::new(audit, String::new(), true)
}

fn press(app: &mut App, key: Key) -> Action {
    handle_key(app, key, false, true)
}

#[test]
fn tabs_go_round() {
    let mut a = small_app();
    for _ in 0..8 {
        a.next_tab(1);
    }
    assert_eq!(a.current_tab(), Tab::Overview);
    a.next_tab(-1);
    assert_eq!(a.current_tab(), Tab::Probes);
    press(&mut a, Key::Tab);
    assert_eq!(a.current_tab(), Tab::Overview);
    press(&mut a, Key::Char('3'));
    assert_eq!(a.current_tab(), Tab::Containers);
    assert_eq!(tab_label(Tab::Containers), ("3 ".to_string(), "Containers"));
    assert!(a.is_sound());
    a.tab = 8;
    assert!(!a.is_sound());
}

#[test]
fn slugs_lead_back() {
    for t in Tab::ALL {
        assert_eq!(Tab::from_slug(t.slug()), Some(t));
        assert_eq!(Tab::at(t.index()), t);
    }
    assert_eq!(Tab::from_slug("nowhere"), None);
    assert_eq!(Tab::Services.probe_ids(), vec!["services", "unitfiles"]);
}

#[test]
fn enter_follows_the_row_that_is_shown() {
    let mut a = small_app();
    // Sorted by title, the first row is the finding about listeners.
    a.cycle_sort(3);
    a.cycle_sort(3);
    assert_eq!(a.table().rows[0].cells[1], "apple");
    press(&mut a, Key::Enter);
    assert_eq!(a.current_tab(), Tab::Ports);
    assert_eq!(a.status, "jumped to Ports");
}

#[test]
fn enter_opens_the_detail_of_other_rows() {
    let mut a = small_app();
    a.filter = "mango".into();
    press(&mut a, Key::Enter);
    assert!(a.detail_open);
    assert_eq!(a.current_tab(), Tab::Overview);
    press(&mut a, Key::Char('j'));
    assert_eq!(a.detail_scroll, 1);
    press(&mut a, Key::Esc);
    assert!(!a.detail_open && a.detail_scroll == 0 && !a.quit);
}

#[test]
fn overlays_swallow_keys() {
    let mut a = small_app();
    press(&mut a, Key::Char('?'));
    assert!(a.help_open);
    assert_eq!(press(&mut a, Key::Char('e')), Action::Nothing);
    assert!(!a.help_open && !a.quit);
    press(&mut a, Key::Char('/'));
    for c in "qr".chars() {
        assert_eq!(press(&mut a, Key::Char(c)), Action::Nothing);
    }
    assert_eq!(a.filter, "qr");
    press(&mut a, Key::Backspace);
    press(&mut a, Key::Enter);
    assert_eq!((a.filter.as_str(), a.filter_editing, a.quit), ("q", false, false));
    press(&mut a, Key::Esc);
    assert_eq!((a.filter.as_str(), a.quit), ("", false));
    press(&mut a, Key::Esc);
    assert!(a.quit);
}

#[test]
fn control_c_and_q_quit() {
    let mut a = small_app();
    handle_key(&mut a, Key::Char('c'), false, true);
    assert!(!a.quit);
    handle_key(&mut a, Key::Char('c'), true, true);
    assert!(a.quit);
    let mut a = small_app();
    press(&mut a, Key::Char('q'));
    assert!(a.quit);
}

#[test]
fn there_is_one_run_at_a_time() {
    let mut a = small_app();
    assert_eq!(press(&mut a, Key::Char('r')), Action::Refresh);
    assert!(a.busy);
    assert_eq!(press(&mut a, Key::Char('r')), Action::Nothing);
    on_collected(&mut a, Err("gone".into()));
    assert!(!a.busy);
    assert_eq!(a.status, "refresh failed: gone");
    assert_eq!(a.audit.findings.len(), 3);
    on_collected(&mut a, Ok(Audit::default()));
    assert_eq!(a.status, "refreshed — collected in 0.0s — 0 probes ok, 0 findings");
    assert!(a.audit.findings.is_empty());
    assert_eq!(handle_key(&mut a, Key::Char('r'), false, false), Action::Nothing);
    assert_eq!(a.status, "this audit was loaded from a file — nothing to refresh");
}

#[test]
fn exports_are_asked_for_and_told_of() {
    let mut a = small_app();
    assert_eq!(press(&mut a, Key::Char('e')), Action::Export);
    on_exported(&mut a, Ok(("x.json".into(), "x.md".into())));
    assert_eq!(a.status, "wrote x.json and x.md");
    on_exported(&mut a, Err("disk full".into()));
    assert_eq!(a.status, "export failed: disk full");
    assert_eq!(
        export_names("a@b", "now"),
        ("srvaudit-a-b-now.json".to_string(), "srvaudit-a-b-now.md".to_string())
    );
    assert_eq!(slug("-Ünïx/"), "n-x");
}

#[test]
fn export_names_carry_the_time() {
    let (json, md) = export_names_now("web");
    let stamp = json
        .strip_prefix("srvaudit-web-")
        .and_then(|s| s.strip_suffix(".json"))
        .unwrap();
    assert_eq!(md, format!("srvaudit-web-{stamp}.md"));
    assert!(chrono::NaiveDateTime::parse_from_str(stamp, "%Y%m%d-%H%M%S").is_ok());
    assert!(stamp.chars().all(|c| c.is_ascii_digit() || c == '-' || c == '+'));
}

#[test]
fn ticks_turn_the_spinner() {
    let mut a = small_app();
    on_tick(&mut a);
    assert_eq!(a.spinner, 1);
    a.spinner = usize::MAX;
    on_tick(&mut a);
    assert_eq!(a.spinner, 0);
}

#[test]
fn filters_ignore_case_and_read_detail() {
    let row = ViewRow::new(
        vec!["Nginx".to_string()],
        Tone::Normal,
        vec![("state", "LISTEN".to_string())],
    );
    assert!(row.matches("nginx"));
    assert!(row.matches("listen"));
    assert!(!row.matches("state"));
    let mut a = small_app();
    a.set_tab(Tab::Ports);
    a.filter = "ALPHA".into();
    assert_eq!(a.table().rows.len(), 1);
}

#[test]
fn sorting_is_natural_and_reversible() {
    let mut a = small_app();
    a.set_tab(Tab::Ports);
    for _ in 0..6 {
        a.cycle_sort(7);
    }
    let column = |a: &App| -> Vec<String> {
        a.table().rows.iter().map(|r| r.cells[5].clone()).collect()
    };
    assert_eq!(column(&a), vec!["Alpha", "beta", "nginx"]);
    a.toggle_sort_direction();
    assert_eq!(column(&a), vec!["nginx", "beta", "Alpha"]);
    assert_eq!(a.status, "sort: descending");
    a.toggle_sort_direction();
    assert_eq!(column(&a), vec!["Alpha", "beta", "nginx"]);
    a.cycle_sort(7);
    assert_eq!(a.status, "sort: column 7");
    a.cycle_sort(7);
    assert_eq!(a.status, "sort: natural order");
    assert_eq!(a.items()[0].index, 0);
}

#[test]
fn long_numbers_compare_by_value() {
    assert_eq!(natural_cmp("a10", "A9"), std::cmp::Ordering::Greater);
    assert_eq!(natural_cmp("007", "7"), std::cmp::Ordering::Equal);
    assert_eq!(natural_cmp("Disk-2b", "dISK-02B"), std::cmp::Ordering::Equal);
    assert_eq!(natural_cmp("", "a"), std::cmp::Ordering::Less);
    assert_eq!(natural_cmp("10", "a"), std::cmp::Ordering::Less);
}

#[test]
fn selections_settle_inside_the_rows() {
    let mut a = small_app();
    a.select_edge(true, 3);
    assert_eq!(a.selected(), 2);
    settle_selection(&mut a, 2);
    assert_eq!(a.selected(), 1);
    settle_selection(&mut a, 0);
    assert_eq!(a.state().selected(), None);
    a.select_edge(false, 3);
    assert_eq!(a.state().selected(), Some(0));
    a.move_selection(isize::MAX, 3);
    assert_eq!(a.selected(), 2);
    a.move_selection(isize::MIN, 3);
    assert_eq!(a.selected(), 0);
}

#[test]
fn steps_can_be_taken_back() {
    let mut a = small_app();
    a.set_tab(Tab::Ports);
    press(&mut a, Key::Down);
    press(&mut a, Key::Down);
    assert_eq!(a.selected(), 2);
    press(&mut a, Key::Up);
    assert_eq!(a.selected(), 1);
    press(&mut a, Key::PageDown);
    assert_eq!(a.selected(), 2);
    press(&mut a, Key::Home);
    assert_eq!(a.selected(), 0);
    press(&mut a, Key::End);
    assert_eq!(a.selected(), 2);
    // Every tab keeps a selection of its own.
    press(&mut a, Key::Left);
    assert_eq!((a.current_tab(), a.selected()), (Tab::Overview, 0));
    assert_eq!(a.audit.listeners.len(), 3);
}

#[test]
fn data_means_the_probe_looked() {
    for s in [
        ProbeStatus::Complete,
        ProbeStatus::Partial,
        ProbeStatus::Empty,
        ProbeStatus::Unsupported,
        ProbeStatus::Denied,
        ProbeStatus::Failed,
        ProbeStatus::Skipped,
    ] {
        assert!(!s.has_data() || s.looked(), "{}", s.label());
    }
    assert!(ProbeStatus::Empty.looked() && !ProbeStatus::Empty.has_data());
    assert_eq!(ProbeStatus::Complete.label(), "ok");
}

#[test]
fn blindness_is_told() {
    let mut a = Audit::default();
    assert_eq!(empty_message(&a, Tab::Services), "nothing here");
    a.probes.push(outcome("services", ProbeStatus::Failed, ""));
    a.probes.push(outcome("unitfiles", ProbeStatus::Denied, "no way"));
    assert_eq!(
        empty_message(&a, Tab::Services),
        "unknown, not empty:\nrun services — failed\nrun unitfiles — no way"
    );
    assert_eq!(empty_message(&a, Tab::Ports), "nothing here");
}

// --------------------------------------------------------------- screen ----

#[test]
fn details_are_written_in_capitals() {
    let row = ViewRow::new(
        Vec::new(),
        Tone::Normal,
        vec![("größe", "a\nb".to_string()), ("blank", "  ".to_string())],
    );
    let lines: Vec<(String, Ink)> = detail_lines(&row).into_iter().map(|p| (p.text, p.ink)).collect();
    assert_eq!(
        lines,
        vec![
            ("GRÖSSE".to_string(), Ink::MutedBold),
            ("a".to_string(), Ink::Plain),
            ("b".to_string(), Ink::Plain),
            (String::new(), Ink::Plain),
        ]
    );
}

#[test]
fn tiles_count() {
    let mut audit = small_app().audit;
    audit.filesystems = vec![
        filesystem("/a", "ext4", 81.0, 1.0),
        filesystem("/b", "ext4", 81.0, 1.0),
        filesystem("/run", "tmpfs", 99.0, 1.0),
    ];
    let t = tiles(&audit);
    assert_eq!(t.len(), 6);
    assert_eq!((t[0].value.as_str(), t[0].note.as_str()), ("3", "0 high · 0 med"));
    assert_eq!((t[1].value.as_str(), t[1].note.as_str()), ("3", "2 on all ifaces"));
    assert_eq!((t[4].value.as_str(), t[4].note.as_str()), ("81%", "/b"));
    assert_eq!(t[4].ink, Ink::Warn);
    assert_eq!(t[2].value, "0/0");
}

#[test]
fn the_session_line_names_the_login_once() {
    let mut a = small_app();
    a.audit.target = "me@you@host".into();
    a.audit.host.user = "me".into();
    a.audit.host.load = "1 2 3".into();
    a.source = "replayed from x.json".into();
    let line: String = session_line(&a).into_iter().map(|p| p.text).collect();
    assert_eq!(line, "me@host  unprivileged  load 1 2 3  · replayed from x.json");
}

#[test]
fn the_footer_greys_out_what_cannot_be_done() {
    let mut a = small_app();
    let ink = |a: &App| footer(a).into_iter().find(|p| p.text == " r").unwrap().ink;
    assert_eq!(ink(&a), Ink::AccentBold);
    a.live = false;
    assert_eq!(ink(&a), Ink::Muted);
    assert_eq!(table_title(&a, 3), " Overview (3) ");
    assert_eq!(help().len(), 13);
    assert_eq!(help()[2].key, "pgup / pgdn       ");
}

// --------------------------------------------------------------- report ----

#[test]
fn unseen_sections_say_so() {
    let a = Audit {
        probes: vec![outcome("df", ProbeStatus::Unsupported, "df: not found")],
        ..Default::default()
    };
    assert_eq!(
        blind_note(&a, "df"),
        Some("not collected (n/a): df: not found".to_string())
    );
    assert_eq!(blind_note(&a, "du"), None);
    assert!(text(&a).contains("Filesystems\n-----------\n  * not collected (n/a)"));
    assert!(markdown(&a).contains("\n## Filesystems\n- not collected (n/a)"));
    assert_eq!(Flavor::Markdown.code("x"), "`x`");
    assert_eq!(Flavor::Text.code("x"), "x");
}

#[test]
fn enabled_units_that_never_started_are_marked() {
    let a = Audit {
        unit_files: vec![UnitFile {
            unit: "late.service".into(),
            state: "enabled".into(),
            preset: "enabled".into(),
        }],
        dir_usage: vec![DirUsage {
            path: "/var".into(),
            human: "4.0K".into(),
            bytes: 4096,
        }],
        ..Default::default()
    };
    let t = text(&a);
    assert!(t.contains("late.service"));
    assert!(t.contains("  *    4.0K  /var\n"));
}

// ----------------------------------------------------------- connection ----

#[test]
fn targets_read_back() {
    for typed in [
        "web",
        "deploy@web",
        "web:22",
        "a@b@web:65535",
        "@web",
        "2001:db8::1",
        "[2001:db8::1]:22",
        "me@[::1]:2222",
        "me@ web:22",
    ] {
        assert_eq!(SshTarget::parse(typed).unwrap().label(), typed);
    }
    assert_eq!(SshTarget::parse(" web ").unwrap().destination, "web");
    // A port with a leading zero is read, and not given back as it was typed.
    assert_eq!(SshTarget::parse("web:022").unwrap().label(), "web:22");
    assert_eq!(SshTarget::parse("me@[::1]:22").unwrap().destination, "me@::1");
    // No port after all.
    assert_eq!(SshTarget::parse("web:x").unwrap().destination, "web:x");
    assert_eq!(SshTarget::parse("web:65536").unwrap().port, None);
}

#[test]
fn targets_that_name_no_host_are_errors() {
    assert!(matches!(SshTarget::parse(" \t"), Err(TargetError::Empty)));
    match SshTarget::parse("me@") {
        Err(TargetError::NoHost(s)) => assert_eq!(s, "me@"),
        other => panic!("{other:?}"),
    }
    assert!(matches!(SshTarget::parse("[]:22"), Err(TargetError::NoHost(_))));
}

#[test]
fn command_lines_of_a_session() {
    let target = SshTarget::parse("web:2222").unwrap();
    let s = Session::open(target.clone(), Some("/tmp/x/cm".into()));
    assert_eq!(
        s.run_args().join(" "),
        "-o ConnectTimeout=15 -o ControlMaster=auto -o ControlPath=/tmp/x/cm -o ControlPersist=120 \
         -p 2222 -T web sh -s"
    );
    assert_eq!(
        s.close_args().unwrap().join(" "),
        "-o ConnectTimeout=15 -p 2222 -o ControlPath=/tmp/x/cm -O exit web"
    );
    assert!(Session::open(target, None).close_args().is_none());
}

#[test]
fn sockets_are_named_and_measured() {
    assert_eq!(control_dir(7, 255), ".srvaudit-7-ff");
    assert!(fits_socket(&"x".repeat(100)));
    assert!(!fits_socket(&"x".repeat(101)));
    assert!(!fits_socket(&"é".repeat(51)));
    assert!(timeout_message(120).starts_with("the audit did not finish within 120s. "));
}

fn bare() -> Cli {
    Cli {
        target: None,
        port: None,
        user: None,
        identity: None,
        jump: None,
        ssh_option: Vec::new(),
        sudo: false,
        du_path: Vec::new(),
        no_du: true,
        timeout: 120,
        du_timeout: 45,
        report: None,
        out: None,
        from_json: None,
    }
}

#[test]
fn reports_are_chosen_by_extension() {
    let asked = |out: &str| {
        Cli {
            out: Some(out.into()),
            ..bare()
        }
        .effective_report()
    };
    assert_eq!(asked("x.JSON"), Some(ReportFormat::Json));
    assert_eq!(asked("a/b.markdown"), Some(ReportFormat::Markdown));
    assert_eq!(asked("x.txt"), Some(ReportFormat::Text));
    assert_eq!(asked("x"), None);
    assert_eq!(asked(".md"), None);
    assert_eq!(report_for("md"), ReportFormat::Markdown);
    assert!(matches!(bare().ssh_target(), Err(TargetError::Empty)));
    let named = Cli {
        target: Some("web:22".into()),
        report: Some(ReportFormat::Text),
        out: Some("x.json".into()),
        ..bare()
    };
    assert_eq!(named.effective_report(), Some(ReportFormat::Text));
    assert_eq!(named.ssh_target().unwrap().port, Some(22));
    assert!(bare().collect_options().skip_du);
}

#[test]
fn file_names_are_what_std_says() {
    for p in ["", "a", "a/b", "a/b/", "/", "a/..", "..", "a/.", ".", "a//b", ".x", "a.b.c", "x.", "./a"] {
        let path = std::path::Path::new(p);
        let name = path.file_name().map(|s| s.to_string_lossy().into_owned());
        let ext = path.extension().map(|s| s.to_string_lossy().into_owned());
        assert_eq!(file_name(p), name, "{p:?}");
        assert_eq!(extension(p), ext, "{p:?}");
    }
    assert_eq!(replay_source("/tmp/audit.json"), "replayed from audit.json");
    assert_eq!(replay_source(".."), "replayed from ..");
}

#[test]
fn summaries_round_to_tenths() {
    let mut a = Audit {
        duration_ms: 1250,
        ..Default::default()
    };
    assert!(summarise(&a).starts_with("collected in 1.2s"));
    a.duration_ms = 1350;
    assert!(summarise(&a).starts_with(&format!("collected in {:.1}s", 1350f64 / 1000.0)));
}
