//! The imaginary server `web-01`, described once, and everything that is read
//! from it, found on it and shown of it.

use std::cmp::Ordering;

use srvaudit::app::App;
use srvaudit::cli::{Cli, ReportFormat};
use srvaudit::events::{slug, summarise};
use srvaudit::findings::{analyze, pipes_remote_script_to_shell};
use srvaudit::float::Single;
use srvaudit::model::{
    Audit, Exposure, Finding, ProbeOutcome, ProbeStatus, Severity, SudoAvailability, SCHEMA_VERSION,
};
use srvaudit::order::natural_cmp;
use srvaudit::parse::{
    format_bytes, human_to_bytes, merge_inodes, parse_containers, parse_cron, parse_df, parse_du,
    parse_host, parse_listeners, parse_services, parse_ss, parse_timers, parse_unit_files,
};
use srvaudit::probe::{
    assemble, build_script, classify, specs, split_sections, CollectOptions, Sections,
};
use srvaudit::report::{markdown, text};
use srvaudit::rows::bar;
use srvaudit::ssh::SshTarget;
use srvaudit::tab::{Tab, Tone};
use srvaudit::ui::{footer, host_line, session_line, table_title, tiles, Piece};

// ------------------------------------------------------------ fixtures ----

const SS: &str = "\
Netid State  Recv-Q Send-Q      Local Address:Port  Peer Address:Port Process
udp   UNCONN 0      0                 0.0.0.0:68         0.0.0.0:*     users:((\"dhclient\",pid=652,fd=7))
udp   UNCONN 0      0               127.0.0.1:323        0.0.0.0:*     users:((\"chronyd\",pid=710,fd=5))
tcp   LISTEN 0      244             127.0.0.1:5432       0.0.0.0:*     users:((\"postgres\",pid=1104,fd=6))
tcp   LISTEN 0      511               0.0.0.0:80         0.0.0.0:*     users:((\"nginx\",pid=901,fd=6),(\"nginx\",pid=900,fd=6))
tcp   LISTEN 0      511               0.0.0.0:443        0.0.0.0:*     users:((\"nginx\",pid=901,fd=7),(\"nginx\",pid=900,fd=7))
tcp   LISTEN 0      511               0.0.0.0:6379       0.0.0.0:*     users:((\"redis-server\",pid=1201,fd=6))
tcp   LISTEN 0      4096              0.0.0.0:2375       0.0.0.0:*     users:((\"dockerd\",pid=988,fd=3))
tcp   LISTEN 0      4096        10.0.3.7%eth0:9100       0.0.0.0:*
tcp   LISTEN 0      128                  [::]:22            [::]:*     users:((\"sshd\",pid=801,fd=4))
";

const NETSTAT: &str = "\
Active Internet connections (only servers)
Proto Recv-Q Send-Q Local Address           Foreign Address         State       PID/Program name
tcp        0      0 0.0.0.0:22              0.0.0.0:*               LISTEN      801/sshd
tcp        0      0 127.0.0.1:3306          0.0.0.0:*               LISTEN      1201/mysqld
tcp6       0      0 :::443                  :::*                    LISTEN      901/nginx: master p
udp        0      0 0.0.0.0:68              0.0.0.0:*                           652/dhclient
";

const DOCKER: &str = "\
4f1c\tpostgres:16\tpg-main\trunning\tUp 3 weeks\t0.0.0.0:5432->5432/tcp, :::5432->5432/tcp\t3 weeks ago
a2b3\tredis:7\tcache\trunning\tUp 3 weeks\t127.0.0.1:6379->6379/tcp\t3 weeks ago
77de\tacme/api:2.1\tapi\tRestarting\tRestarting (1) 5 seconds ago\t8080/tcp\t2 days ago
c0de\tacme/migrate:2.1\tmigrate-once\texited\tExited (137) 3 hours ago\t\t3 hours ago
beef\tacme/web:2.1\tweb\trunning\tUp 2 days\t0.0.0.0:8081->80/tcp\t2 days ago
";

const SERVICES: &str = "\
cron.service                loaded active running Regular background program processing daemon
docker.service              loaded active running Docker Application Container Engine
nginx.service               loaded active running A high performance web server and a reverse proxy server
postgresql@16-main.service  loaded active running PostgreSQL Cluster 16-main
ssh.service                 loaded active running OpenBSD Secure Shell server
● unattended-upgrades.service loaded failed failed Unattended Upgrades Shutdown
";

const UNIT_FILES: &str = "\
cron.service           enabled enabled
getty@.service         enabled enabled
nginx.service          enabled enabled
node_exporter.service  enabled disabled
ssh.service            enabled enabled
";

const TIMERS: &str = "\
Mon 2026-09-08 00:00:00 UTC 7h left       Sun 2026-09-07 00:00:11 UTC 16h ago      logrotate.timer              logrotate.service
Mon 2026-09-08 06:12:00 UTC 13h left      Sun 2026-09-07 06:48:11 UTC 9h ago       apt-daily-upgrade.timer      apt-daily-upgrade.service
n/a                         n/a           Sat 2026-09-06 03:10:01 UTC 1 day ago    fstrim.timer                 fstrim.service
";

const TIMERS_257: &str = "\
Mon 2026-09-07 06:26:44 EDT 2h 10min Mon 2026-09-07 01:21:56 EDT 2h 54min ago apt-daily-upgrade.timer apt-daily-upgrade.service
Mon 2026-09-07 15:20:00 EDT      11h Mon 2026-09-07 03:01:00 EDT 1h 15min ago apt-daily.timer         apt-daily.service
Tue 2026-09-08 00:00:00 EDT      19h Mon 2026-09-07 00:00:04 EDT   4h 16min ago dpkg-db-backup.timer  dpkg-db-backup.service
Tue 2026-09-08 00:00:00 EDT      19h Mon 2026-09-07 00:00:04 EDT   4h 16min ago logrotate.timer       logrotate.service
Tue 2026-09-08 02:31:40 EDT      22h Mon 2026-09-07 02:31:40 EDT   1h 44min ago systemd-tmpfiles-clean.timer systemd-tmpfiles-clean.service
Tue 2026-09-08 09:56:40 EDT 1 day 5h Mon 2026-09-07 01:00:12 EDT 3h 16min ago man-db.timer            man-db.service
Sun 2026-09-13 03:10:29 EDT   5 days Sun 2026-09-06 03:10:08 EDT 1 day 1h ago e2scrub_all.timer       e2scrub_all.service
Mon 2026-09-14 00:31:05 EDT   6 days Mon 2026-09-07 01:18:51 EDT 2h 57min ago fstrim.timer            fstrim.service
";

const DF: &str = "\
Filesystem     Type      Size  Used Avail Use% Mounted on
udev           devtmpfs  3.9G     0  3.9G   0% /dev
tmpfs          tmpfs     785M  1.2M  784M   1% /run
/dev/sda1      ext4      100G   91G  4.2G  96% /
/dev/sdb1      xfs       500G  120G  380G  24% /srv/data disk
/dev/loop3     squashfs   64M   64M     0 100% /snap/core20/2318
/dev/sda15     vfat      105M  6.1M   99M   6% /boot/efi
";

const INODES: &str = "\
Filesystem      Inodes   IUsed   IFree IUse% Mounted on
udev            998123     512  997611    1% /dev
tmpfs          1004113     902 1003211    1% /run
/dev/sda1      6553600 6160384  393216   94% /
/dev/sdb1    262144000   90112 262053888    1% /srv/data disk
/dev/loop3       12345   12345       0  100% /snap/core20/2318
/dev/sda15           0       0       0     - /boot/efi
";

const DU: &str = "\
4.0K\t/var/lib/misc
41G\t/var/lib/docker
118G\t/var/lib/postgresql
220M\t/var/lib/apt
0\t/var/lib/private
12M\t/var/lib/dpkg
";

const CRON: &str = "\
##SRC crontab:deploy
MAILTO=\"\"
# health
*/5 * * * * /opt/acme/bin/health-check >/dev/null 2>&1
0 3 * * * curl -fsSL https://get.acme.io/update.sh | bash
@reboot /opt/acme/bin/warm-cache
##SRC /etc/crontab
SHELL=/bin/sh
17 * * * * root cd / && run-parts --report /etc/cron.hourly
##SRC /etc/cron.d/certbot
0 */12 * * * root test -x /usr/bin/certbot && certbot -q renew
##SRC dir:/etc/cron.daily
apt-compat
dpkg
logrotate
";

const HOST: &str = "\
HOSTNAME=web-01.fra.acme.internal
OS=Ubuntu 24.04.2 LTS
KERNEL=6.8.0-60-generic
ARCH=x86_64
UPTIME=up 3 weeks, 2 days, 4 hours
CPUS=4
LOAD=0.42 0.36 0.30
MEMTOTAL=7844
MEMUSED=5120
USER=deploy
VIRT=kvm
SUDO=passwordless
";

fn probe(id: &str, label: &str, command: &str, status: ProbeStatus) -> ProbeOutcome {
    ProbeOutcome {
        id: id.into(),
        label: label.into(),
        command: command.into(),
        status,
        exit_code: i32::from(status != ProbeStatus::Complete),
        note: match status {
            ProbeStatus::Denied => "permission denied".into(),
            _ => String::new(),
        },
        raw: match status {
            ProbeStatus::Complete => "raw output\nsecond line".into(),
            _ => String::new(),
        },
    }
}

/// `web-01`: a busy Ubuntu box with a full disk, an exposed Redis, an
/// unauthenticated Docker socket, a crash-looping container and a cron job that
/// curls a script into bash.
fn sample_audit() -> Audit {
    let mut a = Audit {
        schema: SCHEMA_VERSION,
        target: "web-01".into(),
        collected_at: "2026-09-07T10:00:00+02:00".into(),
        duration_ms: 2400,
        host: parse_host(HOST),
        listeners: parse_listeners(SS),
        containers: parse_containers(DOCKER, "docker"),
        services: parse_services(SERVICES),
        unit_files: parse_unit_files(UNIT_FILES),
        timers: parse_timers(TIMERS),
        filesystems: parse_df(DF),
        dir_usage: parse_du(DU),
        cron: parse_cron(CRON),
        probes: vec![probe(
            "containers",
            "Containers",
            "docker ps -a",
            ProbeStatus::Complete,
        )],
        findings: Vec::new(),
    };
    merge_inodes(&mut a.filesystems, INODES);
    a.findings = analyze(&a);
    a
}

fn single(x: f32) -> Single {
    Single { bits: x.to_bits() }
}

// -------------------------------------------------------------- parsing ----

#[test]
fn ss_output() {
    let l = parse_ss(SS);
    assert_eq!(l.len(), 9);

    let pg = l.iter().find(|x| x.port == "5432").unwrap();
    assert_eq!(pg.process.as_deref(), Some("postgres"));
    assert_eq!(pg.pid, Some(1104));
    assert_eq!(pg.exposure, Exposure::Loopback);

    let http = l.iter().find(|x| x.port == "80").unwrap();
    assert_eq!(http.exposure, Exposure::AllInterfaces);
    assert_eq!(http.process.as_deref(), Some("nginx"));

    let ssh = l.iter().find(|x| x.port == "22").unwrap();
    assert_eq!(ssh.addr, "[::]");
    assert_eq!(ssh.exposure, Exposure::AllInterfaces);

    // No `users:(...)` at all: process must be unknown, not fabricated.
    let node = l.iter().find(|x| x.port == "9100").unwrap();
    assert_eq!(node.process, None);
    assert_eq!(node.addr, "10.0.3.7%eth0");
    assert_eq!(node.exposure, Exposure::Interface);

    assert_eq!(l.iter().filter(|x| x.proto == "udp").count(), 2);
}

#[test]
fn netstat_fallback_including_stateless_udp_rows() {
    let l = parse_listeners(NETSTAT);
    assert_eq!(l.len(), 4);

    let mysql = l.iter().find(|x| x.port == "3306").unwrap();
    assert_eq!(mysql.process.as_deref(), Some("mysqld"));
    assert_eq!(mysql.pid, Some(1201));
    assert_eq!(mysql.exposure, Exposure::Loopback);

    let tls = l.iter().find(|x| x.port == "443").unwrap();
    assert_eq!(tls.addr, "::");
    assert_eq!(tls.process.as_deref(), Some("nginx"));

    let udp = l.iter().find(|x| x.proto == "udp").unwrap();
    assert_eq!(udp.state, "UNCONN");
    assert_eq!(udp.process.as_deref(), Some("dhclient"));
}

#[test]
fn docker_output() {
    let c = parse_containers(DOCKER, "docker");
    assert_eq!(c.len(), 5);

    let pg = c.iter().find(|x| x.name == "pg-main").unwrap();
    assert!(pg.is_running());
    assert_eq!(pg.ports.len(), 2);
    assert!(pg.ports[0].is_wide_open());

    let cache = c.iter().find(|x| x.name == "cache").unwrap();
    assert!(!cache.ports[0].is_wide_open());

    let api = c.iter().find(|x| x.name == "api").unwrap();
    assert_eq!(api.state, "restarting");
    assert_eq!(api.ports[0].host_port, "");
    assert_eq!(api.ports[0].container_port, "8080");

    let once = c.iter().find(|x| x.name == "migrate-once").unwrap();
    assert_eq!(once.exit_code(), Some(137));
    assert!(once.ports.is_empty());
}

#[test]
fn systemd_units() {
    let s = parse_services(SERVICES);
    assert_eq!(s.len(), 6);
    assert_eq!(s.iter().filter(|x| x.is_failed()).count(), 1);
    let nginx = s.iter().find(|x| x.unit == "nginx.service").unwrap();
    assert_eq!(
        nginx.description,
        "A high performance web server and a reverse proxy server"
    );

    let uf = parse_unit_files(UNIT_FILES);
    assert_eq!(uf.len(), 5);
    assert_eq!(uf[0].preset, "enabled");
}

#[test]
fn timers_old_systemd_format_with_the_word_left() {
    let t = parse_timers(TIMERS);
    assert_eq!(t.len(), 3);
    assert_eq!(t[0].unit, "logrotate.timer");
    assert_eq!(t[0].activates, "logrotate.service");
    assert_eq!(t[0].next, "Mon 2026-09-08 00:00:00 UTC");
    assert_eq!(t[0].left, "7h", "the word `left` is stripped");
    assert_eq!(t[0].last, "Sun 2026-09-07 00:00:11 UTC");
    assert_eq!(t[0].passed, "16h ago");

    // `n/a  n/a  Sat …  1 day ago`: no next run, only a last one.
    assert_eq!(t[2].unit, "fstrim.timer");
    assert_eq!(t[2].next, "-");
    assert_eq!(t[2].left, "");
    assert_eq!(t[2].last, "Sat 2026-09-06 03:10:01 UTC");
    assert_eq!(t[2].passed, "1 day ago");
}

/// The newer systemd prints `2h 10min` with no "left" anywhere.
#[test]
fn timers_modern_systemd_format_without_it() {
    let t = parse_timers(TIMERS_257);
    assert_eq!(t.len(), 8);

    let first = &t[0];
    assert_eq!(first.unit, "apt-daily-upgrade.timer");
    assert_eq!(first.activates, "apt-daily-upgrade.service");
    assert_eq!(first.next, "Mon 2026-09-07 06:26:44 EDT");
    assert_eq!(first.left, "2h 10min");
    assert_eq!(first.last, "Mon 2026-09-07 01:21:56 EDT");
    assert_eq!(first.passed, "2h 54min ago");

    // A single-token LEFT, and a two-token one, must both survive.
    let daily = t.iter().find(|x| x.unit == "apt-daily.timer").unwrap();
    assert_eq!(daily.left, "11h");
    let man = t.iter().find(|x| x.unit == "man-db.timer").unwrap();
    assert_eq!(man.left, "1 day 5h");
    assert_eq!(man.next, "Tue 2026-09-08 09:56:40 EDT");
}

#[test]
fn disk_usage() {
    let mut fs = parse_df(DF);
    assert_eq!(fs.len(), 6);
    merge_inodes(&mut fs, INODES);

    let root = fs.iter().find(|f| f.mount == "/").unwrap();
    assert_eq!(root.use_pct, Some(single(96.0)));
    assert_eq!(root.inode_pct, Some(single(94.0)));
    assert!(!root.is_pseudo());

    assert!(fs.iter().find(|f| f.fstype == "tmpfs").unwrap().is_pseudo());
    assert!(
        fs.iter()
            .find(|f| f.source == "/dev/loop3")
            .unwrap()
            .is_pseudo()
    );
}

#[test]
fn df_without_a_type_column() {
    let raw = "Filesystem      Size  Used Avail Use% Mounted on\n\
               /dev/sda1       100G   91G  4.2G  96% /\n";
    let fs = parse_df(raw);
    assert_eq!(fs.len(), 1);
    assert_eq!(fs[0].fstype, "-");
    assert_eq!(fs[0].size, "100G");
    assert_eq!(fs[0].use_pct, Some(single(96.0)));
    assert_eq!(fs[0].mount, "/");
}

#[test]
fn du_sorts_biggest_first() {
    let d = parse_du(DU);
    assert_eq!(d.len(), 6);
    assert_eq!(d[0].path, "/var/lib/postgresql");
    assert_eq!(d[1].path, "/var/lib/docker");
    assert_eq!(d[0].bytes, 118 * 1024 * 1024 * 1024);
    assert_eq!(d.last().unwrap().bytes, 0);
}

#[test]
fn byte_helpers_round_trip() {
    assert_eq!(human_to_bytes("4.0K"), Some(4096));
    assert_eq!(human_to_bytes("0"), Some(0));
    assert_eq!(human_to_bytes("1.5M"), Some(1_572_864));
    assert_eq!(human_to_bytes("nope"), None);
    assert_eq!(format_bytes(0), "0B");
    assert_eq!(format_bytes(4096), "4.0K");
    assert_eq!(format_bytes(12 * 1024 * 1024 * 1024), "12G");
}

#[test]
fn cron_from_every_source() {
    let c = parse_cron(CRON);

    let health = c
        .iter()
        .find(|e| e.command.contains("health-check"))
        .unwrap();
    assert_eq!(health.schedule, "*/5 * * * *");
    assert_eq!(health.user, "deploy");
    assert_eq!(health.source, "crontab:deploy");

    let reboot = c.iter().find(|e| e.schedule == "@reboot").unwrap();
    assert_eq!(reboot.command, "/opt/acme/bin/warm-cache");
    assert_eq!(reboot.user, "deploy");

    let hourly = c
        .iter()
        .find(|e| e.command.contains("cron.hourly"))
        .unwrap();
    assert_eq!(hourly.user, "root");
    assert_eq!(hourly.schedule, "17 * * * *");

    let certbot = c.iter().find(|e| e.command.contains("certbot")).unwrap();
    assert_eq!(certbot.user, "root");
    assert_eq!(certbot.source, "/etc/cron.d/certbot");

    // run-parts drop-ins become one entry per script.
    let daily: Vec<_> = c.iter().filter(|e| e.source == "/etc/cron.daily").collect();
    assert_eq!(daily.len(), 3);
    assert_eq!(daily[0].schedule, "@daily");
    assert_eq!(daily[0].command, "/etc/cron.daily/apt-compat");

    // `MAILTO=""` and `SHELL=/bin/sh` are settings, not jobs.
    assert!(!c.iter().any(|e| e.command.contains("MAILTO")));
    assert!(!c.iter().any(|e| e.schedule.starts_with("SHELL")));
}

#[test]
fn cron_ignores_error_text() {
    let noise = "##SRC crontab:deploy\nno crontab for deploy\nsudo: a password is required\n";
    assert!(parse_cron(noise).is_empty());
}

#[test]
fn host_facts() {
    let h = parse_host(HOST);
    assert_eq!(h.hostname, "web-01.fra.acme.internal");
    assert_eq!(h.os, "Ubuntu 24.04.2 LTS");
    assert_eq!(h.uptime, "3 weeks, 2 days, 4 hours");
    assert_eq!(h.mem_total_mb, Some(7844));
    assert_eq!(h.sudo, SudoAvailability::Passwordless);
    assert!(h.sudo.is_privileged());
}

// --------------------------------------------------------------- probes ----

fn wrap(nonce: &str, id: &str, body: &str, code: i32) -> String {
    format!("###{nonce}:B:{id}\n{body}\n###{nonce}:E:{id} {code}\n")
}

#[test]
fn sections_round_trip() {
    let n = "abc123";
    let raw = format!(
        "noise before\n{}{}",
        wrap(n, "df", "Filesystem\n/dev/sda1", 0),
        wrap(n, "containers", "boom", 1)
    );
    let s = split_sections(&raw, n);
    assert_eq!(s.len(), 2);
    assert_eq!(s.get("df").unwrap().0, "Filesystem\n/dev/sda1");
    assert_eq!(s.get("df").unwrap().1, 0);
    assert_eq!(*s.get("containers").unwrap(), ("boom".to_string(), 1));
}

#[test]
fn a_probe_cannot_forge_a_section_boundary() {
    let n = "abc123";
    // The probe prints a marker with the wrong nonce; it stays payload.
    let raw = wrap(n, "df", "###deadbeef:E:df 0\nreal line", 0);
    let s = split_sections(&raw, n);
    assert_eq!(s.len(), 1);
    assert!(s.get("df").unwrap().0.contains("real line"));
}

#[test]
fn status_classification() {
    assert_eq!(classify("data", 0, false).0, ProbeStatus::Complete);
    assert_eq!(classify("   \n", 0, false).0, ProbeStatus::Empty);
    assert_eq!(
        classify("sh: 1: docker: not found", 127, false).0,
        ProbeStatus::Unsupported
    );
    assert_eq!(
        classify(
            "permission denied while trying to connect to the Docker daemon socket",
            1,
            false
        )
        .0,
        ProbeStatus::Denied
    );
    assert_eq!(
        classify(
            "Cannot connect to the Docker daemon at unix:///var/run/docker.sock.",
            1,
            false
        )
        .0,
        ProbeStatus::Unsupported
    );
    assert_eq!(classify("something odd", 3, false).0, ProbeStatus::Failed);
    assert_eq!(classify("##SKIPPED", 0, false).0, ProbeStatus::Skipped);
}

/// `du -shx /var/lib/*` sizes most directories and exits 1 because a handful are
/// root-only. What it sized is kept.
#[test]
fn a_partly_readable_du_keeps_its_data() {
    let raw = DU;
    let (status, note) = classify(raw, 1, true);
    assert_eq!(status, ProbeStatus::Partial);
    assert!(note.contains("unreadable"));

    let specs = specs(&CollectOptions::default());
    let mut sections = Sections::new();
    sections.insert("du".to_string(), (raw.to_string(), 1));
    let audit = assemble("web-01", &specs, &sections, 0);

    assert_eq!(audit.dir_usage.len(), 6, "parsed rows must survive exit 1");
    assert_eq!(audit.probe("du").unwrap().status, ProbeStatus::Partial);
    // ...and du must not be reported as a failure. (The other probes have
    // no section in this cut-down run, so they legitimately do.)
    assert!(
        !audit
            .findings
            .iter()
            .any(|f| f.title == "Probe failed: Directory sizes"),
        "{:?}",
        audit.findings
    );
    assert!(
        audit
            .findings
            .iter()
            .any(|f| f.title.contains("could not read everything"))
    );

    // With no output at all, exit 1 is still a plain failure.
    assert_eq!(classify("", 1, true).0, ProbeStatus::Failed);
}

#[test]
fn generated_script_covers_every_probe_and_quotes_paths() {
    let opts = CollectOptions {
        du_paths: vec!["/var/lib".into(), "/srv/it's here".into()],
        ..Default::default()
    };
    let specs = specs(&opts);
    let script = build_script(&opts, &specs, "n0nce");
    for s in &specs {
        assert!(script.contains(&format!("###n0nce:B:{}", s.id)), "{}", s.id);
        assert!(script.contains(&format!("###n0nce:E:{}", s.id)), "{}", s.id);
    }
    assert!(script.contains(r"'/srv/it'\''s here'"));
    assert!(script.contains("sudo -n true"));
}

#[test]
fn skipping_du_still_emits_the_probe() {
    let opts = CollectOptions {
        skip_du: true,
        ..Default::default()
    };
    let specs = specs(&opts);
    let du = specs.iter().find(|s| s.id == "du").unwrap();
    assert!(du.script.contains("##SKIPPED"));
}

#[test]
fn assemble_marks_missing_sections_without_losing_the_rest() {
    let specs = specs(&CollectOptions::default());
    let mut sections = Sections::new();
    sections.insert("df".to_string(), (DF.to_string(), 0));
    sections.insert("inodes".to_string(), (INODES.to_string(), 0));
    let audit = assemble("web-01", &specs, &sections, 1234);

    assert_eq!(audit.filesystems.len(), 6);
    assert_eq!(
        audit
            .filesystems
            .iter()
            .find(|f| f.mount == "/")
            .unwrap()
            .inode_pct,
        Some(single(94.0))
    );
    assert_eq!(audit.probe("df").unwrap().status, ProbeStatus::Complete);
    assert_eq!(audit.probe("cron").unwrap().status, ProbeStatus::Failed);
    assert_eq!(
        audit.probe("containers").unwrap().status,
        ProbeStatus::Failed
    );
}

// ------------------------------------------------------------- findings ----

fn titles(a: &Audit, s: Severity) -> Vec<&str> {
    a.findings
        .iter()
        .filter(|f| f.severity == s)
        .map(|f| f.title.as_str())
        .collect()
}

/// A service bound to both 0.0.0.0 and [::] is one service.
#[test]
fn one_service_on_both_ip_families_is_one_finding() {
    let mut a = Audit {
        listeners: parse_ss(
            "Netid State  Recv-Q Send-Q Local Address:Port Peer Address:Port Process\n\
             tcp   LISTEN 0      511          0.0.0.0:8080      0.0.0.0:*\n\
             tcp   LISTEN 0      511             [::]:8080         [::]:*\n",
        ),
        ..Default::default()
    };
    a.findings = analyze(&a);
    let hits: Vec<&Finding> = a
        .findings
        .iter()
        .filter(|f| f.title.contains("listening on every interface"))
        .collect();
    assert_eq!(hits.len(), 1, "{:?}", a.findings);
    assert!(hits[0].detail.contains("0.0.0.0:8080"));
    assert!(hits[0].detail.contains("[::]:8080"));
}

#[test]
fn flags_exposed_datastores_but_not_ssh_or_http() {
    let a = sample_audit();
    let high = titles(&a, Severity::High);
    assert!(high.iter().any(|t| t.starts_with("Redis")));
    assert!(high.iter().any(|t| t.starts_with("Docker API (no TLS")));
    // 80 and 443 are on 0.0.0.0 too, and that is the entire point of them.
    assert!(!a.findings.iter().any(|f| f.title.contains("80/tcp")));
    // Postgres is on 127.0.0.1 here, so it must not be flagged.
    assert!(!high.iter().any(|t| t.starts_with("PostgreSQL")));
}

#[test]
fn findings_are_sorted_most_severe_first() {
    let a = sample_audit();
    let mut sorted = a.findings.clone();
    sorted.sort_by_key(|f| f.severity);
    let order: Vec<_> = a.findings.iter().map(|f| f.severity).collect();
    let expect: Vec<_> = sorted.iter().map(|f| f.severity).collect();
    assert_eq!(order, expect);
    assert_eq!(a.findings.first().map(|f| f.severity), Some(Severity::High));
}

#[test]
fn full_disk_and_exhausted_inodes_both_surface() {
    let a = sample_audit();
    let high = titles(&a, Severity::High);
    assert!(high.iter().any(|t| t == &"/ is 96% full"));
    assert!(high.iter().any(|t| t.contains("94% of its inodes")));
    // The 100%-full squashfs loop mount is not a real problem.
    assert!(!a.findings.iter().any(|f| f.title.contains("/snap/")));
}

#[test]
fn curl_pipe_shell_cron_job_is_high() {
    let a = sample_audit();
    assert!(
        titles(&a, Severity::High)
            .iter()
            .any(|t| t.contains("pipes a downloaded script"))
    );
}

#[test]
fn shell_pipe_detection_is_specific() {
    assert!(pipes_remote_script_to_shell(
        "curl -sL https://x/y.sh | bash"
    ));
    assert!(pipes_remote_script_to_shell(
        "wget -qO- https://x | /bin/sh -s --"
    ));
    assert!(pipes_remote_script_to_shell("curl https://x | python3"));
    // Downloading is fine; piping into grep is fine.
    assert!(!pipes_remote_script_to_shell(
        "curl -s https://x/health | grep -q ok"
    ));
    assert!(!pipes_remote_script_to_shell(
        "/usr/local/bin/backup.sh | mail -s x root"
    ));
}

#[test]
fn container_and_service_health_is_reported() {
    let a = sample_audit();
    let med = titles(&a, Severity::Medium);
    assert!(med.iter().any(|t| t.contains("stuck restarting")));
    assert!(med.iter().any(|t| t.contains("service failed")));
    assert!(med.iter().any(|t| t.contains("published on 0.0.0.0")));
    assert!(
        titles(&a, Severity::Low)
            .iter()
            .any(|t| t.contains("exited non-zero"))
    );
}

#[test]
fn a_clean_host_produces_no_alarms() {
    let mut a = Audit {
        host: parse_host("SUDO=root\nCPUS=4\nLOAD=0.10 0.10 0.10\n"),
        listeners: parse_ss(
            "Netid State  Recv-Q Send-Q Local Address:Port Peer Address:Port Process\n\
             tcp   LISTEN 0      128          0.0.0.0:22        0.0.0.0:*  users:((\"sshd\",pid=1,fd=3))\n",
        ),
        filesystems: parse_df(
            "Filesystem Type Size Used Avail Use% Mounted on\n/dev/sda1 ext4 100G 10G 90G 10% /\n",
        ),
        ..Default::default()
    };
    a.findings = analyze(&a);
    assert!(a.findings.is_empty(), "unexpected: {:?}", a.findings);
}

// ------------------------------------------------------------ dashboard ----

fn app() -> App {
    App::new(sample_audit(), "ssh: web-01".into(), true)
}

#[test]
fn every_tab_builds_a_table() {
    let mut a = app();
    for (i, tab) in Tab::ALL.iter().enumerate() {
        a.tab = i;
        let t = a.table();
        assert_eq!(t.headers.len(), t.widths.len(), "{}", tab.title());
        for row in &t.rows {
            assert_eq!(row.cells.len(), t.headers.len(), "{}", tab.title());
        }
    }
}

#[test]
fn enabled_but_not_running_units_are_listed() {
    let mut a = app();
    a.set_tab(Tab::Services);
    let t = a.table();
    let node = t
        .rows
        .iter()
        .find(|r| r.cells[0] == "node_exporter.service")
        .expect("enabled unit missing from the services tab");
    assert_eq!(node.cells[1], "not active");
    assert_eq!(node.tone, Tone::Dim);

    let nginx = t
        .rows
        .iter()
        .find(|r| r.cells[0] == "nginx.service")
        .unwrap();
    assert_eq!(nginx.cells[3], "enabled");
}

#[test]
fn exposed_datastore_ports_are_toned_worse_than_web_ports() {
    let mut a = app();
    a.set_tab(Tab::Ports);
    let t = a.table();
    let redis = t.rows.iter().find(|r| r.cells[1] == "6379").unwrap();
    let http = t.rows.iter().find(|r| r.cells[1] == "80").unwrap();
    let pg = t.rows.iter().find(|r| r.cells[1] == "5432").unwrap();
    assert_eq!(redis.tone, Tone::Bad);
    assert_eq!(http.tone, Tone::Warn);
    assert_eq!(pg.tone, Tone::Dim, "loopback postgres is not exposed");
    assert_eq!(redis.cells[2], "Redis", "the port should be named");
    assert_eq!(http.cells[2], "HTTP");
}

#[test]
fn filtering_narrows_rows_and_searches_detail_too() {
    let mut a = app();
    a.set_tab(Tab::Ports);
    let all = a.table().rows.len();
    a.filter = "nginx".into();
    let filtered = a.table().rows.len();
    assert!(filtered > 0 && filtered < all);

    // "sshd" only appears in the socket-owners detail on some rows.
    a.filter = "chronyd".into();
    assert_eq!(a.table().rows.len(), 1);
}

#[test]
fn sorting_cycles_columns_and_reverses() {
    let mut a = app();
    a.set_tab(Tab::Dirs);
    a.cycle_sort(3); // by Size, ascending
    let asc: Vec<String> = a.table().rows.iter().map(|r| r.cells[0].clone()).collect();
    a.toggle_sort_direction();
    let desc: Vec<String> = a.table().rows.iter().map(|r| r.cells[0].clone()).collect();
    assert_eq!(asc.len(), desc.len());
    assert_eq!(asc.first(), desc.last());
    assert_ne!(asc.first(), desc.first());
}

#[test]
fn natural_order_beats_lexicographic() {
    assert_eq!(natural_cmp("9%", "80%"), Ordering::Less);
    assert_eq!(natural_cmp("web-2", "web-10"), Ordering::Less);
    assert_eq!(natural_cmp("alpha", "beta"), Ordering::Less);
    assert_eq!(natural_cmp("4.0K", "12G"), Ordering::Less);
    assert_eq!(
        natural_cmp("nginx.service", "nginx.service"),
        Ordering::Equal
    );
}

#[test]
fn an_empty_tab_says_whether_it_looked() {
    let mut audit = sample_audit();
    audit.containers.clear();
    audit.probes = vec![probe(
        "containers",
        "Containers",
        "docker ps -a",
        ProbeStatus::Denied,
    )];
    let mut a = App::new(audit, "x".into(), false);
    a.set_tab(Tab::Containers);
    let msg = a.table().empty;
    assert!(msg.contains("unknown, not empty"));
    assert!(msg.contains("permission denied"));

    // Ran fine and found nothing: that really is "nothing here".
    let mut audit = sample_audit();
    audit.containers.clear();
    audit.probes[0].status = ProbeStatus::Empty;
    let mut a = App::new(audit, "x".into(), false);
    a.set_tab(Tab::Containers);
    assert_eq!(a.table().empty, "nothing here");
}

#[test]
fn findings_can_point_at_the_tab_holding_their_evidence() {
    let a = app();
    for f in &a.audit.findings {
        assert!(
            Tab::from_slug(&f.tab).is_some(),
            "finding {:?} points at unknown tab {:?}",
            f.title,
            f.tab
        );
    }
}

#[test]
fn selection_stays_in_range() {
    let mut a = app();
    a.set_tab(Tab::Ports);
    a.move_selection(500, 9);
    assert_eq!(a.selected(), 8);
    a.move_selection(-500, 9);
    assert_eq!(a.selected(), 0);
    a.move_selection(1, 0);
    assert_eq!(a.state().selected(), None);
}

#[test]
fn bars_stay_inside_their_width() {
    assert_eq!(bar(single(0.0), 10).chars().count(), 0);
    assert_eq!(bar(single(1.0), 10).chars().count(), 10);
    assert!(bar(single(2.0), 10).chars().count() <= 10);
    assert!(bar(single(0.5), 10).chars().count() <= 10);
}

// --------------------------------------------------------------- screen ----

fn words(line: &[Piece]) -> String {
    line.iter().map(|p| p.text.as_str()).collect()
}

/// Everything that is said on the screen while no overlay is open.
fn screen(app: &App) -> String {
    let table = app.table();
    let mut s = words(&host_line(&app.audit));
    s.push_str(&words(&session_line(app)));
    if app.current_tab() == Tab::Overview {
        for t in tiles(&app.audit) {
            s.push_str(t.label);
            s.push_str(&t.value);
            s.push_str(&t.note);
        }
    }
    s.push_str(&table_title(app, table.rows.len()));
    if table.rows.is_empty() {
        s.push_str(&table.empty);
    }
    s.push_str(&words(&footer(app)));
    s
}

#[test]
fn overview_shows_the_host_and_the_tiles() {
    let app = App::new(sample_audit(), "ssh: web-01".into(), true);
    let screen = screen(&app);
    assert!(screen.contains("web-01.fra.acme.internal"));
    assert!(screen.contains("FINDINGS"));
    assert!(screen.contains("FULLEST DISK"));
    assert!(screen.contains("Ubuntu 24.04.2 LTS"));
}

#[test]
fn filter_state_is_visible_in_the_title_and_footer() {
    let mut app = App::new(sample_audit(), "x".into(), true);
    app.set_tab(Tab::Ports);
    app.filter = "nginx".into();
    assert!(screen(&app).contains("matching"));

    app.filter_editing = true;
    assert!(screen(&app).contains("enter to apply"));
}

#[test]
fn an_empty_filtered_table_explains_itself_instead_of_going_blank() {
    let mut app = App::new(sample_audit(), "x".into(), true);
    app.set_tab(Tab::Ports);
    app.filter = "zzzz-no-such-thing".into();
    assert!(screen(&app).contains("0 matching"));
}

#[test]
fn the_login_name_is_not_printed_twice() {
    let mut audit = sample_audit();
    audit.target = "nick@192.168.64.50".into();
    audit.host.user = "nick".into();
    let app = App::new(audit, String::new(), true);
    let screen = screen(&app);
    assert!(screen.contains("nick@192.168.64.50"));
    assert!(!screen.contains("nick@nick@"));
}

#[test]
fn busy_state_shows_the_spinner() {
    let mut app = App::new(sample_audit(), "x".into(), true);
    app.busy = true;
    assert!(screen(&app).contains("collecting"));
}

// --------------------------------------------------------------- report ----

fn denied_audit() -> Audit {
    let mut a = sample_audit();
    a.containers.clear();
    a.probes = vec![probe(
        "containers",
        "Containers",
        "docker ps -a",
        ProbeStatus::Denied,
    )];
    a.findings = analyze(&a);
    a
}

#[test]
fn markdown_covers_every_section() {
    let md = markdown(&denied_audit());
    for heading in [
        "# Server audit",
        "## Host",
        "## Findings",
        "## Listening sockets",
        "## Containers",
        "## Services",
        "## Filesystems",
        "## Cron",
        "## Probes",
    ] {
        assert!(md.contains(heading), "missing {heading}");
    }
    assert!(md.contains("web-01.fra.acme.internal"));
}

#[test]
fn a_denied_probe_reads_as_unknown_not_as_none() {
    let md = markdown(&denied_audit());
    let containers = md.split("## Containers").nth(1).unwrap();
    assert!(containers.contains("not collected (denied)"));
}

#[test]
fn text_flavour_has_underlines_and_no_markdown_code_ticks() {
    let t = text(&denied_audit());
    assert!(t.contains("-----"));
    assert!(!t.contains("`docker ps -a`"));
}

// --------------------------------------------------------- export and summary ----

#[test]
fn export_names_are_filesystem_safe() {
    assert_eq!(
        slug("deploy@web-01.acme.io:2222"),
        "deploy-web-01-acme-io-2222"
    );
    assert_eq!(slug("///"), "");
}

#[test]
fn summary_counts_every_probe_outcome() {
    let mut a = Audit {
        duration_ms: 2400,
        ..Default::default()
    };
    for (id, status) in [
        ("a", ProbeStatus::Complete),
        ("b", ProbeStatus::Complete),
        ("c", ProbeStatus::Denied),
        ("d", ProbeStatus::Unsupported),
    ] {
        a.probes.push(ProbeOutcome {
            id: id.into(),
            label: id.into(),
            command: id.into(),
            status,
            exit_code: 0,
            note: String::new(),
            raw: String::new(),
        });
    }
    let s = summarise(&a);
    assert!(s.contains("2.4s"));
    assert!(s.contains("2 probes ok"));
    assert!(s.contains("1 denied"));
    assert!(s.contains("1 unavailable"));
    assert!(!s.contains("failed"));
}

// ------------------------------------------------------------ connection ----

#[test]
fn target_forms() {
    let t = SshTarget::parse("web-01").unwrap();
    assert_eq!(t.destination, "web-01");
    assert_eq!(t.port, None);

    let t = SshTarget::parse("deploy@web-01.acme.io").unwrap();
    assert_eq!(t.destination, "deploy@web-01.acme.io");

    let t = SshTarget::parse("deploy@10.0.0.7:2222").unwrap();
    assert_eq!(t.destination, "deploy@10.0.0.7");
    assert_eq!(t.port, Some(2222));
    assert_eq!(t.label(), "deploy@10.0.0.7:2222");

    let t = SshTarget::parse("[2001:db8::1]:22").unwrap();
    assert_eq!(t.destination, "2001:db8::1");
    assert_eq!(t.port, Some(22));

    // A bare IPv6 literal has many colons and no port.
    let t = SshTarget::parse("2001:db8::1").unwrap();
    assert_eq!(t.destination, "2001:db8::1");
    assert_eq!(t.port, None);

    assert!(SshTarget::parse("   ").is_err());
}

#[test]
fn args_carry_every_option_through() {
    let t = SshTarget {
        destination: "web-01".into(),
        port: Some(2222),
        user: Some("audit".into()),
        identity: Some("/keys/id_ed25519".into()),
        jump: Some("bastion".into()),
        options: vec!["StrictHostKeyChecking=accept-new".into()],
        connect_timeout: 9,
    };
    let a = t.base_args(Some("/tmp/x/cm")).join(" ");
    assert!(a.contains("ConnectTimeout=9"));
    assert!(a.contains("ControlPath=/tmp/x/cm"));
    assert!(a.contains("-p 2222"));
    assert!(a.contains("-i /keys/id_ed25519"));
    assert!(a.contains("IdentitiesOnly=yes"));
    assert!(a.contains("-J bastion"));
    assert!(a.contains("-l audit"));
    assert!(a.contains("-o StrictHostKeyChecking=accept-new"));

    // Without a control path we must not emit multiplexing options.
    let plain = t.base_args(None).join(" ");
    assert!(!plain.contains("ControlMaster"));
}

/// `srvaudit h`, with nothing else on the command line.
fn command_line(target: &str) -> Cli {
    Cli {
        target: Some(target.into()),
        port: None,
        user: None,
        identity: None,
        jump: None,
        ssh_option: Vec::new(),
        sudo: false,
        du_path: vec!["/var/lib".into()],
        no_du: false,
        timeout: 120,
        du_timeout: 45,
        report: None,
        out: None,
        from_json: None,
    }
}

#[test]
fn target_and_flags_combine() {
    let c = Cli {
        port: Some(2222),
        identity: Some("/k/id".into()),
        ssh_option: vec!["StrictHostKeyChecking=accept-new".into()],
        sudo: true,
        ..command_line("deploy@web-01:2200")
    };
    let t = c.ssh_target().unwrap();
    assert_eq!(t.destination, "deploy@web-01");
    assert_eq!(t.port, Some(2222), "-p must win over the :port suffix");
    assert_eq!(t.options, vec!["StrictHostKeyChecking=accept-new"]);
    assert!(c.collect_options().sudo);
}

#[test]
fn du_paths_replace_the_default() {
    let c = command_line("h");
    assert_eq!(c.collect_options().du_paths, vec!["/var/lib"]);
    let c = Cli {
        du_path: vec!["/srv".into(), "/opt".into()],
        ..command_line("h")
    };
    assert_eq!(c.collect_options().du_paths, vec!["/srv", "/opt"]);
}

#[test]
fn report_format_can_come_from_the_output_extension() {
    let out = |name: &str| Cli {
        out: Some(name.into()),
        ..command_line("h")
    };
    assert_eq!(
        out("a.md").effective_report(),
        Some(ReportFormat::Markdown)
    );
    assert_eq!(out("a.json").effective_report(), Some(ReportFormat::Json));
    assert_eq!(
        Cli {
            report: Some(ReportFormat::Json),
            ..out("a.md")
        }
        .effective_report(),
        Some(ReportFormat::Json),
        "an explicit --report wins"
    );
    assert_eq!(command_line("h").effective_report(), None);
}
