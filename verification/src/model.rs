//! Data model for a single audit run.

use crate::float::Single;
use crate::fmt::{cat3, cat7};
use crate::number::{read_i32, read_u16, signed_of, unsigned_of};
use crate::reading::{alike, eq_ignoring_case};
use crate::text::{
    begins_with, chars_of, cut_first, eq, is_blank, split_once, trim, trimmed, viewed, views,
};
use vstd::prelude::*;

verus! {

/// One run of every probe, and what was made of it.
#[derive(Debug, Clone)]
pub struct Audit {
    /// Schema version, so a future release can refuse to misread an old file.
    pub schema: u32,
    pub target: String,
    pub collected_at: String,
    pub duration_ms: u64,
    pub host: HostInfo,
    pub listeners: Vec<Listener>,
    pub containers: Vec<Container>,
    pub services: Vec<Service>,
    pub unit_files: Vec<UnitFile>,
    pub timers: Vec<Timer>,
    pub filesystems: Vec<Filesystem>,
    pub dir_usage: Vec<DirUsage>,
    pub cron: Vec<CronEntry>,
    pub probes: Vec<ProbeOutcome>,
    pub findings: Vec<Finding>,
}

/// What a `Audit` holds.
#[verifier::ext_equal]
pub struct AuditView {
    pub schema: u32,
    pub target: Seq<char>,
    pub collected_at: Seq<char>,
    pub duration_ms: u64,
    pub host: HostInfoView,
    pub listeners: Seq<ListenerView>,
    pub containers: Seq<ContainerView>,
    pub services: Seq<ServiceView>,
    pub unit_files: Seq<UnitFileView>,
    pub timers: Seq<TimerView>,
    pub filesystems: Seq<FilesystemView>,
    pub dir_usage: Seq<DirUsageView>,
    pub cron: Seq<CronEntryView>,
    pub probes: Seq<ProbeOutcomeView>,
    pub findings: Seq<FindingView>,
}

impl View for Audit {
    type V = AuditView;

    open spec fn view(&self) -> AuditView {
        AuditView {
            schema: self.schema,
            target: self.target@,
            collected_at: self.collected_at@,
            duration_ms: self.duration_ms,
            host: self.host@,
            listeners: views(self.listeners@),
            containers: views(self.containers@),
            services: views(self.services@),
            unit_files: views(self.unit_files@),
            timers: views(self.timers@),
            filesystems: views(self.filesystems@),
            dir_usage: views(self.dir_usage@),
            cron: views(self.cron@),
            probes: views(self.probes@),
            findings: views(self.findings@),
        }
    }
}

/// The version of the schema that this release writes.
pub const SCHEMA_VERSION: u32 = 1;

/// The schema of a file that does not name one.
pub fn schema_version() -> (v: u32)
    ensures
        v == SCHEMA_VERSION,
{
    SCHEMA_VERSION
}

/// The first outcome with the given id.
pub open spec fn first_probe(s: Seq<ProbeOutcomeView>, id: Seq<char>) -> Option<ProbeOutcomeView>
    decreases s.len(),
{
    if s.len() == 0 {
        None
    } else if s[0].id == id {
        Some(s[0])
    } else {
        first_probe(s.skip(1), id)
    }
}

impl Audit {
    /// The outcome of one probe, the first where several share the id.
    pub fn probe(&self, id: &str) -> (r: Option<&ProbeOutcome>)
        ensures
            match r {
                Some(p) => first_probe(self@.probes, id@) == Some(p@),
                None => first_probe(self@.probes, id@) is None,
            },
    {
        let mut i: usize = 0;
        let ghost all = self@.probes;
        assert(all.skip(0) =~= all);
        while i < self.probes.len()
            invariant
                i <= self.probes.len(),
                all == views(self.probes@),
                first_probe(all, id@) == first_probe(all.skip(i as int), id@),
            decreases self.probes.len() - i,
        {
            assert(all.skip(i as int)[0] == self.probes@[i as int]@);
            if eq(self.probes[i].id.as_str(), id) {
                return Some(&self.probes[i]);
            }
            assert(all.skip(i as int).skip(1) =~= all.skip(i + 1));
            i += 1;
        }
        None
    }
}

impl Default for Audit {
    fn default() -> (r: Self)
        ensures
            r@.schema == 0,
            r@.target.len() == 0,
            r@.collected_at.len() == 0,
            r@.duration_ms == 0,
            r@.host == HostInfoView::empty(),
            r@.listeners.len() == 0,
            r@.containers.len() == 0,
            r@.services.len() == 0,
            r@.unit_files.len() == 0,
            r@.timers.len() == 0,
            r@.filesystems.len() == 0,
            r@.dir_usage.len() == 0,
            r@.cron.len() == 0,
            r@.probes.len() == 0,
            r@.findings.len() == 0,
    {
        Audit {
            schema: 0,
            target: String::new(),
            collected_at: String::new(),
            duration_ms: 0,
            host: HostInfo::default(),
            listeners: Vec::new(),
            containers: Vec::new(),
            services: Vec::new(),
            unit_files: Vec::new(),
            timers: Vec::new(),
            filesystems: Vec::new(),
            dir_usage: Vec::new(),
            cron: Vec::new(),
            probes: Vec::new(),
            findings: Vec::new(),
        }
    }
}

// ---------------------------------------------------------------- host ----

/// What the machine says about itself.
#[derive(Debug, Clone)]
pub struct HostInfo {
    pub hostname: String,
    pub os: String,
    pub kernel: String,
    pub arch: String,
    pub uptime: String,
    pub cpus: String,
    pub load: String,
    pub mem_total_mb: Option<u64>,
    pub mem_used_mb: Option<u64>,
    pub user: String,
    pub virt: String,
    pub sudo: SudoAvailability,
}

/// What a `HostInfo` holds.
#[verifier::ext_equal]
pub struct HostInfoView {
    pub hostname: Seq<char>,
    pub os: Seq<char>,
    pub kernel: Seq<char>,
    pub arch: Seq<char>,
    pub uptime: Seq<char>,
    pub cpus: Seq<char>,
    pub load: Seq<char>,
    pub mem_total_mb: Option<u64>,
    pub mem_used_mb: Option<u64>,
    pub user: Seq<char>,
    pub virt: Seq<char>,
    pub sudo: SudoAvailability,
}

impl View for HostInfo {
    type V = HostInfoView;

    open spec fn view(&self) -> HostInfoView {
        HostInfoView {
            hostname: self.hostname@,
            os: self.os@,
            kernel: self.kernel@,
            arch: self.arch@,
            uptime: self.uptime@,
            cpus: self.cpus@,
            load: self.load@,
            mem_total_mb: self.mem_total_mb,
            mem_used_mb: self.mem_used_mb,
            user: self.user@,
            virt: self.virt@,
            sudo: self.sudo,
        }
    }
}

impl HostInfoView {
    /// A host of which nothing is known.
    pub open spec fn empty() -> HostInfoView {
        HostInfoView {
            hostname: seq![],
            os: seq![],
            kernel: seq![],
            arch: seq![],
            uptime: seq![],
            cpus: seq![],
            load: seq![],
            mem_total_mb: None,
            mem_used_mb: None,
            user: seq![],
            virt: seq![],
            sudo: SudoAvailability::NotRequested,
        }
    }
}

impl Default for HostInfo {
    fn default() -> (r: Self)
        ensures
            r@ == HostInfoView::empty(),
    {
        let r = HostInfo {
            hostname: String::new(),
            os: String::new(),
            kernel: String::new(),
            arch: String::new(),
            uptime: String::new(),
            cpus: String::new(),
            load: String::new(),
            mem_total_mb: None,
            mem_used_mb: None,
            user: String::new(),
            virt: String::new(),
            sudo: SudoAvailability::NotRequested,
        };
        assert(r@ =~= HostInfoView::empty());
        r
    }
}

/// How far the audit could see.
#[derive(Debug, Clone, Copy, PartialEq, Eq, Structural)]
pub enum SudoAvailability {
    /// Already running as uid 0.
    Root,
    /// `sudo -n true` succeeded: privileged probes ran.
    Passwordless,
    /// sudo exists but wants a password, so privileged probes were skipped.
    NeedsPassword,
    /// `--sudo` was not requested.
    NotRequested,
}

impl Default for SudoAvailability {
    fn default() -> (r: Self)
        ensures
            r == SudoAvailability::NotRequested,
    {
        SudoAvailability::NotRequested
    }
}

impl SudoAvailability {
    pub open spec fn name(self) -> Seq<char> {
        match self {
            Self::Root => "root"@,
            Self::Passwordless => "sudo"@,
            Self::NeedsPassword => "sudo (password needed)"@,
            Self::NotRequested => "unprivileged"@,
        }
    }

    pub open spec fn privileged(self) -> bool {
        self is Root || self is Passwordless
    }

    pub fn label(self) -> (r: &'static str)
        ensures
            r@ == self.name(),
    {
        match self {
            Self::Root => "root",
            Self::Passwordless => "sudo",
            Self::NeedsPassword => "sudo (password needed)",
            Self::NotRequested => "unprivileged",
        }
    }

    /// Whether the audit saw the whole machine or only this user's slice.
    pub fn is_privileged(self) -> (yes: bool)
        ensures
            yes == self.privileged(),
    {
        matches!(self, Self::Root | Self::Passwordless)
    }
}

// ----------------------------------------------------------- listeners ----

/// A listening socket.
#[derive(Debug, Clone)]
pub struct Listener {
    pub proto: String,
    pub state: String,
    pub addr: String,
    pub port: String,
    pub process: Option<String>,
    pub pid: Option<u32>,
    /// Every `users:(("name",pid=N,fd=M))` entry, joined: sockets are often
    /// shared by a parent and its workers.
    pub users: String,
    pub exposure: Exposure,
}

/// What a `Listener` holds.
#[verifier::ext_equal]
pub struct ListenerView {
    pub proto: Seq<char>,
    pub state: Seq<char>,
    pub addr: Seq<char>,
    pub port: Seq<char>,
    pub process: Option<Seq<char>>,
    pub pid: Option<u32>,
    pub users: Seq<char>,
    pub exposure: Exposure,
}

impl View for Listener {
    type V = ListenerView;

    open spec fn view(&self) -> ListenerView {
        ListenerView {
            proto: self.proto@,
            state: self.state@,
            addr: self.addr@,
            port: self.port@,
            process: viewed(self.process),
            pid: self.pid,
            users: self.users@,
            exposure: self.exposure,
        }
    }
}

impl ListenerView {
    pub open spec fn endpoint(self) -> Seq<char> {
        self.addr + ":"@ + self.port
    }

    pub open spec fn port_num(self) -> Option<nat> {
        unsigned_of(self.port, u16::MAX as nat)
    }
}

impl Listener {
    pub fn endpoint(&self) -> (r: String)
        ensures
            r@ == self@.endpoint(),
    {
        cat3(self.addr.as_str(), ":", self.port.as_str())
    }

    /// The port as a number, where it is one.
    pub fn port_num(&self) -> (r: Option<u16>)
        ensures
            match r {
                Some(n) => self@.port_num() == Some(n as nat),
                None => self@.port_num() is None,
            },
    {
        let port = chars_of(self.port.as_str());
        read_u16(port.as_slice())
    }
}

/// Who can reach a socket.
#[derive(Debug, Clone, Copy, PartialEq, Eq, Structural)]
pub enum Exposure {
    /// 127.0.0.0/8 or ::1: only reachable from the machine itself.
    Loopback,
    /// Bound to one specific address.
    Interface,
    /// 0.0.0.0, ::, or *: reachable on every interface the box has.
    AllInterfaces,
}

impl Exposure {
    pub open spec fn name(self) -> Seq<char> {
        match self {
            Self::Loopback => "local"@,
            Self::Interface => "iface"@,
            Self::AllInterfaces => "ALL"@,
        }
    }

    pub fn label(self) -> (r: &'static str)
        ensures
            r@ == self.name(),
    {
        match self {
            Self::Loopback => "local",
            Self::Interface => "iface",
            Self::AllInterfaces => "ALL",
        }
    }
}

// ---------------------------------------------------------- containers ----

/// A container of any runtime, running or not.
#[derive(Debug, Clone)]
pub struct Container {
    pub runtime: String,
    pub id: String,
    pub name: String,
    pub image: String,
    pub state: String,
    pub status: String,
    pub created: String,
    pub ports: Vec<PortMapping>,
    pub ports_raw: String,
}

/// What a `Container` holds.
#[verifier::ext_equal]
pub struct ContainerView {
    pub runtime: Seq<char>,
    pub id: Seq<char>,
    pub name: Seq<char>,
    pub image: Seq<char>,
    pub state: Seq<char>,
    pub status: Seq<char>,
    pub created: Seq<char>,
    pub ports: Seq<PortMappingView>,
    pub ports_raw: Seq<char>,
}

impl View for Container {
    type V = ContainerView;

    open spec fn view(&self) -> ContainerView {
        ContainerView {
            runtime: self.runtime@,
            id: self.id@,
            name: self.name@,
            image: self.image@,
            state: self.state@,
            status: self.status@,
            created: self.created@,
            ports: views(self.ports@),
            ports_raw: self.ports_raw@,
        }
    }
}

impl ContainerView {
    pub open spec fn running(self) -> bool {
        alike(self.state, "running"@)
    }

    /// The number between the first `(` and the `)` that follows it.
    pub open spec fn exit_code(self) -> Option<int> {
        match cut_first(self.status, '(') {
            Some((_, rest)) => match cut_first(rest, ')') {
                Some((code, _)) => signed_of(trimmed(code), i32::MAX as nat),
                None => None,
            },
            None => None,
        }
    }
}

impl Container {
    pub fn is_running(&self) -> (yes: bool)
        ensures
            yes == self@.running(),
    {
        eq_ignoring_case(self.state.as_str(), "running")
    }

    /// Exit code parsed out of a `Exited (137) 3 hours ago` status string.
    pub fn exit_code(&self) -> (r: Option<i32>)
        ensures
            match r {
                Some(n) => self@.exit_code() == Some(n as int),
                None => self@.exit_code() is None,
            },
    {
        let status = chars_of(self.status.as_str());
        match split_once(status.as_slice(), '(') {
            Some((_, rest)) => match split_once(rest, ')') {
                Some((code, _)) => read_i32(trim(code)),
                None => None,
            },
            None => None,
        }
    }
}

/// A port of a container and where the host publishes it.
#[derive(Debug, Clone)]
pub struct PortMapping {
    pub host_ip: String,
    pub host_port: String,
    pub container_port: String,
    pub proto: String,
}

/// What a `PortMapping` holds.
#[verifier::ext_equal]
pub struct PortMappingView {
    pub host_ip: Seq<char>,
    pub host_port: Seq<char>,
    pub container_port: Seq<char>,
    pub proto: Seq<char>,
}

impl View for PortMapping {
    type V = PortMappingView;

    open spec fn view(&self) -> PortMappingView {
        PortMappingView {
            host_ip: self.host_ip@,
            host_port: self.host_port@,
            container_port: self.container_port@,
            proto: self.proto@,
        }
    }
}

impl PortMappingView {
    pub open spec fn wide_open(self) -> bool {
        ||| self.host_ip == "0.0.0.0"@
        ||| self.host_ip == "::"@
        ||| self.host_ip == "*"@
        ||| self.host_ip == "[::]"@
    }

    pub open spec fn rendered(self) -> Seq<char> {
        if self.host_port.len() == 0 {
            self.container_port + "/"@ + self.proto
        } else {
            self.host_ip + ":"@ + self.host_port + "->"@ + self.container_port + "/"@ + self.proto
        }
    }
}

impl PortMapping {
    /// Published on every interface, which on Docker also means it punched
    /// through the host firewall.
    pub fn is_wide_open(&self) -> (yes: bool)
        ensures
            yes == self@.wide_open(),
    {
        let ip = self.host_ip.as_str();
        eq(ip, "0.0.0.0") || eq(ip, "::") || eq(ip, "*") || eq(ip, "[::]")
    }

    pub fn render(&self) -> (r: String)
        ensures
            r@ == self@.rendered(),
    {
        if is_blank(&self.host_port) {
            cat3(self.container_port.as_str(), "/", self.proto.as_str())
        } else {
            cat7(
                self.host_ip.as_str(),
                ":",
                self.host_port.as_str(),
                "->",
                self.container_port.as_str(),
                "/",
                self.proto.as_str(),
            )
        }
    }
}

// ------------------------------------------------------------- systemd ----

/// A systemd service unit.
#[derive(Debug, Clone)]
pub struct Service {
    pub unit: String,
    pub load: String,
    pub active: String,
    pub sub: String,
    pub description: String,
}

/// What a `Service` holds.
#[verifier::ext_equal]
pub struct ServiceView {
    pub unit: Seq<char>,
    pub load: Seq<char>,
    pub active: Seq<char>,
    pub sub: Seq<char>,
    pub description: Seq<char>,
}

impl View for Service {
    type V = ServiceView;

    open spec fn view(&self) -> ServiceView {
        ServiceView {
            unit: self.unit@,
            load: self.load@,
            active: self.active@,
            sub: self.sub@,
            description: self.description@,
        }
    }
}

impl ServiceView {
    pub open spec fn failed(self) -> bool {
        self.active == "failed"@ || self.sub == "failed"@
    }
}

impl Service {
    pub fn is_failed(&self) -> (yes: bool)
        ensures
            yes == self@.failed(),
    {
        eq(self.active.as_str(), "failed") || eq(self.sub.as_str(), "failed")
    }
}

/// An installed unit file and whether it starts at boot.
#[derive(Debug, Clone)]
pub struct UnitFile {
    pub unit: String,
    pub state: String,
    pub preset: String,
}

/// What a `UnitFile` holds.
#[verifier::ext_equal]
pub struct UnitFileView {
    pub unit: Seq<char>,
    pub state: Seq<char>,
    pub preset: Seq<char>,
}

impl View for UnitFile {
    type V = UnitFileView;

    open spec fn view(&self) -> UnitFileView {
        UnitFileView {
            unit: self.unit@,
            state: self.state@,
            preset: self.preset@,
        }
    }
}

/// A systemd timer.
#[derive(Debug, Clone)]
pub struct Timer {
    pub unit: String,
    pub activates: String,
    /// Absolute next run, or `-` for a timer with none scheduled.
    pub next: String,
    /// Time until the next run: `2h 10min`.
    pub left: String,
    /// Absolute last run, or `-` if it has never fired.
    pub last: String,
    /// Time since the last run: `2h 54min ago`.
    pub passed: String,
}

/// What a `Timer` holds.
#[verifier::ext_equal]
pub struct TimerView {
    pub unit: Seq<char>,
    pub activates: Seq<char>,
    pub next: Seq<char>,
    pub left: Seq<char>,
    pub last: Seq<char>,
    pub passed: Seq<char>,
}

impl View for Timer {
    type V = TimerView;

    open spec fn view(&self) -> TimerView {
        TimerView {
            unit: self.unit@,
            activates: self.activates@,
            next: self.next@,
            left: self.left@,
            last: self.last@,
            passed: self.passed@,
        }
    }
}

// ------------------------------------------------------------- storage ----

/// A mounted filesystem.
#[derive(Debug, Clone)]
pub struct Filesystem {
    pub source: String,
    pub fstype: String,
    pub size: String,
    pub used: String,
    pub avail: String,
    pub use_pct: Option<Single>,
    pub inode_pct: Option<Single>,
    pub mount: String,
}

/// What a `Filesystem` holds.
#[verifier::ext_equal]
pub struct FilesystemView {
    pub source: Seq<char>,
    pub fstype: Seq<char>,
    pub size: Seq<char>,
    pub used: Seq<char>,
    pub avail: Seq<char>,
    pub use_pct: Option<Single>,
    pub inode_pct: Option<Single>,
    pub mount: Seq<char>,
}

impl View for Filesystem {
    type V = FilesystemView;

    open spec fn view(&self) -> FilesystemView {
        FilesystemView {
            source: self.source@,
            fstype: self.fstype@,
            size: self.size@,
            used: self.used@,
            avail: self.avail@,
            use_pct: self.use_pct,
            inode_pct: self.inode_pct,
            mount: self.mount@,
        }
    }
}

impl FilesystemView {
    pub open spec fn pseudo(self) -> bool {
        ||| self.fstype == "tmpfs"@
        ||| self.fstype == "devtmpfs"@
        ||| self.fstype == "squashfs"@
        ||| self.fstype == "overlay"@
        ||| self.fstype == "efivarfs"@
        ||| self.fstype == "ramfs"@
        ||| self.fstype == "iso9660"@
        ||| self.fstype == "autofs"@
        ||| self.fstype == "fuse.snapfuse"@
        ||| self.fstype == "devfs"@
        ||| "/dev/loop"@.is_prefix_of(self.source)
    }
}

impl Filesystem {
    /// Pseudo filesystems that say nothing about "will this box run out of
    /// disk", so findings ignore them.
    pub fn is_pseudo(&self) -> (yes: bool)
        ensures
            yes == self@.pseudo(),
    {
        let t = self.fstype.as_str();
        let source = chars_of(self.source.as_str());
        eq(t, "tmpfs")
            || eq(t, "devtmpfs")
            || eq(t, "squashfs")
            || eq(t, "overlay")
            || eq(t, "efivarfs")
            || eq(t, "ramfs")
            || eq(t, "iso9660")
            || eq(t, "autofs")
            || eq(t, "fuse.snapfuse")
            || eq(t, "devfs")
            || begins_with(source.as_slice(), "/dev/loop")
    }
}

/// How much a directory holds.
#[derive(Debug, Clone)]
pub struct DirUsage {
    pub path: String,
    pub human: String,
    pub bytes: u64,
}

/// What a `DirUsage` holds.
#[verifier::ext_equal]
pub struct DirUsageView {
    pub path: Seq<char>,
    pub human: Seq<char>,
    pub bytes: u64,
}

impl View for DirUsage {
    type V = DirUsageView;

    open spec fn view(&self) -> DirUsageView {
        DirUsageView {
            path: self.path@,
            human: self.human@,
            bytes: self.bytes,
        }
    }
}

// ---------------------------------------------------------- scheduling ----

/// One scheduled command.
#[derive(Debug, Clone)]
pub struct CronEntry {
    /// Where it came from: `crontab:root`, `/etc/cron.d/certbot`, ...
    pub source: String,
    pub schedule: String,
    pub user: String,
    pub command: String,
}

/// What a `CronEntry` holds.
#[verifier::ext_equal]
pub struct CronEntryView {
    pub source: Seq<char>,
    pub schedule: Seq<char>,
    pub user: Seq<char>,
    pub command: Seq<char>,
}

impl View for CronEntry {
    type V = CronEntryView;

    open spec fn view(&self) -> CronEntryView {
        CronEntryView {
            source: self.source@,
            schedule: self.schedule@,
            user: self.user@,
            command: self.command@,
        }
    }
}

// -------------------------------------------------------------- probes ----

/// What came of one probe.
#[derive(Debug, Clone)]
pub struct ProbeOutcome {
    pub id: String,
    pub label: String,
    pub command: String,
    pub status: ProbeStatus,
    pub exit_code: i32,
    pub note: String,
    pub raw: String,
}

/// What a `ProbeOutcome` holds.
#[verifier::ext_equal]
pub struct ProbeOutcomeView {
    pub id: Seq<char>,
    pub label: Seq<char>,
    pub command: Seq<char>,
    pub status: ProbeStatus,
    pub exit_code: i32,
    pub note: Seq<char>,
    pub raw: Seq<char>,
}

impl View for ProbeOutcome {
    type V = ProbeOutcomeView;

    open spec fn view(&self) -> ProbeOutcomeView {
        ProbeOutcomeView {
            id: self.id@,
            label: self.label@,
            command: self.command@,
            status: self.status,
            exit_code: self.exit_code,
            note: self.note@,
            raw: self.raw@,
        }
    }
}

#[derive(Debug, Clone, Copy, PartialEq, Eq, Structural)]
pub enum ProbeStatus {
    /// Ran, returned data.
    Complete,
    /// Returned usable data but exited non-zero, almost always because of a few
    /// unreadable paths. The data is kept; the gap is reported.
    Partial,
    /// Ran, returned nothing: a genuine "there are none".
    Empty,
    /// The tool isn't installed on this host.
    Unsupported,
    /// The tool is there but refused us; the answer is "unknown", not "none".
    Denied,
    /// Non-zero exit for some other reason.
    Failed,
    /// We chose not to run it.
    Skipped,
}

impl ProbeStatus {
    pub open spec fn holds_data(self) -> bool {
        self is Complete || self is Partial
    }

    pub open spec fn was_seen(self) -> bool {
        self is Complete || self is Partial || self is Empty
    }

    pub open spec fn name(self) -> Seq<char> {
        match self {
            Self::Complete => "ok"@,
            Self::Partial => "partial"@,
            Self::Empty => "empty"@,
            Self::Unsupported => "n/a"@,
            Self::Denied => "denied"@,
            Self::Failed => "failed"@,
            Self::Skipped => "skipped"@,
        }
    }

    /// Whether the probe's output is worth parsing and displaying.
    pub fn has_data(self) -> (yes: bool)
        ensures
            yes == self.holds_data(),
    {
        matches!(self, Self::Complete | Self::Partial)
    }

    /// Whether an empty section means "none" rather than "we could not look".
    pub fn looked(self) -> (yes: bool)
        ensures
            yes == self.was_seen(),
    {
        matches!(self, Self::Complete | Self::Partial | Self::Empty)
    }

    pub fn label(self) -> (r: &'static str)
        ensures
            r@ == self.name(),
    {
        match self {
            Self::Complete => "ok",
            Self::Partial => "partial",
            Self::Empty => "empty",
            Self::Unsupported => "n/a",
            Self::Denied => "denied",
            Self::Failed => "failed",
            Self::Skipped => "skipped",
        }
    }
}

// ------------------------------------------------------------ findings ----

/// Something worth a look.
#[derive(Debug, Clone)]
pub struct Finding {
    pub severity: Severity,
    pub title: String,
    pub detail: String,
    /// Which tab has the evidence, so the UI can offer to jump there.
    pub tab: String,
}

/// What a `Finding` holds.
#[verifier::ext_equal]
pub struct FindingView {
    pub severity: Severity,
    pub title: Seq<char>,
    pub detail: Seq<char>,
    pub tab: Seq<char>,
}

impl View for Finding {
    type V = FindingView;

    open spec fn view(&self) -> FindingView {
        FindingView {
            severity: self.severity,
            title: self.title@,
            detail: self.detail@,
            tab: self.tab@,
        }
    }
}

#[derive(Debug, Clone, Copy, PartialEq, Eq, Structural, PartialOrd, Ord)]
pub enum Severity {
    High,
    Medium,
    Low,
    Info,
}

impl Severity {
    pub open spec fn name(self) -> Seq<char> {
        match self {
            Self::High => "HIGH"@,
            Self::Medium => "MED"@,
            Self::Low => "LOW"@,
            Self::Info => "INFO"@,
        }
    }

    /// The place in the order of severities, the worst first.
    pub open spec fn place(self) -> int {
        match self {
            Self::High => 0,
            Self::Medium => 1,
            Self::Low => 2,
            Self::Info => 3,
        }
    }

    pub fn index(self) -> (i: usize)
        ensures
            i == self.place(),
    {
        match self {
            Self::High => 0,
            Self::Medium => 1,
            Self::Low => 2,
            Self::Info => 3,
        }
    }

    pub fn label(self) -> (r: &'static str)
        ensures
            r@ == self.name(),
    {
        match self {
            Self::High => "HIGH",
            Self::Medium => "MED",
            Self::Low => "LOW",
            Self::Info => "INFO",
        }
    }
}

} // verus!
