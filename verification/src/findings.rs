//! Turns the collected facts into a short list of things worth looking at.
//!
//! The bar for a finding is "a competent admin would want to see this on the
//! first screen". Anything chattier gets aggregated into one line, because a
//! findings list nobody reads is worse than no findings list.

use crate::float::{Double, Format};
use crate::fmt::{cat10, cat2, cat3, cat4, cat5, cat6, cat8, dec, dec_int, decimal, decimal_int};
use crate::gather::{
    concat, concat_some, lemma_filter_map_all, lemma_filter_map_keeps, lemma_flat_map_all,
    lemma_flat_map_keeps, pick, some_of, spread,
};
use crate::model::{
    Audit, AuditView, Container, ContainerView, CronEntry, CronEntryView, Exposure, Filesystem,
    FilesystemView, Finding, FindingView, HostInfo, HostInfoView, Listener, ListenerView,
    PortMapping, PortMappingView, ProbeOutcome, ProbeOutcomeView, ProbeStatus, Service, ServiceView,
    Severity, SudoAvailability,
};
use crate::reading::{double_of, read_double};
use crate::sorting::{
    ascending, dedup, distinct, is_total_preorder, lemma_distinct_contains, lemma_placed_len,
    lemma_sorted_ascending, lemma_sorted_contains, lemma_sorted_same_elements,
    lemma_text_order_total, lemma_text_set_contains, placed, rank, sort, sort_dedup, sorted,
    text_at_most, text_set, Ranked, Same,
};
use crate::tab::{law_slugs_lead_back, Tab};
use crate::text::{
    ascii_lowered, chars_of, contains_text, cut_last, eq, holds_text, is_ascii_text, join, joined,
    lowercase, pieces, rsplit_once, spells, split, string_of, strip_back, to_lowercase, trim,
    trim_back, trimmed, viewed, views, words, words_of, Class,
};
use vstd::prelude::*;

verus! {

// --------------------------------------------------------------- ports ----

/// Ports where "listening on every interface" is usually a mistake.
pub open spec fn datastore_port(port: u16) -> Option<Seq<char>> {
    match port {
        21 => Some("FTP"@),
        23 => Some("Telnet"@),
        139 => Some("NetBIOS"@),
        445 => Some("SMB"@),
        1433 => Some("Microsoft SQL Server"@),
        2375 => Some("Docker API (no TLS, no auth)"@),
        2379 => Some("etcd client"@),
        2380 => Some("etcd peer"@),
        3306 => Some("MySQL/MariaDB"@),
        3389 => Some("RDP"@),
        5432 => Some("PostgreSQL"@),
        5672 => Some("RabbitMQ (AMQP)"@),
        5900 => Some("VNC"@),
        5984 => Some("CouchDB"@),
        6379 => Some("Redis"@),
        6443 => Some("Kubernetes API"@),
        8086 => Some("InfluxDB"@),
        9042 => Some("Cassandra"@),
        9092 => Some("Kafka"@),
        9200 => Some("Elasticsearch"@),
        9300 => Some("Elasticsearch transport"@),
        10250 => Some("kubelet"@),
        11211 => Some("Memcached"@),
        15672 => Some("RabbitMQ management UI"@),
        27017 => Some("MongoDB"@),
        27018 => Some("MongoDB shard"@),
        _ => None,
    }
}

fn datastore(port: u16) -> (r: Option<&'static str>)
    ensures
        viewed(r) == datastore_port(port),
{
    match port {
        21 => Some("FTP"),
        23 => Some("Telnet"),
        139 => Some("NetBIOS"),
        445 => Some("SMB"),
        1433 => Some("Microsoft SQL Server"),
        2375 => Some("Docker API (no TLS, no auth)"),
        2379 => Some("etcd client"),
        2380 => Some("etcd peer"),
        3306 => Some("MySQL/MariaDB"),
        3389 => Some("RDP"),
        5432 => Some("PostgreSQL"),
        5672 => Some("RabbitMQ (AMQP)"),
        5900 => Some("VNC"),
        5984 => Some("CouchDB"),
        6379 => Some("Redis"),
        6443 => Some("Kubernetes API"),
        8086 => Some("InfluxDB"),
        9042 => Some("Cassandra"),
        9092 => Some("Kafka"),
        9200 => Some("Elasticsearch"),
        9300 => Some("Elasticsearch transport"),
        10250 => Some("kubelet"),
        11211 => Some("Memcached"),
        15672 => Some("RabbitMQ management UI"),
        27017 => Some("MongoDB"),
        27018 => Some("MongoDB shard"),
        _ => None,
    }
}

/// Ports that are fine to expose inside a private network but rarely meant for
/// the public internet.
pub open spec fn internal_port(port: u16) -> Option<Seq<char>> {
    match port {
        2376 => Some("Docker API (TLS)"@),
        3000 => Some("Grafana / dev HTTP server"@),
        4444 => Some("Selenium / misc"@),
        5601 => Some("Kibana"@),
        8000 => Some("app server"@),
        8080 => Some("app server"@),
        8081 => Some("app server"@),
        8443 => Some("app server (TLS)"@),
        9000 => Some("app server / MinIO"@),
        9090 => Some("Prometheus"@),
        9100 => Some("node_exporter"@),
        _ => None,
    }
}

fn internal(port: u16) -> (r: Option<&'static str>)
    ensures
        viewed(r) == internal_port(port),
{
    match port {
        2376 => Some("Docker API (TLS)"),
        3000 => Some("Grafana / dev HTTP server"),
        4444 => Some("Selenium / misc"),
        5601 => Some("Kibana"),
        8000 => Some("app server"),
        8080 => Some("app server"),
        8081 => Some("app server"),
        8443 => Some("app server (TLS)"),
        9000 => Some("app server / MinIO"),
        9090 => Some("Prometheus"),
        9100 => Some("node_exporter"),
        _ => None,
    }
}

/// Ports whose whole point is to be reachable.
pub open spec fn expected_public(port: u16) -> bool {
    port == 22 || port == 80 || port == 443
}

/// A port where "open to the world" is a finding rather than a design choice.
pub fn is_sensitive_port(port: u16) -> (yes: bool)
    ensures
        yes == datastore_port(port) is Some,
{
    datastore(port).is_some()
}

/// Ports that most machines have.
pub open spec fn common_port(port: u16) -> Option<Seq<char>> {
    match port {
        22 => Some("SSH"@),
        80 => Some("HTTP"@),
        443 => Some("HTTPS"@),
        25 => Some("SMTP"@),
        53 => Some("DNS"@),
        123 => Some("NTP"@),
        _ => None,
    }
}

fn common(port: u16) -> (r: Option<&'static str>)
    ensures
        viewed(r) == common_port(port),
{
    match port {
        22 => Some("SSH"),
        80 => Some("HTTP"),
        443 => Some("HTTPS"),
        25 => Some("SMTP"),
        53 => Some("DNS"),
        123 => Some("NTP"),
        _ => None,
    }
}

/// The name of a well-known port.
pub open spec fn known_port(port: u16) -> Option<Seq<char>> {
    if datastore_port(port) is Some {
        datastore_port(port)
    } else if internal_port(port) is Some {
        internal_port(port)
    } else {
        common_port(port)
    }
}

/// Human name for a well-known port, for the detail pane.
pub fn port_name(port: u16) -> (r: Option<&'static str>)
    ensures
        viewed(r) == known_port(port),
{
    if let Some(name) = datastore(port) {
        Some(name)
    } else if let Some(name) = internal(port) {
        Some(name)
    } else {
        common(port)
    }
}

/// The letter that makes a noun agree with a number other than one.
pub open spec fn plural_of(n: int) -> Seq<char> {
    if n == 1 {
        ""@
    } else {
        "s"@
    }
}

pub fn plural(n: usize) -> (r: &'static str)
    ensures
        r@ == plural_of(n as int),
{
    if n == 1 {
        ""
    } else {
        "s"
    }
}

/// A finding as it is listed.
pub open spec fn listed(
    severity: Severity,
    tab: Seq<char>,
    title: Seq<char>,
    detail: Seq<char>,
) -> FindingView {
    FindingView { severity, title, detail, tab }
}

fn finding(severity: Severity, tab: &str, title: String, detail: String) -> (r: Finding)
    ensures
        r@ == listed(severity, tab@, title@, detail@),
{
    Finding { severity, title, detail, tab: tab.to_string() }
}

// ----------------------------------------------------------- listeners ----

/// What tells one exposed service from another.
pub struct OpenPort {
    pub port: u16,
    pub family: String,
    pub who: String,
}

/// What an `OpenPort` holds.
#[verifier::ext_equal]
pub struct OpenPortView {
    pub port: u16,
    pub family: Seq<char>,
    pub who: Seq<char>,
}

impl View for OpenPort {
    type V = OpenPortView;

    open spec fn view(&self) -> OpenPortView {
        OpenPortView { port: self.port, family: self.family@, who: self.who@ }
    }
}

impl Ranked for OpenPort {
    /// By port, then by protocol family, then by process.
    open spec fn at_most(a: OpenPortView, b: OpenPortView) -> bool {
        if a.port != b.port {
            a.port < b.port
        } else if a.family != b.family {
            text_at_most(a.family, b.family)
        } else {
            text_at_most(a.who, b.who)
        }
    }

    fn ranks_at_most(&self, other: &Self) -> (yes: bool) {
        if self.port != other.port {
            self.port < other.port
        } else if self.family != other.family {
            self.family.ranks_at_most(&other.family)
        } else {
            self.who.ranks_at_most(&other.who)
        }
    }
}

impl Same for OpenPort {
    fn is_same(&self, other: &Self) -> (yes: bool) {
        self.port == other.port && self.family == other.family && self.who == other.who
    }
}

/// The service behind a socket that is open on every interface.
pub open spec fn open_port_of(l: ListenerView) -> Option<OpenPortView> {
    if l.exposure is AllInterfaces {
        match l.port_num() {
            Some(port) => Some(
                OpenPortView {
                    port: port as u16,
                    family: strip_back(l.proto, Class::Only('6')),
                    who: match l.process {
                        Some(name) => name,
                        None => "unknown process"@,
                    },
                },
            ),
            None => None,
        }
    } else {
        None
    }
}

/// `open_port_of` as a function to hand over.
pub open spec fn open_port_rule() -> spec_fn(ListenerView) -> Option<OpenPortView> {
    |l: ListenerView| open_port_of(l)
}

fn open_port(l: &Listener) -> (r: Option<OpenPort>)
    ensures
        viewed(r) == open_port_of(l@),
{
    if l.exposure != Exposure::AllInterfaces {
        return None;
    }
    match l.port_num() {
        None => None,
        Some(port) => {
            let proto = chars_of(l.proto.as_str());
            let who = match &l.process {
                Some(name) => name.clone(),
                None => "unknown process".to_string(),
            };
            Some(
                OpenPort {
                    port,
                    family: string_of(trim_back(proto.as_slice(), Class::Only('6'))),
                    who,
                },
            )
        },
    }
}

/// The exposed services, each once, in order of port, family and process.
pub open spec fn open_ports(listeners: Seq<ListenerView>) -> Seq<OpenPortView> {
    distinct(sorted(listeners.filter_map(open_port_rule()), rank::<OpenPort>()))
}

/// The endpoint of a socket, if it belongs to the given service.
pub open spec fn endpoint_of_port(k: OpenPortView) -> spec_fn(ListenerView) -> Option<Seq<char>> {
    |l: ListenerView|
        if open_port_of(l) == Some(k) {
            Some(l.endpoint())
        } else {
            None
        }
}

/// Where a service can be reached: its protocol and every endpoint once. A
/// service bound to both 0.0.0.0 and [::] is one service, not two problems.
pub open spec fn whereabouts(listeners: Seq<ListenerView>, k: OpenPortView) -> Seq<char> {
    k.family + " "@ + joined(
        text_set(listeners.filter_map(endpoint_of_port(k))),
        ", "@,
    )
}

/// The finding that an exposed service is worth, if any.
pub open spec fn port_finding(listeners: Seq<ListenerView>, k: OpenPortView) -> Option<FindingView> {
    let place = whereabouts(listeners, k) + " ("@ + k.who;
    if datastore_port(k.port) is Some {
        Some(
            listed(
                Severity::High,
                "listeners"@,
                datastore_port(k.port)->0 + " is listening on every interface"@,
                place
                    + "). Anything that can route to this host can reach it. Bind it to 127.0.0.1 or a private address, or put a firewall in front of it."@,
            ),
        )
    } else if internal_port(k.port) is Some {
        Some(
            listed(
                Severity::Medium,
                "listeners"@,
                internal_port(k.port)->0 + " is listening on every interface"@,
                place
                    + "). Fine on a private network, worth checking if this box has a public address."@,
            ),
        )
    } else {
        None
    }
}

/// `port_finding` as a function to hand over.
pub open spec fn port_rule(listeners: Seq<ListenerView>) -> spec_fn(OpenPortView) -> Option<
    FindingView,
> {
    |k: OpenPortView| port_finding(listeners, k)
}

/// How a service that no table knows is mentioned, if it is.
pub open spec fn port_mention(k: OpenPortView) -> Option<Seq<char>> {
    if datastore_port(k.port) is Some || internal_port(k.port) is Some || expected_public(k.port) {
        None
    } else {
        Some(dec(k.port as nat) + "/"@ + k.family + " ("@ + k.who + ")"@)
    }
}

/// `port_mention` as a function to hand over.
pub open spec fn mention_rule() -> spec_fn(OpenPortView) -> Option<Seq<char>> {
    |k: OpenPortView| port_mention(k)
}

/// One finding for all the ports that no table knows.
pub open spec fn other_ports(mentions: Seq<Seq<char>>) -> Option<FindingView> {
    if mentions.len() == 0 {
        None
    } else {
        let m = text_set(mentions);
        Some(
            listed(
                Severity::Low,
                "listeners"@,
                dec(m.len()) + " other port"@ + plural_of(m.len() as int)
                    + " open on every interface"@,
                joined(m, ", "@),
            ),
        )
    }
}

/// Whether the kernel kept the owner of some socket from us.
pub open spec fn owners_hidden(a: AuditView) -> bool {
    &&& exists|i: int| 0 <= i < a.listeners.len() && (#[trigger] a.listeners[i]).process is None
    &&& !a.host.sudo.privileged()
}

/// The hint that goes with hidden owners.
pub open spec fn hidden_owners(a: AuditView) -> Option<FindingView> {
    if owners_hidden(a) {
        Some(
            listed(
                Severity::Info,
                "listeners"@,
                "Some listeners have no process name"@,
                "The kernel only reveals socket owners to root. Re-run with --sudo to see what is behind these ports."@,
            ),
        )
    } else {
        None
    }
}

/// What the listening sockets are worth.
pub open spec fn listener_findings(a: AuditView) -> Seq<FindingView> {
    open_ports(a.listeners).filter_map(port_rule(a.listeners)) + some_of(
        other_ports(open_ports(a.listeners).filter_map(mention_rule())),
    ) + some_of(hidden_owners(a))
}

fn endpoint_if(l: &Listener, k: &OpenPort) -> (r: Option<String>)
    ensures
        viewed(r) == endpoint_of_port(k@)(l@),
{
    match open_port(l) {
        Some(other) => if other.is_same(k) {
            Some(l.endpoint())
        } else {
            None
        },
        None => None,
    }
}

fn exposed_port(listeners: &Vec<Listener>, k: &OpenPort) -> (r: Option<Finding>)
    ensures
        viewed(r) == port_finding(views(listeners@), k@),
{
    let (severity, name, advice) = if let Some(name) = datastore(k.port) {
        (
            Severity::High,
            name,
            "). Anything that can route to this host can reach it. Bind it to 127.0.0.1 or a private address, or put a firewall in front of it.",
        )
    } else if let Some(name) = internal(k.port) {
        (
            Severity::Medium,
            name,
            "). Fine on a private network, worth checking if this box has a public address.",
        )
    } else {
        return None;
    };
    let at = |l: &Listener| -> (r: Option<String>)
        ensures
            viewed(r) == endpoint_of_port(k@)(l@),
        { endpoint_if(l, k) };
    let endpoints = sort_dedup(pick(listeners, at, Ghost(endpoint_of_port(k@))));
    let places = join(&endpoints, ", ");
    let detail = cat6(k.family.as_str(), " ", places.as_str(), " (", k.who.as_str(), advice);
    Some(finding(severity, "listeners", cat2(name, " is listening on every interface"), detail))
}

fn mention(k: &OpenPort) -> (r: Option<String>)
    ensures
        viewed(r) == port_mention(k@),
{
    if datastore(k.port).is_some() || internal(k.port).is_some() || k.port == 22 || k.port == 80
        || k.port == 443 {
        return None;
    }
    let port = decimal(k.port as u64);
    Some(cat6(port.as_str(), "/", k.family.as_str(), " (", k.who.as_str(), ")"))
}

fn has_hidden_owners(a: &Audit) -> (yes: bool)
    ensures
        yes == owners_hidden(a@),
{
    if a.host.sudo.is_privileged() {
        return false;
    }
    let ghost all = a@.listeners;
    let mut i: usize = 0;
    while i < a.listeners.len()
        invariant
            i <= a.listeners.len(),
            all == views(a.listeners@),
            all == a@.listeners,
            forall|k: int| 0 <= k < i ==> (#[trigger] all[k]).process is Some,
            !a@.host.sudo.privileged(),
        decreases a.listeners.len() - i,
    {
        assert(all[i as int] == a.listeners@[i as int]@);
        if a.listeners[i].process.is_none() {
            assert(all[i as int].process is None);
            return true;
        }
        i += 1;
    }
    false
}

pub fn exposed_listeners(a: &Audit) -> (r: Vec<Finding>)
    ensures
        views(r@) == listener_findings(a@),
{
    let listeners = &a.listeners;
    let ports = dedup(sort(pick(listeners, open_port, Ghost(open_port_rule()))));
    let worth = |k: &OpenPort| -> (r: Option<Finding>)
        ensures
            viewed(r) == port_finding(views(listeners@), k@),
        { exposed_port(listeners, k) };
    let found = pick(&ports, worth, Ghost(port_rule(views(listeners@))));
    let mentions = pick(&ports, mention, Ghost(mention_rule()));
    let ghost m = views(mentions@);
    assert(m.len() == mentions@.len());
    let other = if mentions.len() == 0 {
        None
    } else {
        let unknown = sort_dedup(mentions);
        assert(views(unknown@).len() == unknown@.len());
        let n = decimal(unknown.len() as u64);
        Some(
            finding(
                Severity::Low,
                "listeners",
                cat4(
                    n.as_str(),
                    " other port",
                    plural(unknown.len()),
                    " open on every interface",
                ),
                join(&unknown, ", "),
            ),
        )
    };
    assert(viewed(other) == other_ports(m));
    let hidden = if has_hidden_owners(a) {
        Some(
            finding(
                Severity::Info,
                "listeners",
                "Some listeners have no process name".to_string(),
                "The kernel only reveals socket owners to root. Re-run with --sudo to see what is behind these ports.".to_string(),
            ),
        )
    } else {
        None
    };
    concat_some(concat_some(found, other), hidden)
}

/// No service on port 22, 80 or 443 is a finding or part of one, for being
/// reachable is what those ports are for.
pub proof fn law_public_ports_are_no_findings(listeners: Seq<ListenerView>, k: OpenPortView)
    requires
        expected_public(k.port),
    ensures
        port_finding(listeners, k) is None,
        port_mention(k) is None,
{
}

// ------------------------------------------------------------- storage ----

/// How bad a fill level is.
pub open spec fn fill_severity(fs: FilesystemView) -> Option<Severity> {
    match fs.use_pct {
        Some(pct) => if pct.at_least(90) {
            Some(Severity::High)
        } else if pct.at_least(80) {
            Some(Severity::Medium)
        } else {
            None
        },
        None => None,
    }
}

/// The finding that a full disk is worth.
pub open spec fn space_finding(fs: FilesystemView) -> Option<FindingView> {
    match fill_severity(fs) {
        Some(severity) => Some(
            listed(
                severity,
                "storage"@,
                fs.mount + " is "@ + fs.use_pct->0.shown() + "% full"@,
                fs.used + " of "@ + fs.size + " used on "@ + fs.source + " ("@ + fs.fstype + "), "@
                    + fs.avail + " free."@,
            ),
        ),
        None => None,
    }
}

/// The finding that running out of inodes is worth.
pub open spec fn inode_finding(fs: FilesystemView) -> Option<FindingView> {
    match fs.inode_pct {
        Some(pct) => if pct.at_least(85) {
            Some(
                listed(
                    Severity::High,
                    "storage"@,
                    fs.mount + " has used "@ + pct.shown() + "% of its inodes"@,
                    "Writes start failing with ENOSPC once inodes run out, even with free space on the disk. Usually a directory full of tiny files — sessions, mail spool, cache."@,
                ),
            )
        } else {
            None
        },
        None => None,
    }
}

/// What one filesystem is worth. Pseudo filesystems are worth nothing.
pub open spec fn filesystem_findings(fs: FilesystemView) -> Seq<FindingView> {
    if fs.pseudo() {
        seq![]
    } else {
        some_of(space_finding(fs)) + some_of(inode_finding(fs))
    }
}

/// `filesystem_findings` as a function to hand over.
pub open spec fn filesystem_rule() -> spec_fn(FilesystemView) -> Seq<FindingView> {
    |fs: FilesystemView| filesystem_findings(fs)
}

/// What the filesystems are worth.
pub open spec fn storage_findings(a: AuditView) -> Seq<FindingView> {
    a.filesystems.flat_map(filesystem_rule())
}

fn filesystem(fs: &Filesystem) -> (r: Vec<Finding>)
    ensures
        views(r@) == filesystem_findings(fs@),
{
    let none: Vec<Finding> = Vec::new();
    assert(views(none@) =~= seq![]);
    if fs.is_pseudo() {
        return none;
    }
    let space = match fs.use_pct {
        Some(pct) => {
            let full = pct.reaches(90);
            if full || pct.reaches(80) {
                let shown = pct.show();
                Some(
                    finding(
                        if full {
                            Severity::High
                        } else {
                            Severity::Medium
                        },
                        "storage",
                        cat4(fs.mount.as_str(), " is ", shown.as_str(), "% full"),
                        cat10(
                            fs.used.as_str(),
                            " of ",
                            fs.size.as_str(),
                            " used on ",
                            fs.source.as_str(),
                            " (",
                            fs.fstype.as_str(),
                            "), ",
                            fs.avail.as_str(),
                            " free.",
                        ),
                    ),
                )
            } else {
                None
            }
        },
        None => None,
    };
    let inodes = match fs.inode_pct {
        Some(pct) => if pct.reaches(85) {
            let shown = pct.show();
            Some(
                finding(
                    Severity::High,
                    "storage",
                    cat4(fs.mount.as_str(), " has used ", shown.as_str(), "% of its inodes"),
                    "Writes start failing with ENOSPC once inodes run out, even with free space on the disk. Usually a directory full of tiny files — sessions, mail spool, cache.".to_string(),
                ),
            )
        } else {
            None
        },
        None => None,
    };
    assert(viewed(space) == space_finding(fs@));
    let r = concat_some(concat_some(none, space), inodes);
    assert(seq![] + some_of(space_finding(fs@)) =~= some_of(space_finding(fs@)));
    r
}

pub fn storage(a: &Audit) -> (r: Vec<Finding>)
    ensures
        views(r@) == storage_findings(a@),
{
    spread(&a.filesystems, filesystem, Ghost(filesystem_rule()))
}

// ------------------------------------------------------------- systemd ----

/// The name of a unit that failed.
pub open spec fn failed_unit() -> spec_fn(ServiceView) -> Option<Seq<char>> {
    |s: ServiceView|
        if s.failed() {
            Some(s.unit)
        } else {
            None
        }
}

/// What the services are worth.
pub open spec fn systemd_findings(a: AuditView) -> Seq<FindingView> {
    let failed = a.services.filter_map(failed_unit());
    if failed.len() == 0 {
        seq![]
    } else {
        seq![
            listed(
                Severity::Medium,
                "services"@,
                dec(failed.len()) + " service"@ + plural_of(failed.len() as int) + " failed"@,
                joined(failed, ", "@) + ". Check with `systemctl status <unit>`."@,
            ),
        ]
    }
}

fn failed_name(s: &Service) -> (r: Option<String>)
    ensures
        viewed(r) == failed_unit()(s@),
{
    if s.is_failed() {
        Some(s.unit.clone())
    } else {
        None
    }
}

fn single(f: Finding) -> (r: Vec<Finding>)
    ensures
        views(r@) == seq![f@],
{
    let mut r: Vec<Finding> = Vec::new();
    r.push(f);
    assert(views(r@) =~= seq![f@]);
    r
}

fn nothing() -> (r: Vec<Finding>)
    ensures
        views(r@) == Seq::<FindingView>::empty(),
{
    let r: Vec<Finding> = Vec::new();
    assert(views(r@) =~= seq![]);
    r
}

pub fn systemd(a: &Audit) -> (r: Vec<Finding>)
    ensures
        views(r@) == systemd_findings(a@),
{
    let failed = pick(&a.services, failed_name, Ghost(failed_unit()));
    assert(views(failed@).len() == failed@.len());
    if failed.len() == 0 {
        return nothing();
    }
    let n = decimal(failed.len() as u64);
    let names = join(&failed, ", ");
    single(
        finding(
            Severity::Medium,
            "services",
            cat4(n.as_str(), " service", plural(failed.len()), " failed"),
            cat2(names.as_str(), ". Check with `systemctl status <unit>`."),
        ),
    )
}

// ---------------------------------------------------------- containers ----

/// The finding for a container that keeps restarting.
pub open spec fn restarting_rule() -> spec_fn(ContainerView) -> Option<FindingView> {
    |c: ContainerView|
        if c.state == "restarting"@ {
            Some(
                listed(
                    Severity::Medium,
                    "containers"@,
                    "Container "@ + c.name + " is stuck restarting"@,
                    c.image + " — "@ + c.status + ". Check `docker logs "@ + c.name + "`."@,
                ),
            )
        } else {
            None
        }
}

/// How a container that exited with an error is mentioned.
pub open spec fn crashed_rule() -> spec_fn(ContainerView) -> Option<Seq<char>> {
    |c: ContainerView|
        if c.state == "exited"@ && c.exit_code() is Some && c.exit_code()->0 != 0 {
            Some(c.name + " (exit "@ + dec_int(c.exit_code()->0) + ")"@)
        } else {
            None
        }
}

/// How a published port of the container `name` is mentioned.
pub open spec fn published_port(name: Seq<char>) -> spec_fn(PortMappingView) -> Option<Seq<char>> {
    |p: PortMappingView|
        if p.wide_open() {
            Some(name + " "@ + p.rendered())
        } else {
            None
        }
}

/// The published ports of a container.
pub open spec fn published_rule() -> spec_fn(ContainerView) -> Seq<Seq<char>> {
    |c: ContainerView| c.ports.filter_map(published_port(c.name))
}

/// One finding for all the crashed containers.
pub open spec fn crashed_finding(crashed: Seq<Seq<char>>) -> Option<FindingView> {
    if crashed.len() == 0 {
        None
    } else {
        Some(
            listed(
                Severity::Low,
                "containers"@,
                dec(crashed.len()) + " container"@ + plural_of(crashed.len() as int)
                    + " exited non-zero"@,
                joined(crashed, ", "@)
                    + ". Harmless for one-shot jobs, worth a look for anything meant to stay up."@,
            ),
        )
    }
}

/// One finding for all the published ports.
pub open spec fn published_finding(published: Seq<Seq<char>>) -> Option<FindingView> {
    if published.len() == 0 {
        None
    } else {
        Some(
            listed(
                Severity::Medium,
                "containers"@,
                dec(published.len()) + " container port"@ + plural_of(published.len() as int)
                    + " published on 0.0.0.0"@,
                joined(published, ", "@)
                    + ". Docker inserts its own iptables rules ahead of the INPUT chain, so a ufw or firewalld rule will not block these. Publish to 127.0.0.1 instead where you can."@,
            ),
        )
    }
}

/// What the containers are worth.
pub open spec fn container_findings(a: AuditView) -> Seq<FindingView> {
    a.containers.filter_map(restarting_rule()) + some_of(
        crashed_finding(a.containers.filter_map(crashed_rule())),
    ) + some_of(published_finding(a.containers.flat_map(published_rule())))
}

fn restarting(c: &Container) -> (r: Option<Finding>)
    ensures
        viewed(r) == restarting_rule()(c@),
{
    if !eq(c.state.as_str(), "restarting") {
        return None;
    }
    Some(
        finding(
            Severity::Medium,
            "containers",
            cat3("Container ", c.name.as_str(), " is stuck restarting"),
            cat6(
                c.image.as_str(),
                " — ",
                c.status.as_str(),
                ". Check `docker logs ",
                c.name.as_str(),
                "`.",
            ),
        ),
    )
}

fn crashed(c: &Container) -> (r: Option<String>)
    ensures
        viewed(r) == crashed_rule()(c@),
{
    if !eq(c.state.as_str(), "exited") {
        return None;
    }
    match c.exit_code() {
        Some(code) => if code != 0 {
            let n = decimal_int(code as i64);
            Some(cat4(c.name.as_str(), " (exit ", n.as_str(), ")"))
        } else {
            None
        },
        None => None,
    }
}

fn published(c: &Container) -> (r: Vec<String>)
    ensures
        views(r@) == published_rule()(c@),
{
    let name = c.name.as_str();
    let port = |p: &PortMapping| -> (r: Option<String>)
        ensures
            viewed(r) == published_port(name@)(p@),
        {
            if p.is_wide_open() {
                let shown = p.render();
                Some(cat3(name, " ", shown.as_str()))
            } else {
                None
            }
        };
    pick(&c.ports, port, Ghost(published_port(c.name@)))
}

pub fn containers(a: &Audit) -> (r: Vec<Finding>)
    ensures
        views(r@) == container_findings(a@),
{
    let stuck = pick(&a.containers, restarting, Ghost(restarting_rule()));
    let dead = pick(&a.containers, crashed, Ghost(crashed_rule()));
    assert(views(dead@).len() == dead@.len());
    let dead_finding = if dead.len() == 0 {
        None
    } else {
        let n = decimal(dead.len() as u64);
        let names = join(&dead, ", ");
        Some(
            finding(
                Severity::Low,
                "containers",
                cat4(n.as_str(), " container", plural(dead.len()), " exited non-zero"),
                cat2(
                    names.as_str(),
                    ". Harmless for one-shot jobs, worth a look for anything meant to stay up.",
                ),
            ),
        )
    };
    assert(viewed(dead_finding) == crashed_finding(views(dead@)));
    let open = spread(&a.containers, published, Ghost(published_rule()));
    assert(views(open@).len() == open@.len());
    let open_finding = if open.len() == 0 {
        None
    } else {
        let n = decimal(open.len() as u64);
        let names = join(&open, ", ");
        Some(
            finding(
                Severity::Medium,
                "containers",
                cat4(n.as_str(), " container port", plural(open.len()), " published on 0.0.0.0"),
                cat2(
                    names.as_str(),
                    ". Docker inserts its own iptables rules ahead of the INPUT chain, so a ufw or firewalld rule will not block these. Publish to 127.0.0.1 instead where you can.",
                ),
            ),
        )
    };
    assert(viewed(open_finding) == published_finding(views(open@)));
    concat_some(concat_some(stuck, dead_finding), open_finding)
}

// ---------------------------------------------------------- scheduling ----

/// A program that runs what it is fed.
pub open spec fn is_interpreter(name: Seq<char>) -> bool {
    ||| name == "sh"@
    ||| name == "bash"@
    ||| name == "zsh"@
    ||| name == "dash"@
    ||| name == "ksh"@
    ||| name == "python"@
    ||| name == "python3"@
    ||| name == "perl"@
}

/// The program that a part of a pipeline starts, without its directory.
pub open spec fn program(part: Seq<char>) -> Seq<char> {
    let w = words_of(part);
    if w.len() == 0 {
        seq![]
    } else {
        match cut_last(w[0], '/') {
            Some((_, name)) => name,
            None => w[0],
        }
    }
}

/// Whether a command, in lower case, downloads something and feeds it to an
/// interpreter: `curl … | sh`, `wget -O- … | bash`, and the usual variations.
pub open spec fn feeds_shell(lower: Seq<char>) -> bool {
    &&& contains_text(lower, "curl "@) || contains_text(lower, "wget "@)
    &&& exists|i: int|
        1 <= i < pieces(lower, '|').len() && is_interpreter(program(#[trigger] pieces(lower, '|')[i]))
}

fn runs_interpreter(part: &[char]) -> (yes: bool)
    ensures
        yes == is_interpreter(program(part@)),
{
    let w = words(part);
    assert(views(w@).len() == w@.len());
    if w.len() == 0 {
        proof {
            reveal_strlit("sh");
            reveal_strlit("bash");
            reveal_strlit("zsh");
            reveal_strlit("dash");
            reveal_strlit("ksh");
            reveal_strlit("python");
            reveal_strlit("python3");
            reveal_strlit("perl");
            assert(program(part@).len() == 0);
            assert("sh"@.len() == 2 && "bash"@.len() == 4 && "zsh"@.len() == 3);
            assert("dash"@.len() == 4 && "ksh"@.len() == 3 && "python"@.len() == 6);
            assert("python3"@.len() == 7 && "perl"@.len() == 4);
        }
        return false;
    }
    let name = match rsplit_once(w[0], '/') {
        Some((_, name)) => name,
        None => w[0],
    };
    spells(name, "sh") || spells(name, "bash") || spells(name, "zsh") || spells(name, "dash")
        || spells(name, "ksh") || spells(name, "python") || spells(name, "python3") || spells(
        name,
        "perl",
    )
}

/// The test of `pipes_remote_script_to_shell` on a command in lower case.
pub fn lowered_feeds_shell(lower: &str) -> (yes: bool)
    ensures
        yes == feeds_shell(lower@),
{
    let cs = chars_of(lower);
    if !holds_text(cs.as_slice(), "curl ") && !holds_text(cs.as_slice(), "wget ") {
        return false;
    }
    let parts = split(cs.as_slice(), '|');
    let ghost all = pieces(lower@, '|');
    let mut i: usize = 1;
    while i < parts.len()
        invariant
            1 <= i,
            i <= parts.len(),
            all == views(parts@),
            all == pieces(lower@, '|'),
            forall|k: int| 1 <= k < i ==> !is_interpreter(program(#[trigger] all[k])),
            contains_text(lower@, "curl "@) || contains_text(lower@, "wget "@),
        decreases parts.len() - i,
    {
        assert(all[i as int] == parts@[i as int]@);
        if runs_interpreter(parts[i]) {
            assert(is_interpreter(program(all[i as int])));
            return true;
        }
        i += 1;
    }
    assert(all.len() == parts@.len());
    false
}

/// `curl … | sh`, `wget -O- … | bash`, and the usual variations.
pub fn pipes_remote_script_to_shell(cmd: &str) -> (yes: bool)
    ensures
        yes == feeds_shell(lowercase(cmd@)),
        is_ascii_text(cmd@) ==> yes == feeds_shell(ascii_lowered(cmd@)),
{
    let lower = to_lowercase(cmd);
    lowered_feeds_shell(lower.as_str())
}

/// The finding for a job that runs what it downloads.
pub open spec fn download_rule() -> spec_fn(CronEntryView) -> Option<FindingView> {
    |c: CronEntryView|
        if feeds_shell(lowercase(c.command)) {
            Some(
                listed(
                    Severity::High,
                    "schedules"@,
                    "A cron job pipes a downloaded script straight into a shell"@,
                    c.schedule + " as "@ + c.user + ": "@ + c.command + "  (from "@ + c.source
                        + "). Whoever controls that URL controls this machine on every run."@,
                ),
            )
        } else {
            None
        }
}

/// The command of a job that runs at boot.
pub open spec fn boot_rule() -> spec_fn(CronEntryView) -> Option<Seq<char>> {
    |c: CronEntryView|
        if c.schedule == "@reboot"@ {
            Some(c.command)
        } else {
            None
        }
}

/// One finding for all the jobs that run at boot.
pub open spec fn boot_finding(jobs: Seq<Seq<char>>) -> Option<FindingView> {
    if jobs.len() == 0 {
        None
    } else {
        Some(
            listed(
                Severity::Info,
                "schedules"@,
                dec(jobs.len()) + " job"@ + plural_of(jobs.len() as int) + " run at every boot"@,
                joined(jobs, "; "@),
            ),
        )
    }
}

/// What the scheduled jobs are worth.
pub open spec fn schedule_findings(a: AuditView) -> Seq<FindingView> {
    a.cron.filter_map(download_rule()) + some_of(boot_finding(a.cron.filter_map(boot_rule())))
}

fn download(c: &CronEntry) -> (r: Option<Finding>)
    ensures
        viewed(r) == download_rule()(c@),
{
    if !pipes_remote_script_to_shell(c.command.as_str()) {
        return None;
    }
    Some(
        finding(
            Severity::High,
            "schedules",
            "A cron job pipes a downloaded script straight into a shell".to_string(),
            cat8(
                c.schedule.as_str(),
                " as ",
                c.user.as_str(),
                ": ",
                c.command.as_str(),
                "  (from ",
                c.source.as_str(),
                "). Whoever controls that URL controls this machine on every run.",
            ),
        ),
    )
}

fn at_boot(c: &CronEntry) -> (r: Option<String>)
    ensures
        viewed(r) == boot_rule()(c@),
{
    if eq(c.schedule.as_str(), "@reboot") {
        Some(c.command.clone())
    } else {
        None
    }
}

pub fn scheduled_jobs(a: &Audit) -> (r: Vec<Finding>)
    ensures
        views(r@) == schedule_findings(a@),
{
    let found = pick(&a.cron, download, Ghost(download_rule()));
    let jobs = pick(&a.cron, at_boot, Ghost(boot_rule()));
    assert(views(jobs@).len() == jobs@.len());
    let boot = if jobs.len() == 0 {
        None
    } else {
        let n = decimal(jobs.len() as u64);
        Some(
            finding(
                Severity::Info,
                "schedules",
                cat4(n.as_str(), " job", plural(jobs.len()), " run at every boot"),
                join(&jobs, "; "),
            ),
        )
    };
    assert(viewed(boot) == boot_finding(views(jobs@)));
    concat_some(found, boot)
}

// ------------------------------------------------------------ pressure ----

/// The share of memory in use in percent, computed in double precision.
pub open spec fn memory_pct(used: u64, total: u64) -> nat {
    let f = Format::Double;
    f.product(f.quotient(f.nearest(used as nat, 1), f.nearest(total as nat, 1)), 100)
}

/// The finding for memory that is nearly full.
pub open spec fn memory_finding(h: HostInfoView) -> Option<FindingView> {
    match (h.mem_total_mb, h.mem_used_mb) {
        (Some(total), Some(used)) => if total > 0 && Format::Double.reaches(
            memory_pct(used, total),
            90,
        ) {
            Some(
                listed(
                    Severity::Medium,
                    "overview"@,
                    "Memory is "@ + Format::Double.printed(memory_pct(used, total), 0) + "% used"@,
                    dec(used as nat) + " MB of "@ + dec(total as nat)
                        + " MB in use (excluding reclaimable cache)."@,
                ),
            )
        } else {
            None
        },
        _ => None,
    }
}

/// A text as a double-precision number, zero where it is none.
pub open spec fn number_or_zero(s: Seq<char>) -> Double {
    match double_of(s) {
        Some(x) => x,
        None => Double { bits: 0 },
    }
}

/// The load over the last minute.
pub open spec fn load_now(h: HostInfoView) -> Double {
    let w = words_of(h.load);
    if w.len() == 0 {
        Double { bits: 0 }
    } else {
        number_or_zero(w[0])
    }
}

/// The number of processors.
pub open spec fn cpu_count(h: HostInfoView) -> Double {
    number_or_zero(trimmed(h.cpus))
}

/// Whether one positive number is more than twice another.
pub open spec fn more_than_twice(x: Double, y: Double) -> bool {
    &&& !y.negative() && !y.is_nan() && y.magnitude() > 0
    &&& !x.negative() && !x.is_nan() && x.magnitude() > Format::Double.product(y.magnitude(), 2)
}

/// The finding for a run queue that outgrew the processors.
pub open spec fn load_finding(h: HostInfoView) -> Option<FindingView> {
    if more_than_twice(load_now(h), cpu_count(h)) {
        Some(
            listed(
                Severity::Medium,
                "overview"@,
                "Load average "@ + load_now(h).shown(2) + " on "@ + cpu_count(h).shown(0)
                    + " CPUs"@,
                "The run queue is more than twice the core count; something is saturating this box."@,
            ),
        )
    } else {
        None
    }
}

/// What memory and load are worth.
pub open spec fn pressure_findings(a: AuditView) -> Seq<FindingView> {
    some_of(memory_finding(a.host)) + some_of(load_finding(a.host))
}

fn memory(h: &HostInfo) -> (r: Option<Finding>)
    ensures
        viewed(r) == memory_finding(h@),
{
    match (h.mem_total_mb, h.mem_used_mb) {
        (Some(total), Some(used)) => {
            if total == 0 {
                return None;
            }
            let f = Format::Double;
            let pct = f.multiply(f.divide(f.from_integer(used), f.from_integer(total)), 100);
            if !f.is_at_least(pct, 90) {
                return None;
            }
            let shown = f.print(pct, 0);
            let u = decimal(used);
            let t = decimal(total);
            Some(
                finding(
                    Severity::Medium,
                    "overview",
                    cat3("Memory is ", shown.as_str(), "% used"),
                    cat4(
                        u.as_str(),
                        " MB of ",
                        t.as_str(),
                        " MB in use (excluding reclaimable cache).",
                    ),
                ),
            )
        },
        _ => None,
    }
}

fn number(s: &[char]) -> (r: Double)
    ensures
        r == number_or_zero(s@),
{
    match read_double(s) {
        Some(x) => x,
        None => Double { bits: 0 },
    }
}

fn load(h: &HostInfo) -> (r: Option<Finding>)
    ensures
        viewed(r) == load_finding(h@),
{
    let cpus_text = chars_of(h.cpus.as_str());
    let cpus = number(trim(cpus_text.as_slice()));
    let load_text = chars_of(h.load.as_str());
    let w = words(load_text.as_slice());
    assert(views(w@).len() == w@.len());
    let now = if w.len() == 0 {
        Double { bits: 0 }
    } else {
        number(w[0])
    };
    let (y_neg, y) = cpus.split();
    let (x_neg, x) = now.split();
    let top = Format::Double.infinite();
    if y_neg || y > top || y == 0 || x_neg || x > top || x <= Format::Double.multiply(y, 2) {
        return None;
    }
    let a = now.show(2);
    let b = cpus.show(0);
    Some(
        finding(
            Severity::Medium,
            "overview",
            cat5("Load average ", a.as_str(), " on ", b.as_str(), " CPUs"),
            "The run queue is more than twice the core count; something is saturating this box.".to_string(),
        ),
    )
}

pub fn pressure(a: &Audit) -> (r: Vec<Finding>)
    ensures
        views(r@) == pressure_findings(a@),
{
    let r = concat_some(concat_some(nothing(), memory(&a.host)), load(&a.host));
    assert(Seq::<FindingView>::empty() + some_of(memory_finding(a@.host)) =~= some_of(
        memory_finding(a@.host),
    ));
    r
}

// ------------------------------------------------------------ coverage ----

/// The finding for a probe that failed.
pub open spec fn failure_rule() -> spec_fn(ProbeOutcomeView) -> Option<FindingView> {
    |p: ProbeOutcomeView|
        if p.status is Failed {
            Some(
                listed(
                    Severity::Low,
                    "probes"@,
                    "Probe failed: "@ + p.label,
                    "`"@ + p.command + "` exited "@ + dec_int(p.exit_code as int) + " — "@ + p.note,
                ),
            )
        } else {
            None
        }
}

/// The label of a probe with the given status.
pub open spec fn label_rule(status: ProbeStatus) -> spec_fn(ProbeOutcomeView) -> Option<Seq<char>> {
    |p: ProbeOutcomeView|
        if p.status == status {
            Some(p.label)
        } else {
            None
        }
}

/// The labels of the probes with the given status, each once, in order.
pub open spec fn labels_with(a: AuditView, status: ProbeStatus) -> Seq<Seq<char>> {
    text_set(a.probes.filter_map(label_rule(status)))
}

/// One finding for all the probes that were refused.
pub open spec fn blind_finding(a: AuditView) -> Option<FindingView> {
    let blind = labels_with(a, ProbeStatus::Denied);
    if blind.len() == 0 {
        None
    } else {
        Some(
            listed(
                Severity::Info,
                "probes"@,
                dec(blind.len()) + " probe"@ + plural_of(blind.len() as int) + " were denied"@,
                joined(blind, ", "@) + ". "@ + (if a.host.sudo.privileged() {
                    "Even with sudo these were refused."@
                } else {
                    "Re-run with --sudo for the full picture."@
                }) + " Treat those sections as unknown, not empty."@,
            ),
        )
    }
}

/// One finding for all the probes that saw only a part.
pub open spec fn partial_finding(a: AuditView) -> Option<FindingView> {
    let partial = labels_with(a, ProbeStatus::Partial);
    if partial.len() == 0 {
        None
    } else {
        Some(
            listed(
                Severity::Info,
                "probes"@,
                dec(partial.len()) + " probe"@ + plural_of(partial.len() as int)
                    + " could not read everything"@,
                joined(partial, ", "@)
                    + ". What came back is shown and is accurate as far as it goes; some paths were unreadable"@
                    + (if a.host.sudo.privileged() {
                    ""@
                } else {
                    ", so re-run with --sudo for complete totals"@
                }) + "."@,
            ),
        )
    }
}

/// The hint that sudo wants a password.
pub open spec fn sudo_finding(a: AuditView) -> Option<FindingView> {
    if a.host.sudo is NeedsPassword {
        Some(
            listed(
                Severity::Info,
                "overview"@,
                "sudo needs a password, so privileged probes were skipped"@,
                "srvaudit only ever uses `sudo -n`, so it can never hang on a password prompt. Grant NOPASSWD for the read-only commands, or run as root, to see the whole machine."@,
            ),
        )
    } else {
        None
    }
}

/// What the gaps in the audit are worth.
pub open spec fn coverage_findings(a: AuditView) -> Seq<FindingView> {
    a.probes.filter_map(failure_rule()) + some_of(blind_finding(a)) + some_of(partial_finding(a))
        + some_of(sudo_finding(a))
}

fn failure(p: &ProbeOutcome) -> (r: Option<Finding>)
    ensures
        viewed(r) == failure_rule()(p@),
{
    if p.status != ProbeStatus::Failed {
        return None;
    }
    let code = decimal_int(p.exit_code as i64);
    Some(
        finding(
            Severity::Low,
            "probes",
            cat2("Probe failed: ", p.label.as_str()),
            cat6(
                "`",
                p.command.as_str(),
                "` exited ",
                code.as_str(),
                " — ",
                p.note.as_str(),
            ),
        ),
    )
}

fn labels(a: &Audit, status: ProbeStatus) -> (r: Vec<String>)
    ensures
        views(r@) == labels_with(a@, status),
{
    let one = |p: &ProbeOutcome| -> (r: Option<String>)
        ensures
            viewed(r) == label_rule(status)(p@),
        {
            if p.status == status {
                Some(p.label.clone())
            } else {
                None
            }
        };
    sort_dedup(pick(&a.probes, one, Ghost(label_rule(status))))
}

fn blind(a: &Audit) -> (r: Option<Finding>)
    ensures
        viewed(r) == blind_finding(a@),
{
    let blind = labels(a, ProbeStatus::Denied);
    assert(views(blind@).len() == blind@.len());
    if blind.len() == 0 {
        return None;
    }
    let n = decimal(blind.len() as u64);
    let names = join(&blind, ", ");
    let hint = if a.host.sudo.is_privileged() {
        "Even with sudo these were refused."
    } else {
        "Re-run with --sudo for the full picture."
    };
    Some(
        finding(
            Severity::Info,
            "probes",
            cat4(n.as_str(), " probe", plural(blind.len()), " were denied"),
            cat4(names.as_str(), ". ", hint, " Treat those sections as unknown, not empty."),
        ),
    )
}

fn partial(a: &Audit) -> (r: Option<Finding>)
    ensures
        viewed(r) == partial_finding(a@),
{
    let partial = labels(a, ProbeStatus::Partial);
    assert(views(partial@).len() == partial@.len());
    if partial.len() == 0 {
        return None;
    }
    let n = decimal(partial.len() as u64);
    let names = join(&partial, ", ");
    let hint = if a.host.sudo.is_privileged() {
        ""
    } else {
        ", so re-run with --sudo for complete totals"
    };
    Some(
        finding(
            Severity::Info,
            "probes",
            cat4(n.as_str(), " probe", plural(partial.len()), " could not read everything"),
            cat4(
                names.as_str(),
                ". What came back is shown and is accurate as far as it goes; some paths were unreadable",
                hint,
                ".",
            ),
        ),
    )
}

pub fn coverage(a: &Audit) -> (r: Vec<Finding>)
    ensures
        views(r@) == coverage_findings(a@),
{
    let failed = pick(&a.probes, failure, Ghost(failure_rule()));
    let sudo = if a.host.sudo == SudoAvailability::NeedsPassword {
        Some(
            finding(
                Severity::Info,
                "overview",
                "sudo needs a password, so privileged probes were skipped".to_string(),
                "srvaudit only ever uses `sudo -n`, so it can never hang on a password prompt. Grant NOPASSWD for the read-only commands, or run as root, to see the whole machine.".to_string(),
            ),
        )
    } else {
        None
    };
    concat_some(concat_some(concat_some(failed, blind(a)), partial(a)), sudo)
}

// ------------------------------------------------------------- ranking ----

impl Ranked for Finding {
    /// The most severe first, and by title among equals.
    open spec fn at_most(a: FindingView, b: FindingView) -> bool {
        if a.severity != b.severity {
            a.severity.place() < b.severity.place()
        } else {
            text_at_most(a.title, b.title)
        }
    }

    fn ranks_at_most(&self, other: &Self) -> (yes: bool) {
        if self.severity != other.severity {
            self.severity.index() < other.severity.index()
        } else {
            self.title.ranks_at_most(&other.title)
        }
    }
}

/// Everything the audit is worth, in the order in which it is collected.
pub open spec fn all_findings(a: AuditView) -> Seq<FindingView> {
    listener_findings(a) + storage_findings(a) + systemd_findings(a) + container_findings(a)
        + schedule_findings(a) + pressure_findings(a) + coverage_findings(a)
}

/// Everything the audit is worth, the most severe first.
pub open spec fn findings_of(a: AuditView) -> Seq<FindingView> {
    sorted(all_findings(a), rank::<Finding>())
}

pub fn analyze(a: &Audit) -> (r: Vec<Finding>)
    ensures
        views(r@) == findings_of(a@),
{
    let mut f = concat(exposed_listeners(a), storage(a));
    f = concat(f, systemd(a));
    f = concat(f, containers(a));
    f = concat(f, scheduled_jobs(a));
    f = concat(f, pressure(a));
    f = concat(f, coverage(a));
    sort(f)
}

// ---------------------------------------------------------------- laws ----

/// Findings are totally ordered.
pub proof fn lemma_finding_order_total()
    ensures
        is_total_preorder(rank::<Finding>()),
{
    let le = rank::<Finding>();
    lemma_text_order_total();
    let tle = rank::<String>();
    assert forall|a: FindingView, b: FindingView| #[trigger] le(a, b) || le(b, a) by {
        assert(tle(a.title, b.title) || tle(b.title, a.title));
    }
    assert forall|a: FindingView, b: FindingView, c: FindingView| #[trigger]
        le(a, b) && #[trigger] le(b, c) implies le(a, c) by {
        if a.severity == b.severity && b.severity == c.severity {
            assert(tle(a.title, b.title) && tle(b.title, c.title));
        }
    }
}

/// The findings stand in order: the more severe first, and among equally severe
/// ones by title.
pub proof fn law_most_severe_first(a: AuditView)
    ensures
        ascending(findings_of(a), rank::<Finding>()),
        forall|i: int, j: int|
            0 <= i < j < findings_of(a).len() ==> (#[trigger] findings_of(a)[i]).severity.place()
                <= (#[trigger] findings_of(a)[j]).severity.place(),
{
    lemma_finding_order_total();
    lemma_sorted_ascending(all_findings(a), rank::<Finding>());
    let f = findings_of(a);
    assert forall|i: int, j: int| 0 <= i < j < f.len() implies (
    #[trigger] f[i]).severity.place() <= (#[trigger] f[j]).severity.place() by {
        assert(rank::<Finding>()(f[i], f[j]));
    }
}

/// Ranking the findings neither loses nor repeats one.
pub proof fn law_ranking_keeps_every_finding(a: AuditView)
    ensures
        findings_of(a).to_multiset() == all_findings(a).to_multiset(),
{
    lemma_sorted_same_elements(all_findings(a), rank::<Finding>());
}

/// Disks that are no disks are never findings, however full.
pub proof fn law_pseudo_filesystems_are_no_findings(fs: FilesystemView)
    requires
        fs.pseudo(),
    ensures
        filesystem_findings(fs).len() == 0,
{
}

proof fn lemma_in_coverage(a: AuditView, x: FindingView)
    requires
        coverage_findings(a).contains(x),
    ensures
        findings_of(a).contains(x),
{
    let pre = listener_findings(a) + storage_findings(a) + systemd_findings(a) + container_findings(
        a,
    ) + schedule_findings(a) + pressure_findings(a);
    let c = coverage_findings(a);
    let i = choose|i: int| 0 <= i < c.len() && c[i] == x;
    assert(all_findings(a)[pre.len() + i] == x);
    lemma_sorted_contains(all_findings(a), rank::<Finding>(), x);
}

/// A probe that was refused is always reported, by its label: its section is
/// unknown, not empty.
pub proof fn law_denied_is_reported(a: AuditView, i: int)
    requires
        0 <= i < a.probes.len(),
        a.probes[i].status is Denied,
    ensures
        labels_with(a, ProbeStatus::Denied).contains(a.probes[i].label),
        blind_finding(a) is Some,
        findings_of(a).contains(blind_finding(a)->0),
{
    let f = label_rule(ProbeStatus::Denied);
    lemma_filter_map_keeps(a.probes, f, i);
    lemma_text_set_contains(a.probes.filter_map(f), a.probes[i].label);
    let x = blind_finding(a)->0;
    let pre = a.probes.filter_map(failure_rule());
    assert(coverage_findings(a)[pre.len() as int] == x);
    lemma_in_coverage(a, x);
}

/// A probe that saw only a part is always reported, by its label.
pub proof fn law_partial_is_reported(a: AuditView, i: int)
    requires
        0 <= i < a.probes.len(),
        a.probes[i].status is Partial,
    ensures
        labels_with(a, ProbeStatus::Partial).contains(a.probes[i].label),
        partial_finding(a) is Some,
        findings_of(a).contains(partial_finding(a)->0),
{
    let f = label_rule(ProbeStatus::Partial);
    lemma_filter_map_keeps(a.probes, f, i);
    lemma_text_set_contains(a.probes.filter_map(f), a.probes[i].label);
    let x = partial_finding(a)->0;
    let pre = a.probes.filter_map(failure_rule()) + some_of(blind_finding(a));
    assert(coverage_findings(a)[pre.len() as int] == x);
    lemma_in_coverage(a, x);
}

/// A probe that failed is always reported.
pub proof fn law_failure_is_reported(a: AuditView, i: int)
    requires
        0 <= i < a.probes.len(),
        a.probes[i].status is Failed,
    ensures
        failure_rule()(a.probes[i]) is Some,
        findings_of(a).contains(failure_rule()(a.probes[i])->0),
{
    let f = failure_rule();
    lemma_filter_map_keeps(a.probes, f, i);
    let x = f(a.probes[i])->0;
    let s = a.probes.filter_map(f);
    let j = choose|j: int| 0 <= j < s.len() && s[j] == x;
    assert(coverage_findings(a)[j] == x);
    lemma_in_coverage(a, x);
}

/// What is collected is listed, and nothing else is.
pub proof fn law_findings_are_what_was_collected(a: AuditView, x: FindingView)
    ensures
        findings_of(a).contains(x) <==> {
            ||| listener_findings(a).contains(x)
            ||| storage_findings(a).contains(x)
            ||| systemd_findings(a).contains(x)
            ||| container_findings(a).contains(x)
            ||| schedule_findings(a).contains(x)
            ||| pressure_findings(a).contains(x)
            ||| coverage_findings(a).contains(x)
        },
{
    lemma_sorted_contains(all_findings(a), rank::<Finding>(), x);
    let s1 = listener_findings(a) + storage_findings(a);
    let s2 = s1 + systemd_findings(a);
    let s3 = s2 + container_findings(a);
    let s4 = s3 + schedule_findings(a);
    let s5 = s4 + pressure_findings(a);
    lemma_concat_contains(listener_findings(a), storage_findings(a), x);
    lemma_concat_contains(s1, systemd_findings(a), x);
    lemma_concat_contains(s2, container_findings(a), x);
    lemma_concat_contains(s3, schedule_findings(a), x);
    lemma_concat_contains(s4, pressure_findings(a), x);
    lemma_concat_contains(s5, coverage_findings(a), x);
}

pub proof fn lemma_concat_contains<A>(s: Seq<A>, t: Seq<A>, x: A)
    ensures
        (s + t).contains(x) <==> s.contains(x) || t.contains(x),
{
    if s.contains(x) {
        let i = choose|i: int| 0 <= i < s.len() && s[i] == x;
        assert((s + t)[i] == x);
    }
    if t.contains(x) {
        let i = choose|i: int| 0 <= i < t.len() && t[i] == x;
        assert((s + t)[s.len() + i] == x);
    }
    if (s + t).contains(x) {
        let i = choose|i: int| 0 <= i < (s + t).len() && (s + t)[i] == x;
        assert(if i < s.len() {
            s[i] == x
        } else {
            t[i - s.len()] == x
        });
    }
}

/// A finding whose evidence stands on a tab that there is.
spec fn leads_somewhere() -> spec_fn(FindingView) -> bool {
    |f: FindingView| Tab::keyed(f.tab) is Some
}

/// The tabs that findings name are tabs that there are.
proof fn lemma_named_tabs()
    ensures
        Tab::keyed("overview"@) is Some,
        Tab::keyed("listeners"@) is Some,
        Tab::keyed("containers"@) is Some,
        Tab::keyed("services"@) is Some,
        Tab::keyed("storage"@) is Some,
        Tab::keyed("schedules"@) is Some,
        Tab::keyed("probes"@) is Some,
{
    law_slugs_lead_back(Tab::Overview);
    law_slugs_lead_back(Tab::Ports);
    law_slugs_lead_back(Tab::Containers);
    law_slugs_lead_back(Tab::Services);
    law_slugs_lead_back(Tab::Disks);
    law_slugs_lead_back(Tab::Schedules);
    law_slugs_lead_back(Tab::Probes);
}

proof fn lemma_listeners_lead(a: AuditView, x: FindingView)
    requires
        listener_findings(a).contains(x),
    ensures
        Tab::keyed(x.tab) is Some,
{
    lemma_named_tabs();
    let p = leads_somewhere();
    let found = open_ports(a.listeners).filter_map(port_rule(a.listeners));
    let other = some_of(other_ports(open_ports(a.listeners).filter_map(mention_rule())));
    lemma_filter_map_all(open_ports(a.listeners), port_rule(a.listeners), p);
    lemma_concat_contains(found + other, some_of(hidden_owners(a)), x);
    lemma_concat_contains(found, other, x);
    assert(p(x));
}

proof fn lemma_storage_leads(a: AuditView, x: FindingView)
    requires
        storage_findings(a).contains(x),
    ensures
        Tab::keyed(x.tab) is Some,
{
    lemma_named_tabs();
    let p = leads_somewhere();
    assert forall|fs: FilesystemView, j: int| 0 <= j < filesystem_rule()(fs).len() implies p(
        #[trigger] filesystem_rule()(fs)[j],
    ) by {}
    lemma_flat_map_all(a.filesystems, filesystem_rule(), p);
    assert(p(x));
}

proof fn lemma_containers_lead(a: AuditView, x: FindingView)
    requires
        container_findings(a).contains(x),
    ensures
        Tab::keyed(x.tab) is Some,
{
    lemma_named_tabs();
    let p = leads_somewhere();
    let first = a.containers.filter_map(restarting_rule());
    let second = some_of(crashed_finding(a.containers.filter_map(crashed_rule())));
    let third = some_of(published_finding(a.containers.flat_map(published_rule())));
    lemma_filter_map_all(a.containers, restarting_rule(), p);
    lemma_concat_contains(first + second, third, x);
    lemma_concat_contains(first, second, x);
    assert(p(x));
}

proof fn lemma_schedules_lead(a: AuditView, x: FindingView)
    requires
        schedule_findings(a).contains(x),
    ensures
        Tab::keyed(x.tab) is Some,
{
    lemma_named_tabs();
    let p = leads_somewhere();
    let first = a.cron.filter_map(download_rule());
    let second = some_of(boot_finding(a.cron.filter_map(boot_rule())));
    lemma_filter_map_all(a.cron, download_rule(), p);
    lemma_concat_contains(first, second, x);
    assert(p(x));
}

proof fn lemma_coverage_leads(a: AuditView, x: FindingView)
    requires
        coverage_findings(a).contains(x),
    ensures
        Tab::keyed(x.tab) is Some,
{
    lemma_named_tabs();
    let p = leads_somewhere();
    let s1 = a.probes.filter_map(failure_rule());
    let s2 = s1 + some_of(blind_finding(a));
    let s3 = s2 + some_of(partial_finding(a));
    lemma_filter_map_all(a.probes, failure_rule(), p);
    lemma_concat_contains(s3, some_of(sudo_finding(a)), x);
    lemma_concat_contains(s2, some_of(partial_finding(a)), x);
    lemma_concat_contains(s1, some_of(blind_finding(a)), x);
    assert(p(x));
}

/// Every finding names a tab that there is.
pub proof fn law_findings_name_their_tab(a: AuditView, i: int)
    requires
        0 <= i < findings_of(a).len(),
    ensures
        Tab::keyed(findings_of(a)[i].tab) is Some,
{
    let x = findings_of(a)[i];
    assert(findings_of(a).contains(x));
    law_findings_are_what_was_collected(a, x);
    if listener_findings(a).contains(x) {
        lemma_listeners_lead(a, x);
    } else if storage_findings(a).contains(x) {
        lemma_storage_leads(a, x);
    } else if container_findings(a).contains(x) {
        lemma_containers_lead(a, x);
    } else if schedule_findings(a).contains(x) {
        lemma_schedules_lead(a, x);
    } else if coverage_findings(a).contains(x) {
        lemma_coverage_leads(a, x);
    } else {
        lemma_named_tabs();
    }
}

/// A service that listens on every interface is told of: a datastore or an
/// administration interface is worth a finding of the highest severity, an
/// internal one a finding of medium severity, and any other port is mentioned,
/// except those that are public on purpose.
pub proof fn law_exposed_ports_are_reported(a: AuditView, i: int)
    requires
        0 <= i < a.listeners.len(),
        open_port_of(a.listeners[i]) is Some,
    ensures
        ({
            let k = open_port_of(a.listeners[i])->0;
            let mentions = open_ports(a.listeners).filter_map(mention_rule());
            if datastore_port(k.port) is Some {
                &&& port_finding(a.listeners, k) is Some
                &&& port_finding(a.listeners, k)->0.severity is High
                &&& findings_of(a).contains(port_finding(a.listeners, k)->0)
            } else if internal_port(k.port) is Some {
                &&& port_finding(a.listeners, k) is Some
                &&& port_finding(a.listeners, k)->0.severity is Medium
                &&& findings_of(a).contains(port_finding(a.listeners, k)->0)
            } else if !expected_public(k.port) {
                &&& port_mention(k) is Some
                &&& text_set(mentions).contains(port_mention(k)->0)
                &&& other_ports(mentions) is Some
                &&& findings_of(a).contains(other_ports(mentions)->0)
            } else {
                true
            }
        }),
{
    let l = a.listeners;
    let k = open_port_of(l[i])->0;
    let all = l.filter_map(open_port_rule());
    let open = open_ports(l);
    lemma_filter_map_keeps(l, open_port_rule(), i);
    lemma_sorted_contains(all, rank::<OpenPort>(), k);
    lemma_distinct_contains(sorted(all, rank::<OpenPort>()), k);
    let j = choose|j: int| 0 <= j < open.len() && open[j] == k;
    let found = open.filter_map(port_rule(l));
    let mentions = open.filter_map(mention_rule());
    let other = some_of(other_ports(mentions));
    if port_finding(l, k) is Some {
        let x = port_finding(l, k)->0;
        lemma_filter_map_keeps(open, port_rule(l), j);
        lemma_concat_contains(found, other, x);
        lemma_concat_contains(found + other, some_of(hidden_owners(a)), x);
        law_findings_are_what_was_collected(a, x);
    } else if port_mention(k) is Some {
        lemma_filter_map_keeps(open, mention_rule(), j);
        lemma_text_set_contains(mentions, port_mention(k)->0);
        let x = other_ports(mentions)->0;
        assert(other[0] == x);
        lemma_concat_contains(found, other, x);
        lemma_concat_contains(found + other, some_of(hidden_owners(a)), x);
        law_findings_are_what_was_collected(a, x);
    }
}

/// One more socket with a known owner hides no owner and shows none.
proof fn lemma_owner_known(a: AuditView, b: AuditView, l: ListenerView)
    requires
        b == (AuditView { listeners: a.listeners.push(l), ..a }),
        l.process is Some,
    ensures
        owners_hidden(a) == owners_hidden(b),
{
    let s = a.listeners;
    let t = b.listeners;
    if owners_hidden(a) {
        let i = choose|i: int| 0 <= i < s.len() && (#[trigger] s[i]).process is None;
        assert(t[i].process is None);
    }
    if owners_hidden(b) {
        let i = choose|i: int| 0 <= i < t.len() && (#[trigger] t[i]).process is None;
        assert(s[i].process is None);
    }
}

/// One more socket that is not open, or on an expected port, changes what is said of no
/// open port.
#[verifier::spinoff_prover]
proof fn lemma_ports_said_alike(s: Seq<ListenerView>, l: ListenerView)
    requires
        open_port_of(l) is Some ==> expected_public(open_port_of(l)->0.port),
    ensures
        port_rule(s.push(l)) == port_rule(s),
{
    let t = s.push(l);
    assert(t.drop_last() =~= s);
    assert(t.last() == l);
    assert forall|x: OpenPortView| #[trigger] port_rule(t)(x) == port_rule(s)(x) by {
        if open_port_of(l) != Some(x) {
            assert(endpoint_of_port(x)(l) is None);
            assert(t.filter_map(endpoint_of_port(x)) == s.filter_map(endpoint_of_port(x)));
        }
    }
    assert(port_rule(t) =~= port_rule(s));
}

/// A port that is worth no finding and no mention leaves no trace among the open ones.
#[verifier::spinoff_prover]
proof fn lemma_port_drops_out<B>(
    s: Seq<ListenerView>,
    l: ListenerView,
    f: spec_fn(OpenPortView) -> Option<B>,
)
    requires
        match open_port_of(l) {
            Some(k) => f(k) is None,
            None => true,
        },
    ensures
        open_ports(s.push(l)).filter_map(f) == open_ports(s).filter_map(f),
{
    let t = s.push(l);
    assert(t.drop_last() =~= s);
    assert(t.last() == l);
    let le = rank::<OpenPort>();
    let keys = s.filter_map(open_port_rule());
    let more = t.filter_map(open_port_rule());
    match open_port_of(l) {
        Some(k) => {
            assert(more =~= keys.push(k));
            assert(more.drop_last() =~= keys);
            assert(more.last() == k);
            let ks = sorted(keys, le);
            assert(sorted(more, le) == placed(ks, k, le));
            lemma_text_order_total();
            assert(rank::<String>()(k.who, k.who) || rank::<String>()(k.who, k.who));
            assert(le(k, k));
            lemma_placed_drops_out(ks, k, le, f);
        },
        None => {
            assert(more == keys);
        },
    }
}

/// One more socket on port 22, 80 or 443 changes no finding, wherever it listens,
/// as long as its owner is known.
#[verifier::spinoff_prover]
pub proof fn law_public_ports_change_nothing(a: AuditView, l: ListenerView)
    requires
        l.port_num() is Some,
        expected_public(l.port_num()->0 as u16),
        l.process is Some,
    ensures
        findings_of(AuditView { listeners: a.listeners.push(l), ..a }) == findings_of(a),
{
    let b = AuditView { listeners: a.listeners.push(l), ..a };
    lemma_owner_known(a, b, l);
    lemma_ports_said_alike(a.listeners, l);
    lemma_port_drops_out(a.listeners, l, port_rule(a.listeners));
    lemma_port_drops_out(a.listeners, l, mention_rule());
    assert(listener_findings(b) == listener_findings(a));
}

/// One more socket that only this machine or one interface can reach changes no finding,
/// whatever its port, as long as its owner is known.
#[verifier::spinoff_prover]
pub proof fn law_closed_sockets_change_nothing(a: AuditView, l: ListenerView)
    requires
        l.exposure is Loopback || l.exposure is Interface,
        l.process is Some,
    ensures
        findings_of(AuditView { listeners: a.listeners.push(l), ..a }) == findings_of(a),
{
    let b = AuditView { listeners: a.listeners.push(l), ..a };
    lemma_owner_known(a, b, l);
    lemma_ports_said_alike(a.listeners, l);
    lemma_port_drops_out(a.listeners, l, port_rule(a.listeners));
    lemma_port_drops_out(a.listeners, l, mention_rule());
    assert(listener_findings(b) == listener_findings(a));
}

/// One more service that has not failed changes no finding.
pub proof fn law_sound_services_change_nothing(a: AuditView, s: ServiceView)
    requires
        s.active != "failed"@,
        s.sub != "failed"@,
    ensures
        findings_of(AuditView { services: a.services.push(s), ..a }) == findings_of(a),
{
    let b = AuditView { services: a.services.push(s), ..a };
    assert(b.services.drop_last() =~= a.services);
    assert(b.services.filter_map(failed_unit()) == a.services.filter_map(failed_unit()));
    assert(all_findings(b) == all_findings(a));
}

/// One more job that neither runs at boot nor feeds a shell changes no finding.
pub proof fn law_plain_jobs_change_nothing(a: AuditView, c: CronEntryView)
    requires
        c.schedule != "@reboot"@,
        !contains_text(lowercase(c.command), "curl "@) && !contains_text(
            lowercase(c.command),
            "wget "@,
        ) || pieces(lowercase(c.command), '|').len() == 1,
    ensures
        findings_of(AuditView { cron: a.cron.push(c), ..a }) == findings_of(a),
{
    let b = AuditView { cron: a.cron.push(c), ..a };
    assert(b.cron.drop_last() =~= a.cron);
    assert(b.cron.filter_map(download_rule()) == a.cron.filter_map(download_rule()));
    assert(b.cron.filter_map(boot_rule()) == a.cron.filter_map(boot_rule()));
    assert(all_findings(b) == all_findings(a));
}

/// One more probe that succeeded, had nothing to say, was skipped or has no tool on this
/// machine changes no finding.
pub proof fn law_answered_probes_change_nothing(a: AuditView, p: ProbeOutcomeView)
    requires
        p.status is Complete || p.status is Empty || p.status is Skipped || p.status is Unsupported,
    ensures
        findings_of(AuditView { probes: a.probes.push(p), ..a }) == findings_of(a),
{
    let b = AuditView { probes: a.probes.push(p), ..a };
    assert(b.probes.drop_last() =~= a.probes);
    assert(b.probes.filter_map(failure_rule()) == a.probes.filter_map(failure_rule()));
    let d = label_rule(ProbeStatus::Denied);
    let q = label_rule(ProbeStatus::Partial);
    assert(b.probes.filter_map(d) == a.probes.filter_map(d));
    assert(b.probes.filter_map(q) == a.probes.filter_map(q));
    assert(all_findings(b) == all_findings(a));
}

/// One more container that neither restarts nor exited, and publishes no port on a
/// wildcard address, changes no finding.
pub proof fn law_quiet_containers_change_nothing(a: AuditView, c: ContainerView)
    requires
        c.state != "restarting"@,
        c.state != "exited"@ || c.exit_code() == Some(0int),
        forall|i: int|
            0 <= i < c.ports.len() ==> {
                let ip = (#[trigger] c.ports[i]).host_ip;
                ip != "0.0.0.0"@ && ip != "::"@ && ip != "*"@ && ip != "[::]"@
            },
    ensures
        findings_of(AuditView { containers: a.containers.push(c), ..a }) == findings_of(a),
{
    let b = AuditView { containers: a.containers.push(c), ..a };
    assert(b.containers.drop_last() =~= a.containers);
    assert(b.containers.filter_map(restarting_rule()) == a.containers.filter_map(restarting_rule()));
    assert(b.containers.filter_map(crashed_rule()) == a.containers.filter_map(crashed_rule()));
    a.containers.lemma_flat_map_push(published_rule(), c);
    lemma_none_published(c.ports, c.name);
    assert(published_rule()(c) =~= seq![]);
    assert(b.containers.flat_map(published_rule()) =~= a.containers.flat_map(published_rule()));
    assert(all_findings(b) == all_findings(a));
}

proof fn lemma_none_published(ports: Seq<PortMappingView>, name: Seq<char>)
    requires
        forall|i: int| 0 <= i < ports.len() ==> !(#[trigger] ports[i]).wide_open(),
    ensures
        ports.filter_map(published_port(name)) =~= seq![],
    decreases ports.len(),
{
    if ports.len() > 0 {
        let rest = ports.drop_last();
        assert(ports.last() == ports[ports.len() - 1]);
        assert forall|i: int| 0 <= i < rest.len() implies !(#[trigger] rest[i]).wide_open() by {
            assert(rest[i] == ports[i]);
        }
        lemma_none_published(rest, name);
    }
}

/// One more filesystem of which nothing is known, or that is none that can run full,
/// changes no finding.
pub proof fn law_other_filesystems_change_nothing(a: AuditView, fs: FilesystemView)
    requires
        fs.pseudo() || (fs.use_pct is None && fs.inode_pct is None),
    ensures
        findings_of(AuditView { filesystems: a.filesystems.push(fs), ..a }) == findings_of(a),
{
    let b = AuditView { filesystems: a.filesystems.push(fs), ..a };
    a.filesystems.lemma_flat_map_push(filesystem_rule(), fs);
    assert(filesystem_rule()(fs) =~= seq![]);
    assert(storage_findings(b) =~= storage_findings(a));
    assert(all_findings(b) == all_findings(a));
}

/// An element that a function drops can be put in its place without a trace.
proof fn lemma_placed_drops_out<A, B>(
    s: Seq<A>,
    k: A,
    le: spec_fn(A, A) -> bool,
    f: spec_fn(A) -> Option<B>,
)
    requires
        f(k) is None,
        le(k, k),
    ensures
        distinct(placed(s, k, le)).filter_map(f) == distinct(s).filter_map(f),
    decreases s.len(),
{
    if s.len() == 0 || le(s.last(), k) {
        let p = s.push(k);
        assert(p.drop_last() =~= s);
        assert(placed(s, k, le) == p);
        if s.len() == 0 {
            assert(distinct(p) =~= seq![k]);
            assert(seq![k].drop_last() =~= seq![]);
            assert(distinct(s) =~= seq![]);
            assert(seq![k].last() == k);
        } else if s.last() != k {
            assert(distinct(p) == distinct(s).push(k));
            assert(distinct(s).push(k).drop_last() =~= distinct(s));
        }
    } else {
        let t = s.drop_last();
        let x = s.last();
        let q = placed(t, k, le);
        let p = q.push(x);
        assert(placed(s, k, le) == p);
        assert(p.drop_last() =~= q);
        lemma_placed_drops_out(t, k, le, f);
        lemma_placed_len(t, k, le);
        if t.len() == 0 || le(t.last(), k) {
            assert(q == t.push(k));
            assert(distinct(p) == distinct(q).push(x));
            assert(distinct(q).push(x).drop_last() =~= distinct(q));
            if t.len() == 0 {
                assert(distinct(s) =~= distinct(t).push(x));
            }
            assert(distinct(t).push(x).drop_last() =~= distinct(t));
        } else {
            assert(q.last() == t.last());
            assert(distinct(q).push(x).drop_last() =~= distinct(q));
            assert(distinct(t).push(x).drop_last() =~= distinct(t));
        }
    }
}

/// A real filesystem that is nearly full, or nearly out of inodes, is told of.
pub proof fn law_full_disks_are_reported(a: AuditView, i: int)
    requires
        0 <= i < a.filesystems.len(),
        !a.filesystems[i].pseudo(),
    ensures
        ({
            let fs = a.filesystems[i];
            &&& fill_severity(fs) is Some ==> space_finding(fs) is Some && findings_of(a).contains(
                space_finding(fs)->0,
            )
            &&& inode_finding(fs) is Some ==> findings_of(a).contains(inode_finding(fs)->0)
        }),
{
    let fs = a.filesystems[i];
    let both = filesystem_findings(fs);
    if space_finding(fs) is Some {
        let x = space_finding(fs)->0;
        assert(both[0] == x);
        lemma_flat_map_keeps(a.filesystems, filesystem_rule(), i, x);
        law_findings_are_what_was_collected(a, x);
    }
    if inode_finding(fs) is Some {
        let x = inode_finding(fs)->0;
        assert(both.last() == x);
        assert(both[both.len() - 1] == x);
        lemma_flat_map_keeps(a.filesystems, filesystem_rule(), i, x);
        law_findings_are_what_was_collected(a, x);
    }
}

/// A unit that failed is told of by its name.
pub proof fn law_failed_units_are_reported(a: AuditView, i: int)
    requires
        0 <= i < a.services.len(),
        a.services[i].failed(),
    ensures
        a.services.filter_map(failed_unit()).contains(a.services[i].unit),
        systemd_findings(a).len() == 1,
        findings_of(a).contains(systemd_findings(a)[0]),
{
    lemma_filter_map_keeps(a.services, failed_unit(), i);
    law_findings_are_what_was_collected(a, systemd_findings(a)[0]);
}

/// A container that keeps restarting is told of.
pub proof fn law_restarting_containers_are_reported(a: AuditView, i: int)
    requires
        0 <= i < a.containers.len(),
        a.containers[i].state == "restarting"@,
    ensures
        restarting_rule()(a.containers[i]) is Some,
        findings_of(a).contains(restarting_rule()(a.containers[i])->0),
{
    let f = restarting_rule();
    let x = f(a.containers[i])->0;
    lemma_filter_map_keeps(a.containers, f, i);
    let first = a.containers.filter_map(f);
    let second = some_of(crashed_finding(a.containers.filter_map(crashed_rule())));
    let third = some_of(published_finding(a.containers.flat_map(published_rule())));
    lemma_concat_contains(first, second, x);
    lemma_concat_contains(first + second, third, x);
    law_findings_are_what_was_collected(a, x);
}

/// A container port that is published on every interface is told of.
pub proof fn law_published_ports_are_reported(a: AuditView, i: int, j: int)
    requires
        0 <= i < a.containers.len(),
        0 <= j < a.containers[i].ports.len(),
        a.containers[i].ports[j].wide_open(),
    ensures
        ({
            let published = a.containers.flat_map(published_rule());
            &&& published.contains(
                a.containers[i].name + " "@ + a.containers[i].ports[j].rendered(),
            )
            &&& published_finding(published) is Some
            &&& findings_of(a).contains(published_finding(published)->0)
        }),
{
    let c = a.containers[i];
    let f = published_port(c.name);
    lemma_filter_map_keeps(c.ports, f, j);
    let published = a.containers.flat_map(published_rule());
    lemma_flat_map_keeps(
        a.containers,
        published_rule(),
        i,
        c.name + " "@ + c.ports[j].rendered(),
    );
    let first = a.containers.filter_map(restarting_rule());
    let second = some_of(crashed_finding(a.containers.filter_map(crashed_rule())));
    let third = some_of(published_finding(published));
    let x = published_finding(published)->0;
    assert(third[0] == x);
    lemma_concat_contains(first + second, third, x);
    law_findings_are_what_was_collected(a, x);
}

/// A job that runs what it downloads is told of, with the highest severity.
pub proof fn law_download_jobs_are_reported(a: AuditView, i: int)
    requires
        0 <= i < a.cron.len(),
        feeds_shell(lowercase(a.cron[i].command)),
    ensures
        download_rule()(a.cron[i]) is Some,
        download_rule()(a.cron[i])->0.severity is High,
        findings_of(a).contains(download_rule()(a.cron[i])->0),
{
    let f = download_rule();
    let x = f(a.cron[i])->0;
    lemma_filter_map_keeps(a.cron, f, i);
    lemma_concat_contains(
        a.cron.filter_map(f),
        some_of(boot_finding(a.cron.filter_map(boot_rule()))),
        x,
    );
    law_findings_are_what_was_collected(a, x);
}

/// A job that runs at every boot is told of by its command.
pub proof fn law_boot_jobs_are_reported(a: AuditView, i: int)
    requires
        0 <= i < a.cron.len(),
        a.cron[i].schedule == "@reboot"@,
    ensures
        ({
            let jobs = a.cron.filter_map(boot_rule());
            &&& jobs.contains(a.cron[i].command)
            &&& boot_finding(jobs) is Some
            &&& findings_of(a).contains(boot_finding(jobs)->0)
        }),
{
    let jobs = a.cron.filter_map(boot_rule());
    lemma_filter_map_keeps(a.cron, boot_rule(), i);
    let x = boot_finding(jobs)->0;
    assert(some_of(boot_finding(jobs))[0] == x);
    lemma_concat_contains(a.cron.filter_map(download_rule()), some_of(boot_finding(jobs)), x);
    law_findings_are_what_was_collected(a, x);
}

/// Where sudo wants a password, the findings say so.
pub proof fn law_sudo_password_is_reported(a: AuditView)
    requires
        a.host.sudo is NeedsPassword,
    ensures
        sudo_finding(a) is Some,
        findings_of(a).contains(sudo_finding(a)->0),
{
    let x = sudo_finding(a)->0;
    let pre = a.probes.filter_map(failure_rule()) + some_of(blind_finding(a)) + some_of(
        partial_finding(a),
    );
    assert(coverage_findings(a)[pre.len() as int] == x);
    lemma_in_coverage(a, x);
}

} // verus!
