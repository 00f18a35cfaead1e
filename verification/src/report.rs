//! Non-interactive renderings of an audit: plain text for a terminal, Markdown
//! for a ticket or a pull request.

use crate::float::Single;
use crate::fmt::{
    cat12, cat2, cat3, cat4, cat5, cat6, cat7, cat8, cat9, dec, decimal, pad_left, pad_right,
    padded_left, padded_right, repeat, repeated,
};
use crate::gather::pick;
use crate::model::{
    first_probe, Audit, AuditView, Container, ContainerView, CronEntry, CronEntryView, DirUsage,
    DirUsageView, Filesystem, FilesystemView, Finding, FindingView, HostInfoView, Listener,
    ListenerView, PortMapping, PortMappingView, ProbeOutcome, ProbeOutcomeView, Service,
    ServiceView, Timer, TimerView, UnitFile, UnitFileView,
};
use crate::parse::{bytes_text, format_bytes};
use crate::sorting::{rank, sort, sorted, text_at_most, Ranked};
use crate::text::{
    chars_of, contains_text, eq, holds_text, is_blank, join, joined, lemma_holds_last,
    lemma_holds_then, viewed, views,
};
use vstd::prelude::*;
use vstd::utf8::encode_utf8;

verus! {

/// What a report is written for.
#[derive(Debug, Clone, Copy, PartialEq, Eq, Structural)]
pub enum Flavor {
    Text,
    Markdown,
}

impl Flavor {
    /// A title: underlined, by the length of its bytes, where there is no markup.
    pub open spec fn title(self, s: Seq<char>) -> Seq<char> {
        match self {
            Self::Markdown => "# "@ + s + "\n"@,
            Self::Text => s + "\n"@ + repeated('=', encode_utf8(s).len() as int) + "\n"@,
        }
    }

    /// A heading.
    pub open spec fn heading(self, s: Seq<char>) -> Seq<char> {
        match self {
            Self::Markdown => "\n## "@ + s + "\n"@,
            Self::Text => "\n"@ + s + "\n"@ + repeated('-', encode_utf8(s).len() as int) + "\n"@,
        }
    }

    /// A list item.
    pub open spec fn item(self, s: Seq<char>) -> Seq<char> {
        match self {
            Self::Markdown => "- "@ + s + "\n"@,
            Self::Text => "  * "@ + s + "\n"@,
        }
    }

    /// A piece of code.
    pub open spec fn verbatim(self, s: Seq<char>) -> Seq<char> {
        match self {
            Self::Markdown => "`"@ + s + "`"@,
            Self::Text => s,
        }
    }

    /// Items one after the other.
    pub open spec fn items(self, s: Seq<Seq<char>>) -> Seq<char>
        decreases s.len(),
    {
        if s.len() == 0 {
            seq![]
        } else {
            self.items(s.drop_last()) + self.item(s.last())
        }
    }

    pub fn h1(self, s: &str) -> (r: String)
        ensures
            r@ == self.title(s@),
    {
        match self {
            Self::Markdown => cat3("# ", s, "\n"),
            Self::Text => {
                let line = repeat('=', s.as_bytes().len());
                cat4(s, "\n", line.as_str(), "\n")
            },
        }
    }

    pub fn h2(self, s: &str) -> (r: String)
        ensures
            r@ == self.heading(s@),
    {
        match self {
            Self::Markdown => cat3("\n## ", s, "\n"),
            Self::Text => {
                let line = repeat('-', s.as_bytes().len());
                cat5("\n", s, "\n", line.as_str(), "\n")
            },
        }
    }

    pub fn bullet(self, s: &str) -> (r: String)
        ensures
            r@ == self.item(s@),
    {
        match self {
            Self::Markdown => cat3("- ", s, "\n"),
            Self::Text => cat3("  * ", s, "\n"),
        }
    }

    pub fn code(self, s: &str) -> (r: String)
        ensures
            r@ == self.verbatim(s@),
    {
        match self {
            Self::Markdown => cat3("`", s, "`"),
            Self::Text => s.to_string(),
        }
    }

    fn bullets(self, s: &Vec<String>) -> (r: String)
        ensures
            r@ == self.items(views(s@)),
    {
        let mut r = String::new();
        let ghost all = views(s@);
        let mut i: usize = 0;
        assert(r@ =~= self.items(all.take(0)));
        while i < s.len()
            invariant
                i <= s.len(),
                all == views(s@),
                r@ == self.items(all.take(i as int)),
            decreases s.len() - i,
        {
            assert(all.take(i + 1).drop_last() =~= all.take(i as int));
            assert(all.take(i + 1).last() == s@[i as int]@);
            let item = self.bullet(s[i].as_str());
            r.append(item.as_str());
            i += 1;
        }
        assert(all.take(all.len() as int) =~= all);
        r
    }
}

/// What is said of a section whose probe could not look: "unknown", never
/// "none". Nothing where it could, or where there was no such probe.
pub open spec fn blind_text(a: AuditView, id: Seq<char>) -> Option<Seq<char>> {
    match first_probe(a.probes, id) {
        Some(p) => if p.status.was_seen() {
            None
        } else {
            Some(
                "not collected ("@ + p.status.name() + "): "@ + (if p.note.len() == 0 {
                    p.command
                } else {
                    p.note
                }),
            )
        },
        None => None,
    }
}

/// A section whose probe did not succeed must say "unknown", never "none".
pub fn blind_note(a: &Audit, id: &str) -> (r: Option<String>)
    ensures
        viewed(r) == blind_text(a@, id@),
{
    match a.probe(id) {
        Some(p) => if p.status.looked() {
            None
        } else {
            Some(
                cat4(
                    "not collected (",
                    p.status.label(),
                    "): ",
                    if is_blank(&p.note) {
                        p.command.as_str()
                    } else {
                        p.note.as_str()
                    },
                ),
            )
        },
        None => None,
    }
}

/// The items of a section, or why there are none to show.
pub open spec fn section_text(
    f: Flavor,
    a: AuditView,
    id: Seq<char>,
    items: Seq<Seq<char>>,
) -> Seq<char> {
    match blind_text(a, id) {
        Some(note) => f.item(note),
        None => f.items(items),
    }
}

fn section(f: Flavor, a: &Audit, id: &str, items: &Vec<String>) -> (r: String)
    ensures
        r@ == section_text(f, a@, id@, views(items@)),
{
    match blind_note(a, id) {
        Some(note) => f.bullet(note.as_str()),
        None => f.bullets(items),
    }
}

/// A heading with the number of items below it.
pub open spec fn counted_heading(f: Flavor, what: Seq<char>, n: nat) -> Seq<char> {
    f.heading(what + " ("@ + dec(n) + ")"@)
}

fn counted(f: Flavor, what: &str, n: usize) -> (r: String)
    ensures
        r@ == counted_heading(f, what@, n as nat),
{
    let n = decimal(n as u64);
    let s = cat4(what, " (", n.as_str(), ")");
    f.h2(s.as_str())
}

// ---------------------------------------------------------------- host ----

/// A fact that is known.
pub open spec fn fact(key: Seq<char>, value: Seq<char>) -> Seq<Seq<char>> {
    if value.len() == 0 {
        seq![]
    } else {
        seq![key + ": "@ + value]
    }
}

/// The known facts about a host.
pub open spec fn host_items(h: HostInfoView) -> Seq<Seq<char>> {
    fact("hostname"@, h.hostname) + fact("os"@, h.os) + fact("kernel"@, h.kernel) + fact(
        "arch"@,
        h.arch,
    ) + fact("virt"@, h.virt) + fact("uptime"@, h.uptime) + fact("cpus"@, h.cpus) + fact(
        "load"@,
        h.load,
    ) + (match (h.mem_total_mb, h.mem_used_mb) {
        (Some(t), Some(u)) => seq![
            "memory: "@ + dec(u as nat) + " MB used of "@ + dec(t as nat) + " MB"@,
        ],
        _ => seq![],
    })
}

pub open spec fn host_section(a: AuditView, f: Flavor) -> Seq<char> {
    f.heading("Host"@) + f.items(host_items(a.host))
}

fn add_fact(items: &mut Vec<String>, key: &str, value: &String)
    ensures
        views(final(items)@) == views(old(items)@) + fact(key@, value@),
{
    let ghost before = items@;
    if !is_blank(value) {
        let line = cat3(key, ": ", value.as_str());
        let ghost seen = line@;
        items.push(line);
        assert(views(items@) =~= views(before) + seq![seen]);
    } else {
        assert(views(items@) =~= views(before) + seq![]);
    }
}

pub fn section_host(a: &Audit, f: Flavor) -> (r: String)
    ensures
        r@ == host_section(a@, f),
{
    let h = &a.host;
    let mut items: Vec<String> = Vec::new();
    assert(views(items@) =~= seq![]);
    add_fact(&mut items, "hostname", &h.hostname);
    assert(views(items@) =~= fact("hostname"@, h.hostname@));
    add_fact(&mut items, "os", &h.os);
    add_fact(&mut items, "kernel", &h.kernel);
    add_fact(&mut items, "arch", &h.arch);
    add_fact(&mut items, "virt", &h.virt);
    add_fact(&mut items, "uptime", &h.uptime);
    add_fact(&mut items, "cpus", &h.cpus);
    add_fact(&mut items, "load", &h.load);
    let ghost before = items@;
    if let (Some(t), Some(u)) = (h.mem_total_mb, h.mem_used_mb) {
        let used = decimal(u);
        let total = decimal(t);
        let line = cat5("memory: ", used.as_str(), " MB used of ", total.as_str(), " MB");
        let ghost seen = line@;
        items.push(line);
        assert(views(items@) =~= views(before) + seq![seen]);
    } else {
        assert(views(items@) =~= views(before) + seq![]);
    }
    let head = f.h2("Host");
    let body = f.bullets(&items);
    cat2(head.as_str(), body.as_str())
}

// ------------------------------------------------------------ findings ----

pub open spec fn finding_item() -> spec_fn(FindingView) -> Option<Seq<char>> {
    |x: FindingView| Some("**"@ + x.severity.name() + "** "@ + x.title + " — "@ + x.detail)
}

pub open spec fn findings_section(a: AuditView, f: Flavor) -> Seq<char> {
    counted_heading(f, "Findings"@, a.findings.len()) + (if a.findings.len() == 0 {
        f.item("nothing stood out"@)
    } else {
        f.items(a.findings.filter_map(finding_item()))
    })
}

fn finding_line(x: &Finding) -> (r: Option<String>)
    ensures
        viewed(r) == finding_item()(x@),
{
    Some(
        cat6("**", x.severity.label(), "** ", x.title.as_str(), " — ", x.detail.as_str()),
    )
}

pub fn section_findings(a: &Audit, f: Flavor) -> (r: String)
    ensures
        r@ == findings_section(a@, f),
{
    let head = counted(f, "Findings", a.findings.len());
    assert(a@.findings.len() == a.findings@.len());
    let body = if a.findings.len() == 0 {
        f.bullet("nothing stood out")
    } else {
        let items = pick(&a.findings, finding_line, Ghost(finding_item()));
        f.bullets(&items)
    };
    cat2(head.as_str(), body.as_str())
}

// ----------------------------------------------------------- listeners ----

/// A listener in the order of ports, the unnumbered last, then of protocols.
pub struct ByPort<'a> {
    pub listener: &'a Listener,
}

impl<'a> View for ByPort<'a> {
    type V = ListenerView;

    open spec fn view(&self) -> ListenerView {
        self.listener@
    }
}

/// The number that a listener is sorted by.
pub open spec fn port_or_last(l: ListenerView) -> nat {
    match l.port_num() {
        Some(n) => n,
        None => u16::MAX as nat,
    }
}

impl<'a> Ranked for ByPort<'a> {
    open spec fn at_most(a: ListenerView, b: ListenerView) -> bool {
        if port_or_last(a) != port_or_last(b) {
            port_or_last(a) < port_or_last(b)
        } else {
            text_at_most(a.proto, b.proto)
        }
    }

    fn ranks_at_most(&self, other: &Self) -> (yes: bool) {
        let x: u16 = match self.listener.port_num() {
            Some(n) => n,
            None => u16::MAX,
        };
        let y: u16 = match other.listener.port_num() {
            Some(n) => n,
            None => u16::MAX,
        };
        if x != y {
            x < y
        } else {
            self.listener.proto.ranks_at_most(&other.listener.proto)
        }
    }
}

pub open spec fn listener_item(f: Flavor) -> spec_fn(ListenerView) -> Option<Seq<char>> {
    |l: ListenerView|
        Some(
            padded_right(l.proto, 4) + " "@ + padded_right(f.verbatim(l.endpoint()), 24) + " "@
                + padded_right(l.exposure.name(), 6) + " "@ + (match l.process {
                Some(name) => name,
                None => "?"@,
            }),
        )
}

/// The listeners in the order in which a report lists them.
pub open spec fn listeners_by_port(a: AuditView) -> Seq<ListenerView> {
    sorted(a.listeners, rank::<ByPort>())
}

pub open spec fn listeners_section(a: AuditView, f: Flavor) -> Seq<char> {
    counted_heading(f, "Listening sockets"@, a.listeners.len()) + section_text(
        f,
        a,
        "listeners"@,
        listeners_by_port(a).filter_map(listener_item(f)),
    )
}

fn listener_line(f: Flavor, l: &Listener) -> (r: Option<String>)
    ensures
        viewed(r) == listener_item(f)(l@),
{
    let proto = pad_right(l.proto.as_str(), 4);
    let endpoint = l.endpoint();
    let code = f.code(endpoint.as_str());
    let place = pad_right(code.as_str(), 24);
    let reach = pad_right(l.exposure.label(), 6);
    let who = match &l.process {
        Some(name) => name.as_str(),
        None => "?",
    };
    Some(cat7(proto.as_str(), " ", place.as_str(), " ", reach.as_str(), " ", who))
}

pub fn by_port<'a>(listeners: &'a Vec<Listener>) -> (r: Vec<ByPort<'a>>)
    ensures
        views(r@) == sorted(views(listeners@), rank::<ByPort>()),
{
    let mut rows: Vec<ByPort<'a>> = Vec::new();
    let mut i: usize = 0;
    while i < listeners.len()
        invariant
            i <= listeners.len(),
            rows@.len() == i,
            forall|k: int| 0 <= k < i ==> (#[trigger] rows@[k])@ == listeners@[k]@,
        decreases listeners.len() - i,
    {
        rows.push(ByPort { listener: &listeners[i] });
        i += 1;
    }
    assert(views(rows@) =~= views(listeners@));
    sort(rows)
}

pub fn section_listeners(a: &Audit, f: Flavor) -> (r: String)
    ensures
        r@ == listeners_section(a@, f),
{
    let head = counted(f, "Listening sockets", a.listeners.len());
    let rows = by_port(&a.listeners);
    let line = |row: &ByPort| -> (r: Option<String>)
        ensures
            viewed(r) == listener_item(f)(row@),
        { listener_line(f, row.listener) };
    let items = pick(&rows, line, Ghost(listener_item(f)));
    let body = section(f, a, "listeners", &items);
    cat2(head.as_str(), body.as_str())
}

// ---------------------------------------------------------- containers ----

/// A mapping as it is shown.
pub open spec fn mapping_text() -> spec_fn(PortMappingView) -> Option<Seq<char>> {
    |p: PortMappingView| Some(p.rendered())
}

/// The ports of a container as they are shown.
pub open spec fn ports_text(c: ContainerView) -> Seq<char> {
    joined(c.ports.filter_map(mapping_text()), ", "@)
}

pub open spec fn container_item() -> spec_fn(ContainerView) -> Option<Seq<char>> {
    |c: ContainerView|
        Some(
            c.name + " ["@ + c.state + "] "@ + c.image + " — "@ + c.status + " — "@ + (
            if c.ports.len() == 0 {
                "-"@
            } else {
                ports_text(c)
            }),
        )
}

pub open spec fn containers_section(a: AuditView, f: Flavor) -> Seq<char> {
    counted_heading(f, "Containers"@, a.containers.len()) + section_text(
        f,
        a,
        "containers"@,
        a.containers.filter_map(container_item()),
    )
}

fn mapping_line(p: &PortMapping) -> (r: Option<String>)
    ensures
        viewed(r) == mapping_text()(p@),
{
    Some(p.render())
}

pub fn show_ports(c: &Container) -> (r: String)
    ensures
        r@ == ports_text(c@),
{
    let shown = pick(&c.ports, mapping_line, Ghost(mapping_text()));
    join(&shown, ", ")
}

fn container_line(c: &Container) -> (r: Option<String>)
    ensures
        viewed(r) == container_item()(c@),
{
    assert(c@.ports.len() == c.ports@.len());
    let ports = if c.ports.len() == 0 {
        "-".to_string()
    } else {
        show_ports(c)
    };
    Some(
        cat9(
            c.name.as_str(),
            " [",
            c.state.as_str(),
            "] ",
            c.image.as_str(),
            " — ",
            c.status.as_str(),
            " — ",
            ports.as_str(),
        ),
    )
}

pub fn section_containers(a: &Audit, f: Flavor) -> (r: String)
    ensures
        r@ == containers_section(a@, f),
{
    let head = counted(f, "Containers", a.containers.len());
    let items = pick(&a.containers, container_line, Ghost(container_item()));
    let body = section(f, a, "containers", &items);
    cat2(head.as_str(), body.as_str())
}

// ------------------------------------------------------------ services ----

pub open spec fn service_item() -> spec_fn(ServiceView) -> Option<Seq<char>> {
    |s: ServiceView|
        Some(s.unit + " ["@ + s.active + "/"@ + s.sub + "] "@ + s.description)
}

/// Whether a unit is among the services that were listed.
pub open spec fn is_listed(services: Seq<ServiceView>, unit: Seq<char>) -> bool {
    exists|i: int| 0 <= i < services.len() && (#[trigger] services[i]).unit == unit
}

/// Whether a unit that starts at boot is not there. `getty@.service` is a
/// template; it never runs under that name.
pub open spec fn never_started(services: Seq<ServiceView>, unit: Seq<char>) -> bool {
    !is_listed(services, unit) && !contains_text(unit, "@."@)
}

pub open spec fn unit_item(services: Seq<ServiceView>) -> spec_fn(UnitFileView) -> Option<Seq<char>> {
    |u: UnitFileView|
        Some(
            u.unit + (if never_started(services, u.unit) {
                "  (inactive)"@
            } else {
                ""@
            }),
        )
}

pub open spec fn services_section(a: AuditView, f: Flavor) -> Seq<char> {
    f.heading("Services ("@ + dec(a.services.len()) + " running, completed or failed)"@)
        + section_text(f, a, "services"@, a.services.filter_map(service_item())) + counted_heading(
        f,
        "Enabled at boot"@,
        a.unit_files.len(),
    ) + section_text(f, a, "unitfiles"@, a.unit_files.filter_map(unit_item(a.services)))
}

fn service_line(s: &Service) -> (r: Option<String>)
    ensures
        viewed(r) == service_item()(s@),
{
    Some(
        cat7(
            s.unit.as_str(),
            " [",
            s.active.as_str(),
            "/",
            s.sub.as_str(),
            "] ",
            s.description.as_str(),
        ),
    )
}

pub fn was_never_started(services: &Vec<Service>, unit: &String) -> (yes: bool)
    ensures
        yes == never_started(views(services@), unit@),
{
    let cs = chars_of(unit.as_str());
    if holds_text(cs.as_slice(), "@.") {
        return false;
    }
    let ghost all = views(services@);
    let mut i: usize = 0;
    while i < services.len()
        invariant
            i <= services.len(),
            all == views(services@),
            forall|k: int| 0 <= k < i ==> (#[trigger] all[k]).unit != unit@,
            !contains_text(unit@, "@."@),
        decreases services.len() - i,
    {
        assert(all[i as int] == services@[i as int]@);
        if eq(services[i].unit.as_str(), unit.as_str()) {
            assert(is_listed(all, unit@));
            return false;
        }
        i += 1;
    }
    true
}

pub fn section_services(a: &Audit, f: Flavor) -> (r: String)
    ensures
        r@ == services_section(a@, f),
{
    let n = decimal(a.services.len() as u64);
    let title = cat3("Services (", n.as_str(), " running, completed or failed)");
    let head = f.h2(title.as_str());
    let items = pick(&a.services, service_line, Ghost(service_item()));
    let body = section(f, a, "services", &items);
    let services = &a.services;
    let line = |u: &UnitFile| -> (r: Option<String>)
        ensures
            viewed(r) == unit_item(views(services@))(u@),
        {
            Some(
                cat2(
                    u.unit.as_str(),
                    if was_never_started(services, &u.unit) {
                        "  (inactive)"
                    } else {
                        ""
                    },
                ),
            )
        };
    let head2 = counted(f, "Enabled at boot", a.unit_files.len());
    let units = pick(&a.unit_files, line, Ghost(unit_item(views(services@))));
    let body2 = section(f, a, "unitfiles", &units);
    cat4(head.as_str(), body.as_str(), head2.as_str(), body2.as_str())
}

// ------------------------------------------------------------- storage ----

/// A percentage where it is known.
pub open spec fn pct_text(p: Option<Single>) -> Seq<char> {
    match p {
        Some(p) => p.shown(),
        None => "?"@,
    }
}

pub open spec fn filesystem_item() -> spec_fn(FilesystemView) -> Option<Seq<char>> {
    |fs: FilesystemView|
        Some(
            padded_right(fs.mount, 28) + " "@ + padded_left(fs.used, 6) + " used of "@ + padded_left(
                fs.size,
                6,
            ) + " ("@ + pct_text(fs.use_pct) + "%"@ + (match fs.inode_pct {
                Some(p) => ", inodes "@ + p.shown() + "%"@,
                None => ""@,
            }) + ") on "@ + fs.source + " ["@ + fs.fstype + "]"@,
        )
}

pub open spec fn directory_item() -> spec_fn(DirUsageView) -> Option<Seq<char>> {
    |d: DirUsageView| Some(padded_left(bytes_text(d.bytes as nat), 7) + "  "@ + d.path)
}

/// The directories that a report lists: the first 25.
pub open spec fn largest(d: Seq<DirUsageView>) -> Seq<DirUsageView> {
    if d.len() > 25 {
        d.take(25)
    } else {
        d
    }
}

pub open spec fn storage_section(a: AuditView, f: Flavor) -> Seq<char> {
    f.heading("Filesystems"@) + section_text(
        f,
        a,
        "df"@,
        a.filesystems.filter_map(filesystem_item()),
    ) + f.heading("Largest directories"@) + section_text(
        f,
        a,
        "du"@,
        largest(a.dir_usage).filter_map(directory_item()),
    )
}

pub fn show_pct(p: Option<Single>) -> (r: String)
    ensures
        r@ == pct_text(p),
{
    match p {
        Some(p) => p.show(),
        None => "?".to_string(),
    }
}

fn filesystem_line(fs: &Filesystem) -> (r: Option<String>)
    ensures
        viewed(r) == filesystem_item()(fs@),
{
    let mount = pad_right(fs.mount.as_str(), 28);
    let used = pad_left(fs.used.as_str(), 6);
    let size = pad_left(fs.size.as_str(), 6);
    let pct = show_pct(fs.use_pct);
    let inodes = match fs.inode_pct {
        Some(p) => {
            let shown = p.show();
            cat3(", inodes ", shown.as_str(), "%")
        },
        None => "".to_string(),
    };
    let front = cat8(
        mount.as_str(),
        " ",
        used.as_str(),
        " used of ",
        size.as_str(),
        " (",
        pct.as_str(),
        "%",
    );
    Some(
        cat7(
            front.as_str(),
            inodes.as_str(),
            ") on ",
            fs.source.as_str(),
            " [",
            fs.fstype.as_str(),
            "]",
        ),
    )
}

fn directory_lines(d: &Vec<DirUsage>) -> (r: Vec<String>)
    ensures
        views(r@) == largest(views(d@)).filter_map(directory_item()),
{
    let ghost all = views(d@);
    let n: usize = if d.len() > 25 {
        25
    } else {
        d.len()
    };
    let mut out: Vec<String> = Vec::new();
    let mut i: usize = 0;
    assert(views(out@) =~= all.take(0).filter_map(directory_item()));
    while i < n
        invariant
            i <= n,
            n <= d.len(),
            all == views(d@),
            views(out@) == all.take(i as int).filter_map(directory_item()),
        decreases n - i,
    {
        let ghost before = out@;
        let size = format_bytes(d[i].bytes);
        let size = pad_left(size.as_str(), 7);
        let line = cat3(size.as_str(), "  ", d[i].path.as_str());
        let ghost seen = line@;
        out.push(line);
        proof {
            all.lemma_filter_map_take_succ(directory_item(), i as int);
            assert(all[i as int] == d@[i as int]@);
            assert(views(out@) =~= views(before) + seq![seen]);
        }
        i += 1;
    }
    assert(all.take(n as int) =~= largest(all));
    out
}

pub fn section_storage(a: &Audit, f: Flavor) -> (r: String)
    ensures
        r@ == storage_section(a@, f),
{
    let head = f.h2("Filesystems");
    let items = pick(&a.filesystems, filesystem_line, Ghost(filesystem_item()));
    let body = section(f, a, "df", &items);
    let head2 = f.h2("Largest directories");
    let dirs = directory_lines(&a.dir_usage);
    let body2 = section(f, a, "du", &dirs);
    cat4(head.as_str(), body.as_str(), head2.as_str(), body2.as_str())
}

// ----------------------------------------------------------- schedules ----

pub open spec fn cron_item() -> spec_fn(CronEntryView) -> Option<Seq<char>> {
    |c: CronEntryView|
        Some(
            padded_right(c.schedule, 16) + " "@ + padded_right(c.user, 10) + " "@ + c.command
                + "   ["@ + c.source + "]"@,
        )
}

pub open spec fn timer_item() -> spec_fn(TimerView) -> Option<Seq<char>> {
    |t: TimerView|
        Some(
            padded_right(t.unit, 30) + " next in "@ + (if t.left.len() == 0 {
                "never"@
            } else {
                t.left + " ("@ + t.next + ")"@
            }) + ", last "@ + t.passed + " -> "@ + t.activates,
        )
}

pub open spec fn schedules_section(a: AuditView, f: Flavor) -> Seq<char> {
    counted_heading(f, "Cron"@, a.cron.len()) + section_text(
        f,
        a,
        "cron"@,
        a.cron.filter_map(cron_item()),
    ) + counted_heading(f, "Systemd timers"@, a.timers.len()) + section_text(
        f,
        a,
        "timers"@,
        a.timers.filter_map(timer_item()),
    )
}

fn cron_line(c: &CronEntry) -> (r: Option<String>)
    ensures
        viewed(r) == cron_item()(c@),
{
    let schedule = pad_right(c.schedule.as_str(), 16);
    let user = pad_right(c.user.as_str(), 10);
    Some(
        cat8(
            schedule.as_str(),
            " ",
            user.as_str(),
            " ",
            c.command.as_str(),
            "   [",
            c.source.as_str(),
            "]",
        ),
    )
}

fn timer_line(t: &Timer) -> (r: Option<String>)
    ensures
        viewed(r) == timer_item()(t@),
{
    let unit = pad_right(t.unit.as_str(), 30);
    let next = if is_blank(&t.left) {
        "never".to_string()
    } else {
        cat4(t.left.as_str(), " (", t.next.as_str(), ")")
    };
    Some(
        cat7(
            unit.as_str(),
            " next in ",
            next.as_str(),
            ", last ",
            t.passed.as_str(),
            " -> ",
            t.activates.as_str(),
        ),
    )
}

pub fn section_schedules(a: &Audit, f: Flavor) -> (r: String)
    ensures
        r@ == schedules_section(a@, f),
{
    let head = counted(f, "Cron", a.cron.len());
    let items = pick(&a.cron, cron_line, Ghost(cron_item()));
    let body = section(f, a, "cron", &items);
    let head2 = counted(f, "Systemd timers", a.timers.len());
    let timers = pick(&a.timers, timer_line, Ghost(timer_item()));
    let body2 = section(f, a, "timers", &timers);
    cat4(head.as_str(), body.as_str(), head2.as_str(), body2.as_str())
}

// -------------------------------------------------------------- probes ----

pub open spec fn probe_item(f: Flavor) -> spec_fn(ProbeOutcomeView) -> Option<Seq<char>> {
    |p: ProbeOutcomeView|
        Some(
            padded_right(p.status.name(), 8) + " "@ + f.verbatim(p.command) + " ("@ + p.label + ")"@
                + (if p.note.len() == 0 {
                ""@
            } else {
                " — "@ + p.note
            }),
        )
}

pub open spec fn probes_section(a: AuditView, f: Flavor) -> Seq<char> {
    f.heading("Probes"@) + f.items(a.probes.filter_map(probe_item(f)))
}

fn probe_line(f: Flavor, p: &ProbeOutcome) -> (r: Option<String>)
    ensures
        viewed(r) == probe_item(f)(p@),
{
    let status = pad_right(p.status.label(), 8);
    let code = f.code(p.command.as_str());
    let note = if is_blank(&p.note) {
        "".to_string()
    } else {
        cat2(" — ", p.note.as_str())
    };
    Some(
        cat7(
            status.as_str(),
            " ",
            code.as_str(),
            " (",
            p.label.as_str(),
            ")",
            note.as_str(),
        ),
    )
}

pub fn section_probes(a: &Audit, f: Flavor) -> (r: String)
    ensures
        r@ == probes_section(a@, f),
{
    let head = f.h2("Probes");
    let line = |p: &ProbeOutcome| -> (r: Option<String>)
        ensures
            viewed(r) == probe_item(f)(p@),
        { probe_line(f, p) };
    let items = pick(&a.probes, line, Ghost(probe_item(f)));
    let body = f.bullets(&items);
    cat2(head.as_str(), body.as_str())
}

// --------------------------------------------------------- the report ----

/// What the machine calls itself, or what it was called.
pub open spec fn host_name(a: AuditView) -> Seq<char> {
    if a.host.hostname.len() == 0 {
        a.target
    } else {
        a.host.hostname
    }
}

/// What a report begins with.
pub open spec fn opening_text(a: AuditView, f: Flavor) -> Seq<char> {
    f.title("Server audit — "@ + host_name(a)) + ("target: "@ + a.target + "  |  "@
        + "collected: "@ + a.collected_at + "  |  "@ + "as: "@ + a.host.user + " ("@
        + a.host.sudo.name() + ")"@ + "\n"@)
}

/// The whole report.
pub open spec fn report_text(a: AuditView, f: Flavor) -> Seq<char> {
    opening_text(a, f) + host_section(a, f) + findings_section(a, f)
        + listeners_section(a, f) + containers_section(a, f) + services_section(a, f)
        + storage_section(a, f) + schedules_section(a, f) + probes_section(a, f)
}

fn opening(a: &Audit, f: Flavor) -> (r: String)
    ensures
        r@ == opening_text(a@, f),
{
    let host = if is_blank(&a.host.hostname) {
        a.target.as_str()
    } else {
        a.host.hostname.as_str()
    };
    let title = cat2("Server audit — ", host);
    let head = f.h1(title.as_str());
    let about = cat12(
        "target: ",
        a.target.as_str(),
        "  |  ",
        "collected: ",
        a.collected_at.as_str(),
        "  |  ",
        "as: ",
        a.host.user.as_str(),
        " (",
        a.host.sudo.label(),
        ")",
        "\n",
    );
    cat2(head.as_str(), about.as_str())
}

pub fn render(a: &Audit, f: Flavor) -> (r: String)
    ensures
        r@ == report_text(a@, f),
{
    let s0 = opening(a, f);
    let s1 = section_host(a, f);
    let s2 = section_findings(a, f);
    let s3 = section_listeners(a, f);
    let s4 = section_containers(a, f);
    let s5 = section_services(a, f);
    let s6 = section_storage(a, f);
    let s7 = section_schedules(a, f);
    let s8 = section_probes(a, f);
    cat9(
        s0.as_str(),
        s1.as_str(),
        s2.as_str(),
        s3.as_str(),
        s4.as_str(),
        s5.as_str(),
        s6.as_str(),
        s7.as_str(),
        s8.as_str(),
    )
}

/// The report for a terminal.
pub fn text(a: &Audit) -> (r: String)
    ensures
        r@ == report_text(a@, Flavor::Text),
{
    render(a, Flavor::Text)
}

/// The report for a ticket or a pull request.
pub fn markdown(a: &Audit) -> (r: String)
    ensures
        r@ == report_text(a@, Flavor::Markdown),
{
    render(a, Flavor::Markdown)
}

/// A section whose probe was not able to look never reads as an empty one: it
/// is one line that says it was not collected, and why.
pub proof fn law_denied_is_never_none(
    f: Flavor,
    a: AuditView,
    id: Seq<char>,
    items: Seq<Seq<char>>,
)
    requires
        first_probe(a.probes, id) is Some,
        !(first_probe(a.probes, id)->0).status.was_seen(),
    ensures
        blind_text(a, id) is Some,
        ("not collected ("@ + (first_probe(a.probes, id)->0).status.name()).is_prefix_of(
            blind_text(a, id)->0,
        ),
        section_text(f, a, id, items) == f.item(blind_text(a, id)->0),
{
    let p = first_probe(a.probes, id)->0;
    let head = "not collected ("@ + p.status.name();
    assert((blind_text(a, id)->0).take(head.len() as int) =~= head);
}

/// Whether a probe ran and was not able to look.
pub open spec fn unseen(a: AuditView, id: Seq<char>) -> bool {
    first_probe(a.probes, id) is Some && !(first_probe(a.probes, id)->0).status.was_seen()
}

/// Below its heading, a section whose probe was not able to look says just that.
pub proof fn law_unseen_sections_say_so(a: AuditView, f: Flavor)
    ensures
        unseen(a, "listeners"@) ==> listeners_section(a, f) == counted_heading(
            f,
            "Listening sockets"@,
            a.listeners.len(),
        ) + f.item(blind_text(a, "listeners"@)->0),
        unseen(a, "containers"@) ==> containers_section(a, f) == counted_heading(
            f,
            "Containers"@,
            a.containers.len(),
        ) + f.item(blind_text(a, "containers"@)->0),
        unseen(a, "services"@) && unseen(a, "unitfiles"@) ==> services_section(a, f) == f.heading(
            "Services ("@ + dec(a.services.len()) + " running, completed or failed)"@,
        ) + f.item(blind_text(a, "services"@)->0) + counted_heading(
            f,
            "Enabled at boot"@,
            a.unit_files.len(),
        ) + f.item(blind_text(a, "unitfiles"@)->0),
        unseen(a, "df"@) && unseen(a, "du"@) ==> storage_section(a, f) == f.heading(
            "Filesystems"@,
        ) + f.item(blind_text(a, "df"@)->0) + f.heading("Largest directories"@) + f.item(
            blind_text(a, "du"@)->0,
        ),
        unseen(a, "cron"@) && unseen(a, "timers"@) ==> schedules_section(a, f) == counted_heading(
            f,
            "Cron"@,
            a.cron.len(),
        ) + f.item(blind_text(a, "cron"@)->0) + counted_heading(
            f,
            "Systemd timers"@,
            a.timers.len(),
        ) + f.item(blind_text(a, "timers"@)->0),
{
}

/// Every report holds all eight sections.
pub proof fn law_report_covers_every_section(a: AuditView, f: Flavor)
    ensures
        contains_text(report_text(a, f), host_section(a, f)),
        contains_text(report_text(a, f), findings_section(a, f)),
        contains_text(report_text(a, f), listeners_section(a, f)),
        contains_text(report_text(a, f), containers_section(a, f)),
        contains_text(report_text(a, f), services_section(a, f)),
        contains_text(report_text(a, f), storage_section(a, f)),
        contains_text(report_text(a, f), schedules_section(a, f)),
        contains_text(report_text(a, f), probes_section(a, f)),
{
    lemma_eight_parts(
        opening_text(a, f),
        host_section(a, f),
        findings_section(a, f),
        listeners_section(a, f),
        containers_section(a, f),
        services_section(a, f),
        storage_section(a, f),
        schedules_section(a, f),
        probes_section(a, f),
    );
}

proof fn lemma_eight_parts(
    t: Seq<char>,
    a: Seq<char>,
    b: Seq<char>,
    c: Seq<char>,
    d: Seq<char>,
    e: Seq<char>,
    f: Seq<char>,
    g: Seq<char>,
    h: Seq<char>,
)
    ensures
        ({
            let r = t + a + b + c + d + e + f + g + h;
            &&& contains_text(r, a)
            &&& contains_text(r, b)
            &&& contains_text(r, c)
            &&& contains_text(r, d)
            &&& contains_text(r, e)
            &&& contains_text(r, f)
            &&& contains_text(r, g)
            &&& contains_text(r, h)
        }),
{
    let r1 = t + a;
    let r2 = r1 + b;
    let r3 = r2 + c;
    let r4 = r3 + d;
    let r5 = r4 + e;
    let r6 = r5 + f;
    let r7 = r6 + g;
    lemma_holds_last(t, a);
    lemma_holds_last(r1, b);
    lemma_holds_last(r2, c);
    lemma_holds_last(r3, d);
    lemma_holds_last(r4, e);
    lemma_holds_last(r5, f);
    lemma_holds_last(r6, g);
    lemma_holds_last(r7, h);
    lemma_still_held(r1, b, c, d, e, f, g, h, a);
    lemma_still_held(r2, c, d, e, f, g, h, seq![], b);
    lemma_still_held(r3, d, e, f, g, h, seq![], seq![], c);
    lemma_still_held(r4, e, f, g, h, seq![], seq![], seq![], d);
    lemma_holds_then(r5, f, e);
    lemma_holds_then(r6, g, e);
    lemma_holds_then(r7, h, e);
    lemma_holds_then(r6, g, f);
    lemma_holds_then(r7, h, f);
    lemma_holds_then(r7, h, g);
    let r = r7 + h;
    assert(r + seq![] =~= r);
    assert(r + seq![] + seq![] =~= r);
    assert(r + seq![] + seq![] + seq![] =~= r);
}

proof fn lemma_still_held(
    s: Seq<char>,
    b: Seq<char>,
    c: Seq<char>,
    d: Seq<char>,
    e: Seq<char>,
    f: Seq<char>,
    g: Seq<char>,
    h: Seq<char>,
    p: Seq<char>,
)
    requires
        contains_text(s, p),
    ensures
        contains_text(s + b + c + d + e + f + g + h, p),
{
    lemma_holds_then(s, b, p);
    lemma_holds_then(s + b, c, p);
    lemma_holds_then(s + b + c, d, p);
    lemma_holds_then(s + b + c + d, e, p);
    lemma_holds_then(s + b + c + d + e, f, p);
    lemma_holds_then(s + b + c + d + e + f, g, p);
    lemma_holds_then(s + b + c + d + e + f + g, h, p);
}

} // verus!
