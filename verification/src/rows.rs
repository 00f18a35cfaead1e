//! What each tab shows: the facts of an audit as rows of text.

use crate::findings::{
    datastore_port, feeds_shell, is_sensitive_port, known_port, pipes_remote_script_to_shell,
    port_name,
};
use crate::float::{lemma_pow2_values, Format, Single};
use crate::fmt::{
    cat2, cat3, cat4, cat5, cat6, dec, dec_int, decimal, decimal_int, repeat, repeated,
};
use crate::gather::{concat, lemma_filter_map_all, lemma_filter_map_keeps, pick};
use crate::model::{
    first_probe, Audit, AuditView, Container, ContainerView, CronEntry, CronEntryView, DirUsage,
    DirUsageView, Exposure, Filesystem, FilesystemView, Finding, FindingView, Listener,
    ListenerView, ProbeOutcome, ProbeOutcomeView, ProbeStatus, Service, ServiceView, Severity,
    Timer, TimerView, UnitFile, UnitFileView,
};
use crate::parse::{bytes_text, format_bytes};
use crate::report::{
    by_port, listeners_by_port, never_started, ports_text, show_ports, was_never_started, ByPort,
};
use crate::sorting::{lemma_sorted_contains, rank, sort, sorted, text_at_most, Ranked};
use crate::tab::{Tab, Tone, Width};
use crate::text::{
    chars_of, contains_text, eq, holds_text, is_blank, join, joined, lines, lines_of, lowercase,
    to_lowercase, viewed, views,
};
use vstd::prelude::*;

verus! {

/// One row of a table.
#[derive(Debug, Clone)]
pub struct ViewRow {
    pub cells: Vec<String>,
    pub tone: Tone,
    /// Key/value pairs for the detail popup.
    pub detail: Vec<(String, String)>,
}

/// What a `ViewRow` holds.
#[verifier::ext_equal]
pub struct ViewRowView {
    pub cells: Seq<Seq<char>>,
    pub tone: Tone,
    pub detail: Seq<(Seq<char>, Seq<char>)>,
}

impl View for ViewRow {
    type V = ViewRowView;

    open spec fn view(&self) -> ViewRowView {
        ViewRowView { cells: views(self.cells@), tone: self.tone, detail: views(self.detail@) }
    }
}

impl ViewRowView {
    /// Whether a cell or a detail contains a text, case aside.
    pub open spec fn mentions(self, needle: Seq<char>) -> bool {
        ||| exists|i: int|
            0 <= i < self.cells.len() && contains_text(
                lowercase(#[trigger] self.cells[i]),
                needle,
            )
        ||| exists|i: int|
            0 <= i < self.detail.len() && contains_text(
                lowercase((#[trigger] self.detail[i]).1),
                needle,
            )
    }

    /// The text of the first cell.
    pub open spec fn first_cell(self) -> Seq<char> {
        if self.cells.len() == 0 {
            seq![]
        } else {
            self.cells[0]
        }
    }
}

impl ViewRow {
    pub fn new(cells: Vec<String>, tone: Tone, detail: Vec<(&str, String)>) -> (r: ViewRow)
        ensures
            r@ == (ViewRowView { cells: views(cells@), tone, detail: views(detail@) }),
    {
        let mut owned: Vec<(String, String)> = Vec::new();
        let mut i: usize = 0;
        while i < detail.len()
            invariant
                i <= detail.len(),
                owned@.len() == i,
                forall|k: int| 0 <= k < i ==> (#[trigger] owned@[k])@ == detail@[k]@,
            decreases detail.len() - i,
        {
            owned.push((detail[i].0.to_string(), detail[i].1.clone()));
            i += 1;
        }
        assert(views(owned@) =~= views(detail@));
        ViewRow { cells, tone, detail: owned }
    }

    /// Whether a cell or a detail contains a text that is in lower case.
    pub fn matches(&self, needle: &str) -> (yes: bool)
        ensures
            yes == self@.mentions(needle@),
    {
        let mut i: usize = 0;
        let ghost cells = self@.cells;
        let ghost detail = self@.detail;
        while i < self.cells.len()
            invariant
                i <= self.cells.len(),
                cells == views(self.cells@),
                cells == self@.cells,
                forall|k: int|
                    0 <= k < i ==> !contains_text(lowercase(#[trigger] cells[k]), needle@),
            decreases self.cells.len() - i,
        {
            assert(cells[i as int] == self.cells@[i as int]@);
            let lower = to_lowercase(self.cells[i].as_str());
            let cs = chars_of(lower.as_str());
            if holds_text(cs.as_slice(), needle) {
                assert(contains_text(lowercase(cells[i as int]), needle@));
                return true;
            }
            i += 1;
        }
        let mut j: usize = 0;
        while j < self.detail.len()
            invariant
                j <= self.detail.len(),
                detail == views(self.detail@),
                detail == self@.detail,
                forall|k: int|
                    0 <= k < j ==> !contains_text(lowercase((#[trigger] detail[k]).1), needle@),
            decreases self.detail.len() - j,
        {
            assert(detail[j as int] == self.detail@[j as int]@);
            let lower = to_lowercase(self.detail[j].1.as_str());
            let cs = chars_of(lower.as_str());
            if holds_text(cs.as_slice(), needle) {
                assert(contains_text(lowercase(detail[j as int].1), needle@));
                return true;
            }
            j += 1;
        }
        false
    }
}

impl Ranked for ViewRow {
    /// By the first cell.
    open spec fn at_most(a: ViewRowView, b: ViewRowView) -> bool {
        text_at_most(a.first_cell(), b.first_cell())
    }

    fn ranks_at_most(&self, other: &Self) -> (yes: bool) {
        let none = String::new();
        assert(none@ =~= seq![]);
        let a = if self.cells.len() == 0 {
            &none
        } else {
            &self.cells[0]
        };
        let b = if other.cells.len() == 0 {
            &none
        } else {
            &other.cells[0]
        };
        a.ranks_at_most(b)
    }
}

/// A table.
pub struct TableSpec {
    pub headers: Vec<&'static str>,
    pub widths: Vec<Width>,
    pub rows: Vec<ViewRow>,
    /// Shown in place of the table when `rows` is empty.
    pub empty: String,
}

/// What a `TableSpec` holds.
#[verifier::ext_equal]
pub struct TableSpecView {
    pub headers: Seq<Seq<char>>,
    pub widths: Seq<Width>,
    pub rows: Seq<ViewRowView>,
    pub empty: Seq<char>,
}

impl View for TableSpec {
    type V = TableSpecView;

    open spec fn view(&self) -> TableSpecView {
        TableSpecView {
            headers: views(self.headers@),
            widths: self.widths@,
            rows: views(self.rows@),
            empty: self.empty@,
        }
    }
}

impl TableSpecView {
    /// Whether every row has a cell for every column, and every column a width.
    pub open spec fn is_rectangular(self) -> bool {
        &&& self.headers.len() == self.widths.len()
        &&& forall|i: int|
            0 <= i < self.rows.len() ==> (#[trigger] self.rows[i]).cells.len()
                == self.headers.len()
    }
}

// ------------------------------------------------------- empty tables ----

/// Why a probe leaves a tab's emptiness without meaning, if it does.
pub open spec fn blindness(a: AuditView) -> spec_fn(Seq<char>) -> Option<Seq<char>> {
    |id: Seq<char>|
        match first_probe(a.probes, id) {
            Some(p) => if p.status.was_seen() {
                None
            } else {
                Some(
                    p.command + " — "@ + (if p.note.len() == 0 {
                        p.status.name()
                    } else {
                        p.note
                    }),
                )
            },
            None => None,
        }
}

/// The message to show when a tab is empty: "none" and "we could not look" are
/// very different answers.
pub open spec fn emptiness(a: AuditView, tab: Tab) -> Seq<char> {
    let blind = tab.probes().filter_map(blindness(a));
    if blind.len() == 0 {
        "nothing here"@
    } else {
        "unknown, not empty:\n"@ + joined(blind, "\n"@)
    }
}

fn why_blind(a: &Audit, id: &str) -> (r: Option<String>)
    ensures
        viewed(r) == blindness(a@)(id@),
{
    match a.probe(id) {
        Some(p) => if p.status.looked() {
            None
        } else {
            Some(
                cat3(
                    p.command.as_str(),
                    " — ",
                    if is_blank(&p.note) {
                        p.status.label()
                    } else {
                        p.note.as_str()
                    },
                ),
            )
        },
        None => None,
    }
}

/// The message to show when a tab is empty.
pub fn empty_message(a: &Audit, tab: Tab) -> (r: String)
    ensures
        r@ == emptiness(a@, tab),
{
    let ids = tab.probe_ids();
    let why = |id: &&'static str| -> (r: Option<String>)
        ensures
            viewed(r) == blindness(a@)(id@),
        { why_blind(a, *id) };
    let blind = pick(&ids, why, Ghost(blindness(a@)));
    assert(views(blind@).len() == blind@.len());
    if blind.len() == 0 {
        "nothing here".to_string()
    } else {
        let list = join(&blind, "\n");
        cat2("unknown, not empty:\n", list.as_str())
    }
}

// ------------------------------------------------------------ findings ----

/// The row of a finding.
pub open spec fn finding_row(f: FindingView) -> ViewRowView {
    ViewRowView {
        cells: seq![f.severity.name(), f.title, f.detail],
        tone: match f.severity {
            Severity::High => Tone::Bad,
            Severity::Medium => Tone::Warn,
            Severity::Low => Tone::Normal,
            Severity::Info => Tone::Dim,
        },
        detail: seq![
            ("severity"@, f.severity.name()),
            ("finding"@, f.title),
            ("detail"@, f.detail),
            ("evidence"@, "the "@ + f.tab + " tab"@),
        ],
    }
}

/// `finding_row` as a function to hand over.
pub open spec fn finding_rows() -> spec_fn(FindingView) -> Option<ViewRowView> {
    |f: FindingView| Some(finding_row(f))
}

/// What the Overview shows.
pub open spec fn findings_view(a: AuditView) -> TableSpecView {
    TableSpecView {
        headers: seq![""@, "Finding"@, "Detail"@],
        widths: seq![Width::Length(4), Width::Max(50), Width::Fill(1)],
        rows: a.findings.filter_map(finding_rows()),
        empty: "nothing stood out"@,
    }
}

fn row_of_finding(f: &Finding) -> (r: Option<ViewRow>)
    ensures
        viewed(r) == Some(finding_row(f@)),
{
    let cells = vec![f.severity.label().to_string(), f.title.clone(), f.detail.clone()];
    let detail = vec![
        ("severity", f.severity.label().to_string()),
        ("finding", f.title.clone()),
        ("detail", f.detail.clone()),
        ("evidence", cat3("the ", f.tab.as_str(), " tab")),
    ];
    assert(views(cells@) =~= finding_row(f@).cells);
    assert(views(detail@) =~= finding_row(f@).detail);
    let tone = match f.severity {
        Severity::High => Tone::Bad,
        Severity::Medium => Tone::Warn,
        Severity::Low => Tone::Normal,
        Severity::Info => Tone::Dim,
    };
    Some(ViewRow::new(cells, tone, detail))
}

pub fn findings_table(a: &Audit) -> (r: TableSpec)
    ensures
        r@ == findings_view(a@),
{
    let headers = vec!["", "Finding", "Detail"];
    let widths = vec![Width::Length(4), Width::Max(50), Width::Fill(1)];
    assert(views(headers@) =~= findings_view(a@).headers);
    assert(widths@ =~= findings_view(a@).widths);
    TableSpec {
        headers,
        widths,
        rows: pick(&a.findings, row_of_finding, Ghost(finding_rows())),
        empty: "nothing stood out".to_string(),
    }
}

// --------------------------------------------------------------- ports ----

/// Who can reach a socket, in words.
pub open spec fn exposure_text(e: Exposure) -> Seq<char> {
    match e {
        Exposure::Loopback => "this machine only"@,
        Exposure::Interface => "one specific interface"@,
        Exposure::AllInterfaces => "every interface — anything that can route here"@,
    }
}

pub fn exposure_sentence(e: Exposure) -> (r: String)
    ensures
        r@ == exposure_text(e),
{
    match e {
        Exposure::Loopback => "this machine only".to_string(),
        Exposure::Interface => "one specific interface".to_string(),
        Exposure::AllInterfaces => "every interface — anything that can route here".to_string(),
    }
}

/// How worrying a socket is.
pub open spec fn port_tone(l: ListenerView) -> Tone {
    match l.exposure {
        Exposure::AllInterfaces => match l.port_num() {
            Some(p) => if datastore_port(p as u16) is Some {
                Tone::Bad
            } else {
                Tone::Warn
            },
            None => Tone::Warn,
        },
        Exposure::Loopback => Tone::Dim,
        Exposure::Interface => Tone::Normal,
    }
}

/// The well-known name of a socket's port, or what is said where there is none.
pub open spec fn service_or(l: ListenerView, otherwise: Seq<char>) -> Seq<char> {
    let port = match l.port_num() {
        Some(p) => p as u16,
        None => 0,
    };
    match known_port(port) {
        Some(name) => name,
        None => otherwise,
    }
}

/// The row of a socket.
pub open spec fn port_row(l: ListenerView) -> ViewRowView {
    ViewRowView {
        cells: seq![
            l.proto,
            l.port,
            service_or(l, "—"@),
            l.addr,
            l.exposure.name(),
            match l.process {
                Some(name) => name,
                None => "?"@,
            },
            match l.pid {
                Some(p) => dec(p as nat),
                None => "-"@,
            },
        ],
        tone: port_tone(l),
        detail: seq![
            ("endpoint"@, l.proto + " "@ + l.endpoint()),
            ("state"@, l.state),
            ("reachable from"@, exposure_text(l.exposure)),
            ("service"@, service_or(l, "not a well-known port"@)),
            ("socket owners"@, l.users),
        ],
    }
}

/// `port_row` as a function to hand over.
pub open spec fn port_rows() -> spec_fn(ListenerView) -> Option<ViewRowView> {
    |l: ListenerView| Some(port_row(l))
}

/// What the Ports tab shows.
pub open spec fn ports_view(a: AuditView) -> TableSpecView {
    TableSpecView {
        headers: seq![
            "Proto"@,
            "Port"@,
            "Service"@,
            "Address"@,
            "Exposure"@,
            "Process"@,
            "PID"@,
        ],
        widths: seq![
            Width::Length(5),
            Width::Length(6),
            Width::Max(20),
            Width::Max(22),
            Width::Length(9),
            Width::Fill(1),
            Width::Length(6),
        ],
        rows: listeners_by_port(a).filter_map(port_rows()),
        empty: emptiness(a, Tab::Ports),
    }
}

fn name_or(l: &Listener, otherwise: &str) -> (r: String)
    ensures
        r@ == service_or(l@, otherwise@),
{
    let port: u16 = match l.port_num() {
        Some(p) => p,
        None => 0,
    };
    match port_name(port) {
        Some(name) => name.to_string(),
        None => otherwise.to_string(),
    }
}

fn tone_of_port(l: &Listener) -> (r: Tone)
    ensures
        r == port_tone(l@),
{
    match l.exposure {
        Exposure::AllInterfaces => match l.port_num() {
            Some(p) => if is_sensitive_port(p) {
                Tone::Bad
            } else {
                Tone::Warn
            },
            None => Tone::Warn,
        },
        Exposure::Loopback => Tone::Dim,
        Exposure::Interface => Tone::Normal,
    }
}

fn row_of_port(l: &Listener) -> (r: Option<ViewRow>)
    ensures
        viewed(r) == Some(port_row(l@)),
{
    let process = match &l.process {
        Some(name) => name.clone(),
        None => "?".to_string(),
    };
    let pid = match l.pid {
        Some(p) => decimal(p as u64),
        None => "-".to_string(),
    };
    let endpoint = l.endpoint();
    let cells = vec![
        l.proto.clone(),
        l.port.clone(),
        name_or(l, "—"),
        l.addr.clone(),
        l.exposure.label().to_string(),
        process,
        pid,
    ];
    let detail = vec![
        ("endpoint", cat3(l.proto.as_str(), " ", endpoint.as_str())),
        ("state", l.state.clone()),
        ("reachable from", exposure_sentence(l.exposure)),
        ("service", name_or(l, "not a well-known port")),
        ("socket owners", l.users.clone()),
    ];
    assert(views(cells@) =~= port_row(l@).cells);
    assert(views(detail@) =~= port_row(l@).detail);
    Some(ViewRow::new(cells, tone_of_port(l), detail))
}

pub fn ports_table(a: &Audit) -> (r: TableSpec)
    ensures
        r@ == ports_view(a@),
{
    let headers = vec!["Proto", "Port", "Service", "Address", "Exposure", "Process", "PID"];
    let widths = vec![
        Width::Length(5),
        Width::Length(6),
        Width::Max(20),
        Width::Max(22),
        Width::Length(9),
        Width::Fill(1),
        Width::Length(6),
    ];
    assert(views(headers@) =~= ports_view(a@).headers);
    assert(widths@ =~= ports_view(a@).widths);
    let listeners = by_port(&a.listeners);
    let row = |l: &ByPort| -> (r: Option<ViewRow>)
        ensures
            viewed(r) == Some(port_row(l@)),
        { row_of_port(l.listener) };
    TableSpec {
        headers,
        widths,
        rows: pick(&listeners, row, Ghost(port_rows())),
        empty: empty_message(a, Tab::Ports),
    }
}

// ---------------------------------------------------------- containers ----

/// How worrying a container is.
pub open spec fn container_tone(c: ContainerView) -> Tone {
    if c.state == "running"@ {
        Tone::Good
    } else if c.state == "restarting"@ || c.state == "dead"@ {
        Tone::Bad
    } else if c.state == "exited"@ && c.exit_code() is Some && c.exit_code()->0 != 0 {
        Tone::Warn
    } else {
        Tone::Dim
    }
}

/// The ports of a container, or a dash.
pub open spec fn ports_or_dash(c: ContainerView) -> Seq<char> {
    if c.ports.len() == 0 {
        "-"@
    } else {
        ports_text(c)
    }
}

/// Whether a container publishes a port on every interface.
pub open spec fn publishes(c: ContainerView) -> bool {
    exists|i: int| 0 <= i < c.ports.len() && (#[trigger] c.ports[i]).wide_open()
}

/// The row of a container.
pub open spec fn container_row(c: ContainerView) -> ViewRowView {
    ViewRowView {
        cells: seq![c.name, c.state, c.image, c.status, ports_or_dash(c)],
        tone: container_tone(c),
        detail: seq![
            ("name"@, c.name),
            ("id"@, c.id),
            ("runtime"@, c.runtime),
            ("image"@, c.image),
            ("state"@, c.state + " — "@ + c.status),
            ("created"@, c.created),
            ("ports"@, ports_or_dash(c)),
            (
                "published on 0.0.0.0"@,
                if publishes(c) {
                    "yes — these bypass ufw/firewalld"@
                } else {
                    "no"@
                },
            ),
        ],
    }
}

/// `container_row` as a function to hand over.
pub open spec fn container_rows() -> spec_fn(ContainerView) -> Option<ViewRowView> {
    |c: ContainerView| Some(container_row(c))
}

/// What the Containers tab shows.
pub open spec fn containers_view(a: AuditView) -> TableSpecView {
    TableSpecView {
        headers: seq!["Name"@, "State"@, "Image"@, "Status"@, "Ports"@],
        widths: seq![
            Width::Max(22),
            Width::Length(11),
            Width::Max(34),
            Width::Max(24),
            Width::Fill(1),
        ],
        rows: a.containers.filter_map(container_rows()),
        empty: emptiness(a, Tab::Containers),
    }
}

fn tone_of_container(c: &Container) -> (r: Tone)
    ensures
        r == container_tone(c@),
{
    let s = c.state.as_str();
    if eq(s, "running") {
        Tone::Good
    } else if eq(s, "restarting") || eq(s, "dead") {
        Tone::Bad
    } else if eq(s, "exited") {
        match c.exit_code() {
            Some(code) => if code != 0 {
                Tone::Warn
            } else {
                Tone::Dim
            },
            None => Tone::Dim,
        }
    } else {
        Tone::Dim
    }
}

fn any_wide_open(c: &Container) -> (yes: bool)
    ensures
        yes == publishes(c@),
{
    let ghost all = c@.ports;
    let mut i: usize = 0;
    while i < c.ports.len()
        invariant
            i <= c.ports.len(),
            all == views(c.ports@),
            all == c@.ports,
            forall|k: int| 0 <= k < i ==> !(#[trigger] all[k]).wide_open(),
        decreases c.ports.len() - i,
    {
        assert(all[i as int] == c.ports@[i as int]@);
        if c.ports[i].is_wide_open() {
            assert(all[i as int].wide_open());
            return true;
        }
        i += 1;
    }
    false
}

fn row_of_container(c: &Container) -> (r: Option<ViewRow>)
    ensures
        viewed(r) == Some(container_row(c@)),
{
    assert(c@.ports.len() == c.ports@.len());
    let ports = if c.ports.len() == 0 {
        "-".to_string()
    } else {
        show_ports(c)
    };
    let published = if any_wide_open(c) {
        "yes — these bypass ufw/firewalld".to_string()
    } else {
        "no".to_string()
    };
    let cells = vec![
        c.name.clone(),
        c.state.clone(),
        c.image.clone(),
        c.status.clone(),
        ports.clone(),
    ];
    let detail = vec![
        ("name", c.name.clone()),
        ("id", c.id.clone()),
        ("runtime", c.runtime.clone()),
        ("image", c.image.clone()),
        ("state", cat3(c.state.as_str(), " — ", c.status.as_str())),
        ("created", c.created.clone()),
        ("ports", ports),
        ("published on 0.0.0.0", published),
    ];
    assert(views(cells@) =~= container_row(c@).cells);
    assert(views(detail@) =~= container_row(c@).detail);
    Some(ViewRow::new(cells, tone_of_container(c), detail))
}

pub fn containers_table(a: &Audit) -> (r: TableSpec)
    ensures
        r@ == containers_view(a@),
{
    let headers = vec!["Name", "State", "Image", "Status", "Ports"];
    let widths = vec![
        Width::Max(22),
        Width::Length(11),
        Width::Max(34),
        Width::Max(24),
        Width::Fill(1),
    ];
    assert(views(headers@) =~= containers_view(a@).headers);
    assert(widths@ =~= containers_view(a@).widths);
    TableSpec {
        headers,
        widths,
        rows: pick(&a.containers, row_of_container, Ghost(container_rows())),
        empty: empty_message(a, Tab::Containers),
    }
}

// ------------------------------------------------------------ services ----

/// Whether a unit starts at boot.
pub open spec fn starts_at_boot(files: Seq<UnitFileView>, unit: Seq<char>) -> bool {
    exists|i: int| 0 <= i < files.len() && (#[trigger] files[i]).unit == unit
}

/// What the Boot column says of a service.
pub open spec fn boot_text(files: Seq<UnitFileView>, unit: Seq<char>) -> Seq<char> {
    if starts_at_boot(files, unit) {
        "enabled"@
    } else {
        "-"@
    }
}

/// The row of a service.
pub open spec fn service_row(s: ServiceView, files: Seq<UnitFileView>) -> ViewRowView {
    ViewRowView {
        cells: seq![s.unit, s.active, s.sub, boot_text(files, s.unit), s.description],
        tone: if s.failed() {
            Tone::Bad
        } else {
            Tone::Normal
        },
        detail: seq![
            ("unit"@, s.unit),
            ("state"@, s.load + " / "@ + s.active + " / "@ + s.sub),
            ("starts at boot"@, boot_text(files, s.unit)),
            ("description"@, s.description),
        ],
    }
}

/// `service_row` as a function to hand over.
pub open spec fn service_rows(files: Seq<UnitFileView>) -> spec_fn(ServiceView) -> Option<
    ViewRowView,
> {
    |s: ServiceView| Some(service_row(s, files))
}

/// The row of a unit that is enabled but neither runs nor failed: it never shows
/// up among the services, and is exactly the one worth noticing.
pub open spec fn idle_row(u: UnitFileView) -> ViewRowView {
    ViewRowView {
        cells: seq![u.unit, "not active"@, "-"@, u.state, ""@],
        tone: Tone::Dim,
        detail: seq![
            ("unit"@, u.unit),
            (
                "state"@,
                "enabled at boot, but neither running, completed nor failed right now"@,
            ),
            ("preset"@, u.preset),
        ],
    }
}

/// `idle_row`, for the units that are idle, as a function to hand over.
pub open spec fn idle_rows(services: Seq<ServiceView>) -> spec_fn(UnitFileView) -> Option<
    ViewRowView,
> {
    |u: UnitFileView|
        if never_started(services, u.unit) {
            Some(idle_row(u))
        } else {
            None
        }
}

/// What the Services tab shows, in the order of the units.
pub open spec fn services_view(a: AuditView) -> TableSpecView {
    TableSpecView {
        headers: seq!["Unit"@, "Active"@, "Sub"@, "Boot"@, "Description"@],
        widths: seq![
            Width::Max(34),
            Width::Length(9),
            Width::Length(9),
            Width::Length(8),
            Width::Fill(1),
        ],
        rows: sorted(
            a.services.filter_map(service_rows(a.unit_files)) + a.unit_files.filter_map(
                idle_rows(a.services),
            ),
            rank::<ViewRow>(),
        ),
        empty: emptiness(a, Tab::Services),
    }
}

fn boot(files: &Vec<UnitFile>, unit: &String) -> (r: &'static str)
    ensures
        r@ == boot_text(views(files@), unit@),
{
    let ghost all = views(files@);
    let mut i: usize = 0;
    while i < files.len()
        invariant
            i <= files.len(),
            all == views(files@),
            forall|k: int| 0 <= k < i ==> (#[trigger] all[k]).unit != unit@,
        decreases files.len() - i,
    {
        assert(all[i as int] == files@[i as int]@);
        if eq(files[i].unit.as_str(), unit.as_str()) {
            assert(starts_at_boot(all, unit@));
            return "enabled";
        }
        i += 1;
    }
    "-"
}

fn row_of_service(s: &Service, files: &Vec<UnitFile>) -> (r: Option<ViewRow>)
    ensures
        viewed(r) == Some(service_row(s@, views(files@))),
{
    let at_boot = boot(files, &s.unit);
    let cells = vec![
        s.unit.clone(),
        s.active.clone(),
        s.sub.clone(),
        at_boot.to_string(),
        s.description.clone(),
    ];
    let detail = vec![
        ("unit", s.unit.clone()),
        ("state", cat5(s.load.as_str(), " / ", s.active.as_str(), " / ", s.sub.as_str())),
        ("starts at boot", at_boot.to_string()),
        ("description", s.description.clone()),
    ];
    assert(views(cells@) =~= service_row(s@, views(files@)).cells);
    assert(views(detail@) =~= service_row(s@, views(files@)).detail);
    let tone = if s.is_failed() {
        Tone::Bad
    } else {
        Tone::Normal
    };
    Some(ViewRow::new(cells, tone, detail))
}

fn row_of_idle(u: &UnitFile, services: &Vec<Service>) -> (r: Option<ViewRow>)
    ensures
        viewed(r) == idle_rows(views(services@))(u@),
{
    if !was_never_started(services, &u.unit) {
        return None;
    }
    let cells = vec![
        u.unit.clone(),
        "not active".to_string(),
        "-".to_string(),
        u.state.clone(),
        "".to_string(),
    ];
    let detail = vec![
        ("unit", u.unit.clone()),
        (
            "state",
            "enabled at boot, but neither running, completed nor failed right now".to_string(),
        ),
        ("preset", u.preset.clone()),
    ];
    assert(views(cells@) =~= idle_row(u@).cells);
    assert(views(detail@) =~= idle_row(u@).detail);
    Some(ViewRow::new(cells, Tone::Dim, detail))
}

pub fn services_table(a: &Audit) -> (r: TableSpec)
    ensures
        r@ == services_view(a@),
{
    let headers = vec!["Unit", "Active", "Sub", "Boot", "Description"];
    let widths = vec![
        Width::Max(34),
        Width::Length(9),
        Width::Length(9),
        Width::Length(8),
        Width::Fill(1),
    ];
    assert(views(headers@) =~= services_view(a@).headers);
    assert(widths@ =~= services_view(a@).widths);
    let services = &a.services;
    let files = &a.unit_files;
    let one = |s: &Service| -> (r: Option<ViewRow>)
        ensures
            viewed(r) == Some(service_row(s@, views(files@))),
        { row_of_service(s, files) };
    let idle = |u: &UnitFile| -> (r: Option<ViewRow>)
        ensures
            viewed(r) == idle_rows(views(services@))(u@),
        { row_of_idle(u, services) };
    let listed = pick(services, one, Ghost(service_rows(views(files@))));
    let resting = pick(files, idle, Ghost(idle_rows(views(services@))));
    TableSpec {
        headers,
        widths,
        rows: sort(concat(listed, resting)),
        empty: empty_message(a, Tab::Services),
    }
}

// ---------------------------------------------------------------- bars ----

/// A character that fills an eighth of a cell for each step.
pub open spec fn eighth(n: int) -> char {
    if n == 1 {
        '▏'
    } else if n == 2 {
        '▎'
    } else if n == 3 {
        '▍'
    } else if n == 4 {
        '▌'
    } else if n == 5 {
        '▋'
    } else if n == 6 {
        '▊'
    } else if n == 7 {
        '▉'
    } else {
        '█'
    }
}

/// How many eighths of a cell a fraction of a width fills, computed in single
/// precision. What is no number fills none, and nothing fills more than all.
pub open spec fn bar_units(fraction: Single, width: usize) -> nat {
    let f = Format::Single;
    if fraction.is_nan() || fraction.negative() {
        0
    } else {
        let one = f.nearest(1, 1);
        let m = if fraction.magnitude() > one {
            one
        } else {
            fraction.magnitude()
        };
        let units = f.rounded(f.product(f.multiplied(m, f.nearest(width as nat, 1)), 8));
        if units <= usize::MAX {
            units
        } else {
            usize::MAX as nat
        }
    }
}

/// A proportional bar drawn with eighth-block characters.
pub open spec fn bar_text(fraction: Single, width: usize) -> Seq<char> {
    let full = bar_units(fraction, width) / 8;
    let rest = bar_units(fraction, width) % 8;
    if full >= width {
        repeated('█', width as int)
    } else if rest > 0 {
        repeated('█', full as int).push(eighth(rest as int))
    } else {
        repeated('█', full as int)
    }
}

fn eighth_block(n: usize) -> (c: char)
    ensures
        c == eighth(n as int),
{
    if n == 1 {
        '▏'
    } else if n == 2 {
        '▎'
    } else if n == 3 {
        '▍'
    } else if n == 4 {
        '▌'
    } else if n == 5 {
        '▋'
    } else if n == 6 {
        '▊'
    } else if n == 7 {
        '▉'
    } else {
        '█'
    }
}

fn filled(fraction: Single, width: usize) -> (r: usize)
    ensures
        r == bar_units(fraction, width),
{
    let f = Format::Single;
    let (neg, b) = fraction.split();
    if neg || b > f.infinite() {
        return 0;
    }
    let one = f.from_integer(1);
    let m = if b > one {
        one
    } else {
        b
    };
    let units = f.round_off(f.multiply(f.times(m, f.from_integer(width as u64)), 8));
    if units <= usize::MAX as u64 {
        units as usize
    } else {
        usize::MAX
    }
}

/// A proportional bar drawn with eighth-block characters.
pub fn bar(fraction: Single, width: usize) -> (r: String)
    ensures
        r@ == bar_text(fraction, width),
{
    let units = filled(fraction, width);
    let full = units / 8;
    let rest = units % 8;
    if full >= width {
        return repeat('█', width);
    }
    let mut s = repeat('█', full);
    if rest > 0 {
        s.push(eighth_block(rest));
    }
    s
}

/// A bar is never longer than its width.
pub proof fn law_bars_stay_inside(fraction: Single, width: usize)
    ensures
        bar_text(fraction, width).len() <= width,
{
}

// --------------------------------------------------------------- disks ----

/// A filesystem in the order of the Disks tab: real ones first, because a screen
/// that opens on eight tmpfs mounts buries the one number you came to read.
pub struct ByMount<'a> {
    pub fs: &'a Filesystem,
}

impl<'a> View for ByMount<'a> {
    type V = FilesystemView;

    open spec fn view(&self) -> FilesystemView {
        self.fs@
    }
}

impl<'a> Ranked for ByMount<'a> {
    open spec fn at_most(a: FilesystemView, b: FilesystemView) -> bool {
        if a.pseudo() != b.pseudo() {
            b.pseudo()
        } else {
            text_at_most(a.mount, b.mount)
        }
    }

    fn ranks_at_most(&self, other: &Self) -> (yes: bool) {
        let x = self.fs.is_pseudo();
        let y = other.fs.is_pseudo();
        if x != y {
            y
        } else {
            self.fs.mount.ranks_at_most(&other.fs.mount)
        }
    }
}

/// The fill level of a filesystem, zero where it is not known.
pub open spec fn fill_level(fs: FilesystemView) -> Single {
    match fs.use_pct {
        Some(p) => p,
        None => Single { bits: 0 },
    }
}

/// How worrying a filesystem is.
pub open spec fn disk_tone(fs: FilesystemView) -> Tone {
    if fs.pseudo() {
        Tone::Dim
    } else if fill_level(fs).at_least(90) {
        Tone::Bad
    } else if fill_level(fs).at_least(80) {
        Tone::Warn
    } else {
        Tone::Normal
    }
}

/// The row of a filesystem.
pub open spec fn disk_row(fs: FilesystemView) -> ViewRowView {
    ViewRowView {
        cells: seq![
            fs.mount,
            fs.size,
            fs.used,
            fs.avail,
            fill_level(fs).shown() + "%"@,
            bar_text(fill_level(fs).over(100), 12),
            match fs.inode_pct {
                Some(p) => p.shown() + "%"@,
                None => "-"@,
            },
            fs.fstype,
        ],
        tone: disk_tone(fs),
        detail: seq![
            ("mount"@, fs.mount),
            ("device"@, fs.source),
            ("type"@, fs.fstype),
            ("space"@, fs.used + " used of "@ + fs.size + ", "@ + fs.avail + " free"@),
            (
                "inodes"@,
                match fs.inode_pct {
                    Some(p) => p.shown() + "% used"@,
                    None => "not collected"@,
                },
            ),
        ],
    }
}

/// `disk_row` as a function to hand over.
pub open spec fn disk_rows() -> spec_fn(FilesystemView) -> Option<ViewRowView> {
    |fs: FilesystemView| Some(disk_row(fs))
}

/// What the Disks tab shows.
pub open spec fn disks_view(a: AuditView) -> TableSpecView {
    TableSpecView {
        headers: seq![
            "Mounted on"@,
            "Size"@,
            "Used"@,
            "Avail"@,
            "Use%"@,
            ""@,
            "Inode%"@,
            "Type"@,
        ],
        widths: seq![
            Width::Max(34),
            Width::Length(7),
            Width::Length(7),
            Width::Length(7),
            Width::Length(6),
            Width::Length(13),
            Width::Length(7),
            Width::Fill(1),
        ],
        rows: sorted(a.filesystems, rank::<ByMount>()).filter_map(disk_rows()),
        empty: emptiness(a, Tab::Disks),
    }
}

fn by_mount<'a>(filesystems: &'a Vec<Filesystem>) -> (r: Vec<ByMount<'a>>)
    ensures
        views(r@) == sorted(views(filesystems@), rank::<ByMount>()),
{
    let mut rows: Vec<ByMount<'a>> = Vec::new();
    let mut i: usize = 0;
    while i < filesystems.len()
        invariant
            i <= filesystems.len(),
            rows@.len() == i,
            forall|k: int| 0 <= k < i ==> (#[trigger] rows@[k])@ == filesystems@[k]@,
        decreases filesystems.len() - i,
    {
        rows.push(ByMount { fs: &filesystems[i] });
        i += 1;
    }
    assert(views(rows@) =~= views(filesystems@));
    sort(rows)
}

fn row_of_disk(fs: &Filesystem) -> (r: Option<ViewRow>)
    ensures
        viewed(r) == Some(disk_row(fs@)),
{
    let pct = match fs.use_pct {
        Some(p) => p,
        None => Single { bits: 0 },
    };
    let tone = if fs.is_pseudo() {
        Tone::Dim
    } else if pct.reaches(90) {
        Tone::Bad
    } else if pct.reaches(80) {
        Tone::Warn
    } else {
        Tone::Normal
    };
    let shown = pct.show();
    let (inode_cell, inode_detail) = match fs.inode_pct {
        Some(p) => {
            let s = p.show();
            (cat2(s.as_str(), "%"), cat2(s.as_str(), "% used"))
        },
        None => ("-".to_string(), "not collected".to_string()),
    };
    let cells = vec![
        fs.mount.clone(),
        fs.size.clone(),
        fs.used.clone(),
        fs.avail.clone(),
        cat2(shown.as_str(), "%"),
        bar(pct.divided_by(100), 12),
        inode_cell,
        fs.fstype.clone(),
    ];
    let detail = vec![
        ("mount", fs.mount.clone()),
        ("device", fs.source.clone()),
        ("type", fs.fstype.clone()),
        (
            "space",
            cat6(
                fs.used.as_str(),
                " used of ",
                fs.size.as_str(),
                ", ",
                fs.avail.as_str(),
                " free",
            ),
        ),
        ("inodes", inode_detail),
    ];
    assert(views(cells@) =~= disk_row(fs@).cells);
    assert(views(detail@) =~= disk_row(fs@).detail);
    Some(ViewRow::new(cells, tone, detail))
}

pub fn disks_table(a: &Audit) -> (r: TableSpec)
    ensures
        r@ == disks_view(a@),
{
    let headers = vec!["Mounted on", "Size", "Used", "Avail", "Use%", "", "Inode%", "Type"];
    let widths = vec![
        Width::Max(34),
        Width::Length(7),
        Width::Length(7),
        Width::Length(7),
        Width::Length(6),
        Width::Length(13),
        Width::Length(7),
        Width::Fill(1),
    ];
    assert(views(headers@) =~= disks_view(a@).headers);
    assert(widths@ =~= disks_view(a@).widths);
    let ordered = by_mount(&a.filesystems);
    let row = |x: &ByMount| -> (r: Option<ViewRow>)
        ensures
            viewed(r) == Some(disk_row(x@)),
        { row_of_disk(x.fs) };
    TableSpec {
        headers,
        widths,
        rows: pick(&ordered, row, Ghost(disk_rows())),
        empty: empty_message(a, Tab::Disks),
    }
}

// ---------------------------------------------------------- directories ----

/// The size of the largest directory, at least one.
pub open spec fn largest_size(d: Seq<DirUsageView>) -> u64
    decreases d.len(),
{
    if d.len() == 0 {
        1
    } else if d.last().bytes > largest_size(d.drop_last()) {
        d.last().bytes
    } else {
        largest_size(d.drop_last())
    }
}

/// A size as a part of the largest one, in single precision.
pub open spec fn share(bytes: u64, max: u64) -> Single {
    let f = Format::Single;
    Single { bits: f.quotient(f.nearest(bytes as nat, 1), f.nearest(max as nat, 1)) as u32 }
}

/// The row of a directory.
pub open spec fn dir_row(d: DirUsageView, max: u64) -> ViewRowView {
    ViewRowView {
        cells: seq![bytes_text(d.bytes as nat), bar_text(share(d.bytes, max), 20), d.path],
        tone: if d.bytes * 2 >= max {
            Tone::Warn
        } else {
            Tone::Normal
        },
        detail: seq![
            ("path"@, d.path),
            ("size"@, d.human + " ("@ + dec(d.bytes as nat) + " bytes)"@),
        ],
    }
}

/// `dir_row` as a function to hand over.
pub open spec fn dir_rows(max: u64) -> spec_fn(DirUsageView) -> Option<ViewRowView> {
    |d: DirUsageView| Some(dir_row(d, max))
}

/// What the Dirs tab shows.
pub open spec fn dirs_view(a: AuditView) -> TableSpecView {
    TableSpecView {
        headers: seq!["Size"@, ""@, "Directory"@],
        widths: seq![Width::Length(8), Width::Length(21), Width::Fill(1)],
        rows: a.dir_usage.filter_map(dir_rows(largest_size(a.dir_usage))),
        empty: emptiness(a, Tab::Dirs),
    }
}

fn max_bytes(d: &Vec<DirUsage>) -> (m: u64)
    ensures
        m == largest_size(views(d@)),
        m > 0,
{
    let ghost all = views(d@);
    let mut m: u64 = 1;
    let mut i: usize = 0;
    while i < d.len()
        invariant
            i <= d.len(),
            all == views(d@),
            m == largest_size(all.take(i as int)),
            m > 0,
        decreases d.len() - i,
    {
        assert(all.take(i + 1).drop_last() =~= all.take(i as int));
        assert(all.take(i + 1).last() == d@[i as int]@);
        if d[i].bytes > m {
            m = d[i].bytes;
        }
        i += 1;
    }
    assert(all.take(all.len() as int) =~= all);
    m
}

fn share_of(bytes: u64, max: u64) -> (r: Single)
    requires
        max > 0,
    ensures
        r == share(bytes, max),
{
    let f = Format::Single;
    let top = f.infinite();
    assert(top == 0x7f80_0000) by {
        lemma_pow2_values();
    }
    Single { bits: f.divide(f.from_integer(bytes), f.from_integer(max)) as u32 }
}

fn row_of_dir(d: &DirUsage, max: u64) -> (r: Option<ViewRow>)
    requires
        max > 0,
    ensures
        viewed(r) == Some(dir_row(d@, max)),
{
    let n = decimal(d.bytes);
    let cells = vec![format_bytes(d.bytes), bar(share_of(d.bytes, max), 20), d.path.clone()];
    let detail = vec![
        ("path", d.path.clone()),
        ("size", cat4(d.human.as_str(), " (", n.as_str(), " bytes)")),
    ];
    assert(views(cells@) =~= dir_row(d@, max).cells);
    assert(views(detail@) =~= dir_row(d@, max).detail);
    let tone = if d.bytes >= max || d.bytes >= max - d.bytes {
        Tone::Warn
    } else {
        Tone::Normal
    };
    Some(ViewRow::new(cells, tone, detail))
}

pub fn dirs_table(a: &Audit) -> (r: TableSpec)
    ensures
        r@ == dirs_view(a@),
{
    let headers = vec!["Size", "", "Directory"];
    let widths = vec![Width::Length(8), Width::Length(21), Width::Fill(1)];
    assert(views(headers@) =~= dirs_view(a@).headers);
    assert(widths@ =~= dirs_view(a@).widths);
    let max = max_bytes(&a.dir_usage);
    let row = |d: &DirUsage| -> (r: Option<ViewRow>)
        ensures
            viewed(r) == Some(dir_row(d@, max)),
        { row_of_dir(d, max) };
    TableSpec {
        headers,
        widths,
        rows: pick(&a.dir_usage, row, Ghost(dir_rows(max))),
        empty: empty_message(a, Tab::Dirs),
    }
}

// ----------------------------------------------------------- schedules ----

/// The row of a cron job.
pub open spec fn job_row(c: CronEntryView) -> ViewRowView {
    ViewRowView {
        cells: seq![c.schedule, c.user, c.command, c.source],
        tone: if feeds_shell(lowercase(c.command)) {
            Tone::Bad
        } else if c.schedule == "@reboot"@ {
            Tone::Warn
        } else {
            Tone::Normal
        },
        detail: seq![
            ("when"@, c.schedule),
            ("runs as"@, c.user),
            ("command"@, c.command),
            ("defined in"@, c.source),
        ],
    }
}

/// `job_row` as a function to hand over.
pub open spec fn job_rows() -> spec_fn(CronEntryView) -> Option<ViewRowView> {
    |c: CronEntryView| Some(job_row(c))
}

/// The row of a timer.
pub open spec fn timer_row(t: TimerView) -> ViewRowView {
    ViewRowView {
        cells: seq![
            if t.left.len() == 0 {
                "not scheduled"@
            } else {
                "in "@ + t.left
            },
            "systemd"@,
            t.unit + " -> "@ + t.activates,
            "systemd timer"@,
        ],
        tone: if t.left.len() == 0 {
            Tone::Dim
        } else {
            Tone::Normal
        },
        detail: seq![
            ("timer"@, t.unit),
            ("activates"@, t.activates),
            ("next run"@, t.next + "  (in "@ + t.left + ")"@),
            ("last run"@, t.last + "  ("@ + t.passed + ")"@),
        ],
    }
}

/// `timer_row` as a function to hand over.
pub open spec fn timer_rows() -> spec_fn(TimerView) -> Option<ViewRowView> {
    |t: TimerView| Some(timer_row(t))
}

/// What the Schedules tab shows: cron jobs, then timers.
pub open spec fn schedules_view(a: AuditView) -> TableSpecView {
    TableSpecView {
        headers: seq!["When"@, "As"@, "What runs"@, "Defined in"@],
        widths: seq![Width::Max(28), Width::Length(10), Width::Fill(1), Width::Max(26)],
        rows: a.cron.filter_map(job_rows()) + a.timers.filter_map(timer_rows()),
        empty: emptiness(a, Tab::Schedules),
    }
}

fn row_of_job(c: &CronEntry) -> (r: Option<ViewRow>)
    ensures
        viewed(r) == Some(job_row(c@)),
{
    let cells = vec![
        c.schedule.clone(),
        c.user.clone(),
        c.command.clone(),
        c.source.clone(),
    ];
    let detail = vec![
        ("when", c.schedule.clone()),
        ("runs as", c.user.clone()),
        ("command", c.command.clone()),
        ("defined in", c.source.clone()),
    ];
    assert(views(cells@) =~= job_row(c@).cells);
    assert(views(detail@) =~= job_row(c@).detail);
    let tone = if pipes_remote_script_to_shell(c.command.as_str()) {
        Tone::Bad
    } else if eq(c.schedule.as_str(), "@reboot") {
        Tone::Warn
    } else {
        Tone::Normal
    };
    Some(ViewRow::new(cells, tone, detail))
}

fn row_of_timer(t: &Timer) -> (r: Option<ViewRow>)
    ensures
        viewed(r) == Some(timer_row(t@)),
{
    let idle = is_blank(&t.left);
    let when = if idle {
        "not scheduled".to_string()
    } else {
        cat2("in ", t.left.as_str())
    };
    let cells = vec![
        when,
        "systemd".to_string(),
        cat3(t.unit.as_str(), " -> ", t.activates.as_str()),
        "systemd timer".to_string(),
    ];
    let detail = vec![
        ("timer", t.unit.clone()),
        ("activates", t.activates.clone()),
        ("next run", cat4(t.next.as_str(), "  (in ", t.left.as_str(), ")")),
        ("last run", cat4(t.last.as_str(), "  (", t.passed.as_str(), ")")),
    ];
    assert(views(cells@) =~= timer_row(t@).cells);
    assert(views(detail@) =~= timer_row(t@).detail);
    let tone = if idle {
        Tone::Dim
    } else {
        Tone::Normal
    };
    Some(ViewRow::new(cells, tone, detail))
}

pub fn schedules_table(a: &Audit) -> (r: TableSpec)
    ensures
        r@ == schedules_view(a@),
{
    let headers = vec!["When", "As", "What runs", "Defined in"];
    let widths = vec![Width::Max(28), Width::Length(10), Width::Fill(1), Width::Max(26)];
    assert(views(headers@) =~= schedules_view(a@).headers);
    assert(widths@ =~= schedules_view(a@).widths);
    let jobs = pick(&a.cron, row_of_job, Ghost(job_rows()));
    let timers = pick(&a.timers, row_of_timer, Ghost(timer_rows()));
    TableSpec {
        headers,
        widths,
        rows: concat(jobs, timers),
        empty: empty_message(a, Tab::Schedules),
    }
}

// -------------------------------------------------------------- probes ----

/// The row of a probe.
pub open spec fn probe_row(p: ProbeOutcomeView) -> ViewRowView {
    ViewRowView {
        cells: seq![
            p.status.name(),
            p.label,
            p.command,
            if p.note.len() == 0 {
                dec(lines_of(p.raw).len()) + " lines"@
            } else {
                p.note
            },
        ],
        tone: match p.status {
            ProbeStatus::Complete => Tone::Good,
            ProbeStatus::Partial | ProbeStatus::Denied => Tone::Warn,
            ProbeStatus::Failed => Tone::Bad,
            _ => Tone::Dim,
        },
        detail: seq![
            ("command"@, p.command),
            ("result"@, p.status.name() + " (exit "@ + dec_int(p.exit_code as int) + ")"@),
            ("output"@, p.raw),
        ],
    }
}

/// `probe_row` as a function to hand over.
pub open spec fn probe_rows() -> spec_fn(ProbeOutcomeView) -> Option<ViewRowView> {
    |p: ProbeOutcomeView| Some(probe_row(p))
}

/// What the Probes tab shows.
pub open spec fn probes_view(a: AuditView) -> TableSpecView {
    TableSpecView {
        headers: seq!["Status"@, "Probe"@, "Command"@, "Detail"@],
        widths: seq![Width::Length(8), Width::Max(18), Width::Fill(1), Width::Max(30)],
        rows: a.probes.filter_map(probe_rows()),
        empty: "no probes ran"@,
    }
}

fn row_of_probe(p: &ProbeOutcome) -> (r: Option<ViewRow>)
    ensures
        viewed(r) == Some(probe_row(p@)),
{
    let what = if is_blank(&p.note) {
        let cs = chars_of(p.raw.as_str());
        let ls = lines(cs.as_slice());
        assert(views(ls@).len() == ls@.len());
        let n = decimal(ls.len() as u64);
        cat2(n.as_str(), " lines")
    } else {
        p.note.clone()
    };
    let code = decimal_int(p.exit_code as i64);
    let cells = vec![p.status.label().to_string(), p.label.clone(), p.command.clone(), what];
    let detail = vec![
        ("command", p.command.clone()),
        ("result", cat4(p.status.label(), " (exit ", code.as_str(), ")")),
        ("output", p.raw.clone()),
    ];
    assert(views(cells@) =~= probe_row(p@).cells);
    assert(views(detail@) =~= probe_row(p@).detail);
    let tone = match p.status {
        ProbeStatus::Complete => Tone::Good,
        ProbeStatus::Partial | ProbeStatus::Denied => Tone::Warn,
        ProbeStatus::Failed => Tone::Bad,
        _ => Tone::Dim,
    };
    Some(ViewRow::new(cells, tone, detail))
}

pub fn probes_table(a: &Audit) -> (r: TableSpec)
    ensures
        r@ == probes_view(a@),
{
    let headers = vec!["Status", "Probe", "Command", "Detail"];
    let widths = vec![Width::Length(8), Width::Max(18), Width::Fill(1), Width::Max(30)];
    assert(views(headers@) =~= probes_view(a@).headers);
    assert(widths@ =~= probes_view(a@).widths);
    TableSpec {
        headers,
        widths,
        rows: pick(&a.probes, row_of_probe, Ghost(probe_rows())),
        empty: "no probes ran".to_string(),
    }
}

// ---------------------------------------------------------------- laws ----

/// A row with `n` cells.
spec fn has_cells(n: nat) -> spec_fn(ViewRowView) -> bool {
    |row: ViewRowView| row.cells.len() == n
}

/// Every table has a width for every column and a cell for every column in every
/// row.
pub proof fn law_tables_are_rectangular(a: AuditView)
    ensures
        findings_view(a).is_rectangular(),
        ports_view(a).is_rectangular(),
        containers_view(a).is_rectangular(),
        services_view(a).is_rectangular(),
        disks_view(a).is_rectangular(),
        dirs_view(a).is_rectangular(),
        schedules_view(a).is_rectangular(),
        probes_view(a).is_rectangular(),
{
    assert(findings_view(a).is_rectangular()) by {
        lemma_filter_map_all(a.findings, finding_rows(), has_cells(3));
    }
    assert(ports_view(a).is_rectangular()) by {
        lemma_filter_map_all(listeners_by_port(a), port_rows(), has_cells(7));
    }
    assert(containers_view(a).is_rectangular()) by {
        lemma_filter_map_all(a.containers, container_rows(), has_cells(5));
    }
    assert(disks_view(a).is_rectangular()) by {
        lemma_filter_map_all(sorted(a.filesystems, rank::<ByMount>()), disk_rows(), has_cells(8));
    }
    assert(dirs_view(a).is_rectangular()) by {
        lemma_filter_map_all(a.dir_usage, dir_rows(largest_size(a.dir_usage)), has_cells(3));
    }
    assert(schedules_view(a).is_rectangular()) by {
        lemma_filter_map_all(a.cron, job_rows(), has_cells(4));
        lemma_filter_map_all(a.timers, timer_rows(), has_cells(4));
    }
    assert(probes_view(a).is_rectangular()) by {
        lemma_filter_map_all(a.probes, probe_rows(), has_cells(4));
    }
    lemma_service_rows(a);
}

proof fn lemma_service_rows(a: AuditView)
    ensures
        services_view(a).is_rectangular(),
{
    let running = a.services.filter_map(service_rows(a.unit_files));
    let idle = a.unit_files.filter_map(idle_rows(a.services));
    lemma_filter_map_all(a.services, service_rows(a.unit_files), has_cells(5));
    lemma_filter_map_all(a.unit_files, idle_rows(a.services), has_cells(5));
    let rows = services_view(a).rows;
    assert forall|i: int| 0 <= i < rows.len() implies (#[trigger] rows[i]).cells.len() == 5 by {
        assert(rows.contains(rows[i]));
        lemma_sorted_contains(running + idle, rank::<ViewRow>(), rows[i]);
        let j = choose|j: int| 0 <= j < (running + idle).len() && (running + idle)[j] == rows[i];
        assert(has_cells(5)((running + idle)[j]));
    }
}

/// An empty tab says that it is unknown whether there is anything exactly when
/// one of its probes ran without seeing what it was meant to look at.
pub proof fn law_blindness_is_told(a: AuditView, tab: Tab)
    ensures
        emptiness(a, tab) == "nothing here"@ <==> forall|i: int|
            0 <= i < tab.probes().len() ==> match first_probe(a.probes, #[trigger] tab.probes()[i]) {
                Some(p) => p.status.was_seen(),
                None => true,
            },
        emptiness(a, tab) != "nothing here"@ ==> "unknown, not empty:\n"@.is_prefix_of(
            emptiness(a, tab),
        ),
{
    let why = blindness(a);
    let ids = tab.probes();
    let blind = ids.filter_map(why);
    let lead = "unknown, not empty:\n"@;
    reveal_strlit("nothing here");
    reveal_strlit("unknown, not empty:\n");
    let said = lead + joined(blind, "\n"@);
    assert(said[0] == 'u');
    assert("nothing here"@[0] == 'n');
    assert(lead.is_prefix_of(said));
    if blind.len() == 0 {
        assert forall|i: int| 0 <= i < ids.len() implies match first_probe(
            a.probes,
            #[trigger] ids[i],
        ) {
            Some(p) => p.status.was_seen(),
            None => true,
        } by {
            if why(ids[i]) is Some {
                lemma_filter_map_keeps(ids, why, i);
            }
        }
    } else {
        ids.lemma_filter_map_contains(why, blind[0]);
        let id = choose|id: Seq<char>| #[trigger] ids.contains(id) && why(id) == Some(blind[0]);
        let i = choose|i: int| 0 <= i < ids.len() && ids[i] == id;
        assert(ids[i] == id);
    }
}

} // verus!
