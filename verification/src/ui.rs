//! What is on the screen, line by line: texts and the ink they are written in.
//! Where they go is up to the drawing code.

use crate::app::{App, AppView, Selection};
use crate::float::Single;
use crate::fmt::{cat2, cat3, cat4, cat5, cat7, dec, decimal, pad_right, padded_right};
use crate::gather::spread;
use crate::model::{
    Audit, AuditView, ContainerView, Exposure, FilesystemView, FindingView, ListenerView, Severity,
    SudoAvailability,
};
use crate::natural::Natural;
use crate::report::host_name;
use crate::rows::{ViewRow, ViewRowView};
use crate::tab::Tab;
use crate::text::{
    chars_of, cut_last, is_blank, last_in, lemma_last_in, lines, lines_of, rsplit_once, string_of,
    to_uppercase, trim, trimmed, uppercase, views, Class,
};
use vstd::prelude::*;

verus! {

/// What a text is written in.
#[derive(Debug, Clone, Copy, PartialEq, Eq, Structural)]
pub enum Ink {
    Plain,
    Muted,
    MutedBold,
    Accent,
    AccentBold,
    Good,
    Warn,
    Bad,
    /// On a coloured ground.
    Chip,
}

/// A text in one ink.
#[derive(Debug, Clone)]
pub struct Piece {
    pub text: String,
    pub ink: Ink,
}

/// What a `Piece` holds.
#[verifier::ext_equal]
pub struct PieceView {
    pub text: Seq<char>,
    pub ink: Ink,
}

impl View for Piece {
    type V = PieceView;

    open spec fn view(&self) -> PieceView {
        PieceView { text: self.text@, ink: self.ink }
    }
}

/// A piece of a line.
pub open spec fn inked(text: Seq<char>, ink: Ink) -> PieceView {
    PieceView { text, ink }
}

fn piece(text: &str, ink: Ink) -> (r: Piece)
    ensures
        r@ == inked(text@, ink),
{
    Piece { text: text.to_string(), ink }
}

fn write_piece(line: &mut Vec<Piece>, text: &str, ink: Ink)
    ensures
        views(final(line)@) == views(old(line)@).push(inked(text@, ink)),
{
    let ghost before = line@;
    line.push(piece(text, ink));
    assert(views(line@) =~= views(before).push(inked(text@, ink)));
}

// -------------------------------------------------------------- header ----

/// The ink that says how far the audit could see.
pub open spec fn sudo_ink(s: SudoAvailability) -> Ink {
    match s {
        SudoAvailability::Root | SudoAvailability::Passwordless => Ink::Good,
        SudoAvailability::NeedsPassword => Ink::Warn,
        SudoAvailability::NotRequested => Ink::Muted,
    }
}

/// The first line of the header: who the machine is.
pub open spec fn host_line_of(a: AuditView) -> Seq<PieceView> {
    let facts = seq![
        inked(host_name(a), Ink::AccentBold),
        inked("  "@, Ink::Plain),
        inked(
            if a.host.os.len() == 0 {
                "—"@
            } else {
                a.host.os
            },
            Ink::Muted,
        ),
    ];
    if a.host.kernel.len() == 0 {
        facts
    } else {
        facts.push(inked("  "@ + a.host.kernel, Ink::Muted))
    }
}

/// Where the machine is: the target without a login name, for the remote one is
/// the authoritative one.
pub open spec fn address_of(target: Seq<char>) -> Seq<char> {
    match cut_last(target, '@') {
        Some((_, host)) => host,
        None => target,
    }
}

/// A fact that is known.
pub open spec fn labelled(label: Seq<char>, value: Seq<char>) -> Seq<PieceView> {
    if value.len() == 0 {
        seq![]
    } else {
        seq![inked("  "@ + label + " "@ + value, Ink::Muted)]
    }
}

/// A turn of the spinner.
pub open spec fn spin_text(n: usize) -> Seq<char> {
    let k = n % 8;
    if k == 0 {
        "⠋"@
    } else if k == 1 {
        "⠙"@
    } else if k == 2 {
        "⠹"@
    } else if k == 3 {
        "⠸"@
    } else if k == 4 {
        "⠼"@
    } else if k == 5 {
        "⠴"@
    } else if k == 6 {
        "⠦"@
    } else {
        "⠧"@
    }
}

/// The second line of the header: who we are there, and how the machine is.
pub open spec fn session_line_of(app: AppView) -> Seq<PieceView> {
    let h = app.audit.host;
    seq![
        inked(h.user + "@"@ + address_of(app.audit.target), Ink::Muted),
        inked("  "@, Ink::Plain),
        inked(h.sudo.name(), sudo_ink(h.sudo)),
    ] + labelled("up"@, h.uptime) + labelled("load"@, h.load) + labelled("cpus"@, h.cpus) + (
    if app.source.len() == 0 {
        seq![]
    } else {
        seq![inked("  · "@ + app.source, Ink::Muted)]
    }) + (if app.busy {
        seq![inked("  "@ + spin_text(app.spinner) + " collecting…"@, Ink::Accent)]
    } else {
        seq![]
    })
}

/// The first line of the header: who the machine is.
pub fn host_line(a: &Audit) -> (r: Vec<Piece>)
    ensures
        views(r@) == host_line_of(a@),
{
    let h = &a.host;
    let name = if is_blank(&h.hostname) {
        a.target.as_str()
    } else {
        h.hostname.as_str()
    };
    let os = if is_blank(&h.os) {
        "—"
    } else {
        h.os.as_str()
    };
    let mut line: Vec<Piece> = Vec::new();
    assert(views(line@) =~= seq![]);
    write_piece(&mut line, name, Ink::AccentBold);
    write_piece(&mut line, "  ", Ink::Plain);
    write_piece(&mut line, os, Ink::Muted);
    if !is_blank(&h.kernel) {
        let kernel = cat2("  ", h.kernel.as_str());
        write_piece(&mut line, kernel.as_str(), Ink::Muted);
    }
    assert(views(line@) =~= host_line_of(a@));
    line
}

fn add_labelled(line: &mut Vec<Piece>, label: &str, value: &String)
    ensures
        views(final(line)@) == views(old(line)@) + labelled(label@, value@),
{
    let ghost before = views(line@);
    if !is_blank(value) {
        let text = cat4("  ", label, " ", value.as_str());
        write_piece(line, text.as_str(), Ink::Muted);
        assert(views(line@) =~= before + labelled(label@, value@));
    } else {
        assert(views(line@) =~= before + labelled(label@, value@));
    }
}

fn spin(n: usize) -> (r: &'static str)
    ensures
        r@ == spin_text(n),
{
    let k: usize = n % 8;
    if k == 0 {
        "⠋"
    } else if k == 1 {
        "⠙"
    } else if k == 2 {
        "⠹"
    } else if k == 3 {
        "⠸"
    } else if k == 4 {
        "⠼"
    } else if k == 5 {
        "⠴"
    } else if k == 6 {
        "⠦"
    } else {
        "⠧"
    }
}

/// The second line of the header: who we are there, and how the machine is.
pub fn session_line(app: &App) -> (r: Vec<Piece>)
    ensures
        views(r@) == session_line_of(app@),
{
    let h = &app.audit.host;
    let target = chars_of(app.audit.target.as_str());
    let address = match rsplit_once(target.as_slice(), '@') {
        Some((_, host)) => string_of(host),
        None => app.audit.target.clone(),
    };
    let who = cat3(h.user.as_str(), "@", address.as_str());
    let ink = match h.sudo {
        SudoAvailability::Root | SudoAvailability::Passwordless => Ink::Good,
        SudoAvailability::NeedsPassword => Ink::Warn,
        SudoAvailability::NotRequested => Ink::Muted,
    };
    let mut line: Vec<Piece> = Vec::new();
    assert(views(line@) =~= seq![]);
    write_piece(&mut line, who.as_str(), Ink::Muted);
    write_piece(&mut line, "  ", Ink::Plain);
    write_piece(&mut line, h.sudo.label(), ink);
    assert(views(line@) =~= seq![
        inked(h.user@ + "@"@ + address_of(app@.audit.target), Ink::Muted),
        inked("  "@, Ink::Plain),
        inked(h.sudo.name(), sudo_ink(h.sudo)),
    ]);
    add_labelled(&mut line, "up", &h.uptime);
    add_labelled(&mut line, "load", &h.load);
    add_labelled(&mut line, "cpus", &h.cpus);
    if !is_blank(&app.source) {
        let source = cat2("  · ", app.source.as_str());
        write_piece(&mut line, source.as_str(), Ink::Muted);
    }
    if app.busy {
        let turning = cat3("  ", spin(app.spinner), " collecting…");
        write_piece(&mut line, turning.as_str(), Ink::Accent);
    }
    assert(views(line@) =~= session_line_of(app@));
    line
}

/// What the tab bar says of a tab: its number and its name.
pub fn tab_label(tab: Tab) -> (r: (String, &'static str))
    ensures
        r.0@ == dec((tab.place() + 1) as nat) + " "@,
        r.1@ == tab.name(),
{
    let n = decimal(tab.index() as u64 + 1);
    (cat2(n.as_str(), " "), tab.title())
}

// --------------------------------------------------------------- tiles ----

/// One number of the Overview, with what it counts.
#[derive(Debug, Clone)]
pub struct Tile {
    pub label: &'static str,
    pub value: String,
    pub note: String,
    pub ink: Ink,
}

/// What a `Tile` holds.
#[verifier::ext_equal]
pub struct TileView {
    pub label: Seq<char>,
    pub value: Seq<char>,
    pub note: Seq<char>,
    pub ink: Ink,
}

impl View for Tile {
    type V = TileView;

    open spec fn view(&self) -> TileView {
        TileView { label: self.label@, value: self.value@, note: self.note@, ink: self.ink }
    }
}

/// How many findings are of a severity.
pub open spec fn count_severity(findings: Seq<FindingView>, s: Severity) -> nat
    decreases findings.len(),
{
    if findings.len() == 0 {
        0
    } else {
        count_severity(findings.drop_last(), s) + if findings.last().severity == s {
            1nat
        } else {
            0nat
        }
    }
}

/// How many sockets are open on every interface.
pub open spec fn count_exposed(listeners: Seq<ListenerView>) -> nat
    decreases listeners.len(),
{
    if listeners.len() == 0 {
        0
    } else {
        count_exposed(listeners.drop_last()) + if listeners.last().exposure is AllInterfaces {
            1nat
        } else {
            0nat
        }
    }
}

/// How many containers run.
pub open spec fn count_running(containers: Seq<ContainerView>) -> nat
    decreases containers.len(),
{
    if containers.len() == 0 {
        0
    } else {
        count_running(containers.drop_last()) + if containers.last().running() {
            1nat
        } else {
            0nat
        }
    }
}

/// The fullest real filesystem of which the level is known, the last of equally
/// full ones.
pub open spec fn fullest(fs: Seq<FilesystemView>) -> Option<(Single, Seq<char>)>
    decreases fs.len(),
{
    if fs.len() == 0 {
        None
    } else {
        let before = fullest(fs.drop_last());
        let last = fs.last();
        if last.pseudo() || last.use_pct is None {
            before
        } else if before is Some && (before->0).0.rank() > (last.use_pct->0).rank() {
            before
        } else {
            Some((last.use_pct->0, last.mount))
        }
    }
}

/// The ink that says how bad the worst finding is.
pub open spec fn worst_ink(findings: Seq<FindingView>) -> Ink {
    if findings.len() == 0 {
        Ink::Good
    } else {
        match findings[0].severity {
            Severity::High => Ink::Bad,
            Severity::Medium => Ink::Warn,
            _ => Ink::Accent,
        }
    }
}

pub open spec fn findings_tile(a: AuditView) -> TileView {
    TileView {
        label: "FINDINGS"@,
        value: dec(a.findings.len()),
        note: dec(count_severity(a.findings, Severity::High)) + " high · "@ + dec(
            count_severity(a.findings, Severity::Medium),
        ) + " med"@,
        ink: worst_ink(a.findings),
    }
}

pub open spec fn listening_tile(a: AuditView) -> TileView {
    TileView {
        label: "LISTENING"@,
        value: dec(a.listeners.len()),
        note: dec(count_exposed(a.listeners)) + " on all ifaces"@,
        ink: if count_exposed(a.listeners) > 0 {
            Ink::Warn
        } else {
            Ink::Good
        },
    }
}

pub open spec fn containers_tile(a: AuditView) -> TileView {
    TileView {
        label: "CONTAINERS"@,
        value: dec(count_running(a.containers)) + "/"@ + dec(a.containers.len()),
        note: "running / total"@,
        ink: Ink::Accent,
    }
}

pub open spec fn services_tile(a: AuditView) -> TileView {
    TileView {
        label: "SERVICES"@,
        value: dec(a.services.len()),
        note: dec(a.unit_files.len()) + " enabled at boot"@,
        ink: Ink::Accent,
    }
}

pub open spec fn disk_tile(a: AuditView) -> TileView {
    match fullest(a.filesystems) {
        Some((pct, mount)) => TileView {
            label: "FULLEST DISK"@,
            value: pct.shown() + "%"@,
            note: mount,
            ink: if pct.at_least(90) {
                Ink::Bad
            } else if pct.at_least(80) {
                Ink::Warn
            } else {
                Ink::Good
            },
        },
        None => TileView {
            label: "FULLEST DISK"@,
            value: "—"@,
            note: "not collected"@,
            ink: Ink::Muted,
        },
    }
}

pub open spec fn scheduled_tile(a: AuditView) -> TileView {
    TileView {
        label: "SCHEDULED"@,
        value: dec(a.cron.len() + a.timers.len()),
        note: dec(a.cron.len()) + " cron · "@ + dec(a.timers.len()) + " timers"@,
        ink: Ink::Accent,
    }
}

/// The numbers of the Overview.
pub open spec fn tiles_of(a: AuditView) -> Seq<TileView> {
    seq![
        findings_tile(a),
        listening_tile(a),
        containers_tile(a),
        services_tile(a),
        disk_tile(a),
        scheduled_tile(a),
    ]
}

fn severities(a: &Audit, s: Severity) -> (n: usize)
    ensures
        n == count_severity(a@.findings, s),
{
    let ghost all = a@.findings;
    let mut n: usize = 0;
    let mut i: usize = 0;
    while i < a.findings.len()
        invariant
            i <= a.findings.len(),
            n <= i,
            all == views(a.findings@),
            n == count_severity(all.take(i as int), s),
        decreases a.findings.len() - i,
    {
        assert(all.take(i + 1).drop_last() =~= all.take(i as int));
        assert(all.take(i + 1).last() == a.findings@[i as int]@);
        if a.findings[i].severity == s {
            n += 1;
        }
        i += 1;
    }
    assert(all.take(all.len() as int) =~= all);
    n
}

fn exposed(a: &Audit) -> (n: usize)
    ensures
        n == count_exposed(a@.listeners),
{
    let ghost all = a@.listeners;
    let mut n: usize = 0;
    let mut i: usize = 0;
    while i < a.listeners.len()
        invariant
            i <= a.listeners.len(),
            n <= i,
            all == views(a.listeners@),
            n == count_exposed(all.take(i as int)),
        decreases a.listeners.len() - i,
    {
        assert(all.take(i + 1).drop_last() =~= all.take(i as int));
        assert(all.take(i + 1).last() == a.listeners@[i as int]@);
        if a.listeners[i].exposure == Exposure::AllInterfaces {
            n += 1;
        }
        i += 1;
    }
    assert(all.take(all.len() as int) =~= all);
    n
}

fn running(a: &Audit) -> (n: usize)
    ensures
        n == count_running(a@.containers),
{
    let ghost all = a@.containers;
    let mut n: usize = 0;
    let mut i: usize = 0;
    while i < a.containers.len()
        invariant
            i <= a.containers.len(),
            n <= i,
            all == views(a.containers@),
            n == count_running(all.take(i as int)),
        decreases a.containers.len() - i,
    {
        assert(all.take(i + 1).drop_last() =~= all.take(i as int));
        assert(all.take(i + 1).last() == a.containers@[i as int]@);
        if a.containers[i].is_running() {
            n += 1;
        }
        i += 1;
    }
    assert(all.take(all.len() as int) =~= all);
    n
}

fn fullest_disk(a: &Audit) -> (r: Option<(Single, String)>)
    ensures
        match r {
            Some((pct, mount)) => fullest(a@.filesystems) == Some((pct, mount@)),
            None => fullest(a@.filesystems) is None,
        },
{
    let ghost all = a@.filesystems;
    let mut best: Option<(Single, String)> = None;
    let mut i: usize = 0;
    while i < a.filesystems.len()
        invariant
            i <= a.filesystems.len(),
            all == views(a.filesystems@),
            match best {
                Some((pct, mount)) => fullest(all.take(i as int)) == Some((pct, mount@)),
                None => fullest(all.take(i as int)) is None,
            },
        decreases a.filesystems.len() - i,
    {
        assert(all.take(i + 1).drop_last() =~= all.take(i as int));
        assert(all.take(i + 1).last() == a.filesystems@[i as int]@);
        let fs = &a.filesystems[i];
        if let Some(pct) = fs.use_pct {
            if !fs.is_pseudo() {
                let stays = match &best {
                    Some((top, _)) => top.position() > pct.position(),
                    None => false,
                };
                if !stays {
                    best = Some((pct, fs.mount.clone()));
                }
            }
        }
        i += 1;
    }
    assert(all.take(all.len() as int) =~= all);
    best
}

fn tile_of_findings(a: &Audit) -> (r: Tile)
    ensures
        r@ == findings_tile(a@),
{
    let value = decimal(a.findings.len() as u64);
    let high = decimal(severities(a, Severity::High) as u64);
    let med = decimal(severities(a, Severity::Medium) as u64);
    assert(a@.findings.len() == a.findings@.len());
    let ink = if a.findings.len() == 0 {
        Ink::Good
    } else {
        assert(a@.findings[0] == a.findings@[0]@);
        match a.findings[0].severity {
            Severity::High => Ink::Bad,
            Severity::Medium => Ink::Warn,
            _ => Ink::Accent,
        }
    };
    Tile { label: "FINDINGS", value, note: cat4(high.as_str(), " high · ", med.as_str(), " med"), ink }
}

fn tile_of_listening(a: &Audit) -> (r: Tile)
    ensures
        r@ == listening_tile(a@),
{
    let n = exposed(a);
    let shown = decimal(n as u64);
    assert(a@.listeners.len() == a.listeners@.len());
    Tile {
        label: "LISTENING",
        value: decimal(a.listeners.len() as u64),
        note: cat2(shown.as_str(), " on all ifaces"),
        ink: if n > 0 {
            Ink::Warn
        } else {
            Ink::Good
        },
    }
}

fn tile_of_containers(a: &Audit) -> (r: Tile)
    ensures
        r@ == containers_tile(a@),
{
    let n = decimal(running(a) as u64);
    let total = decimal(a.containers.len() as u64);
    assert(a@.containers.len() == a.containers@.len());
    Tile {
        label: "CONTAINERS",
        value: cat3(n.as_str(), "/", total.as_str()),
        note: "running / total".to_string(),
        ink: Ink::Accent,
    }
}

fn tile_of_services(a: &Audit) -> (r: Tile)
    ensures
        r@ == services_tile(a@),
{
    let n = decimal(a.unit_files.len() as u64);
    assert(a@.services.len() == a.services@.len());
    assert(a@.unit_files.len() == a.unit_files@.len());
    Tile {
        label: "SERVICES",
        value: decimal(a.services.len() as u64),
        note: cat2(n.as_str(), " enabled at boot"),
        ink: Ink::Accent,
    }
}

fn tile_of_disk(a: &Audit) -> (r: Tile)
    ensures
        r@ == disk_tile(a@),
{
    match fullest_disk(a) {
        Some((pct, mount)) => {
            let shown = pct.show();
            Tile {
                label: "FULLEST DISK",
                value: cat2(shown.as_str(), "%"),
                note: mount,
                ink: if pct.reaches(90) {
                    Ink::Bad
                } else if pct.reaches(80) {
                    Ink::Warn
                } else {
                    Ink::Good
                },
            }
        },
        None => Tile {
            label: "FULLEST DISK",
            value: "—".to_string(),
            note: "not collected".to_string(),
            ink: Ink::Muted,
        },
    }
}

fn tile_of_scheduled(a: &Audit) -> (r: Tile)
    ensures
        r@ == scheduled_tile(a@),
{
    let c: usize = a.cron.len();
    let t: usize = a.timers.len();
    assert(a@.cron.len() == c && a@.timers.len() == t);
    let total = decimal_sum(c as u64, t as u64);
    let cron = decimal(c as u64);
    let timers = decimal(t as u64);
    Tile {
        label: "SCHEDULED",
        value: total,
        note: cat4(cron.as_str(), " cron · ", timers.as_str(), " timers"),
        ink: Ink::Accent,
    }
}

fn decimal_sum(x: u64, y: u64) -> (r: String)
    ensures
        r@ == dec((x + y) as nat),
{
    Natural::from_u64(x).mul_add(1, y).decimal()
}

/// The numbers of the Overview.
pub fn tiles(a: &Audit) -> (r: Vec<Tile>)
    ensures
        views(r@) == tiles_of(a@),
{
    let r = vec![
        tile_of_findings(a),
        tile_of_listening(a),
        tile_of_containers(a),
        tile_of_services(a),
        tile_of_disk(a),
        tile_of_scheduled(a),
    ];
    assert(views(r@) =~= tiles_of(a@));
    r
}

// --------------------------------------------------------------- table ----

/// The title of a table of `total` rows.
pub open spec fn title_of(app: AppView, total: nat) -> Seq<char> {
    if app.filter.len() == 0 {
        " "@ + app.open_tab().name() + " ("@ + dec(total) + ") "@
    } else {
        " "@ + app.open_tab().name() + " ("@ + dec(total) + " matching “"@ + app.filter + "”) "@
    }
}

/// The title of a table of `total` rows.
pub fn table_title(app: &App, total: usize) -> (r: String)
    requires
        app@.wf(),
    ensures
        r@ == title_of(app@, total as nat),
{
    let tab = app.current_tab();
    let n = decimal(total as u64);
    if is_blank(&app.filter) {
        cat5(" ", tab.title(), " (", n.as_str(), ") ")
    } else {
        cat7(" ", tab.title(), " (", n.as_str(), " matching “", app.filter.as_str(), "”) ")
    }
}

/// Keeps the selection inside the `total` rows that are shown.
pub fn settle_selection(app: &mut App, total: usize)
    requires
        old(app)@.wf(),
    ensures
        final(app)@.wf(),
        final(app)@ == old(app)@.with_selection(
            if total == 0 {
                None
            } else if old(app)@.selection() < total {
                Some(old(app)@.selection())
            } else {
                Some((total - 1) as usize)
            },
        ),
{
    let selected = app.selected();
    let row: Option<usize> = if total == 0 {
        None
    } else if selected < total {
        Some(selected)
    } else {
        Some(total - 1)
    };
    let tab: usize = app.tab;
    app.states.set(tab, Selection { row });
}

// -------------------------------------------------------------- footer ----

/// A key and what it does. A key that does nothing now is muted.
pub open spec fn hint(key: Seq<char>, what: Seq<char>, enabled: bool) -> Seq<PieceView> {
    seq![
        inked(
            " "@ + key,
            if enabled {
                Ink::AccentBold
            } else {
                Ink::Muted
            },
        ),
        inked(" "@ + what + " "@, Ink::Muted),
    ]
}

/// The last line of the screen.
pub open spec fn footer_of(app: AppView) -> Seq<PieceView> {
    if app.filter_editing {
        seq![
            inked(" filter "@, Ink::Chip),
            inked(" "@, Ink::Plain),
            inked(app.filter, Ink::Plain),
            inked("▏"@, Ink::Accent),
            inked("   enter to apply · esc to clear"@, Ink::Muted),
        ]
    } else {
        hint("↹/1-8"@, "tab"@, true) + hint("↑↓"@, "move"@, true) + hint("⏎"@, "detail"@, true)
            + hint("/"@, "filter"@, true) + hint("s/S"@, "sort"@, true) + hint(
            "r"@,
            "refresh"@,
            app.live,
        ) + hint("e"@, "export"@, true) + hint("?"@, "help"@, true) + hint("q"@, "quit"@, true) + (
        if app.status.len() == 0 {
            seq![]
        } else {
            seq![inked("  "@ + app.status, Ink::Good)]
        })
    }
}

fn add_hint(line: &mut Vec<Piece>, key: &str, what: &str, enabled: bool)
    ensures
        views(final(line)@) == views(old(line)@) + hint(key@, what@, enabled),
{
    let ghost before = views(line@);
    let k = cat2(" ", key);
    let w = cat3(" ", what, " ");
    write_piece(
        line,
        k.as_str(),
        if enabled {
            Ink::AccentBold
        } else {
            Ink::Muted
        },
    );
    write_piece(line, w.as_str(), Ink::Muted);
    assert(views(line@) =~= before + hint(key@, what@, enabled));
}

/// The last line of the screen.
pub fn footer(app: &App) -> (r: Vec<Piece>)
    ensures
        views(r@) == footer_of(app@),
{
    let mut line: Vec<Piece> = Vec::new();
    assert(views(line@) =~= seq![]);
    if app.filter_editing {
        write_piece(&mut line, " filter ", Ink::Chip);
        write_piece(&mut line, " ", Ink::Plain);
        write_piece(&mut line, app.filter.as_str(), Ink::Plain);
        write_piece(&mut line, "▏", Ink::Accent);
        write_piece(&mut line, "   enter to apply · esc to clear", Ink::Muted);
        assert(views(line@) =~= footer_of(app@));
        return line;
    }
    add_hint(&mut line, "↹/1-8", "tab", true);
    assert(views(line@) =~= hint("↹/1-8"@, "tab"@, true));
    add_hint(&mut line, "↑↓", "move", true);
    add_hint(&mut line, "⏎", "detail", true);
    add_hint(&mut line, "/", "filter", true);
    add_hint(&mut line, "s/S", "sort", true);
    // `r` cannot re-run an audit that was replayed from a file.
    add_hint(&mut line, "r", "refresh", app.live);
    add_hint(&mut line, "e", "export", true);
    add_hint(&mut line, "?", "help", true);
    add_hint(&mut line, "q", "quit", true);
    let ghost before = views(line@);
    if !is_blank(&app.status) {
        let status = cat2("  ", app.status.as_str());
        write_piece(&mut line, status.as_str(), Ink::Good);
        assert(views(line@) =~= before + seq![inked("  "@ + app@.status, Ink::Good)]);
    } else {
        assert(views(line@) =~= before + seq![]);
    }
    line
}

// -------------------------------------------------------------- detail ----

/// The lines of a value.
pub open spec fn value_lines(lines: Seq<Seq<char>>) -> Seq<PieceView> {
    Seq::new(lines.len(), |i: int| inked(lines[i], Ink::Plain))
}

/// The lines of one pair: the key, the value line by line, and a gap. A pair
/// without a value has none.
pub open spec fn pair_lines(pair: (Seq<char>, Seq<char>)) -> Seq<PieceView> {
    if trimmed(pair.1).len() == 0 {
        seq![]
    } else {
        seq![inked(uppercase(pair.0), Ink::MutedBold)] + value_lines(lines_of(pair.1)) + seq![
            inked(""@, Ink::Plain),
        ]
    }
}

/// `pair_lines` as a function to hand over.
pub open spec fn pair_rule() -> spec_fn((Seq<char>, Seq<char>)) -> Seq<PieceView> {
    |pair: (Seq<char>, Seq<char>)| pair_lines(pair)
}

/// What the detail pane says of a row, one piece a line.
pub open spec fn detail_of(row: ViewRowView) -> Seq<PieceView> {
    row.detail.flat_map(pair_rule())
}

fn lines_of_pair(pair: &(String, String)) -> (r: Vec<Piece>)
    ensures
        views(r@) == pair_lines(pair@),
{
    let mut out: Vec<Piece> = Vec::new();
    assert(views(out@) =~= seq![]);
    let cs = chars_of(pair.1.as_str());
    if trim(cs.as_slice()).len() == 0 {
        return out;
    }
    let key = to_uppercase(pair.0.as_str());
    write_piece(&mut out, key.as_str(), Ink::MutedBold);
    let ls = lines(cs.as_slice());
    let ghost all = lines_of(pair.1@);
    let ghost head = views(out@);
    assert(head =~= seq![inked(uppercase(pair.0@), Ink::MutedBold)]);
    let mut i: usize = 0;
    assert(views(out@) =~= head + value_lines(all.take(0)));
    while i < ls.len()
        invariant
            i <= ls.len(),
            all == views(ls@),
            views(out@) == head + value_lines(all.take(i as int)),
        decreases ls.len() - i,
    {
        let text = string_of(ls[i]);
        write_piece(&mut out, text.as_str(), Ink::Plain);
        assert(views(out@) =~= head + value_lines(all.take(i + 1)));
        i += 1;
    }
    assert(all.take(all.len() as int) =~= all);
    let ghost before = views(out@);
    write_piece(&mut out, "", Ink::Plain);
    assert(views(out@) =~= before + seq![inked(""@, Ink::Plain)]);
    out
}

/// What the detail pane says of a row, one piece a line.
pub fn detail_lines(row: &ViewRow) -> (r: Vec<Piece>)
    ensures
        views(r@) == detail_of(row@),
{
    spread(&row.detail, lines_of_pair, Ghost(pair_rule()))
}

// ---------------------------------------------------------------- help ----

/// One line of the help: a key and what it does.
#[derive(Debug, Clone)]
pub struct Help {
    pub key: String,
    pub what: &'static str,
}

/// What a `Help` holds.
#[verifier::ext_equal]
pub struct HelpView {
    pub key: Seq<char>,
    pub what: Seq<char>,
}

impl View for Help {
    type V = HelpView;

    open spec fn view(&self) -> HelpView {
        HelpView { key: self.key@, what: self.what@ }
    }
}

/// A key, in a column of its own, and what it does.
pub open spec fn explained(key: Seq<char>, what: Seq<char>) -> HelpView {
    HelpView { key: padded_right(key, 18), what }
}

/// Every key and what it does.
pub open spec fn help_of() -> Seq<HelpView> {
    seq![
        explained("1 – 8, ← →, tab"@, "switch tab"@),
        explained("↑ ↓ / j k"@, "move selection"@),
        explained("pgup / pgdn"@, "page"@),
        explained("g / G"@, "first / last row"@),
        explained("enter"@, "open the detail pane for the selected row"@),
        explained("/"@, "filter rows (matches hidden detail too)"@),
        explained("esc"@, "close overlay, or clear the filter"@),
        explained("s"@, "cycle the sort column"@),
        explained("S"@, "reverse the sort"@),
        explained("r"@, "re-run the audit over the same ssh connection"@),
        explained("e"@, "export audit.json and audit.md next to you"@),
        explained("?"@, "this help"@),
        explained("q"@, "quit"@),
    ]
}

fn explain(key: &str, what: &'static str) -> (r: Help)
    ensures
        r@ == explained(key@, what@),
{
    Help { key: pad_right(key, 18), what }
}

/// Every key and what it does.
pub fn help() -> (r: Vec<Help>)
    ensures
        views(r@) == help_of(),
{
    let r = vec![
        explain("1 – 8, ← →, tab", "switch tab"),
        explain("↑ ↓ / j k", "move selection"),
        explain("pgup / pgdn", "page"),
        explain("g / G", "first / last row"),
        explain("enter", "open the detail pane for the selected row"),
        explain("/", "filter rows (matches hidden detail too)"),
        explain("esc", "close overlay, or clear the filter"),
        explain("s", "cycle the sort column"),
        explain("S", "reverse the sort"),
        explain("r", "re-run the audit over the same ssh connection"),
        explain("e", "export audit.json and audit.md next to you"),
        explain("?", "this help"),
        explain("q", "quit"),
    ];
    assert(views(r@) =~= help_of());
    r
}

// ---------------------------------------------------------------- laws ----

/// The header names the login of the remote side alone: what stood before the
/// last `@` of the target is gone.
pub proof fn law_login_is_not_repeated(target: Seq<char>)
    ensures
        forall|i: int| 0 <= i < address_of(target).len() ==> #[trigger] address_of(target)[i] != '@',
{
    let k = Class::Only('@');
    lemma_last_in(target, k);
    assert forall|i: int| 0 <= i < address_of(target).len() implies #[trigger] address_of(target)[i]
        != '@' by {
        let at = last_in(target, k);
        if at >= 0 {
            assert(address_of(target)[i] == target[at + 1 + i]);
        }
    }
}

} // verus!
