//! What a report holds, stated by what was collected.

use crate::fmt::{dec, padded_right, repeated};
use crate::gather::lemma_filter_map_keeps;
use crate::model::{
    AuditView, ContainerView, CronEntryView, DirUsageView, FilesystemView, ListenerView,
    ProbeOutcomeView, TimerView,
};
use crate::parse::bytes_text;
use crate::report::{
    blind_text, container_item, containers_section, counted_heading, cron_item, directory_item,
    filesystem_item, finding_item, findings_section, largest, law_report_covers_every_section,
    listener_item, listeners_by_port, listeners_section, never_started, ports_text, probe_item,
    probes_section, report_text, schedules_section, section_text, service_item, services_section,
    storage_section, timer_item, unit_item, ByPort, Flavor,
};
use crate::sorting::{lemma_sorted_contains, rank};
use crate::text::{contains_text, lemma_holds_last, lemma_holds_then, lemma_holds_through};
use crate::told::lemma_holds_middle;
use vstd::prelude::*;

verus! {

/// A list holds what one of its items holds.
proof fn lemma_in_items(f: Flavor, s: Seq<Seq<char>>, i: int, piece: Seq<char>)
    requires
        0 <= i < s.len(),
        contains_text(s[i], piece),
    ensures
        contains_text(f.items(s), piece),
    decreases s.len(),
{
    let before = f.items(s.drop_last());
    let last = f.item(s.last());
    if i == s.len() - 1 {
        let x = s[i];
        match f {
            Flavor::Markdown => lemma_holds_middle("- "@, x, "\n"@),
            Flavor::Text => lemma_holds_middle("  * "@, x, "\n"@),
        }
        lemma_holds_through(last, x, piece);
        lemma_holds_last(before, last);
        lemma_holds_through(before + last, last, piece);
    } else {
        assert(s.drop_last()[i] == s[i]);
        lemma_in_items(f, s.drop_last(), i, piece);
        lemma_holds_then(before, last, piece);
    }
}

/// A list that is made of facts holds what is said of each.
proof fn lemma_in_list<A>(
    f: Flavor,
    s: Seq<A>,
    g: spec_fn(A) -> Option<Seq<char>>,
    i: int,
    piece: Seq<char>,
)
    requires
        0 <= i < s.len(),
        g(s[i]) is Some,
        contains_text(g(s[i])->0, piece),
    ensures
        contains_text(f.items(s.filter_map(g)), piece),
{
    lemma_filter_map_keeps(s, g, i);
    let t = s.filter_map(g);
    let j = choose|j: int| 0 <= j < t.len() && t[j] == g(s[i])->0;
    lemma_in_items(f, t, j, piece);
}

/// What stands behind a heading is in the report if its section is.
proof fn lemma_in_report(
    report: Seq<char>,
    section: Seq<char>,
    a: Seq<char>,
    list: Seq<char>,
    b: Seq<char>,
    piece: Seq<char>,
)
    requires
        contains_text(report, section),
        section == a + list + b,
        contains_text(list, piece),
    ensures
        contains_text(report, piece),
{
    lemma_holds_middle(a, list, b);
    lemma_holds_through(section, list, piece);
    lemma_holds_through(report, section, piece);
}

/// Every report holds every finding, by its severity, its title and its detail.
pub proof fn law_findings_are_written(a: AuditView, f: Flavor, i: int)
    requires
        0 <= i < a.findings.len(),
    ensures
        ({
            let x = a.findings[i];
            contains_text(
                report_text(a, f),
                "**"@ + x.severity.name() + "** "@ + x.title + " — "@ + x.detail,
            )
        }),
{
    let x = a.findings[i];
    let said = "**"@ + x.severity.name() + "** "@ + x.title + " — "@ + x.detail;
    let none: Seq<char> = seq![];
    law_report_covers_every_section(a, f);
    lemma_holds_last(none, said);
    assert(none + said =~= said);
    lemma_in_list(f, a.findings, finding_item(), i, said);
    let list = f.items(a.findings.filter_map(finding_item()));
    let head = counted_heading(f, "Findings"@, a.findings.len());
    assert(findings_section(a, f) =~= head + list + none);
    lemma_in_report(report_text(a, f), findings_section(a, f), head, list, none, said);
}

/// What a report holds of a socket is what its item holds.
#[verifier::spinoff_prover]
proof fn lemma_socket_piece(a: AuditView, f: Flavor, i: int, piece: Seq<char>)
    requires
        0 <= i < a.listeners.len(),
        blind_text(a, "listeners"@) is None,
        contains_text(listener_item(f)(a.listeners[i])->0, piece),
    ensures
        contains_text(listeners_section(a, f), piece),
{
    let l = a.listeners[i];
    let s = listeners_by_port(a);
    assert(a.listeners.contains(l));
    lemma_sorted_contains(a.listeners, rank::<ByPort>(), l);
    let j = choose|j: int| 0 <= j < s.len() && s[j] == l;
    lemma_in_list(f, s, listener_item(f), j, piece);
    let list = f.items(s.filter_map(listener_item(f)));
    let head = counted_heading(f, "Listening sockets"@, a.listeners.len());
    lemma_holds_last(head, list);
    lemma_holds_through(head + list, list, piece);
}

#[verifier::spinoff_prover]
proof fn lemma_socket_item(f: Flavor, l: ListenerView)
    ensures
        contains_text(listener_item(f)(l)->0, l.endpoint()),
        l.process matches Some(name) ==> contains_text(listener_item(f)(l)->0, name),
{
    let none: Seq<char> = seq![];
    let item = listener_item(f)(l)->0;
    let lead = padded_right(l.proto, 4) + " "@;
    let place = f.verbatim(l.endpoint());
    let gap = repeated(' ', 24 - place.len());
    let who = match l.process {
        Some(name) => name,
        None => "?"@,
    };
    let mid = " "@ + padded_right(l.exposure.name(), 6) + " "@;
    assert(item =~= lead + place + (gap + mid + who));
    lemma_holds_middle(lead, place, gap + mid + who);
    match f {
        Flavor::Markdown => lemma_holds_middle("`"@, l.endpoint(), "`"@),
        Flavor::Text => {
            lemma_holds_last(none, l.endpoint());
            assert(none + l.endpoint() =~= l.endpoint());
        },
    }
    lemma_holds_through(item, place, l.endpoint());
    let before = lead + padded_right(place, 24) + mid;
    assert(item =~= before + who);
    lemma_holds_last(before, who);
}

/// Every report holds every socket, by its endpoint and its owner, unless they were not
/// collected.
#[verifier::spinoff_prover]
pub proof fn law_sockets_are_written(a: AuditView, f: Flavor, i: int)
    requires
        0 <= i < a.listeners.len(),
        blind_text(a, "listeners"@) is None,
    ensures
        contains_text(report_text(a, f), a.listeners[i].endpoint()),
        a.listeners[i].process matches Some(name) ==> contains_text(report_text(a, f), name),
{
    let l = a.listeners[i];
    law_report_covers_every_section(a, f);
    lemma_socket_item(f, l);
    lemma_socket_piece(a, f, i, l.endpoint());
    lemma_holds_through(report_text(a, f), listeners_section(a, f), l.endpoint());
    if l.process is Some {
        lemma_socket_piece(a, f, i, l.process->0);
        lemma_holds_through(report_text(a, f), listeners_section(a, f), l.process->0);
    }
}

#[verifier::spinoff_prover]
proof fn lemma_container_piece(a: AuditView, f: Flavor, i: int, piece: Seq<char>)
    requires
        0 <= i < a.containers.len(),
        blind_text(a, "containers"@) is None,
        contains_text(container_item()(a.containers[i])->0, piece),
    ensures
        contains_text(containers_section(a, f), piece),
{
    lemma_in_list(f, a.containers, container_item(), i, piece);
    let list = f.items(a.containers.filter_map(container_item()));
    let head = counted_heading(f, "Containers"@, a.containers.len());
    lemma_holds_last(head, list);
    lemma_holds_through(head + list, list, piece);
}

/// Every report holds every container, by its name, state, image, status and ports,
/// unless they were not collected.
#[verifier::spinoff_prover]
pub proof fn law_containers_are_written(a: AuditView, f: Flavor, i: int)
    requires
        0 <= i < a.containers.len(),
        blind_text(a, "containers"@) is None,
    ensures
        ({
            let c = a.containers[i];
            &&& contains_text(
                report_text(a, f),
                c.name + " ["@ + c.state + "] "@ + c.image + " — "@ + c.status,
            )
            &&& c.ports.len() > 0 ==> contains_text(report_text(a, f), ports_text(c))
        }),
{
    let c = a.containers[i];
    law_report_covers_every_section(a, f);
    let said = c.name + " ["@ + c.state + "] "@ + c.image + " — "@ + c.status;
    let ports = if c.ports.len() == 0 {
        "-"@
    } else {
        ports_text(c)
    };
    lemma_container_item(c);
    lemma_container_piece(a, f, i, said);
    lemma_holds_through(report_text(a, f), containers_section(a, f), said);
    lemma_container_piece(a, f, i, ports);
    lemma_holds_through(report_text(a, f), containers_section(a, f), ports);
}

#[verifier::spinoff_prover]
proof fn lemma_container_item(c: ContainerView)
    ensures
        contains_text(
            container_item()(c)->0,
            c.name + " ["@ + c.state + "] "@ + c.image + " — "@ + c.status,
        ),
        contains_text(
            container_item()(c)->0,
            if c.ports.len() == 0 {
                "-"@
            } else {
                ports_text(c)
            },
        ),
{
    let said = c.name + " ["@ + c.state + "] "@ + c.image + " — "@ + c.status;
    let ports = if c.ports.len() == 0 {
        "-"@
    } else {
        ports_text(c)
    };
    let none: Seq<char> = seq![];
    lemma_holds_last(none, said);
    assert(none + said =~= said);
    lemma_holds_then(said, " — "@, said);
    lemma_holds_then(said + " — "@, ports, said);
    lemma_holds_last(said + " — "@, ports);
}

/// Two lists behind two headings hold what either holds.
proof fn lemma_two_lists(
    h1: Seq<char>,
    l1: Seq<char>,
    h2: Seq<char>,
    l2: Seq<char>,
    piece: Seq<char>,
)
    requires
        contains_text(l1, piece) || contains_text(l2, piece),
    ensures
        contains_text(h1 + l1 + h2 + l2, piece),
{
    if contains_text(l1, piece) {
        lemma_holds_last(h1, l1);
        lemma_holds_through(h1 + l1, l1, piece);
        lemma_holds_then(h1 + l1, h2, piece);
        lemma_holds_then(h1 + l1 + h2, l2, piece);
    } else {
        lemma_holds_last(h1 + l1 + h2, l2);
        lemma_holds_through(h1 + l1 + h2 + l2, l2, piece);
    }
}

/// A text holds what it starts with.
proof fn lemma_starts(a: Seq<char>, b: Seq<char>)
    ensures
        contains_text(a + b, a),
{
    let none: Seq<char> = seq![];
    lemma_holds_last(none, a);
    assert(none + a =~= a);
    lemma_holds_then(a, b, a);
}

/// Every report holds every service with its state, and every unit that starts at boot,
/// unless they were not collected.
#[verifier::spinoff_prover]
pub proof fn law_services_are_written(a: AuditView, f: Flavor, i: int, j: int)
    ensures
        0 <= i < a.services.len() && blind_text(a, "services"@) is None ==> contains_text(
            report_text(a, f),
            a.services[i].unit + " ["@ + a.services[i].active + "/"@ + a.services[i].sub + "] "@
                + a.services[i].description,
        ),
        0 <= j < a.unit_files.len() && blind_text(a, "unitfiles"@) is None ==> contains_text(
            report_text(a, f),
            a.unit_files[j].unit,
        ),
{
    let section = services_section(a, f);
    law_report_covers_every_section(a, f);
    if 0 <= i < a.services.len() && blind_text(a, "services"@) is None {
        let s = a.services[i];
        let said = s.unit + " ["@ + s.active + "/"@ + s.sub + "] "@ + s.description;
        let none: Seq<char> = seq![];
        lemma_holds_last(none, said);
        assert(none + said =~= said);
        lemma_service_piece(a, f, i, -1, said);
        lemma_holds_through(report_text(a, f), section, said);
    }
    if 0 <= j < a.unit_files.len() && blind_text(a, "unitfiles"@) is None {
        let u = a.unit_files[j];
        lemma_starts(
            u.unit,
            if never_started(a.services, u.unit) {
                "  (inactive)"@
            } else {
                ""@
            },
        );
        lemma_service_piece(a, f, -1, j, u.unit);
        lemma_holds_through(report_text(a, f), section, u.unit);
    }
}

#[verifier::spinoff_prover]
proof fn lemma_service_piece(a: AuditView, f: Flavor, i: int, j: int, piece: Seq<char>)
    requires
        (0 <= i < a.services.len() && blind_text(a, "services"@) is None && contains_text(
            service_item()(a.services[i])->0,
            piece,
        )) || (0 <= j < a.unit_files.len() && blind_text(a, "unitfiles"@) is None && contains_text(
            unit_item(a.services)(a.unit_files[j])->0,
            piece,
        )),
    ensures
        contains_text(services_section(a, f), piece),
{
    let h1 = f.heading("Services ("@ + dec(a.services.len()) + " running, completed or failed)"@);
    let l1 = section_text(f, a, "services"@, a.services.filter_map(service_item()));
    let h2 = counted_heading(f, "Enabled at boot"@, a.unit_files.len());
    let l2 = section_text(f, a, "unitfiles"@, a.unit_files.filter_map(unit_item(a.services)));
    if 0 <= i < a.services.len() && blind_text(a, "services"@) is None && contains_text(
        service_item()(a.services[i])->0,
        piece,
    ) {
        lemma_in_list(f, a.services, service_item(), i, piece);
    } else {
        lemma_in_list(f, a.unit_files, unit_item(a.services), j, piece);
    }
    lemma_two_lists(h1, l1, h2, l2, piece);
}

/// Every report holds every filesystem, by its mount and its device, and each of the
/// first 25 directories, by its path and its size, unless they were not collected.
#[verifier::spinoff_prover]
pub proof fn law_storage_is_written(a: AuditView, f: Flavor, i: int, j: int)
    ensures
        0 <= i < a.filesystems.len() && blind_text(a, "df"@) is None ==> contains_text(
            report_text(a, f),
            a.filesystems[i].mount,
        ) && contains_text(
            report_text(a, f),
            ") on "@ + a.filesystems[i].source + " ["@ + a.filesystems[i].fstype + "]"@,
        ),
        0 <= j < a.dir_usage.len() && j < 25 && blind_text(a, "du"@) is None ==> contains_text(
            report_text(a, f),
            bytes_text(a.dir_usage[j].bytes as nat) + "  "@ + a.dir_usage[j].path,
        ),
{
    let section = storage_section(a, f);
    law_report_covers_every_section(a, f);
    if 0 <= i < a.filesystems.len() && blind_text(a, "df"@) is None {
        let fs = a.filesystems[i];
        let said = ") on "@ + fs.source + " ["@ + fs.fstype + "]"@;
        lemma_filesystem_item(fs);
        lemma_storage_piece(a, f, i, -1, fs.mount);
        lemma_holds_through(report_text(a, f), section, fs.mount);
        lemma_storage_piece(a, f, i, -1, said);
        lemma_holds_through(report_text(a, f), section, said);
    }
    if 0 <= j < a.dir_usage.len() && j < 25 && blind_text(a, "du"@) is None {
        let d = a.dir_usage[j];
        let size = bytes_text(d.bytes as nat);
        let said = size + "  "@ + d.path;
        lemma_directory_item(d);
        lemma_storage_piece(a, f, -1, j, said);
        lemma_holds_through(report_text(a, f), section, said);
    }
}

proof fn lemma_directory_item(d: DirUsageView)
    ensures
        contains_text(directory_item()(d)->0, bytes_text(d.bytes as nat) + "  "@ + d.path),
{
    let size = bytes_text(d.bytes as nat);
    let said = size + "  "@ + d.path;
    let lead = repeated(' ', 7 - size.len());
    assert(directory_item()(d)->0 =~= lead + said);
    lemma_holds_last(lead, said);
}

#[verifier::spinoff_prover]
proof fn lemma_filesystem_item(fs: FilesystemView)
    ensures
        contains_text(filesystem_item()(fs)->0, fs.mount),
        contains_text(
            filesystem_item()(fs)->0,
            ") on "@ + fs.source + " ["@ + fs.fstype + "]"@,
        ),
{
    let item = filesystem_item()(fs)->0;
    let said = ") on "@ + fs.source + " ["@ + fs.fstype + "]"@;
    let tail = item.skip(fs.mount.len() as int);
    assert(item =~= fs.mount + tail);
    lemma_starts(fs.mount, tail);
    let lead = item.take(item.len() - said.len());
    assert(item =~= lead + said);
    lemma_holds_last(lead, said);
}

#[verifier::spinoff_prover]
proof fn lemma_storage_piece(a: AuditView, f: Flavor, i: int, j: int, piece: Seq<char>)
    requires
        (0 <= i < a.filesystems.len() && blind_text(a, "df"@) is None && contains_text(
            filesystem_item()(a.filesystems[i])->0,
            piece,
        )) || (0 <= j < a.dir_usage.len() && j < 25 && blind_text(a, "du"@) is None && contains_text(
            directory_item()(a.dir_usage[j])->0,
            piece,
        )),
    ensures
        contains_text(storage_section(a, f), piece),
{
    let h1 = f.heading("Filesystems"@);
    let l1 = section_text(f, a, "df"@, a.filesystems.filter_map(filesystem_item()));
    let h2 = f.heading("Largest directories"@);
    let d = largest(a.dir_usage);
    let l2 = section_text(f, a, "du"@, d.filter_map(directory_item()));
    if 0 <= i < a.filesystems.len() && blind_text(a, "df"@) is None && contains_text(
        filesystem_item()(a.filesystems[i])->0,
        piece,
    ) {
        lemma_in_list(f, a.filesystems, filesystem_item(), i, piece);
    } else {
        assert(d[j] == a.dir_usage[j]);
        lemma_in_list(f, d, directory_item(), j, piece);
    }
    lemma_two_lists(h1, l1, h2, l2, piece);
}

/// Every report holds every job, by its schedule, its command and its source, and every
/// timer, by its unit, when it is due and what it activates, unless they were not
/// collected.
#[verifier::spinoff_prover]
pub proof fn law_schedules_are_written(a: AuditView, f: Flavor, i: int, j: int)
    ensures
        0 <= i < a.cron.len() && blind_text(a, "cron"@) is None ==> contains_text(
            report_text(a, f),
            a.cron[i].schedule,
        ) && contains_text(
            report_text(a, f),
            a.cron[i].command + "   ["@ + a.cron[i].source + "]"@,
        ),
        0 <= j < a.timers.len() && blind_text(a, "timers"@) is None ==> {
            let t = a.timers[j];
            &&& contains_text(report_text(a, f), t.unit)
            &&& t.left.len() > 0 ==> contains_text(report_text(a, f), due_text(t))
        },
{
    let section = schedules_section(a, f);
    law_report_covers_every_section(a, f);
    if 0 <= i < a.cron.len() && blind_text(a, "cron"@) is None {
        let c = a.cron[i];
        let said = c.command + "   ["@ + c.source + "]"@;
        lemma_job_item(c);
        lemma_schedule_piece(a, f, i, -1, c.schedule);
        lemma_holds_through(report_text(a, f), section, c.schedule);
        lemma_schedule_piece(a, f, i, -1, said);
        lemma_holds_through(report_text(a, f), section, said);
    }
    if 0 <= j < a.timers.len() && blind_text(a, "timers"@) is None {
        let t = a.timers[j];
        lemma_timer_item(t);
        lemma_schedule_piece(a, f, -1, j, t.unit);
        lemma_holds_through(report_text(a, f), section, t.unit);
        if t.left.len() > 0 {
            lemma_schedule_piece(a, f, -1, j, due_text(t));
            lemma_holds_through(report_text(a, f), section, due_text(t));
        }
    }
}

/// When a timer runs, when it ran and what it activates.
pub open spec fn due_text(t: TimerView) -> Seq<char> {
    " next in "@ + t.left + " ("@ + t.next + "), last "@ + t.passed + " -> "@ + t.activates
}

#[verifier::spinoff_prover]
proof fn lemma_job_item(c: CronEntryView)
    ensures
        contains_text(cron_item()(c)->0, c.schedule),
        contains_text(cron_item()(c)->0, c.command + "   ["@ + c.source + "]"@),
{
    let item = cron_item()(c)->0;
    let tail = item.skip(c.schedule.len() as int);
    assert(item =~= c.schedule + tail);
    lemma_starts(c.schedule, tail);
    let said = c.command + "   ["@ + c.source + "]"@;
    let lead = padded_right(c.schedule, 16) + " "@ + padded_right(c.user, 10) + " "@;
    assert(item =~= lead + said);
    lemma_holds_last(lead, said);
}

#[verifier::spinoff_prover]
proof fn lemma_timer_item(t: TimerView)
    ensures
        contains_text(timer_item()(t)->0, t.unit),
        t.left.len() > 0 ==> contains_text(timer_item()(t)->0, due_text(t)),
{
    let item = timer_item()(t)->0;
    let tail = item.skip(t.unit.len() as int);
    assert(item =~= t.unit + tail);
    lemma_starts(t.unit, tail);
    if t.left.len() > 0 {
        reveal_strlit(")");
        reveal_strlit(", last ");
        reveal_strlit("), last ");
        assert("), last "@ =~= ")"@ + ", last "@);
        let lead = padded_right(t.unit, 30);
        assert(item =~= lead + due_text(t));
        lemma_holds_last(lead, due_text(t));
    }
}

#[verifier::spinoff_prover]
proof fn lemma_schedule_piece(a: AuditView, f: Flavor, i: int, j: int, piece: Seq<char>)
    requires
        (0 <= i < a.cron.len() && blind_text(a, "cron"@) is None && contains_text(
            cron_item()(a.cron[i])->0,
            piece,
        )) || (0 <= j < a.timers.len() && blind_text(a, "timers"@) is None && contains_text(
            timer_item()(a.timers[j])->0,
            piece,
        )),
    ensures
        contains_text(schedules_section(a, f), piece),
{
    let h1 = counted_heading(f, "Cron"@, a.cron.len());
    let l1 = section_text(f, a, "cron"@, a.cron.filter_map(cron_item()));
    let h2 = counted_heading(f, "Systemd timers"@, a.timers.len());
    let l2 = section_text(f, a, "timers"@, a.timers.filter_map(timer_item()));
    if 0 <= i < a.cron.len() && blind_text(a, "cron"@) is None && contains_text(
        cron_item()(a.cron[i])->0,
        piece,
    ) {
        lemma_in_list(f, a.cron, cron_item(), i, piece);
    } else {
        lemma_in_list(f, a.timers, timer_item(), j, piece);
    }
    lemma_two_lists(h1, l1, h2, l2, piece);
}

/// Every report holds every probe, by what came of it, its command, its label and its
/// note.
#[verifier::spinoff_prover]
pub proof fn law_probes_are_written(a: AuditView, f: Flavor, i: int)
    requires
        0 <= i < a.probes.len(),
    ensures
        contains_text(report_text(a, f), " ("@ + a.probes[i].label + ")"@),
        contains_text(report_text(a, f), f.verbatim(a.probes[i].command)),
        a.probes[i].note.len() > 0 ==> contains_text(report_text(a, f), " — "@ + a.probes[i].note),
        contains_text(report_text(a, f), a.probes[i].status.name()),
{
    let p = a.probes[i];
    let section = probes_section(a, f);
    let report = report_text(a, f);
    law_report_covers_every_section(a, f);
    lemma_probe_item(f, p);
    lemma_probe_piece(a, f, i, " ("@ + p.label + ")"@);
    lemma_holds_through(report, section, " ("@ + p.label + ")"@);
    lemma_probe_piece(a, f, i, f.verbatim(p.command));
    lemma_holds_through(report, section, f.verbatim(p.command));
    lemma_probe_piece(a, f, i, p.status.name());
    lemma_holds_through(report, section, p.status.name());
    if p.note.len() > 0 {
        lemma_probe_piece(a, f, i, " — "@ + p.note);
        lemma_holds_through(report, section, " — "@ + p.note);
    }
}

#[verifier::spinoff_prover]
proof fn lemma_probe_item(f: Flavor, p: ProbeOutcomeView)
    ensures
        contains_text(probe_item(f)(p)->0, " ("@ + p.label + ")"@),
        contains_text(probe_item(f)(p)->0, f.verbatim(p.command)),
        p.note.len() > 0 ==> contains_text(probe_item(f)(p)->0, " — "@ + p.note),
        contains_text(probe_item(f)(p)->0, p.status.name()),
{
    let item = probe_item(f)(p)->0;
    let status = padded_right(p.status.name(), 8) + " "@;
    let what = f.verbatim(p.command);
    let label = " ("@ + p.label + ")"@;
    let note = if p.note.len() == 0 {
        ""@
    } else {
        " — "@ + p.note
    };
    assert(item =~= status + what + label + note);
    lemma_holds_last(status, what);
    lemma_holds_then(status + what, label, what);
    lemma_holds_then(status + what + label, note, what);
    lemma_holds_last(status + what, label);
    lemma_holds_then(status + what + label, note, label);
    lemma_holds_last(status + what + label, note);
    let name = p.status.name();
    let tail = item.skip(name.len() as int);
    assert(item =~= name + tail);
    lemma_starts(name, tail);
}

#[verifier::spinoff_prover]
proof fn lemma_probe_piece(a: AuditView, f: Flavor, i: int, piece: Seq<char>)
    requires
        0 <= i < a.probes.len(),
        contains_text(probe_item(f)(a.probes[i])->0, piece),
    ensures
        contains_text(probes_section(a, f), piece),
{
    lemma_in_list(f, a.probes, probe_item(f), i, piece);
    let list = f.items(a.probes.filter_map(probe_item(f)));
    let head = f.heading("Probes"@);
    lemma_holds_last(head, list);
    lemma_holds_through(head + list, list, piece);
}

} // verus!
