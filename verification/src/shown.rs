//! What the tables show, stated by what was collected.

use crate::app::{
    cell, law_matching_rows_are_shown, law_shown_rows_are_rows, law_sorted_rows_are_in_order,
    AppView, Shown,
};
use crate::columns::law_percentages_read_back;
use crate::findings::{datastore_port, feeds_shell};
use crate::fmt::{dec, dec_int};
use crate::gather::lemma_filter_map_keeps;
use crate::model::{
    AuditView, ContainerView, DirUsageView, Exposure, FilesystemView, FindingView, ListenerView,
    Severity,
};
use crate::number::digits_value;
use crate::order::{begins_apart, ends_apart, is_numeral, law_numbers_compare_by_value};
use crate::parse::{bytes_text, pct_of};
use crate::report::{listeners_by_port, port_or_last, ports_text, ByPort};
use crate::rows::{
    container_rows, containers_view, dir_row, dir_rows, dirs_view, disk_rows, disks_view,
    finding_rows, findings_view, idle_row, idle_rows, job_row, job_rows, largest_size, port_rows,
    ports_view, probe_rows, probes_view, schedules_view, service_row, service_rows, services_view,
    timer_row, timer_rows, ByMount, ViewRow, ViewRowView,
};
use crate::sorting::{
    is_total_preorder, lemma_sorted_ascending, lemma_sorted_contains, lemma_sorted_len,
    lemma_text_order_total, rank, sorted,
};
use crate::tab::Tone;
use crate::text::{contains_text, lines_of, lowercase};
use crate::told::is_disk;
use crate::ui::{count_exposed, count_running, count_severity, fullest, tiles_of, Ink};
use vstd::arithmetic::power2::pow2;
use vstd::prelude::*;

verus! {

/// A row for every element.
proof fn lemma_row_for<A>(s: Seq<A>, f: spec_fn(A) -> Option<ViewRowView>, i: int)
    requires
        0 <= i < s.len(),
        forall|x: A| (#[trigger] f(x)) is Some,
    ensures
        s.filter_map(f).len() == s.len(),
        s.filter_map(f).contains(f(s[i])->0),
    decreases s.len(),
{
    lemma_filter_map_keeps(s, f, i);
    lemma_as_many(s, f);
}

proof fn lemma_as_many<A>(s: Seq<A>, f: spec_fn(A) -> Option<ViewRowView>)
    requires
        forall|x: A| (#[trigger] f(x)) is Some,
    ensures
        s.filter_map(f).len() == s.len(),
    decreases s.len(),
{
    if s.len() > 0 {
        lemma_as_many(s.drop_last(), f);
    }
}

/// Every finding stands on the Overview, by its severity, its title and its detail, and
/// the worse it is the louder.
pub proof fn law_findings_are_shown(a: AuditView, i: int)
    requires
        0 <= i < a.findings.len(),
    ensures
        findings_view(a).rows.len() == a.findings.len(),
        exists|r: ViewRowView| #[trigger]
            findings_view(a).rows.contains(r) && {
                let f = a.findings[i];
                &&& r.cells[1] == f.title
                &&& r.cells[2] == f.detail
                &&& f.severity is High ==> r.cells[0] == "HIGH"@ && r.tone == Tone::Bad
                &&& f.severity is Medium ==> r.cells[0] == "MED"@ && r.tone == Tone::Warn
                &&& f.severity is Low ==> r.cells[0] == "LOW"@ && r.tone == Tone::Normal
                &&& f.severity is Info ==> r.cells[0] == "INFO"@ && r.tone == Tone::Dim
            },
{
    lemma_row_for(a.findings, finding_rows(), i);
    assert(findings_view(a).rows.contains(finding_rows()(a.findings[i])->0));
}

/// Every socket stands among the ports, with how far it reaches and who holds it, and
/// loudest where it is a datastore that everybody can reach.
pub proof fn law_sockets_are_shown(a: AuditView, i: int)
    requires
        0 <= i < a.listeners.len(),
    ensures
        ports_view(a).rows.len() == a.listeners.len(),
        exists|r: ViewRowView| #[trigger]
            ports_view(a).rows.contains(r) && {
                let l = a.listeners[i];
                &&& r.cells[0] == l.proto
                &&& r.cells[1] == l.port
                &&& r.cells[3] == l.addr
                &&& l.exposure is AllInterfaces ==> r.cells[4] == "ALL"@ && (r.tone == Tone::Bad
                    || r.tone == Tone::Warn)
                &&& l.exposure is Interface ==> r.cells[4] == "iface"@ && r.tone == Tone::Normal
                &&& l.exposure is Loopback ==> r.cells[4] == "local"@ && r.tone == Tone::Dim
                &&& r.tone == Tone::Bad <==> l.exposure is AllInterfaces && l.port_num() is Some
                    && datastore_port(l.port_num()->0 as u16) is Some
                &&& l.process matches Some(name) ==> r.cells[5] == name
                &&& l.process is None ==> r.cells[5] == "?"@
                &&& l.pid matches Some(pid) ==> r.cells[6] == dec(pid as nat)
                &&& l.pid is None ==> r.cells[6] == "-"@
            },
{
    let s = listeners_by_port(a);
    let le = rank::<ByPort>();
    let l = a.listeners[i];
    assert(a.listeners.contains(l));
    lemma_sorted_contains(a.listeners, le, l);
    lemma_sorted_len(a.listeners, le);
    let j = choose|j: int| 0 <= j < s.len() && s[j] == l;
    lemma_row_for(s, port_rows(), j);
    assert(ports_view(a).rows.contains(port_rows()(l)->0));
}

/// Every container stands among the containers, with what it does and what it runs.
pub proof fn law_containers_are_shown(a: AuditView, i: int)
    requires
        0 <= i < a.containers.len(),
    ensures
        containers_view(a).rows.len() == a.containers.len(),
        exists|r: ViewRowView| #[trigger]
            containers_view(a).rows.contains(r) && {
                let c = a.containers[i];
                &&& r.cells[0] == c.name
                &&& r.cells[1] == c.state
                &&& r.cells[2] == c.image
                &&& r.cells[3] == c.status
                &&& c.ports.len() == 0 ==> r.cells[4] == "-"@
                &&& c.ports.len() > 0 ==> r.cells[4] == ports_text(c)
                &&& c.state == "running"@ ==> r.tone == Tone::Good
                &&& c.state == "restarting"@ || c.state == "dead"@ ==> r.tone == Tone::Bad
                &&& c.state == "exited"@ && c.exit_code() is Some && c.exit_code()->0 != 0 ==> r.tone
                    == Tone::Warn
                &&& c.state == "exited"@ && c.exit_code() == Some(0int) ==> r.tone == Tone::Dim
            },
{
    reveal_strlit("running");
    reveal_strlit("restarting");
    reveal_strlit("dead");
    reveal_strlit("exited");
    assert("running"@[1] == 'u' && "restarting"@[1] == 'e' && "exited"@[1] == 'x' && "dead"@[0] == 'd');
    assert("running"@.len() == 7 && "restarting"@.len() == 10 && "exited"@.len() == 6 && "dead"@.len()
        == 4);
    lemma_row_for(a.containers, container_rows(), i);
    assert(containers_view(a).rows.contains(container_rows()(a.containers[i])->0));
}

/// Every service stands among the services, the failed ones loudly, with whether it
/// starts at boot.
pub proof fn law_services_are_shown(a: AuditView, i: int)
    requires
        0 <= i < a.services.len(),
    ensures
        exists|r: ViewRowView| #[trigger]
            services_view(a).rows.contains(r) && {
                let s = a.services[i];
                let boots = exists|j: int|
                    0 <= j < a.unit_files.len() && (#[trigger] a.unit_files[j]).unit == s.unit;
                &&& r.cells[0] == s.unit
                &&& r.cells[1] == s.active
                &&& r.cells[2] == s.sub
                &&& boots ==> r.cells[3] == "enabled"@
                &&& !boots ==> r.cells[3] == "-"@
                &&& r.cells[4] == s.description
                &&& s.active == "failed"@ || s.sub == "failed"@ ==> r.tone == Tone::Bad
                &&& s.active != "failed"@ && s.sub != "failed"@ ==> r.tone == Tone::Normal
            },
{
    let f = service_rows(a.unit_files);
    let running = a.services.filter_map(f);
    let idle = a.unit_files.filter_map(idle_rows(a.services));
    let x = service_row(a.services[i], a.unit_files);
    lemma_filter_map_keeps(a.services, f, i);
    let j = choose|j: int| 0 <= j < running.len() && running[j] == x;
    assert((running + idle)[j] == x);
    lemma_sorted_contains(running + idle, rank::<ViewRow>(), x);
    assert(services_view(a).rows.contains(x));
}

/// A unit that is enabled but not listed stands among the services too, except a
/// template, which never runs under its name.
pub proof fn law_idle_units_are_shown(a: AuditView, i: int)
    requires
        0 <= i < a.unit_files.len(),
        forall|j: int|
            0 <= j < a.services.len() ==> (#[trigger] a.services[j]).unit != a.unit_files[i].unit,
        !contains_text(a.unit_files[i].unit, "@."@),
    ensures
        exists|r: ViewRowView| #[trigger]
            services_view(a).rows.contains(r) && r.cells[0] == a.unit_files[i].unit && r.cells[1]
                == "not active"@ && r.cells[3] == a.unit_files[i].state && r.tone == Tone::Dim,
{
    let f = idle_rows(a.services);
    let running = a.services.filter_map(service_rows(a.unit_files));
    let idle = a.unit_files.filter_map(f);
    let x = idle_row(a.unit_files[i]);
    assert(f(a.unit_files[i]) == Some(x));
    lemma_filter_map_keeps(a.unit_files, f, i);
    let j = choose|j: int| 0 <= j < idle.len() && idle[j] == x;
    assert((running + idle)[running.len() + j] == x);
    lemma_sorted_contains(running + idle, rank::<ViewRow>(), x);
    assert(services_view(a).rows.contains(x));
}

/// Every filesystem stands among the disks, with how full it is, loudly from 80 percent
/// on and loudest from 90 on, unless it is none that can run full.
pub proof fn law_disks_are_shown(a: AuditView, i: int, n: nat)
    requires
        0 <= i < a.filesystems.len(),
        n < pow2(24),
        a.filesystems[i].use_pct == pct_of(dec(n) + "%"@),
    ensures
        disks_view(a).rows.len() == a.filesystems.len(),
        exists|r: ViewRowView| #[trigger]
            disks_view(a).rows.contains(r) && {
                let fs = a.filesystems[i];
                &&& r.cells[0] == fs.mount
                &&& r.cells[1] == fs.size
                &&& r.cells[2] == fs.used
                &&& r.cells[3] == fs.avail
                &&& r.cells[4] == dec(n) + "%"@
                &&& fs.inode_pct is None ==> r.cells[6] == "-"@
                &&& fs.inode_pct matches Some(p) ==> r.cells[6] == p.shown() + "%"@
                &&& r.cells[7] == fs.fstype
                &&& !is_disk(fs) ==> r.tone == Tone::Dim
                &&& is_disk(fs) && n >= 90 ==> r.tone == Tone::Bad
                &&& is_disk(fs) && 80 <= n < 90 ==> r.tone == Tone::Warn
                &&& is_disk(fs) && n < 80 ==> r.tone == Tone::Normal
            },
{
    let fs = a.filesystems[i];
    let le = rank::<ByMount>();
    let s = sorted(a.filesystems, le);
    law_percentages_read_back(n, 80);
    law_percentages_read_back(n, 90);
    assert(a.filesystems.contains(fs));
    lemma_sorted_contains(a.filesystems, le, fs);
    lemma_sorted_len(a.filesystems, le);
    let j = choose|j: int| 0 <= j < s.len() && s[j] == fs;
    lemma_row_for(s, disk_rows(), j);
    assert(disks_view(a).rows.contains(disk_rows()(fs)->0));
}

proof fn lemma_largest(d: Seq<DirUsageView>, i: int)
    requires
        0 <= i < d.len(),
    ensures
        d[i].bytes <= largest_size(d),
    decreases d.len(),
{
    if i < d.len() - 1 {
        assert(d.drop_last()[i] == d[i]);
        lemma_largest(d.drop_last(), i);
    }
}

/// Every directory stands among the directories, the biggest one loudly.
pub proof fn law_directories_are_shown(a: AuditView, i: int)
    requires
        0 <= i < a.dir_usage.len(),
    ensures
        dirs_view(a).rows.len() == a.dir_usage.len(),
        exists|r: ViewRowView| #[trigger]
            dirs_view(a).rows.contains(r) && {
                let d = a.dir_usage[i];
                let biggest = forall|j: int|
                    0 <= j < a.dir_usage.len() ==> (#[trigger] a.dir_usage[j]).bytes <= d.bytes;
                &&& r.cells[0] == bytes_text(d.bytes as nat)
                &&& r.cells[2] == d.path
                &&& r.tone == Tone::Warn || r.tone == Tone::Normal
                &&& biggest && d.bytes > 0 ==> r.tone == Tone::Warn
                &&& (exists|j: int|
                    0 <= j < a.dir_usage.len() && (#[trigger] a.dir_usage[j]).bytes > 2 * d.bytes)
                    ==> r.tone == Tone::Normal
            },
{
    let d = a.dir_usage[i];
    let max = largest_size(a.dir_usage);
    lemma_row_for(a.dir_usage, dir_rows(max), i);
    let r = dir_row(d, max);
    assert(dirs_view(a).rows.contains(r));
    lemma_largest_is(a.dir_usage);
    if exists|j: int| 0 <= j < a.dir_usage.len() && (#[trigger] a.dir_usage[j]).bytes > 2 * d.bytes {
        let j = choose|j: int|
            0 <= j < a.dir_usage.len() && (#[trigger] a.dir_usage[j]).bytes > 2 * d.bytes;
        lemma_largest(a.dir_usage, j);
    }
}

proof fn lemma_largest_is(d: Seq<DirUsageView>)
    ensures
        largest_size(d) == 1 || exists|j: int|
            0 <= j < d.len() && (#[trigger] d[j]).bytes == largest_size(d),
    decreases d.len(),
{
    if d.len() > 0 {
        let r = d.drop_last();
        lemma_largest_is(r);
        if d.last().bytes > largest_size(r) {
            assert(d[d.len() - 1].bytes == largest_size(d));
        } else if largest_size(r) != 1 {
            let j = choose|j: int| 0 <= j < r.len() && (#[trigger] r[j]).bytes == largest_size(r);
            assert(d[j].bytes == largest_size(d));
        }
    }
}

/// Every job stands among the schedules with when, as whom, what and where from, and
/// every timer behind them with when it is due.
pub proof fn law_schedules_are_shown(a: AuditView, i: int, j: int)
    ensures
        schedules_view(a).rows.len() == a.cron.len() + a.timers.len(),
        0 <= i < a.cron.len() ==> exists|r: ViewRowView| #[trigger]
            schedules_view(a).rows.contains(r) && {
                let c = a.cron[i];
                &&& r.cells[0] == c.schedule
                &&& r.cells[1] == c.user
                &&& r.cells[2] == c.command
                &&& r.cells[3] == c.source
                &&& r.tone == Tone::Bad <==> feeds_shell(lowercase(c.command))
                &&& c.schedule == "@reboot"@ && !feeds_shell(lowercase(c.command)) ==> r.tone
                    == Tone::Warn
            },
        0 <= j < a.timers.len() ==> exists|r: ViewRowView| #[trigger]
            schedules_view(a).rows.contains(r) && {
                let t = a.timers[j];
                &&& t.left.len() > 0 ==> r.cells[0] == "in "@ + t.left && r.tone == Tone::Normal
                &&& t.left.len() == 0 ==> r.cells[0] == "not scheduled"@ && r.tone == Tone::Dim
                &&& r.cells[2] == t.unit + " -> "@ + t.activates
                &&& r.cells[3] == "systemd timer"@
                &&& r.detail[2].1 == t.next + "  (in "@ + t.left + ")"@
                &&& r.detail[3].1 == t.last + "  ("@ + t.passed + ")"@
            },
{
    let jobs = a.cron.filter_map(job_rows());
    let timers = a.timers.filter_map(timer_rows());
    lemma_as_many(a.cron, job_rows());
    lemma_as_many(a.timers, timer_rows());
    if 0 <= i < a.cron.len() {
        lemma_row_for(a.cron, job_rows(), i);
        let x = job_row(a.cron[i]);
        let k = choose|k: int| 0 <= k < jobs.len() && jobs[k] == x;
        assert((jobs + timers)[k] == x);
        assert(schedules_view(a).rows.contains(x));
    }
    if 0 <= j < a.timers.len() {
        lemma_row_for(a.timers, timer_rows(), j);
        let x = timer_row(a.timers[j]);
        let k = choose|k: int| 0 <= k < timers.len() && timers[k] == x;
        assert((jobs + timers)[jobs.len() + k] == x);
        assert(schedules_view(a).rows.contains(x));
    }
}

/// Every probe stands among the probes with its command, what came of it, its exit code
/// and all of its output.
pub proof fn law_probes_are_shown(a: AuditView, i: int)
    requires
        0 <= i < a.probes.len(),
    ensures
        probes_view(a).rows.len() == a.probes.len(),
        exists|r: ViewRowView| #[trigger]
            probes_view(a).rows.contains(r) && {
                let p = a.probes[i];
                &&& p.status is Complete ==> r.cells[0] == "ok"@ && r.tone == Tone::Good
                &&& p.status is Partial ==> r.cells[0] == "partial"@ && r.tone == Tone::Warn
                &&& p.status is Empty ==> r.cells[0] == "empty"@ && r.tone == Tone::Dim
                &&& p.status is Unsupported ==> r.cells[0] == "n/a"@ && r.tone == Tone::Dim
                &&& p.status is Denied ==> r.cells[0] == "denied"@ && r.tone == Tone::Warn
                &&& p.status is Failed ==> r.cells[0] == "failed"@ && r.tone == Tone::Bad
                &&& p.status is Skipped ==> r.cells[0] == "skipped"@ && r.tone == Tone::Dim
                &&& r.cells[1] == p.label
                &&& r.cells[2] == p.command
                &&& p.note.len() > 0 ==> r.cells[3] == p.note
                &&& p.note.len() == 0 ==> r.cells[3] == dec(lines_of(p.raw).len()) + " lines"@
                &&& r.detail[0].1 == p.command
                &&& r.detail[1].1 == r.cells[0] + " (exit "@ + dec_int(p.exit_code as int) + ")"@
                &&& r.detail[2].1 == p.raw
            },
{
    lemma_row_for(a.probes, probe_rows(), i);
    assert(probes_view(a).rows.contains(probe_rows()(a.probes[i])->0));
}

// ------------------------------------------------------ filter and order ----

/// A row is shown exactly if some cell or some line of its detail contains the filter,
/// both in lower case, and every row is where there is no filter.
pub proof fn law_filter_finds_text(app: AppView, j: int)
    requires
        app.wf(),
        0 <= j < app.whole_table().rows.len(),
    ensures
        ({
            let r = app.whole_table().rows[j];
            let needle = lowercase(app.filter);
            let found = (exists|i: int|
                0 <= i < r.cells.len() && contains_text(lowercase(#[trigger] r.cells[i]), needle)) || (
            exists|i: int|
                0 <= i < r.detail.len() && contains_text(lowercase((#[trigger] r.detail[i]).1), needle));
            (app.filter.len() == 0 || found) <==> exists|k: int|
                0 <= k < app.shown().len() && (#[trigger] app.shown()[k]).index == j
        }),
{
    let r = app.whole_table().rows[j];
    if app.lets_through(r) {
        law_matching_rows_are_shown(app, j);
        let x = Shown { row: r, index: j };
        let k = choose|k: int| 0 <= k < app.shown().len() && app.shown()[k] == x;
        assert(app.shown()[k].index == j);
    }
    if exists|k: int| 0 <= k < app.shown().len() && (#[trigger] app.shown()[k]).index == j {
        let k = choose|k: int| 0 <= k < app.shown().len() && (#[trigger] app.shown()[k]).index == j;
        law_shown_rows_are_rows(app, k);
    }
}

/// Sorting by a column of numbers puts them in order by value, the smaller first, and
/// the other way round where that is asked for: two rows whose cells differ in a number
/// only stand as the numbers do.
pub proof fn law_columns_sort_by_value(
    app: AppView,
    i: int,
    j: int,
    pre: Seq<char>,
    ds: Seq<char>,
    es: Seq<char>,
    post: Seq<char>,
)
    requires
        app.wf(),
        app.sort_column[app.tab as int] is Some,
        0 <= i < j < app.table().rows.len(),
        ({
            let col = app.sort_column[app.tab as int]->0;
            &&& lowercase(cell(app.table().rows[i], col)) == pre + ds + post
            &&& lowercase(cell(app.table().rows[j], col)) == pre + es + post
        }),
        ends_apart(pre),
        is_numeral(ds),
        is_numeral(es),
        begins_apart(post),
        digits_value(ds) < pow2(53),
        digits_value(es) < pow2(53),
    ensures
        !app.sort_desc[app.tab as int] ==> digits_value(ds) <= digits_value(es),
        app.sort_desc[app.tab as int] ==> digits_value(ds) >= digits_value(es),
{
    let col = app.sort_column[app.tab as int]->0;
    law_sorted_rows_are_in_order(app, i, j);
    law_numbers_compare_by_value(
        cell(app.table().rows[i], col),
        cell(app.table().rows[j], col),
        pre,
        ds,
        es,
        post,
    );
}

/// The sockets stand in the order of their ports, and those of one port in the order of
/// their protocols.
pub proof fn law_sockets_stand_by_port(a: AuditView, i: int, j: int)
    requires
        0 <= i < j < a.listeners.len(),
    ensures
        ({
            let x = listeners_by_port(a)[i];
            let y = listeners_by_port(a)[j];
            &&& ports_view(a).rows[i].cells[1] == x.port
            &&& ports_view(a).rows[j].cells[1] == y.port
            &&& x.port_num() is Some && y.port_num() is Some ==> x.port_num()->0 <= y.port_num()->0
        }),
{
    let s = listeners_by_port(a);
    let le = rank::<ByPort>();
    lemma_sorted_len(a.listeners, le);
    lemma_port_order();
    lemma_sorted_ascending(a.listeners, le);
    assert(le(s[i], s[j]));
    lemma_rows_in_order(s, port_rows(), i);
    lemma_rows_in_order(s, port_rows(), j);
}

proof fn lemma_rows_in_order<A>(s: Seq<A>, f: spec_fn(A) -> Option<ViewRowView>, i: int)
    requires
        forall|x: A| (#[trigger] f(x)) is Some,
        0 <= i < s.len(),
    ensures
        s.filter_map(f).len() == s.len(),
        s.filter_map(f)[i] == f(s[i])->0,
    decreases s.len(),
{
    lemma_as_many(s, f);
    let r = s.drop_last();
    lemma_as_many(r, f);
    assert(s.last() == s[s.len() - 1]);
    if i < r.len() {
        lemma_rows_in_order(r, f, i);
        assert(r[i] == s[i]);
    }
}

proof fn lemma_port_order()
    ensures
        is_total_preorder(rank::<ByPort>()),
{
    let le = rank::<ByPort>();
    lemma_text_order_total();
    let tle = rank::<String>();
    assert forall|a: ListenerView, b: ListenerView| #[trigger] le(a, b) || le(b, a) by {
        assert(tle(a.proto, b.proto) || tle(b.proto, a.proto));
    }
    assert forall|a: ListenerView, b: ListenerView, c: ListenerView| #[trigger]
        le(a, b) && #[trigger] le(b, c) implies le(a, c) by {
        if port_or_last(a) == port_or_last(b) && port_or_last(b) == port_or_last(c) {
            assert(tle(a.proto, b.proto) && tle(b.proto, c.proto));
        }
    }
}

/// Findings, containers, directories and jobs stand in the order in which the audit has
/// them.
pub proof fn law_rows_keep_the_order(a: AuditView, i: int)
    ensures
        0 <= i < a.findings.len() ==> findings_view(a).rows[i].cells[1] == a.findings[i].title,
        0 <= i < a.containers.len() ==> containers_view(a).rows[i].cells[0] == a.containers[i].name,
        0 <= i < a.dir_usage.len() ==> dirs_view(a).rows[i].cells[2] == a.dir_usage[i].path,
        0 <= i < a.cron.len() ==> schedules_view(a).rows[i].cells[2] == a.cron[i].command,
        0 <= i < a.probes.len() ==> probes_view(a).rows[i].cells[1] == a.probes[i].label,
{
    if 0 <= i < a.findings.len() {
        lemma_rows_in_order(a.findings, finding_rows(), i);
    }
    if 0 <= i < a.containers.len() {
        lemma_rows_in_order(a.containers, container_rows(), i);
    }
    if 0 <= i < a.dir_usage.len() {
        lemma_rows_in_order(a.dir_usage, dir_rows(largest_size(a.dir_usage)), i);
    }
    if 0 <= i < a.cron.len() {
        lemma_rows_in_order(a.cron, job_rows(), i);
    }
    if 0 <= i < a.probes.len() {
        lemma_rows_in_order(a.probes, probe_rows(), i);
    }
}

// ---------------------------------------------------------------- tiles ----

/// The sockets that every interface reaches.
pub open spec fn exposed(s: Seq<ListenerView>) -> Seq<ListenerView> {
    s.filter(|l: ListenerView| l.exposure == Exposure::AllInterfaces)
}

/// The containers that run.
pub open spec fn at_work(s: Seq<ContainerView>) -> Seq<ContainerView> {
    s.filter(|c: ContainerView| c.running())
}

/// The findings of one severity.
pub open spec fn as_severe(s: Seq<FindingView>, severity: Severity) -> Seq<FindingView> {
    s.filter(|f: FindingView| f.severity == severity)
}

proof fn lemma_count_exposed(s: Seq<ListenerView>)
    ensures
        count_exposed(s) == exposed(s).len(),
    decreases s.len(),
{
    reveal(Seq::filter);
    if s.len() > 0 {
        lemma_count_exposed(s.drop_last());
    }
}

proof fn lemma_count_running(s: Seq<ContainerView>)
    ensures
        count_running(s) == at_work(s).len(),
    decreases s.len(),
{
    reveal(Seq::filter);
    if s.len() > 0 {
        lemma_count_running(s.drop_last());
    }
}

proof fn lemma_count_severity(s: Seq<FindingView>, severity: Severity)
    ensures
        count_severity(s, severity) == as_severe(s, severity).len(),
    decreases s.len(),
{
    reveal(Seq::filter);
    if s.len() > 0 {
        lemma_count_severity(s.drop_last(), severity);
    }
}

/// The tiles count what was collected: the findings, the sockets and those that every
/// interface reaches, the containers and those that run, the services and the jobs.
pub proof fn law_tiles_count(a: AuditView)
    ensures
        ({
            let t = tiles_of(a);
            &&& t.len() == 6
            &&& t[0].value == dec(a.findings.len())
            &&& t[0].note == dec(as_severe(a.findings, Severity::High).len()) + " high · "@ + dec(
                as_severe(a.findings, Severity::Medium).len(),
            ) + " med"@
            &&& t[1].value == dec(a.listeners.len())
            &&& t[1].note == dec(exposed(a.listeners).len()) + " on all ifaces"@
            &&& (t[1].ink == Ink::Warn) == (exposed(a.listeners).len() > 0)
            &&& t[2].value == dec(at_work(a.containers).len()) + "/"@ + dec(a.containers.len())
            &&& t[3].value == dec(a.services.len())
            &&& t[3].note == dec(a.unit_files.len()) + " enabled at boot"@
            &&& t[5].value == dec(a.cron.len() + a.timers.len())
            &&& t[5].note == dec(a.cron.len()) + " cron · "@ + dec(a.timers.len()) + " timers"@
        }),
{
    lemma_count_exposed(a.listeners);
    lemma_count_running(a.containers);
    lemma_count_severity(a.findings, Severity::High);
    lemma_count_severity(a.findings, Severity::Medium);
}

/// The tile for the fullest disk names a disk that is at least as full as every other,
/// and there is one as soon as one disk was read.
pub proof fn law_fullest_disk_is_fullest(fs: Seq<FilesystemView>, i: int)
    requires
        0 <= i < fs.len(),
        is_disk(fs[i]),
        fs[i].use_pct is Some,
    ensures
        fullest(fs) matches Some((pct, mount)) && pct.rank() >= (fs[i].use_pct->0).rank() && exists|
            j: int,
        |
            0 <= j < fs.len() && is_disk(#[trigger] fs[j]) && fs[j].use_pct == Some(pct) && fs[j].mount
                == mount,
    decreases fs.len(),
{
    let rest = fs.drop_last();
    let last = fs.last();
    assert(last == fs[fs.len() - 1]);
    if i < rest.len() {
        assert(rest[i] == fs[i]);
        law_fullest_disk_is_fullest(rest, i);
    }
    lemma_fullest_is_one(fs);
}

proof fn lemma_fullest_is_one(fs: Seq<FilesystemView>)
    ensures
        fullest(fs) matches Some((pct, mount)) ==> exists|j: int|
            0 <= j < fs.len() && is_disk(#[trigger] fs[j]) && fs[j].use_pct == Some(pct) && fs[j].mount
                == mount,
    decreases fs.len(),
{
    if fs.len() > 0 {
        let rest = fs.drop_last();
        let n = fs.len() - 1;
        lemma_fullest_is_one(rest);
        assert(fs.last() == fs[n]);
        if fullest(fs) is Some {
            let (pct, mount) = fullest(fs)->0;
            if fullest(fs) == fullest(rest) {
                let j = choose|j: int|
                    0 <= j < rest.len() && is_disk(#[trigger] rest[j]) && rest[j].use_pct == Some(pct)
                        && rest[j].mount == mount;
                assert(fs[j] == rest[j]);
                assert(is_disk(fs[j]));
            } else {
                assert(is_disk(fs[n]));
            }
        }
    }
}

} // verus!
