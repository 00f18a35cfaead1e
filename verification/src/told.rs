//! What the findings tell of, stated by what was collected.

use crate::columns::{law_percentages_read_back, lemma_pieces_joined};
use crate::findings::{
    blind_finding, boot_finding, boot_rule, cpu_count, crashed_finding, crashed_rule,
    datastore_port, download_rule, endpoint_of_port, failed_unit, failure_rule, feeds_shell,
    filesystem_findings, findings_of, hidden_owners, inode_finding, internal_port, is_interpreter,
    labels_with, law_boot_jobs_are_reported, law_denied_is_reported, law_download_jobs_are_reported,
    law_exposed_ports_are_reported, law_failed_units_are_reported, law_failure_is_reported,
    law_findings_are_what_was_collected, law_full_disks_are_reported, law_partial_is_reported,
    law_published_ports_are_reported, law_restarting_containers_are_reported, lemma_concat_contains,
    load_finding, load_now, memory_finding, memory_pct, mention_rule, open_port_of, open_ports,
    other_ports, owners_hidden, partial_finding, plural_of, port_finding, port_mention, port_rule,
    program, published_finding, published_rule, restarting_rule, space_finding, systemd_findings,
    whereabouts,
};
use crate::float::{
    lemma_dyadic, lemma_exact, lemma_nearest_grows, lemma_nearest_is, lemma_scaled_grows, Double,
    Format,
};
use crate::fmt::{dec, dec_int};
use crate::gather::{lemma_filter_map_keeps, some_of};
use crate::lines::{
    is_word, lemma_dec_digits, lemma_first_in_is, lemma_first_out_is, lemma_trimmed_already,
    lemma_words_joined,
};
use crate::model::{AuditView, FilesystemView, FindingView, ListenerView, ProbeStatus, Severity};
use crate::number::{digits_value, signed_of};
use crate::order::{is_numeral, lemma_decimal_read, lemma_numeral_read, with_point};
use crate::parse::pct_of;
use crate::reading::{lemma_pow10_pos, pow10};
use crate::sorting::{lemma_text_set_contains, text_set};
use crate::text::{
    contains_text, cut_first, cut_last, is_digit, is_space, joined, last_in, lemma_holds_last,
    lemma_holds_then, lemma_holds_through, lemma_last_in, lowercase, pieces, strip_back,
    strip_front, trimmed, words_of, Class,
};
use vstd::arithmetic::power2::{
    lemma2_to64, lemma2_to64_rest, lemma_pow2_adds, lemma_pow2_pos, pow2,
};
use vstd::prelude::*;

verus! {

/// Whether the findings hold one of the given severity and tab, whose title starts and
/// ends in the given way and whose detail contains a text.
pub open spec fn tells(
    a: AuditView,
    severity: Severity,
    tab: Seq<char>,
    title: Seq<char>,
    piece: Seq<char>,
) -> bool {
    exists|x: FindingView| #[trigger]
        findings_of(a).contains(x) && x.severity == severity && x.tab == tab && title.is_suffix_of(
            x.title,
        ) && contains_text(x.detail, piece)
}

/// Parts that are joined contain each part.
pub proof fn lemma_joined_holds(parts: Seq<Seq<char>>, sep: Seq<char>, i: int)
    requires
        0 <= i < parts.len(),
    ensures
        contains_text(joined(parts, sep), parts[i]),
    decreases parts.len(),
{
    let none: Seq<char> = seq![];
    if parts.len() == 1 {
        lemma_holds_last(none, parts[0]);
        assert(none + parts[0] =~= parts[0]);
    } else {
        let before = joined(parts.drop_last(), sep);
        if i == parts.len() - 1 {
            lemma_holds_last(before + sep, parts.last());
        } else {
            assert(parts.drop_last()[i] == parts[i]);
            lemma_joined_holds(parts.drop_last(), sep, i);
            lemma_holds_then(before, sep, parts[i]);
            lemma_holds_then(before + sep, parts.last(), parts[i]);
        }
    }
}

/// A text contains what stands in its middle.
pub proof fn lemma_holds_middle(a: Seq<char>, p: Seq<char>, b: Seq<char>)
    ensures
        contains_text(a + p + b, p),
{
    lemma_holds_last(a, p);
    lemma_holds_then(a + p, b, p);
}

/// Who listens, as far as it is known.
pub open spec fn owner_of(l: ListenerView) -> Seq<char> {
    match l.process {
        Some(name) => name,
        None => "unknown process"@,
    }
}

/// A finding says what it says.
proof fn lemma_tells(
    a: AuditView,
    x: FindingView,
    severity: Severity,
    tab: Seq<char>,
    title: Seq<char>,
    piece: Seq<char>,
)
    requires
        findings_of(a).contains(x),
        x.severity == severity,
        x.tab == tab,
        title.is_suffix_of(x.title),
        contains_text(x.detail, piece),
    ensures
        tells(a, severity, tab, title, piece),
{
}

/// What the detail of a finding on a port contains.
#[verifier::spinoff_prover]
proof fn lemma_port_detail(s: Seq<ListenerView>, i: int, rest: Seq<char>)
    requires
        0 <= i < s.len(),
        open_port_of(s[i]) is Some,
    ensures
        ({
            let k = open_port_of(s[i])->0;
            let detail = whereabouts(s, k) + " ("@ + k.who + rest;
            &&& contains_text(detail, s[i].endpoint())
            &&& contains_text(detail, " ("@ + k.who)
            &&& contains_text(detail, k.family + " "@)
        }),
{
    let l = s[i];
    let k = open_port_of(l)->0;
    let ends = s.filter_map(endpoint_of_port(k));
    let detail = whereabouts(s, k) + " ("@ + k.who + rest;
    assert(endpoint_of_port(k)(l) == Some(l.endpoint()));
    lemma_filter_map_keeps(s, endpoint_of_port(k), i);
    lemma_text_set_contains(ends, l.endpoint());
    let set = text_set(ends);
    let j = choose|j: int| 0 <= j < set.len() && set[j] == l.endpoint();
    lemma_joined_holds(set, ", "@, j);
    let list = joined(set, ", "@);
    let lead = k.family + " "@;
    lemma_holds_last(lead, list);
    lemma_holds_through(lead + list, list, l.endpoint());
    let more = " ("@ + k.who;
    assert(detail =~= lead + list + (more + rest));
    lemma_holds_then(lead + list, more + rest, l.endpoint());
    assert(detail =~= lead + list + more + rest);
    lemma_holds_middle(lead + list, more, rest);
    let none: Seq<char> = seq![];
    assert(detail =~= none + lead + (list + more + rest));
    lemma_holds_middle(none, lead, list + more + rest);
}

/// A port among the others is mentioned.
#[verifier::spinoff_prover]
proof fn lemma_other_port(a: AuditView, mentions: Seq<Seq<char>>, said: Seq<char>)
    requires
        text_set(mentions).contains(said),
        other_ports(mentions) is Some,
        findings_of(a).contains(other_ports(mentions)->0),
    ensures
        tells(a, Severity::Low, "listeners"@, " open on every interface"@, said),
{
    let set = text_set(mentions);
    let x = other_ports(mentions)->0;
    let j = choose|j: int| 0 <= j < set.len() && set[j] == said;
    lemma_joined_holds(set, ", "@, j);
    let t = x.title;
    let e = " open on every interface"@;
    assert(t.skip(t.len() - e.len()) =~= e);
    lemma_tells(a, x, Severity::Low, "listeners"@, e, said);
}

proof fn lemma_same_suffix(s: Seq<char>)
    ensures
        s.is_suffix_of(s),
{
    assert(s.skip(0) =~= s);
}

/// Every socket that listens on every interface is told of by its port, whatever its
/// protocol and its owner: a datastore with the highest severity, by its name, an
/// internal service with medium severity, by its name, and every other one among the
/// other ports, except on the ports 22, 80 and 443.
#[verifier::spinoff_prover]
pub proof fn law_open_sockets_are_told(a: AuditView, i: int, p: u16)
    requires
        0 <= i < a.listeners.len(),
        a.listeners[i].exposure is AllInterfaces,
        a.listeners[i].port_num() == Some(p as nat),
    ensures
        ({
            let l = a.listeners[i];
            let family = strip_back(l.proto, Class::Only('6'));
            let title = " is listening on every interface"@;
            &&& datastore_port(p) is Some ==> {
                &&& tells(a, Severity::High, "listeners"@, datastore_port(p)->0 + title, l.endpoint())
                &&& tells(
                    a,
                    Severity::High,
                    "listeners"@,
                    datastore_port(p)->0 + title,
                    " ("@ + owner_of(l),
                )
                &&& tells(a, Severity::High, "listeners"@, datastore_port(p)->0 + title, family + " "@)
            }
            &&& datastore_port(p) is None && internal_port(p) is Some ==> {
                &&& tells(a, Severity::Medium, "listeners"@, internal_port(p)->0 + title, l.endpoint())
                &&& tells(
                    a,
                    Severity::Medium,
                    "listeners"@,
                    internal_port(p)->0 + title,
                    " ("@ + owner_of(l),
                )
            }
            &&& datastore_port(p) is None && internal_port(p) is None && p != 22 && p != 80 && p != 443
                ==> tells(
                a,
                Severity::Low,
                "listeners"@,
                " open on every interface"@,
                dec(p as nat) + "/"@ + family + " ("@ + owner_of(l) + ")"@,
            )
        }),
{
    let s = a.listeners;
    let l = s[i];
    let k = open_port_of(l)->0;
    let title = " is listening on every interface"@;
    law_exposed_ports_are_reported(a, i);
    assert(k.port == p);
    assert(k.who == owner_of(l));
    if datastore_port(p) is Some {
        let rest = "). Anything that can route to this host can reach it. Bind it to 127.0.0.1 or a private address, or put a firewall in front of it."@;
        let x = port_finding(s, k)->0;
        lemma_port_detail(s, i, rest);
        assert(x.detail == whereabouts(s, k) + " ("@ + k.who + rest);
        let t = datastore_port(p)->0 + title;
        assert(x.title == t);
        lemma_same_suffix(t);
        lemma_tells(a, x, Severity::High, "listeners"@, t, l.endpoint());
        lemma_tells(a, x, Severity::High, "listeners"@, t, " ("@ + k.who);
        lemma_tells(a, x, Severity::High, "listeners"@, t, k.family + " "@);
    } else if internal_port(p) is Some {
        let rest = "). Fine on a private network, worth checking if this box has a public address."@;
        let x = port_finding(s, k)->0;
        lemma_port_detail(s, i, rest);
        assert(x.detail == whereabouts(s, k) + " ("@ + k.who + rest);
        let t = internal_port(p)->0 + title;
        assert(x.title == t);
        lemma_same_suffix(t);
        lemma_tells(a, x, Severity::Medium, "listeners"@, t, l.endpoint());
        lemma_tells(a, x, Severity::Medium, "listeners"@, t, " ("@ + k.who);
    } else if p != 22 && p != 80 && p != 443 {
        let mentions = open_ports(s).filter_map(mention_rule());
        lemma_other_port(a, mentions, port_mention(k)->0);
    }
}

/// The ports where listening on every interface is usually a mistake, those that are
/// meant for a private network, and none that is both or public on purpose.
pub proof fn law_known_ports(p: u16)
    ensures
        datastore_port(p) is Some <==> (p == 21 || p == 23 || p == 139 || p == 445 || p == 1433 || p
            == 2375 || p == 2379 || p == 2380 || p == 3306 || p == 3389 || p == 5432 || p == 5672 || p
            == 5900 || p == 5984 || p == 6379 || p == 6443 || p == 8086 || p == 9042 || p == 9092 || p
            == 9200 || p == 9300 || p == 10250 || p == 11211 || p == 15672 || p == 27017 || p == 27018),
        internal_port(p) is Some <==> (p == 2376 || p == 3000 || p == 4444 || p == 5601 || p == 8000 || p
            == 8080 || p == 8081 || p == 8443 || p == 9000 || p == 9090 || p == 9100),
        datastore_port(3306) == Some("MySQL/MariaDB"@),
        datastore_port(5432) == Some("PostgreSQL"@),
        datastore_port(6379) == Some("Redis"@),
        datastore_port(9200) == Some("Elasticsearch"@),
        datastore_port(11211) == Some("Memcached"@),
        datastore_port(27017) == Some("MongoDB"@),
        datastore_port(2375) == Some("Docker API (no TLS, no auth)"@),
{
}

/// A port that is written as a number is that number.
pub proof fn law_ports_are_numbers(l: ListenerView, p: u16)
    requires
        l.port == dec(p as nat),
    ensures
        l.port_num() == Some(p as nat),
{
    lemma_dec_digits(p as nat);
    assert(is_digit(dec(p as nat)[0]));
}

/// A socket whose owner is not shown is told of, unless the audit saw everything.
pub proof fn law_hidden_owners_are_told(a: AuditView, i: int)
    requires
        0 <= i < a.listeners.len(),
        a.listeners[i].process is None,
        !(a.host.sudo is Root),
        !(a.host.sudo is Passwordless),
    ensures
        tells(a, Severity::Info, "listeners"@, "Some listeners have no process name"@, "--sudo"@),
{
    assert(owners_hidden(a));
    let x = hidden_owners(a)->0;
    let others = open_ports(a.listeners).filter_map(port_rule(a.listeners)) + some_of(
        other_ports(open_ports(a.listeners).filter_map(mention_rule())),
    );
    assert(some_of(hidden_owners(a))[0] == x);
    lemma_concat_contains(others, some_of(hidden_owners(a)), x);
    law_findings_are_what_was_collected(a, x);
    let lead = "The kernel only reveals socket owners to root. Re-run with "@;
    let tail = " to see what is behind these ports."@;
    reveal_strlit("The kernel only reveals socket owners to root. Re-run with ");
    reveal_strlit(" to see what is behind these ports.");
    reveal_strlit("--sudo");
    reveal_strlit(
        "The kernel only reveals socket owners to root. Re-run with --sudo to see what is behind these ports.",
    );
    assert(x.detail =~= lead + "--sudo"@ + tail);
    lemma_holds_middle(lead, "--sudo"@, tail);
    lemma_same_suffix(x.title);
    lemma_tells(a, x, Severity::Info, "listeners"@, x.title, "--sudo"@);
}

// ------------------------------------------------------------- storage ----

/// Whether a filesystem is one that can run full: of none of the types that the kernel
/// makes up, and not on a loop device.
pub open spec fn is_disk(fs: FilesystemView) -> bool {
    &&& fs.fstype != "tmpfs"@ && fs.fstype != "devtmpfs"@ && fs.fstype != "squashfs"@ && fs.fstype
        != "overlay"@ && fs.fstype != "efivarfs"@ && fs.fstype != "ramfs"@ && fs.fstype != "iso9660"@
        && fs.fstype != "autofs"@ && fs.fstype != "fuse.snapfuse"@ && fs.fstype != "devfs"@
    &&& !"/dev/loop"@.is_prefix_of(fs.source)
}

/// A disk is told of from 80 percent on, with the highest severity from 90 on, by where
/// it is mounted and how full it is, and from 85 percent of its inodes on; below that it
/// is not, and what is no disk never is.
pub proof fn law_full_disks_are_told(a: AuditView, i: int, n: nat, m: nat)
    requires
        0 <= i < a.filesystems.len(),
        n < pow2(24),
        m < pow2(24),
        a.filesystems[i].use_pct == pct_of(dec(n) + "%"@),
        a.filesystems[i].inode_pct == pct_of(dec(m) + "%"@),
    ensures
        ({
            let fs = a.filesystems[i];
            let full = fs.mount + " is "@ + dec(n) + "% full"@;
            let spent = fs.mount + " has used "@ + dec(m) + "% of its inodes"@;
            &&& is_disk(fs) && n >= 90 ==> tells(a, Severity::High, "storage"@, full, fs.avail)
            &&& is_disk(fs) && 80 <= n < 90 ==> tells(a, Severity::Medium, "storage"@, full, fs.avail)
            &&& is_disk(fs) && m >= 85 ==> tells(a, Severity::High, "storage"@, spent, "inodes"@)
            &&& !is_disk(fs) || (n < 80 && m < 85) ==> filesystem_findings(fs).len() == 0
        }),
{
    let fs = a.filesystems[i];
    let full = fs.mount + " is "@ + dec(n) + "% full"@;
    let spent = fs.mount + " has used "@ + dec(m) + "% of its inodes"@;
    law_percentages_read_back(n, 80);
    law_percentages_read_back(n, 90);
    law_percentages_read_back(m, 85);
    if is_disk(fs) {
        law_full_disks_are_reported(a, i);
        if n >= 80 {
            let x = space_finding(fs)->0;
            let lead = fs.used + " of "@ + fs.size + " used on "@ + fs.source + " ("@ + fs.fstype
                + "), "@;
            assert(x.detail == lead + fs.avail + " free."@);
            lemma_holds_middle(lead, fs.avail, " free."@);
            lemma_same_suffix(full);
            assert(x.title == full);
            lemma_tells(a, x, x.severity, "storage"@, full, fs.avail);
        }
        if m >= 85 {
            let x = inode_finding(fs)->0;
            let lead = "Writes start failing with ENOSPC once "@;
            let tail = " run out, even with free space on the disk. Usually a directory full of tiny files — sessions, mail spool, cache."@;
            reveal_strlit("Writes start failing with ENOSPC once ");
            reveal_strlit("inodes");
            reveal_strlit(
                " run out, even with free space on the disk. Usually a directory full of tiny files — sessions, mail spool, cache.",
            );
            reveal_strlit(
                "Writes start failing with ENOSPC once inodes run out, even with free space on the disk. Usually a directory full of tiny files — sessions, mail spool, cache.",
            );
            assert(x.detail =~= lead + "inodes"@ + tail);
            lemma_holds_middle(lead, "inodes"@, tail);
            lemma_same_suffix(spent);
            assert(x.title == spent);
            lemma_tells(a, x, Severity::High, "storage"@, spent, "inodes"@);
        }
    }
}

// ------------------------------------------------------------- services ----

/// A title ends with its last part.
proof fn lemma_ends_with(a: Seq<char>, b: Seq<char>)
    ensures
        b.is_suffix_of(a + b),
{
    assert((a + b).skip(a.len() as int) =~= b);
}

/// A unit that failed, in either column, is told of by its name.
pub proof fn law_failed_units_are_told(a: AuditView, i: int)
    requires
        0 <= i < a.services.len(),
        a.services[i].active == "failed"@ || a.services[i].sub == "failed"@,
    ensures
        tells(a, Severity::Medium, "services"@, " failed"@, a.services[i].unit),
{
    law_failed_units_are_reported(a, i);
    let names = a.services.filter_map(failed_unit());
    let x = systemd_findings(a)[0];
    let j = choose|j: int| 0 <= j < names.len() && names[j] == a.services[i].unit;
    lemma_joined_holds(names, ", "@, j);
    lemma_holds_then(
        joined(names, ", "@),
        ". Check with `systemctl status <unit>`."@,
        a.services[i].unit,
    );
    lemma_ends_with(dec(names.len()) + " service"@ + plural_of(names.len() as int), " failed"@);
    lemma_tells(a, x, Severity::Medium, "services"@, " failed"@, a.services[i].unit);
}

// ----------------------------------------------------------- containers ----

/// A container that keeps restarting is told of by its name.
pub proof fn law_restarting_containers_are_told(a: AuditView, i: int)
    requires
        0 <= i < a.containers.len(),
        a.containers[i].state == "restarting"@,
    ensures
        tells(
            a,
            Severity::Medium,
            "containers"@,
            "Container "@ + a.containers[i].name + " is stuck restarting"@,
            a.containers[i].image,
        ),
{
    let c = a.containers[i];
    law_restarting_containers_are_reported(a, i);
    let x = restarting_rule()(c)->0;
    let none: Seq<char> = seq![];
    let rest = " — "@ + c.status + ". Check `docker logs "@ + c.name + "`."@;
    assert(x.detail =~= none + c.image + rest);
    lemma_holds_middle(none, c.image, rest);
    lemma_same_suffix(x.title);
    lemma_tells(a, x, Severity::Medium, "containers"@, x.title, c.image);
}

/// A container that exited with an error is told of, with the code in its status.
pub proof fn law_crashed_containers_are_told(a: AuditView, i: int, code: nat, rest: Seq<char>)
    requires
        0 <= i < a.containers.len(),
        a.containers[i].state == "exited"@,
        a.containers[i].status == "Exited ("@ + dec(code) + ")"@ + rest,
        0 < code <= i32::MAX,
    ensures
        tells(
            a,
            Severity::Low,
            "containers"@,
            " exited non-zero"@,
            a.containers[i].name + " (exit "@ + dec(code) + ")"@,
        ),
{
    let c = a.containers[i];
    lemma_exit_code(c.status, code, rest);
    assert(c.exit_code() == Some(code as int));
    let f = crashed_rule();
    let said = c.name + " (exit "@ + dec(code) + ")"@;
    assert(dec_int(code as int) == dec(code));
    assert(f(c) == Some(said));
    lemma_filter_map_keeps(a.containers, f, i);
    let crashed = a.containers.filter_map(f);
    let j = choose|j: int| 0 <= j < crashed.len() && crashed[j] == said;
    lemma_joined_holds(crashed, ", "@, j);
    let x = crashed_finding(crashed)->0;
    lemma_holds_then(
        joined(crashed, ", "@),
        ". Harmless for one-shot jobs, worth a look for anything meant to stay up."@,
        said,
    );
    let first = a.containers.filter_map(restarting_rule());
    let second = some_of(crashed_finding(crashed));
    let third = some_of(published_finding(a.containers.flat_map(published_rule())));
    assert(second[0] == x);
    lemma_concat_contains(first, second, x);
    lemma_concat_contains(first + second, third, x);
    law_findings_are_what_was_collected(a, x);
    lemma_ends_with(
        dec(crashed.len()) + " container"@ + plural_of(crashed.len() as int),
        " exited non-zero"@,
    );
    lemma_tells(a, x, Severity::Low, "containers"@, " exited non-zero"@, said);
}

/// The exit code stands between the first brackets of a status.
proof fn lemma_exit_code(status: Seq<char>, code: nat, rest: Seq<char>)
    requires
        status == "Exited ("@ + dec(code) + ")"@ + rest,
        code <= i32::MAX,
    ensures
        cut_first(status, '(') matches Some((_, inner)) && cut_first(inner, ')') matches Some(
            (text, _),
        ) && signed_of(trimmed(text), i32::MAX as nat) == Some(code as int),
{
    reveal_strlit("Exited (");
    reveal_strlit(")");
    let d = dec(code);
    lemma_dec_digits(code);
    assert forall|j: int| 0 <= j < 7 implies !Class::Only('(').holds(#[trigger] status[j]) by {
        assert(status[j] == "Exited ("@[j]);
    }
    assert(status[7] == '(');
    lemma_first_in_is(status, Class::Only('('), 7);
    let inner = status.skip(8);
    assert(inner =~= d + ")"@ + rest);
    assert forall|j: int| 0 <= j < d.len() implies !Class::Only(')').holds(#[trigger] inner[j]) by {
        assert(inner[j] == d[j]);
    }
    assert(inner[d.len() as int] == ')');
    lemma_first_in_is(inner, Class::Only(')'), d.len() as int);
    assert(inner.take(d.len() as int) =~= d);
    assert(d.last() == d[d.len() - 1]);
    lemma_trimmed_already(d);
    assert(is_digit(d[0]));
}

/// A container port that is published on a wildcard address is told of.
pub proof fn law_published_ports_are_told(a: AuditView, i: int, j: int)
    requires
        0 <= i < a.containers.len(),
        0 <= j < a.containers[i].ports.len(),
        ({
            let ip = a.containers[i].ports[j].host_ip;
            ip == "0.0.0.0"@ || ip == "::"@ || ip == "*"@ || ip == "[::]"@
        }),
    ensures
        tells(
            a,
            Severity::Medium,
            "containers"@,
            " published on 0.0.0.0"@,
            a.containers[i].name + " "@ + a.containers[i].ports[j].rendered(),
        ),
{
    law_published_ports_are_reported(a, i, j);
    let published = a.containers.flat_map(published_rule());
    let said = a.containers[i].name + " "@ + a.containers[i].ports[j].rendered();
    let k = choose|k: int| 0 <= k < published.len() && published[k] == said;
    lemma_joined_holds(published, ", "@, k);
    let x = published_finding(published)->0;
    lemma_holds_then(
        joined(published, ", "@),
        ". Docker inserts its own iptables rules ahead of the INPUT chain, so a ufw or firewalld rule will not block these. Publish to 127.0.0.1 instead where you can."@,
        said,
    );
    lemma_ends_with(
        dec(published.len()) + " container port"@ + plural_of(published.len() as int),
        " published on 0.0.0.0"@,
    );
    lemma_tells(a, x, Severity::Medium, "containers"@, " published on 0.0.0.0"@, said);
}

// ----------------------------------------------------------- schedules ----

/// The programs that run what they are fed.
pub open spec fn is_shell(name: Seq<char>) -> bool {
    name == "sh"@ || name == "bash"@ || name == "zsh"@ || name == "dash"@ || name == "ksh"@ || name
        == "python"@ || name == "python3"@ || name == "perl"@
}

/// A job that downloads something and pipes it into a shell, wherever in the pipeline
/// and whatever the directory of the shell and its arguments, is told of with the
/// highest severity; one that downloads nothing is not.
pub proof fn law_piped_downloads_are_told(
    a: AuditView,
    i: int,
    parts: Seq<Seq<char>>,
    j: int,
    dir: Seq<char>,
    shell: Seq<char>,
    rest: Seq<Seq<char>>,
)
    requires
        0 <= i < a.cron.len(),
        lowercase(a.cron[i].command) == joined(parts, seq!['|']),
        forall|k: int| 0 <= k < parts.len() ==> !(#[trigger] parts[k]).contains('|'),
        1 <= j < parts.len(),
        contains_text(joined(parts, seq!['|']), "curl "@) || contains_text(
            joined(parts, seq!['|']),
            "wget "@,
        ),
        is_shell(shell),
        dir.len() == 0 || (dir.last() == '/' && is_word(dir)),
        forall|k: int| 0 <= k < rest.len() ==> is_word(#[trigger] rest[k]),
        parts[j] == seq![' '] + joined(seq![dir + shell] + rest, " "@),
    ensures
        tells(
            a,
            Severity::High,
            "schedules"@,
            "A cron job pipes a downloaded script straight into a shell"@,
            a.cron[i].command,
        ),
{
    let c = a.cron[i];
    let lower = joined(parts, seq!['|']);
    lemma_pieces_joined(parts, '|');
    lemma_shell(dir, shell);
    let ws = seq![dir + shell] + rest;
    assert forall|k: int| 0 <= k < ws.len() implies is_word(#[trigger] ws[k]) by {
        if k > 0 {
            assert(ws[k] == rest[k - 1]);
        }
    }
    lemma_words_joined(ws);
    lemma_leading_space(joined(ws, " "@));
    assert(words_of(parts[j])[0] == dir + shell);
    assert(program(parts[j]) == shell);
    assert(is_interpreter(program(pieces(lower, '|')[j])));
    assert(feeds_shell(lower));
    law_download_jobs_are_reported(a, i);
    let x = download_rule()(c)->0;
    let lead = c.schedule + " as "@ + c.user + ": "@;
    let tail = "  (from "@ + c.source
        + "). Whoever controls that URL controls this machine on every run."@;
    assert(x.detail =~= lead + c.command + tail);
    lemma_holds_middle(lead, c.command, tail);
    lemma_same_suffix(x.title);
    lemma_tells(a, x, Severity::High, "schedules"@, x.title, c.command);
}

proof fn lemma_leading_space(s: Seq<char>)
    requires
        s.len() > 0,
        !is_space(s[0]),
    ensures
        words_of(seq![' '] + s) == words_of(s),
{
    let t = seq![' '] + s;
    assert(t[1] == s[0]);
    lemma_first_out_is(t, Class::Space, 1);
    lemma_first_out_is(s, Class::Space, 0);
    assert(strip_front(t, Class::Space) =~= s);
    assert(strip_front(s, Class::Space) =~= s);
}

proof fn lemma_shell(dir: Seq<char>, shell: Seq<char>)
    requires
        is_shell(shell),
        dir.len() == 0 || (dir.last() == '/' && is_word(dir)),
    ensures
        is_word(dir + shell),
        match cut_last(dir + shell, '/') {
            Some((_, name)) => name == shell,
            None => dir + shell == shell,
        },
{
    reveal_strlit("sh");
    reveal_strlit("bash");
    reveal_strlit("zsh");
    reveal_strlit("dash");
    reveal_strlit("ksh");
    reveal_strlit("python");
    reveal_strlit("python3");
    reveal_strlit("perl");
    let s = dir + shell;
    let k = Class::Only('/');
    assert forall|j: int| 0 <= j < shell.len() implies #[trigger] shell[j] != '/' && !is_space(
        shell[j],
    ) by {}
    assert forall|j: int| 0 <= j < s.len() implies !is_space(#[trigger] s[j]) by {
        if j < dir.len() {
            assert(s[j] == dir[j]);
        } else {
            assert(s[j] == shell[j - dir.len()]);
        }
    }
    lemma_last_in(s, k);
    let i = last_in(s, k);
    let n = dir.len() as int;
    if i >= n {
        assert(s[i] == shell[i - n]);
    }
    if n > 0 {
        assert(s[n - 1] == dir.last());
        assert(i == n - 1) by {
            if i < n - 1 {
                assert(k.holds(s[n - 1]));
            }
        }
        assert(s.skip(n) =~= shell);
    } else {
        assert(s =~= shell);
    }
}

/// A job that runs at every boot is told of.
pub proof fn law_boot_jobs_are_told(a: AuditView, i: int)
    requires
        0 <= i < a.cron.len(),
        a.cron[i].schedule == "@reboot"@,
    ensures
        tells(a, Severity::Info, "schedules"@, " run at every boot"@, a.cron[i].command),
{
    law_boot_jobs_are_reported(a, i);
    let jobs = a.cron.filter_map(boot_rule());
    let x = boot_finding(jobs)->0;
    let j = choose|j: int| 0 <= j < jobs.len() && jobs[j] == a.cron[i].command;
    lemma_joined_holds(jobs, "; "@, j);
    lemma_ends_with(
        dec(jobs.len()) + " job"@ + plural_of(jobs.len() as int),
        " run at every boot"@,
    );
    lemma_tells(a, x, Severity::Info, "schedules"@, " run at every boot"@, a.cron[i].command);
}

// ------------------------------------------------------------ coverage ----

/// A probe that was refused or saw only a part is told of by its label, and one that
/// failed by its label, its command and its note.
pub proof fn law_gaps_are_told(a: AuditView, i: int)
    requires
        0 <= i < a.probes.len(),
    ensures
        ({
            let p = a.probes[i];
            &&& p.status is Denied ==> tells(a, Severity::Info, "probes"@, " were denied"@, p.label)
            &&& p.status is Partial ==> tells(
                a,
                Severity::Info,
                "probes"@,
                " could not read everything"@,
                p.label,
            )
            &&& p.status is Failed ==> tells(
                a,
                Severity::Low,
                "probes"@,
                "Probe failed: "@ + p.label,
                p.note,
            ) && tells(a, Severity::Low, "probes"@, "Probe failed: "@ + p.label, p.command)
        }),
{
    let p = a.probes[i];
    if p.status is Denied {
        law_denied_is_reported(a, i);
        let x = blind_finding(a)->0;
        let labels = labels_with(a, ProbeStatus::Denied);
        let j = choose|j: int| 0 <= j < labels.len() && labels[j] == p.label;
        lemma_joined_holds(labels, ", "@, j);
        let list = joined(labels, ", "@);
        let said = if a.host.sudo.privileged() {
            "Even with sudo these were refused."@
        } else {
            "Re-run with --sudo for the full picture."@
        };
        let tail = " Treat those sections as unknown, not empty."@;
        lemma_holds_then(list, ". "@, p.label);
        lemma_holds_then(list + ". "@, said, p.label);
        lemma_holds_then(list + ". "@ + said, tail, p.label);
        lemma_ends_with(
            dec(labels.len()) + " probe"@ + plural_of(labels.len() as int),
            " were denied"@,
        );
        lemma_tells(a, x, Severity::Info, "probes"@, " were denied"@, p.label);
    }
    if p.status is Partial {
        law_partial_is_reported(a, i);
        let x = partial_finding(a)->0;
        let labels = labels_with(a, ProbeStatus::Partial);
        let j = choose|j: int| 0 <= j < labels.len() && labels[j] == p.label;
        lemma_joined_holds(labels, ", "@, j);
        let list = joined(labels, ", "@);
        let one = ". What came back is shown and is accurate as far as it goes; some paths were unreadable"@;
        let two = if a.host.sudo.privileged() {
            ""@
        } else {
            ", so re-run with --sudo for complete totals"@
        };
        lemma_holds_then(list, one, p.label);
        lemma_holds_then(list + one, two, p.label);
        lemma_holds_then(list + one + two, "."@, p.label);
        lemma_ends_with(
            dec(labels.len()) + " probe"@ + plural_of(labels.len() as int),
            " could not read everything"@,
        );
        lemma_tells(a, x, Severity::Info, "probes"@, " could not read everything"@, p.label);
    }
    if p.status is Failed {
        law_failure_is_reported(a, i);
        let x = failure_rule()(p)->0;
        let mid = "` exited "@ + dec_int(p.exit_code as int) + " — "@;
        lemma_same_suffix(x.title);
        assert(x.detail =~= "`"@ + p.command + (mid + p.note));
        lemma_holds_middle("`"@, p.command, mid + p.note);
        assert(x.detail =~= ("`"@ + p.command + mid) + p.note);
        lemma_holds_last("`"@ + p.command + mid, p.note);
        lemma_tells(a, x, Severity::Low, "probes"@, x.title, p.note);
        lemma_tells(a, x, Severity::Low, "probes"@, x.title, p.command);
    }
}

// ------------------------------------------------------------ pressure ----

/// Memory from fifteen sixteenths on is told of, and up to seven eighths it is not; the
/// limit of nine tenths lies between them.
pub proof fn law_full_memory_is_told(a: AuditView, used: u64, total: u64)
    requires
        a.host.mem_used_mb == Some(used),
        a.host.mem_total_mb == Some(total),
        0 < total < pow2(53),
        used < pow2(53),
    ensures
        used * 16 >= total * 15 ==> tells(
            a,
            Severity::Medium,
            "overview"@,
            "% used"@,
            dec(used as nat) + " MB of "@ + dec(total as nat) + " MB in use"@,
        ),
        used * 8 <= total * 7 ==> memory_finding(a.host) is None,
{
    let f = Format::Double;
    let pct = memory_pct(used, total);
    lemma_memory(used, total);
    if used * 16 >= total * 15 {
        let x = memory_finding(a.host)->0;
        assert(some_of(memory_finding(a.host))[0] == x);
        lemma_concat_contains(some_of(memory_finding(a.host)), some_of(load_finding(a.host)), x);
        law_findings_are_what_was_collected(a, x);
        let said = dec(used as nat) + " MB of "@ + dec(total as nat) + " MB in use"@;
        let none: Seq<char> = seq![];
        let rest = " (excluding reclaimable cache)."@;
        reveal_strlit(" MB in use");
        reveal_strlit(" (excluding reclaimable cache).");
        reveal_strlit(" MB in use (excluding reclaimable cache).");
        assert(" MB in use (excluding reclaimable cache)."@ =~= " MB in use"@ + rest);
        assert(x.detail =~= none + said + rest);
        lemma_holds_middle(none, said, rest);
        lemma_ends_with("Memory is "@ + f.printed(pct, 0), "% used"@);
        lemma_tells(a, x, Severity::Medium, "overview"@, "% used"@, said);
    }
}

#[verifier::spinoff_prover]
proof fn lemma_memory(used: u64, total: u64)
    requires
        0 < total < pow2(53),
        used < pow2(53),
    ensures
        used * 16 >= total * 15 ==> Format::Double.reaches(memory_pct(used, total), 90),
        used * 8 <= total * 7 ==> !Format::Double.reaches(memory_pct(used, total), 90),
{
    let f = Format::Double;
    let u = pow2(1074);
    lemma_pow2_pos(1074);
    lemma2_to64();
    lemma2_to64_rest();
    let n = used as nat;
    let m = total as nat;
    let a = lemma_dyadic(n, 0);
    let b = lemma_dyadic(m, 0);
    let q = f.quotient(a, b);
    let r = f.product(q, 100);
    assert(m * u > 0) by (nonlinear_arith)
        requires
            m > 0,
            u > 0,
    ;
    if used * 16 >= total * 15 {
        let c = lemma_dyadic(15, 4);
        let e = lemma_dyadic(1500, 4);
        let w = pow2(1070);
        lemma_pow2_adds(1070, 4);
        assert(15 * (m * u) <= (n * u) * 16) by (nonlinear_arith)
            requires
                n * 16 >= m * 15,
        ;
        lemma_nearest_grows(f, 15, 16, n * u, m * u);
        if c < q {
            lemma_scaled_grows(f, c, q);
        }
        let s = f.scaled(q);
        assert(s >= 15 * w);
        assert(1500 * u <= (s * 100) * 16) by (nonlinear_arith)
            requires
                s >= 15 * w,
                u == w * 16,
        ;
        lemma_nearest_grows(f, 1500, 16, s * 100, u);
        if e < r {
            lemma_scaled_grows(f, e, r);
        }
        assert(1500 * w >= 90 * u) by (nonlinear_arith)
            requires
                u == w * 16,
        ;
    }
    if used * 8 <= total * 7 {
        let c = lemma_dyadic(7, 3);
        let e = lemma_dyadic(700, 3);
        let w = pow2(1071);
        lemma_pow2_pos(1071);
        lemma_pow2_adds(1071, 3);
        assert((n * u) * 8 <= 7 * (m * u)) by (nonlinear_arith)
            requires
                n * 8 <= m * 7,
        ;
        lemma_nearest_grows(f, n * u, m * u, 7, 8);
        if q < c {
            lemma_scaled_grows(f, q, c);
        }
        let s = f.scaled(q);
        assert(s <= 7 * w);
        assert((s * 100) * 8 <= 700 * u) by (nonlinear_arith)
            requires
                s <= 7 * w,
                u == w * 8,
        ;
        lemma_nearest_grows(f, s * 100, u, 700, 8);
        if r < e {
            lemma_scaled_grows(f, r, e);
        }
        assert(700 * w < 90 * u) by (nonlinear_arith)
            requires
                u == w * 8,
                w > 0,
        ;
    }
}

/// A load of more than twice the processors is told of, and one of at most that is not.
pub proof fn law_high_load_is_told(
    a: AuditView,
    whole: Seq<char>,
    part: Seq<char>,
    rest: Seq<Seq<char>>,
    n: nat,
    j: nat,
)
    requires
        a.host.load == joined(seq![with_point(whole, part)] + rest, " "@),
        is_numeral(whole),
        is_numeral(part),
        forall|k: int| 0 <= k < rest.len() ==> is_word(#[trigger] rest[k]),
        a.host.cpus == dec(n),
        n > 0,
        j <= 1000,
        2 * n * pow2(j) + 1 < pow2(53),
    ensures
        ({
            let x = digits_value(whole + part);
            let p = pow10(part.len());
            &&& x * pow2(j) >= (2 * n * pow2(j) + 1) * p ==> tells(
                a,
                Severity::Medium,
                "overview"@,
                " CPUs"@,
                "more than twice the core count"@,
            )
            &&& x <= 2 * n * p ==> load_finding(a.host) is None
        }),
{
    reveal_strlit(".");
    let f = Format::Double;
    let x = digits_value(whole + part);
    let p = pow10(part.len());
    let w = with_point(whole, part);
    let ws = seq![w] + rest;
    assert(is_word(w)) by {
        assert forall|k: int| 0 <= k < w.len() implies !is_space(#[trigger] w[k]) by {
            if k < whole.len() {
                assert(w[k] == whole[k]);
            } else if k > whole.len() {
                assert(w[k] == part[k - whole.len() - 1]);
            }
        }
    }
    assert forall|k: int| 0 <= k < ws.len() implies is_word(#[trigger] ws[k]) by {
        if k > 0 {
            assert(ws[k] == rest[k - 1]);
        }
    }
    lemma_words_joined(ws);
    lemma_decimal_read(whole, part);
    lemma_pow10_pos(part.len());
    lemma_dec_digits(n);
    let d = dec(n);
    assert(d.last() == d[d.len() - 1]);
    lemma_trimmed_already(d);
    lemma_load(x, p, n, j);
    lemma_numeral_read(d);
    let c = f.nearest(n, 1);
    assert(load_now(a.host) == Double { bits: f.nearest(x, p) as u64 });
    assert(cpu_count(a.host) == Double { bits: c as u64 });
    if x * pow2(j) >= (2 * n * pow2(j) + 1) * p {
        let y = load_finding(a.host)->0;
        assert(some_of(load_finding(a.host))[0] == y);
        lemma_concat_contains(some_of(memory_finding(a.host)), some_of(load_finding(a.host)), y);
        law_findings_are_what_was_collected(a, y);
        let lead = "The run queue is "@;
        let mid = "more than twice the core count"@;
        let tail = "; something is saturating this box."@;
        reveal_strlit("The run queue is ");
        reveal_strlit("more than twice the core count");
        reveal_strlit("; something is saturating this box.");
        reveal_strlit(
            "The run queue is more than twice the core count; something is saturating this box.",
        );
        assert(y.detail =~= lead + mid + tail);
        lemma_holds_middle(lead, mid, tail);
        lemma_ends_with(
            "Load average "@ + load_now(a.host).shown(2) + " on "@ + cpu_count(a.host).shown(0),
            " CPUs"@,
        );
        lemma_tells(a, y, Severity::Medium, "overview"@, " CPUs"@, mid);
    }
}

#[verifier::spinoff_prover]
proof fn lemma_load(x: nat, p: nat, n: nat, j: nat)
    requires
        p > 0,
        n > 0,
        j <= 1000,
        2 * n * pow2(j) + 1 < pow2(53),
    ensures
        ({
            let f = Format::Double;
            let c = f.nearest(n, 1);
            let l = f.nearest(x, p);
            &&& 0 < c < f.infinity()
            &&& c < 0x8000_0000_0000_0000
            &&& l <= f.infinity()
            &&& l < 0x8000_0000_0000_0000
            &&& x * pow2(j) >= (2 * n * pow2(j) + 1) * p ==> l > f.product(c, 2)
            &&& x <= 2 * n * p ==> l <= f.product(c, 2)
        }),
{
    let f = Format::Double;
    let u = pow2(1074);
    let t = pow2(j);
    lemma_pow2_pos(1074);
    lemma_pow2_pos(j);
    lemma2_to64();
    lemma2_to64_rest();
    assert(n <= 2 * n * t) by (nonlinear_arith)
        requires
            t > 0,
    ;
    assert(2 * n <= 2 * n * t) by (nonlinear_arith)
        requires
            t > 0,
    ;
    let c = lemma_dyadic(n, 0);
    let g = lemma_dyadic(2 * n, 0);
    let l = f.nearest(x, p);
    lemma_nearest_is(f, x, p);
    assert(f.infinity() < 0x8000_0000_0000_0000);
    assert(c > 0) by {
        if c == 0 {
            assert(f.scaled(0) == 0) by (nonlinear_arith)
                requires
                    f.scaled(0) == 0 * pow2(f.exponent(0)),
            ;
            assert(n * u > 0) by (nonlinear_arith)
                requires
                    n > 0,
                    u > 0,
            ;
        }
    }
    assert(f.scaled(g) * u == (f.scaled(c) * 2) * u) by (nonlinear_arith)
        requires
            f.scaled(g) == 2 * n * u,
            f.scaled(c) == n * u,
    ;
    lemma_exact(f, g, f.scaled(c) * 2, u);
    assert(f.product(c, 2) == g);
    if x <= 2 * n * p {
        assert(x * 1 <= (2 * n) * p);
        lemma_nearest_grows(f, x, p, 2 * n, 1);
    }
    if x * t >= (2 * n * t + 1) * p {
        let h = 2 * n * t + 1;
        let e = lemma_dyadic(h, j);
        lemma_nearest_grows(f, h, t, x, p);
        let w = pow2((1074 - j) as nat);
        lemma_pow2_pos((1074 - j) as nat);
        lemma_pow2_adds((1074 - j) as nat, j);
        assert(h * w > 2 * n * u) by (nonlinear_arith)
            requires
                h == 2 * n * t + 1,
                u == w * t,
                w > 0,
        ;
        if e <= g {
            if e < g {
                lemma_scaled_grows(f, e, g);
            }
        }
    }
}

} // verus!
