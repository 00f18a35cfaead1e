//! Parsers for the raw output of each remote command.
//!
//! Every parser is total: it skips lines it does not understand rather than
//! failing the whole audit, because one weird line on one distro should never
//! cost you the other five sections.

use crate::float::{Double, Format, Single};
use crate::fmt::{cat2, cat3, dec, decimal};
use crate::gather::lemma_filter_map_all;
use crate::lines::{is_word, lemma_single_line, lemma_words_joined};
use crate::model::{
    Container, ContainerView, CronEntry, CronEntryView, DirUsage, DirUsageView, Exposure,
    Filesystem, FilesystemView, HostInfo, HostInfoView, Listener, ListenerView, PortMapping,
    PortMappingView, Service, ServiceView, SudoAvailability, Timer, TimerView, UnitFile,
    UnitFileView,
};
use crate::number::{read_u32, read_u64, unsigned_of};
use crate::reading::{double_of, read_double, read_single, single_of};
use crate::sorting::{
    is_total_preorder, lemma_sorted_ascending, lemma_sorted_len, lemma_sorted_same_elements, rank,
    sort, sorted, Ranked,
};
use crate::text::{
    after_prefix, all_in, any_in, begins_with, chars_of, contains_text, cut_first, cut_last,
    each_line, each_part, ends_with, every_in, find_in, find_out, find_text, first_in, first_out,
    holds_text, is_blank, is_digit, join_words, joined, lines, lines_of, locate, lowercase, pieces,
    rsplit_once, some_in, spells, split, split_once, string_of, strip_back, strip_front,
    strip_prefix, to_lowercase, trim, trim_back, trim_front, trimmed, viewed, views, words,
    words_of, Class,
};
use vstd::prelude::*;
use vstd::slice::slice_subrange;
use vstd::utf8::encode_utf8;

verus! {

/// The words from the `n`th on, a space between each two.
pub open spec fn tail_of(line: Seq<char>, n: int) -> Seq<char> {
    joined(words_of(line).skip(n), " "@)
}

/// Split a line into `n` leading whitespace-separated tokens plus a remainder.
/// Returns `None` when the line has fewer than `n` tokens.
pub fn head_tail<'a>(line: &'a [char], n: usize) -> (r: Option<(Vec<&'a [char]>, String)>)
    ensures
        match r {
            Some((head, tail)) => {
                &&& n <= words_of(line@).len()
                &&& views(head@) == words_of(line@).take(n as int)
                &&& head@.len() == n
                &&& tail@ == tail_of(line@, n as int)
            },
            None => words_of(line@).len() < n,
        },
{
    let mut parts = words(line);
    assert(views(parts@).len() == parts@.len());
    if parts.len() < n {
        return None;
    }
    let rest = slice_subrange(parts.as_slice(), n, parts.len());
    let tail = join_words(rest, " ");
    assert(views(rest@) =~= words_of(line@).skip(n as int));
    parts.truncate(n);
    assert(views(parts@) =~= words_of(line@).take(n as int));
    Some((parts, tail))
}

/// Whether the first word of a line is the given one.
pub open spec fn headed_by(line: Seq<char>, word: Seq<char>) -> bool {
    words_of(line).len() > 0 && words_of(line)[0] == word
}

pub fn is_header(line: &[char], first_word: &str) -> (yes: bool)
    ensures
        yes == headed_by(line@, first_word@),
{
    let parts = words(line);
    assert(views(parts@).len() == parts@.len());
    parts.len() > 0 && spells(parts[0], first_word)
}

// ---------------------------------------------------------------- host ----

/// `s` without the copies of `p` that it begins with.
pub open spec fn without_prefixes(s: Seq<char>, p: Seq<char>) -> Seq<char>
    decreases s.len(),
{
    if 0 < p.len() <= s.len() && p.is_prefix_of(s) {
        without_prefixes(s.skip(p.len() as int), p)
    } else {
        s
    }
}

fn strip_prefixes<'a>(s: &'a [char], p: &str) -> (r: &'a [char])
    requires
        p@.len() > 0,
    ensures
        r@ == without_prefixes(s@, p@),
{
    let mut rest: &'a [char] = s;
    loop
        invariant
            p@.len() > 0,
            without_prefixes(rest@, p@) == without_prefixes(s@, p@),
        decreases rest@.len(),
    {
        match strip_prefix(rest, p) {
            Some(t) => {
                rest = t;
            },
            None => {
                return rest;
            },
        }
    }
}

/// What the `SUDO` fact says.
pub open spec fn sudo_of(value: Seq<char>) -> SudoAvailability {
    if value == "root"@ {
        SudoAvailability::Root
    } else if value == "passwordless"@ {
        SudoAvailability::Passwordless
    } else if value == "needs-password"@ {
        SudoAvailability::NeedsPassword
    } else {
        SudoAvailability::NotRequested
    }
}

/// A number of megabytes, where the text is one.
pub open spec fn megabytes(value: Seq<char>) -> Option<u64> {
    match unsigned_of(value, u64::MAX as nat) {
        Some(n) => Some(n as u64),
        None => None,
    }
}

/// A host after one more `KEY=value` fact.
pub open spec fn host_with(h: HostInfoView, key: Seq<char>, value: Seq<char>) -> HostInfoView {
    if key == "HOSTNAME"@ {
        HostInfoView { hostname: value, ..h }
    } else if key == "OS"@ {
        HostInfoView { os: value, ..h }
    } else if key == "KERNEL"@ {
        HostInfoView { kernel: value, ..h }
    } else if key == "ARCH"@ {
        HostInfoView { arch: value, ..h }
    } else if key == "UPTIME"@ {
        HostInfoView { uptime: without_prefixes(value, "up "@), ..h }
    } else if key == "CPUS"@ {
        HostInfoView { cpus: value, ..h }
    } else if key == "LOAD"@ {
        HostInfoView { load: value, ..h }
    } else if key == "MEMTOTAL"@ {
        HostInfoView { mem_total_mb: megabytes(value), ..h }
    } else if key == "MEMUSED"@ {
        HostInfoView { mem_used_mb: megabytes(value), ..h }
    } else if key == "USER"@ {
        HostInfoView { user: value, ..h }
    } else if key == "VIRT"@ {
        HostInfoView { virt: value, ..h }
    } else if key == "SUDO"@ {
        HostInfoView { sudo: sudo_of(value), ..h }
    } else {
        h
    }
}

/// A host after one more line.
pub open spec fn host_after(h: HostInfoView, line: Seq<char>) -> HostInfoView {
    match cut_first(line, '=') {
        Some((key, value)) => host_with(h, trimmed(key), trimmed(value)),
        None => h,
    }
}

/// What the lines say of a host: of two lines with one key, the later one.
pub open spec fn host_of(lines: Seq<Seq<char>>) -> HostInfoView
    decreases lines.len(),
{
    if lines.len() == 0 {
        HostInfoView::empty()
    } else {
        host_after(host_of(lines.drop_last()), lines.last())
    }
}

fn host_line(h: HostInfo, line: &[char]) -> (r: HostInfo)
    ensures
        r@ == host_after(h@, line@),
{
    let (key, value) = match split_once(line, '=') {
        Some((k, v)) => (trim(k), trim(v)),
        None => {
            return h;
        },
    };
    let text = string_of(value);
    if spells(key, "HOSTNAME") {
        HostInfo { hostname: text, ..h }
    } else if spells(key, "OS") {
        HostInfo { os: text, ..h }
    } else if spells(key, "KERNEL") {
        HostInfo { kernel: text, ..h }
    } else if spells(key, "ARCH") {
        HostInfo { arch: text, ..h }
    } else if spells(key, "UPTIME") {
        // `uptime -p` already says "up 3 days"; the UI adds its own label.
        proof {
            reveal_strlit("up ");
        }
        HostInfo { uptime: string_of(strip_prefixes(value, "up ")), ..h }
    } else if spells(key, "CPUS") {
        HostInfo { cpus: text, ..h }
    } else if spells(key, "LOAD") {
        HostInfo { load: text, ..h }
    } else if spells(key, "MEMTOTAL") {
        HostInfo { mem_total_mb: read_u64(value), ..h }
    } else if spells(key, "MEMUSED") {
        HostInfo { mem_used_mb: read_u64(value), ..h }
    } else if spells(key, "USER") {
        HostInfo { user: text, ..h }
    } else if spells(key, "VIRT") {
        HostInfo { virt: text, ..h }
    } else if spells(key, "SUDO") {
        let sudo = if spells(value, "root") {
            SudoAvailability::Root
        } else if spells(value, "passwordless") {
            SudoAvailability::Passwordless
        } else if spells(value, "needs-password") {
            SudoAvailability::NeedsPassword
        } else {
            SudoAvailability::NotRequested
        };
        HostInfo { sudo, ..h }
    } else {
        h
    }
}

/// Reads the `KEY=value` facts of the host probe.
pub fn parse_host(raw: &str) -> (r: HostInfo)
    ensures
        r@ == host_of(lines_of(raw@)),
{
    let cs = chars_of(raw);
    let ls = lines(cs.as_slice());
    let ghost all = views(ls@);
    let mut h = HostInfo::default();
    let mut i: usize = 0;
    while i < ls.len()
        invariant
            i <= ls.len(),
            all == views(ls@),
            h@ == host_of(all.take(i as int)),
        decreases ls.len() - i,
    {
        assert(all.take(i + 1).drop_last() =~= all.take(i as int));
        h = host_line(h, ls[i]);
        i += 1;
    }
    assert(all.take(all.len() as int) =~= all);
    h
}

// ----------------------------------------------------------- listeners ----

/// `0.0.0.0:443`, `[::]:22`, `:::443` or `10.0.3.7%eth0:9100` as address and
/// port: what stands before and behind the last colon.
pub open spec fn endpoint_of(s: Seq<char>) -> (Seq<char>, Seq<char>) {
    match cut_last(s, ':') {
        Some((addr, port)) => (addr, port),
        None => (s, seq![]),
    }
}

pub fn split_endpoint(s: &[char]) -> (r: (String, String))
    ensures
        (r.0@, r.1@) == endpoint_of(s@),
{
    match rsplit_once(s, ':') {
        Some((addr, port)) => (string_of(addr), string_of(port)),
        None => {
            let none = String::new();
            assert(none@ =~= seq![]);
            (string_of(s), none)
        },
    }
}

/// What stands before the first `c`, or the whole text.
pub open spec fn before(s: Seq<char>, c: char) -> Seq<char> {
    s.take(first_in(s, Class::Only(c)))
}

fn up_to<'a>(s: &'a [char], c: char) -> (r: &'a [char])
    ensures
        r@ == before(s@, c),
{
    let i = find_in(s, Class::Only(c));
    let r = slice_subrange(s, 0, i);
    assert(r@ =~= before(s@, c));
    r
}

/// Who can reach an address. Brackets and a zone are not part of it.
pub open spec fn exposure_of(addr: Seq<char>) -> Exposure {
    let a = before(
        strip_back(strip_front(addr, Class::Only('[')), Class::Only(']')),
        '%',
    );
    if a == "0.0.0.0"@ || a == "::"@ || a == "*"@ || a.len() == 0 {
        Exposure::AllInterfaces
    } else if a == "::1"@ || "127."@.is_prefix_of(a) {
        Exposure::Loopback
    } else {
        Exposure::Interface
    }
}

pub fn classify_exposure(addr: &str) -> (r: Exposure)
    ensures
        r == exposure_of(addr@),
{
    let cs = chars_of(addr);
    let a = trim_back(trim_front(cs.as_slice(), Class::Only('[')), Class::Only(']'));
    let a = up_to(a, '%');
    if spells(a, "0.0.0.0") || spells(a, "::") || spells(a, "*") || a.len() == 0 {
        Exposure::AllInterfaces
    } else if spells(a, "::1") || begins_with(a, "127.") {
        Exposure::Loopback
    } else {
        Exposure::Interface
    }
}

/// One entry of a `users:(...)` column.
pub struct Holder {
    pub name: Seq<char>,
    pub pid: Option<nat>,
}

/// The pid in an entry. `from` starts at the quote behind the name, and the
/// entry ends at its first `)`.
pub open spec fn pid_in(from: Seq<char>) -> Option<nat> {
    match find_text(from.take(first_in(from, Class::Only(')'))), "pid="@) {
        Some(p) => {
            let t = from.skip(p + 4);
            unsigned_of(t.take(first_out(t, Class::Digit)), u32::MAX as nat)
        },
        None => None,
    }
}

/// The entries of `users:(("nginx",pid=901,fd=6),("nginx",pid=900,fd=6))`. An
/// entry starts at `("` and its name ends at the next quote; a name that never
/// ends is the end of the list.
pub open spec fn holders_of(s: Seq<char>) -> Seq<Holder>
    decreases s.len(),
{
    match find_text(s, "(\""@) {
        Some(i) => if 0 <= i && i + 2 <= s.len() {
            let after = s.skip(i + 2);
            let j = first_in(after, Class::Only('"'));
            if 0 <= j < after.len() {
                let from = after.skip(j);
                let holder = Holder { name: after.take(j), pid: pid_in(from) };
                let e = first_in(from, Class::Only(')'));
                if 0 <= e <= from.len() {
                    seq![holder] + holders_of(from.skip(e))
                } else {
                    seq![holder]
                }
            } else {
                seq![]
            }
        } else {
            seq![]
        },
        None => seq![],
    }
}

/// The first name that is not empty.
pub open spec fn first_name(h: Seq<Holder>) -> Option<Seq<char>>
    decreases h.len(),
{
    if h.len() == 0 {
        None
    } else if h[0].name.len() > 0 {
        Some(h[0].name)
    } else {
        first_name(h.skip(1))
    }
}

/// The first pid that is a number.
pub open spec fn first_pid(h: Seq<Holder>) -> Option<nat>
    decreases h.len(),
{
    if h.len() == 0 {
        None
    } else if h[0].pid is Some {
        h[0].pid
    } else {
        first_pid(h.skip(1))
    }
}

/// A pid as the field that holds it.
pub open spec fn narrow(n: Option<nat>) -> Option<u32> {
    match n {
        Some(n) => Some(n as u32),
        None => None,
    }
}

fn read_pid(from: &[char]) -> (r: Option<u32>)
    ensures
        match r {
            Some(n) => pid_in(from@) == Some(n as nat),
            None => pid_in(from@) is None,
        },
{
    let e = find_in(from, Class::Only(')'));
    let entry = slice_subrange(from, 0, e);
    assert(entry@ =~= from@.take(e as int));
    let key = chars_of("pid=");
    proof {
        reveal_strlit("pid=");
    }
    match locate(entry, key.as_slice()) {
        Some(p) => {
            let t = slice_subrange(from, p + 4, from.len());
            assert(t@ =~= from@.skip(p + 4));
            let n = find_out(t, Class::Digit);
            let digits = slice_subrange(t, 0, n);
            assert(digits@ =~= t@.take(n as int));
            read_u32(digits)
        },
        None => None,
    }
}

/// Pull names and pids out of `users:(("nginx",pid=901,fd=6),("nginx",pid=900,fd=6))`.
pub fn parse_ss_users(s: &str) -> (r: (Option<String>, Option<u32>, String))
    ensures
        viewed(r.0) == first_name(holders_of(s@)),
        r.1 == narrow(first_pid(holders_of(s@))),
        r.2@ == trimmed(s@),
{
    let cs = chars_of(s);
    let all = cs.as_slice();
    let mut rest: &[char] = all;
    let mut process: Option<String> = None;
    let mut pid: Option<u32> = None;
    let open = chars_of("(\"");
    proof {
        reveal_strlit("(\"");
    }
    let mut more = true;
    while more
        invariant
            open@ == "(\""@,
            open@.len() == 2,
            !more ==> holders_of(rest@).len() == 0,
            first_name(holders_of(s@)) == (match process {
                Some(n) => Some(n@),
                None => first_name(holders_of(rest@)),
            }),
            match pid {
                Some(n) => first_pid(holders_of(s@)) == Some(n as nat),
                None => first_pid(holders_of(s@)) == first_pid(holders_of(rest@)),
            },
        decreases rest@.len(), more as int,
    {
        match locate(rest, open.as_slice()) {
            None => {
                more = false;
            },
            Some(i) => {
                let n: usize = rest.len();
                let after = slice_subrange(rest, i + 2, n);
                assert(after@ =~= rest@.skip(i + 2));
                let j = find_in(after, Class::Only('"'));
                if j == after.len() {
                    more = false;
                } else {
                    let name = slice_subrange(after, 0, j);
                    assert(name@ =~= after@.take(j as int));
                    let from = slice_subrange(after, j, after.len());
                    assert(from@ =~= after@.skip(j as int));
                    let e = find_in(from, Class::Only(')'));
                    let next = slice_subrange(from, e, from.len());
                    assert(next@ =~= from@.skip(e as int));
                    let ghost h = Holder { name: name@, pid: pid_in(from@) };
                    assert(holders_of(rest@) == seq![h] + holders_of(next@));
                    assert((seq![h] + holders_of(next@)).skip(1) =~= holders_of(next@));
                    if pid.is_none() {
                        pid = read_pid(from);
                    }
                    if process.is_none() && name.len() > 0 {
                        process = Some(string_of(name));
                    }
                    rest = next;
                }
            },
        }
    }
    (process, pid, string_of(trim(all)))
}

/// Name and pid out of `801/sshd`, `901/nginx: master p`, or `-` when we lack
/// permission.
pub open spec fn program_of(s: Seq<char>) -> (Option<Seq<char>>, Option<u32>) {
    let t = trimmed(s);
    if t.len() == 0 || t == "-"@ {
        (None, None)
    } else {
        match cut_first(t, '/') {
            Some((pid, name)) => {
                let name = trimmed(before(name, ':'));
                (
                    if name.len() > 0 {
                        Some(name)
                    } else {
                        None
                    },
                    narrow(unsigned_of(trimmed(pid), u32::MAX as nat)),
                )
            },
            None => (Some(t), None),
        }
    }
}

pub fn parse_netstat_program(s: &str) -> (r: (Option<String>, Option<u32>))
    ensures
        (viewed(r.0), r.1) == program_of(s@),
{
    let cs = chars_of(s);
    let t = trim(cs.as_slice());
    if t.len() == 0 || spells(t, "-") {
        return (None, None);
    }
    match split_once(t, '/') {
        Some((pid, name)) => {
            let name = trim(up_to(name, ':'));
            let process = if name.len() > 0 {
                Some(string_of(name))
            } else {
                None
            };
            (process, read_u32(trim(pid)))
        },
        None => (Some(string_of(t)), None),
    }
}

/// The protocols that `ss` rows are kept for.
pub open spec fn known_proto(p: Seq<char>) -> bool {
    p == "tcp"@ || p == "udp"@ || p == "tcp6"@ || p == "udp6"@ || p == "raw"@ || p == "sctp"@
}

/// The socket in a row of `ss`.
pub open spec fn ss_row_of(line: Seq<char>) -> Option<ListenerView> {
    let w = words_of(line);
    if headed_by(line, "Netid"@) || headed_by(line, "State"@) || w.len() < 6 || !known_proto(w[0]) {
        None
    } else {
        let users = tail_of(line, 6);
        Some(
            ListenerView {
                proto: w[0],
                state: w[1],
                addr: endpoint_of(w[4]).0,
                port: endpoint_of(w[4]).1,
                process: first_name(holders_of(users)),
                pid: narrow(first_pid(holders_of(users))),
                users: trimmed(users),
                exposure: exposure_of(endpoint_of(w[4]).0),
            },
        )
    }
}

/// `ss_row_of` as a function to hand over.
pub open spec fn ss_rule() -> spec_fn(Seq<char>) -> Option<ListenerView> {
    |line: Seq<char>| ss_row_of(line)
}

fn ss_row(line: &[char]) -> (r: Option<Listener>)
    ensures
        viewed(r) == ss_row_of(line@),
{
    if is_header(line, "Netid") || is_header(line, "State") {
        return None;
    }
    match head_tail(line, 6) {
        None => None,
        Some((head, tail)) => {
            assert(words_of(line@).take(6)[0] == head@[0]@);
            assert(words_of(line@).take(6)[1] == head@[1]@);
            assert(words_of(line@).take(6)[4] == head@[4]@);
            let p = head[0];
            let known = spells(p, "tcp") || spells(p, "udp") || spells(p, "tcp6") || spells(
                p,
                "udp6",
            ) || spells(p, "raw") || spells(p, "sctp");
            if !known {
                return None;
            }
            let (addr, port) = split_endpoint(head[4]);
            let (process, pid, users) = parse_ss_users(tail.as_str());
            let exposure = classify_exposure(addr.as_str());
            Some(
                Listener {
                    proto: string_of(p),
                    state: string_of(head[1]),
                    addr,
                    port,
                    process,
                    pid,
                    users,
                    exposure,
                },
            )
        },
    }
}

/// Reads the rows of `ss -tulpn`.
pub fn parse_ss(raw: &str) -> (r: Vec<Listener>)
    ensures
        views(r@) == lines_of(raw@).filter_map(ss_rule()),
{
    each_line(raw, ss_row, Ghost(ss_rule()))
}

/// The socket in a row of `netstat`. UDP rows have no state column.
pub open spec fn netstat_row_of(line: Seq<char>) -> Option<ListenerView> {
    let w = words_of(line);
    if w.len() < 6 || !("tcp"@.is_prefix_of(w[0]) || "udp"@.is_prefix_of(w[0])) {
        None
    } else {
        let udp = "udp"@.is_prefix_of(w[0]);
        let program = if udp {
            tail_of(line, 5)
        } else {
            tail_of(line, 6)
        };
        Some(
            ListenerView {
                proto: w[0],
                state: if udp {
                    "UNCONN"@
                } else {
                    w[5]
                },
                addr: endpoint_of(w[3]).0,
                port: endpoint_of(w[3]).1,
                process: program_of(program).0,
                pid: program_of(program).1,
                users: program,
                exposure: exposure_of(endpoint_of(w[3]).0),
            },
        )
    }
}

/// `netstat_row_of` as a function to hand over.
pub open spec fn netstat_rule() -> spec_fn(Seq<char>) -> Option<ListenerView> {
    |line: Seq<char>| netstat_row_of(line)
}

fn netstat_row(line: &[char]) -> (r: Option<Listener>)
    ensures
        viewed(r) == netstat_row_of(line@),
{
    let w = words(line);
    assert(views(w@).len() == w@.len());
    if w.len() < 6 {
        return None;
    }
    assert(words_of(line@)[0] == w@[0]@);
    assert(words_of(line@)[3] == w@[3]@);
    assert(words_of(line@)[5] == w@[5]@);
    let udp = begins_with(w[0], "udp");
    if !udp && !begins_with(w[0], "tcp") {
        return None;
    }
    let from: usize = if udp {
        5
    } else {
        6
    };
    let rest = slice_subrange(w.as_slice(), from, w.len());
    assert(views(rest@) =~= words_of(line@).skip(from as int));
    let program = join_words(rest, " ");
    let state = if udp {
        "UNCONN".to_string()
    } else {
        string_of(w[5])
    };
    let (addr, port) = split_endpoint(w[3]);
    let (process, pid) = parse_netstat_program(program.as_str());
    let exposure = classify_exposure(addr.as_str());
    Some(
        Listener {
            proto: string_of(w[0]),
            state,
            addr,
            port,
            process,
            pid,
            users: program,
            exposure,
        },
    )
}

/// Reads the rows of `netstat -tulpn`.
pub fn parse_netstat(raw: &str) -> (r: Vec<Listener>)
    ensures
        views(r@) == lines_of(raw@).filter_map(netstat_rule()),
{
    each_line(raw, netstat_row, Ghost(netstat_rule()))
}

/// The header line of `netstat`.
pub open spec fn netstat_header(line: Seq<char>) -> bool {
    headed_by(line, "Proto"@) && contains_text(line, "Local Address"@)
}

/// Whether any line is the header of `netstat`.
pub open spec fn looks_like_netstat(raw: Seq<char>) -> bool {
    exists|i: int| 0 <= i < lines_of(raw).len() && netstat_header(#[trigger] lines_of(raw)[i])
}

/// The sockets in the output of `ss` or of `netstat`.
pub open spec fn listeners_of(raw: Seq<char>) -> Seq<ListenerView> {
    if looks_like_netstat(raw) {
        lines_of(raw).filter_map(netstat_rule())
    } else {
        lines_of(raw).filter_map(ss_rule())
    }
}

/// Dispatch on the header line: `ss` prints `Netid`/`State`, `netstat` prints
/// `Proto`.
pub fn parse_listeners(raw: &str) -> (r: Vec<Listener>)
    ensures
        views(r@) == listeners_of(raw@),
{
    let cs = chars_of(raw);
    let ls = lines(cs.as_slice());
    let ghost all = lines_of(raw@);
    let mut i: usize = 0;
    while i < ls.len()
        invariant
            i <= ls.len(),
            all == lines_of(raw@),
            all == views(ls@),
            forall|k: int| 0 <= k < i ==> !netstat_header(#[trigger] all[k]),
        decreases ls.len() - i,
    {
        assert(all[i as int] == ls@[i as int]@);
        if is_header(ls[i], "Proto") && holds_text(ls[i], "Local Address") {
            return parse_netstat(raw);
        }
        i += 1;
    }
    parse_ss(raw)
}

// ---------------------------------------------------------- containers ----

/// A chunk of the ports column: `0.0.0.0:5432->5432/tcp` or bare `8080/tcp`.
pub open spec fn mapping_of(chunk: Seq<char>) -> Option<PortMappingView> {
    let c = trimmed(chunk);
    if c.len() == 0 {
        None
    } else {
        let (host, container) = match find_text(c, "->"@) {
            Some(i) => (Some(trimmed(c.take(i))), trimmed(c.skip(i + 2))),
            None => (None::<Seq<char>>, c),
        };
        let (container_port, proto) = match cut_last(container, '/') {
            Some((port, proto)) => (port, proto),
            None => (container, "tcp"@),
        };
        let (host_ip, host_port) = match host {
            Some(h) => endpoint_of(h),
            None => (seq![], seq![]),
        };
        Some(PortMappingView { host_ip, host_port, container_port, proto })
    }
}

/// `mapping_of` as a function to hand over.
pub open spec fn mapping_rule() -> spec_fn(Seq<char>) -> Option<PortMappingView> {
    |chunk: Seq<char>| mapping_of(chunk)
}

/// The mappings of a whole ports column.
pub open spec fn mappings_of(raw: Seq<char>) -> Seq<PortMappingView> {
    pieces(raw, ',').filter_map(mapping_rule())
}

fn mapping(chunk: &[char]) -> (r: Option<PortMapping>)
    ensures
        viewed(r) == mapping_of(chunk@),
{
    let c = trim(chunk);
    if c.len() == 0 {
        return None;
    }
    let arrow = chars_of("->");
    proof {
        reveal_strlit("->");
    }
    let n: usize = c.len();
    let (host, container) = match locate(c, arrow.as_slice()) {
        Some(i) => {
            let h = slice_subrange(c, 0, i);
            let t = slice_subrange(c, i + 2, n);
            assert(h@ =~= c@.take(i as int));
            assert(t@ =~= c@.skip(i + 2));
            (Some(trim(h)), trim(t))
        },
        None => (None, c),
    };
    let (container_port, proto) = match rsplit_once(container, '/') {
        Some((port, proto)) => (string_of(port), string_of(proto)),
        None => (string_of(container), "tcp".to_string()),
    };
    let (host_ip, host_port) = match host {
        Some(h) => split_endpoint(h),
        None => {
            let ip = String::new();
            let port = String::new();
            assert(ip@ =~= seq![]);
            assert(port@ =~= seq![]);
            (ip, port)
        },
    };
    Some(PortMapping { host_ip, host_port, container_port, proto })
}

/// `0.0.0.0:5432->5432/tcp, :::5432->5432/tcp` or bare `8080/tcp`.
pub fn parse_port_mappings(raw: &str) -> (r: Vec<PortMapping>)
    ensures
        views(r@) == mappings_of(raw@),
{
    let cs = chars_of(raw);
    let chunks = split(cs.as_slice(), ',');
    each_part(&chunks, mapping, Ghost(mapping_rule()))
}

/// The container in a row of tab-separated fields.
pub open spec fn container_row_of(line: Seq<char>, runtime: Seq<char>) -> Option<ContainerView> {
    let f = pieces(line, '\t');
    if trimmed(line).len() == 0 || f.len() < 7 {
        None
    } else {
        Some(
            ContainerView {
                runtime,
                id: trimmed(f[0]),
                name: trimmed(f[2]),
                image: trimmed(f[1]),
                state: lowercase(trimmed(f[3])),
                status: trimmed(f[4]),
                created: trimmed(f[6]),
                ports: mappings_of(trimmed(f[5])),
                ports_raw: trimmed(f[5]),
            },
        )
    }
}

/// `container_row_of` as a function to hand over.
pub open spec fn container_rule(runtime: Seq<char>) -> spec_fn(Seq<char>) -> Option<ContainerView> {
    |line: Seq<char>| container_row_of(line, runtime)
}

fn container_row(line: &[char], runtime: &str) -> (r: Option<Container>)
    ensures
        viewed(r) == container_row_of(line@, runtime@),
{
    if trim(line).len() == 0 {
        return None;
    }
    let f = split(line, '\t');
    assert(views(f@).len() == f@.len());
    if f.len() < 7 {
        return None;
    }
    assert(forall|i: int| 0 <= i < 7 ==> pieces(line@, '\t')[i] == #[trigger] f@[i]@);
    let ports_raw = string_of(trim(f[5]));
    let ports = parse_port_mappings(ports_raw.as_str());
    let state = string_of(trim(f[3]));
    Some(
        Container {
            runtime: runtime.to_string(),
            id: string_of(trim(f[0])),
            name: string_of(trim(f[2])),
            image: string_of(trim(f[1])),
            state: to_lowercase(state.as_str()),
            status: string_of(trim(f[4])),
            created: string_of(trim(f[6])),
            ports,
            ports_raw,
        },
    )
}

/// Parses the tab-separated `--format` output we ask docker/podman for.
pub fn parse_containers(raw: &str, runtime: &str) -> (r: Vec<Container>)
    ensures
        views(r@) == lines_of(raw@).filter_map(container_rule(runtime@)),
{
    let row = |line: &[char]| -> (r: Option<Container>)
        ensures
            viewed(r) == container_row_of(line@, runtime@),
        { container_row(line, runtime) };
    each_line(raw, row, Ghost(container_rule(runtime@)))
}

// ------------------------------------------------------------- systemd ----

/// The service in a row of `list-units`.
pub open spec fn service_row_of(line: Seq<char>) -> Option<ServiceView> {
    let t = trimmed(strip_front(line, Class::Bullet));
    let w = words_of(t);
    if headed_by(t, "UNIT"@) || w.len() < 4 || !".service"@.is_suffix_of(w[0]) {
        None
    } else {
        Some(
            ServiceView {
                unit: w[0],
                load: w[1],
                active: w[2],
                sub: w[3],
                description: tail_of(t, 4),
            },
        )
    }
}

/// `service_row_of` as a function to hand over.
pub open spec fn service_rule() -> spec_fn(Seq<char>) -> Option<ServiceView> {
    |line: Seq<char>| service_row_of(line)
}

fn service_row(line: &[char]) -> (r: Option<Service>)
    ensures
        viewed(r) == service_row_of(line@),
{
    // `--plain` drops the bullet, but be forgiving if it is there.
    let t = trim(trim_front(line, Class::Bullet));
    if is_header(t, "UNIT") {
        return None;
    }
    match head_tail(t, 4) {
        None => None,
        Some((head, description)) => {
            assert(forall|i: int|
                0 <= i < 4 ==> words_of(t@)[i] == words_of(t@).take(4)[i] && words_of(t@).take(4)[i]
                    == #[trigger] head@[i]@);
            if !ends_with(head[0], ".service") {
                return None;
            }
            Some(
                Service {
                    unit: string_of(head[0]),
                    load: string_of(head[1]),
                    active: string_of(head[2]),
                    sub: string_of(head[3]),
                    description,
                },
            )
        },
    }
}

/// Reads the rows of `systemctl list-units`.
pub fn parse_services(raw: &str) -> (r: Vec<Service>)
    ensures
        views(r@) == lines_of(raw@).filter_map(service_rule()),
{
    each_line(raw, service_row, Ghost(service_rule()))
}

/// The unit file in a row of `list-unit-files`; older systemd prints no preset.
pub open spec fn unit_file_row_of(line: Seq<char>) -> Option<UnitFileView> {
    let w = words_of(line);
    if w.len() < 2 || !".service"@.is_suffix_of(w[0]) {
        None
    } else {
        Some(
            UnitFileView {
                unit: w[0],
                state: w[1],
                preset: if w.len() > 2 {
                    w[2]
                } else {
                    "-"@
                },
            },
        )
    }
}

/// `unit_file_row_of` as a function to hand over.
pub open spec fn unit_file_rule() -> spec_fn(Seq<char>) -> Option<UnitFileView> {
    |line: Seq<char>| unit_file_row_of(line)
}

fn unit_file_row(line: &[char]) -> (r: Option<UnitFile>)
    ensures
        viewed(r) == unit_file_row_of(line@),
{
    let w = words(line);
    assert(views(w@).len() == w@.len());
    if w.len() < 2 || !ends_with(w[0], ".service") {
        return None;
    }
    let preset = if w.len() > 2 {
        string_of(w[2])
    } else {
        "-".to_string()
    };
    Some(UnitFile { unit: string_of(w[0]), state: string_of(w[1]), preset })
}

/// Reads the rows of `systemctl list-unit-files`.
pub fn parse_unit_files(raw: &str) -> (r: Vec<UnitFile>)
    ensures
        views(r@) == lines_of(raw@).filter_map(unit_file_rule()),
{
    each_line(raw, unit_file_row, Ghost(unit_file_rule()))
}

/// How many characters of a kind a text has.
pub open spec fn count_in(s: Seq<char>, k: Class) -> nat
    decreases s.len(),
{
    if s.len() == 0 {
        0
    } else {
        count_in(s.drop_last(), k) + if k.holds(s.last()) {
            1nat
        } else {
            0nat
        }
    }
}

pub fn tally(s: &[char], k: Class) -> (n: usize)
    ensures
        n == count_in(s@, k),
{
    let mut n: usize = 0;
    let mut i: usize = 0;
    while i < s.len()
        invariant
            i <= s.len(),
            n <= i,
            n == count_in(s@.take(i as int), k),
        decreases s.len() - i,
    {
        assert(s@.take(i + 1).drop_last() =~= s@.take(i as int));
        if k.has(s[i]) {
            n += 1;
        }
        i += 1;
    }
    assert(s@.take(s@.len() as int) =~= s@);
    n
}

/// `Mon`
pub open spec fn is_weekday(s: Seq<char>) -> bool {
    s.len() == 3 && all_in(s, Class::Alpha)
}

/// `2026-09-07`
pub open spec fn is_date(s: Seq<char>) -> bool {
    s.len() == 10 && s[4] == '-' && s[7] == '-' && count_in(s, Class::Digit) == 8
}

/// `06:26:44`, by its bytes.
pub open spec fn is_clock(s: Seq<char>) -> bool {
    let b = encode_utf8(s);
    b.len() == 8 && b[2] == 0x3a && b[5] == 0x3a
}

/// `EDT`
pub open spec fn is_zone(s: Seq<char>) -> bool {
    s.len() > 0 && all_in(s, Class::Zone)
}

/// Four tokens starting at `i` that look like `Mon 2026-09-07 06:26:44 EDT`.
pub open spec fn is_stamp(t: Seq<Seq<char>>, i: int) -> bool {
    &&& i + 4 <= t.len()
    &&& is_weekday(t[i])
    &&& is_date(t[i + 1])
    &&& is_clock(t[i + 2])
    &&& is_zone(t[i + 3])
}

pub fn timestamp_at(t: &[&[char]], i: usize) -> (yes: bool)
    requires
        i <= t@.len(),
    ensures
        yes == is_stamp(views(t@), i as int),
{
    if t.len() - i < 4 {
        return false;
    }
    assert(views(t@)[i + 1] == t@[i + 1]@);
    assert(views(t@)[i + 2] == t@[i + 2]@);
    assert(views(t@)[i + 3] == t@[i + 3]@);
    let date = t[i + 1];
    let clock = string_of(t[i + 2]);
    let b = clock.as_str().as_bytes();
    t[i].len() == 3 && every_in(t[i], Class::Alpha) && date.len() == 10 && date[4] == '-' && date[7]
        == '-' && tally(date, Class::Digit) == 8 && b.len() == 8 && b[2] == 0x3a && b[5] == 0x3a
        && t[i + 3].len() > 0 && every_in(t[i + 3], Class::Zone)
}

/// Where timestamps start among the first `n` tokens, none inside another.
pub open spec fn stamps_of(t: Seq<Seq<char>>, n: nat) -> Seq<int>
    decreases n,
{
    if n == 0 {
        seq![]
    } else {
        let s = stamps_of(t, (n - 1) as nat);
        if is_stamp(t, n - 1) && (s.len() == 0 || n - 1 >= s.last() + 4) {
            s.push(n - 1)
        } else {
            s
        }
    }
}

/// Whether a token is no part of a LEFT or PASSED column.
pub open spec fn is_filler(t: Seq<char>) -> bool {
    t == "-"@ || t == "n/a"@ || t == "left"@ || t == "*"@
}

/// The tokens that say something.
pub open spec fn telling(t: Seq<Seq<char>>) -> Seq<Seq<char>>
    decreases t.len(),
{
    if t.len() == 0 {
        seq![]
    } else if is_filler(t.last()) {
        telling(t.drop_last())
    } else {
        telling(t.drop_last()).push(t.last())
    }
}

/// Join a LEFT/PASSED column, dropping placeholders and the old `left` suffix
/// so both systemd generations read the same.
pub fn gap_text(tokens: &[&[char]]) -> (r: String)
    ensures
        r@ == joined(telling(views(tokens@)), " "@),
{
    let mut kept: Vec<&[char]> = Vec::new();
    let ghost all = views(tokens@);
    let mut i: usize = 0;
    assert(views(kept@) =~= telling(all.take(0)));
    while i < tokens.len()
        invariant
            i <= tokens.len(),
            all == views(tokens@),
            views(kept@) == telling(all.take(i as int)),
        decreases tokens.len() - i,
    {
        assert(all.take(i + 1).drop_last() =~= all.take(i as int));
        assert(all.take(i + 1).last() == tokens@[i as int]@);
        let t = tokens[i];
        if !(spells(t, "-") || spells(t, "n/a") || spells(t, "left") || spells(t, "*")) {
            let ghost before = kept@;
            kept.push(t);
            assert(views(kept@) =~= views(before).push(t@));
        }
        i += 1;
    }
    assert(all.take(all.len() as int) =~= all);
    join_words(kept.as_slice(), " ")
}

/// The first token that names a timer, or the number of tokens.
pub open spec fn timer_column(t: Seq<Seq<char>>) -> int
    decreases t.len(),
{
    if t.len() == 0 || ".timer"@.is_suffix_of(t[0]) {
        0
    } else {
        1 + timer_column(t.skip(1))
    }
}

/// Where NEXT and LAST start. A single timestamp is NEXT if it leads, otherwise
/// it is LAST.
pub open spec fn next_and_last(stamps: Seq<int>) -> (Option<int>, Option<int>) {
    if stamps.len() >= 2 {
        (Some(stamps[0]), Some(stamps[1]))
    } else if stamps.len() == 1 && stamps[0] == 0 {
        (Some(0int), None)
    } else if stamps.len() == 1 {
        (None, Some(stamps[0]))
    } else {
        (None, None)
    }
}

/// The timestamp at a position, or `-`.
pub open spec fn stamp_text(head: Seq<Seq<char>>, at: Option<int>) -> Seq<char> {
    match at {
        Some(i) => joined(head.subrange(i, i + 4), " "@),
        None => "-"@,
    }
}

/// What two positions enclose.
pub open spec fn span_text(head: Seq<Seq<char>>, from: int, to: int) -> Seq<char> {
    if 0 <= from < to <= head.len() {
        joined(telling(head.subrange(from, to)), " "@)
    } else {
        seq![]
    }
}

/// The timer in a row of `list-timers`: the columns are those around the
/// timestamps that stand before the unit.
pub open spec fn timer_row_of(line: Seq<char>) -> Option<TimerView> {
    let t = words_of(line);
    let u = timer_column(t);
    if u >= t.len() {
        None
    } else {
        let head = t.take(u);
        let (next, last) = next_and_last(stamps_of(head, head.len()));
        let left_from = match next {
            Some(i) => i + 4,
            None => 0,
        };
        let left_to = match last {
            Some(i) => i,
            None => u,
        };
        let passed_from = match last {
            Some(i) => i + 4,
            None => u,
        };
        Some(
            TimerView {
                unit: t[u],
                activates: joined(t.skip(u + 1), " "@),
                next: stamp_text(head, next),
                left: span_text(head, left_from, left_to),
                last: stamp_text(head, last),
                passed: span_text(head, passed_from, u),
            },
        )
    }
}

/// `timer_row_of` as a function to hand over.
pub open spec fn timer_rule() -> spec_fn(Seq<char>) -> Option<TimerView> {
    |line: Seq<char>| timer_row_of(line)
}

proof fn lemma_stamps_fit(t: Seq<Seq<char>>, n: nat)
    requires
        n <= t.len(),
    ensures
        forall|k: int|
            0 <= k < stamps_of(t, n).len() ==> 0 <= #[trigger] stamps_of(t, n)[k]
                && stamps_of(t, n)[k] + 4 <= t.len(),
    decreases n,
{
    if n > 0 {
        lemma_stamps_fit(t, (n - 1) as nat);
        let s = stamps_of(t, (n - 1) as nat);
        let r = stamps_of(t, n);
        assert forall|k: int| 0 <= k < r.len() implies 0 <= #[trigger] r[k] && r[k] + 4
            <= t.len() by {
            if k < s.len() {
                assert(r[k] == s[k]);
            }
        }
    }
}

fn find_stamps(head: &[&[char]]) -> (r: Vec<usize>)
    ensures
        r@.map_values(|p: usize| p as int) == stamps_of(views(head@), head@.len()),
{
    let ghost f = |p: usize| p as int;
    let ghost t = views(head@);
    let mut stamps: Vec<usize> = Vec::new();
    let mut i: usize = 0;
    assert(stamps@.map_values(f) =~= stamps_of(t, 0));
    while i < head.len()
        invariant
            i <= head.len(),
            t == views(head@),
            f == (|p: usize| p as int),
            stamps@.map_values(f) == stamps_of(t, i as nat),
            forall|k: int| 0 <= k < stamps@.len() ==> #[trigger] stamps@[k] < i,
        decreases head.len() - i,
    {
        let ghost before = stamps@;
        let n: usize = stamps.len();
        assert(n > 0 ==> stamps_of(t, i as nat).last() == stamps@[n - 1] as int) by {
            if n > 0 {
                assert(stamps@.map_values(f)[n - 1] == stamps@[n - 1] as int);
            }
        }
        assert(stamps_of(t, i as nat).len() == n);
        if timestamp_at(head, i) && (n == 0 || i - stamps[n - 1] >= 4) {
            stamps.push(i);
            assert(stamps@.map_values(f) =~= before.map_values(f).push(i as int));
        }
        i += 1;
    }
    stamps
}

fn span(head: &[&[char]], from: usize, to: usize) -> (r: String)
    ensures
        r@ == span_text(views(head@), from as int, to as int),
{
    if from < to && to <= head.len() {
        let part = slice_subrange(head, from, to);
        assert(views(part@) =~= views(head@).subrange(from as int, to as int));
        gap_text(part)
    } else {
        let none = String::new();
        assert(none@ =~= seq![]);
        none
    }
}

fn stamp(head: &[&[char]], at: Option<usize>) -> (r: String)
    requires
        at is Some ==> at->0 + 4 <= head@.len(),
    ensures
        r@ == stamp_text(
            views(head@),
            match at {
                Some(i) => Some(i as int),
                None => None,
            },
        ),
{
    match at {
        Some(i) => {
            let n: usize = head.len();
            let part = slice_subrange(head, i, i + 4);
            assert(views(part@) =~= views(head@).subrange(i as int, i + 4));
            join_words(part, " ")
        },
        None => "-".to_string(),
    }
}

fn find_timer(t: &[&[char]]) -> (u: usize)
    ensures
        u == timer_column(views(t@)),
        u <= t@.len(),
{
    let ghost all = views(t@);
    let mut u: usize = 0;
    assert(all.skip(0) =~= all);
    while u < t.len()
        invariant
            u <= t.len(),
            all == views(t@),
            timer_column(all) == u + timer_column(all.skip(u as int)),
        decreases t.len() - u,
    {
        assert(all.skip(u as int)[0] == t@[u as int]@);
        if ends_with(t[u], ".timer") {
            return u;
        }
        assert(all.skip(u as int).skip(1) =~= all.skip(u + 1));
        u += 1;
    }
    u
}

fn timer_row(line: &[char]) -> (r: Option<Timer>)
    ensures
        viewed(r) == timer_row_of(line@),
{
    let t = words(line);
    assert(views(t@).len() == t@.len());
    let u = find_timer(t.as_slice());
    if u >= t.len() {
        return None;
    }
    let head = slice_subrange(t.as_slice(), 0, u);
    let ghost h = views(head@);
    assert(h =~= words_of(line@).take(u as int));
    let stamps = find_stamps(head);
    proof {
        lemma_stamps_fit(h, h.len());
        let f = |p: usize| p as int;
        assert(forall|k: int|
            0 <= k < stamps@.len() ==> stamps_of(h, h.len())[k] == #[trigger] stamps@[k] as int) by {
            assert(forall|k: int|
                0 <= k < stamps@.len() ==> stamps@.map_values(f)[k] == #[trigger] stamps@[k] as int);
        }
    }
    let n: usize = stamps.len();
    assert(n == stamps_of(h, h.len()).len());
    let (next, last): (Option<usize>, Option<usize>) = if n >= 2 {
        (Some(stamps[0]), Some(stamps[1]))
    } else if n == 1 && stamps[0] == 0 {
        (Some(0), None)
    } else if n == 1 {
        (None, Some(stamps[0]))
    } else {
        (None, None)
    };
    let left_from: usize = match next {
        Some(i) => i + 4,
        None => 0,
    };
    let left_to: usize = match last {
        Some(i) => i,
        None => u,
    };
    let passed_from: usize = match last {
        Some(i) => i + 4,
        None => u,
    };
    let rest = slice_subrange(t.as_slice(), u + 1, t.len());
    assert(views(rest@) =~= words_of(line@).skip(u + 1));
    Some(
        Timer {
            unit: string_of(t[u]),
            activates: join_words(rest, " "),
            next: stamp(head, next),
            left: span(head, left_from, left_to),
            last: stamp(head, last),
            passed: span(head, passed_from, u),
        },
    )
}

/// `list-timers` has four space-containing columns before the unit name, and
/// systemd changed the format along the way: it used to print `5h left`, and
/// since v25x it prints a bare `2h 10min`. So anchor on the timestamps, which
/// under `LC_ALL=C` are always `Www YYYY-MM-DD HH:MM:SS TZ`, and read the
/// columns around them.
pub fn parse_timers(raw: &str) -> (r: Vec<Timer>)
    ensures
        views(r@) == lines_of(raw@).filter_map(timer_rule()),
{
    each_line(raw, timer_row, Ghost(timer_rule()))
}

// ------------------------------------------------------------- storage ----

/// A percentage: a number with or without a `%` behind it.
pub open spec fn pct_of(s: Seq<char>) -> Option<Single> {
    single_of(strip_back(trimmed(s), Class::Only('%')))
}

pub fn parse_pct(s: &[char]) -> (r: Option<Single>)
    ensures
        r == pct_of(s@),
{
    read_single(trim_back(trim(s), Class::Only('%')))
}

/// The first header of a `df` table.
pub open spec fn df_header(lines: Seq<Seq<char>>) -> Option<Seq<char>>
    decreases lines.len(),
{
    if lines.len() == 0 {
        None
    } else if headed_by(lines[0], "Filesystem"@) {
        Some(lines[0])
    } else {
        df_header(lines.skip(1))
    }
}

/// Whether the table has a Type column: what the header says, and yes where
/// there is none.
pub open spec fn df_has_type(lines: Seq<Seq<char>>) -> bool {
    match df_header(lines) {
        Some(h) => words_of(h).contains("Type"@),
        None => true,
    }
}

/// The filesystem in a row of `df`.
pub open spec fn df_row_of(line: Seq<char>, has_type: bool) -> Option<FilesystemView> {
    let w = words_of(line);
    let k = if has_type {
        2int
    } else {
        1int
    };
    let mount = tail_of(line, k + 4);
    if headed_by(line, "Filesystem"@) || w.len() < k + 4 || mount.len() == 0 {
        None
    } else {
        Some(
            FilesystemView {
                source: w[0],
                fstype: if has_type {
                    w[1]
                } else {
                    "-"@
                },
                size: w[k],
                used: w[k + 1],
                avail: w[k + 2],
                use_pct: pct_of(w[k + 3]),
                inode_pct: None,
                mount,
            },
        )
    }
}

/// `df_row_of` as a function to hand over.
pub open spec fn df_rule(has_type: bool) -> spec_fn(Seq<char>) -> Option<FilesystemView> {
    |line: Seq<char>| df_row_of(line, has_type)
}

/// The filesystems in the output of `df`.
pub open spec fn df_of(raw: Seq<char>) -> Seq<FilesystemView> {
    lines_of(raw).filter_map(df_rule(df_has_type(lines_of(raw))))
}

fn mentions(line: &[char], word: &str) -> (yes: bool)
    ensures
        yes == words_of(line@).contains(word@),
{
    let w = words(line);
    let ghost all = words_of(line@);
    let mut i: usize = 0;
    while i < w.len()
        invariant
            i <= w.len(),
            all == views(w@),
            all == words_of(line@),
            forall|k: int| 0 <= k < i ==> #[trigger] all[k] != word@,
        decreases w.len() - i,
    {
        assert(all[i as int] == w@[i as int]@);
        if spells(w[i], word) {
            assert(all.contains(word@));
            return true;
        }
        i += 1;
    }
    false
}

fn has_type_column(ls: &Vec<&[char]>) -> (yes: bool)
    ensures
        yes == df_has_type(views(ls@)),
{
    let ghost all = views(ls@);
    let mut i: usize = 0;
    assert(all.skip(0) =~= all);
    while i < ls.len()
        invariant
            i <= ls.len(),
            all == views(ls@),
            df_header(all) == df_header(all.skip(i as int)),
        decreases ls.len() - i,
    {
        assert(all.skip(i as int)[0] == ls@[i as int]@);
        if is_header(ls[i], "Filesystem") {
            return mentions(ls[i], "Type");
        }
        assert(all.skip(i as int).skip(1) =~= all.skip(i + 1));
        i += 1;
    }
    true
}

fn df_row(line: &[char], has_type: bool) -> (r: Option<Filesystem>)
    ensures
        viewed(r) == df_row_of(line@, has_type),
{
    if is_header(line, "Filesystem") {
        return None;
    }
    let k: usize = if has_type {
        2
    } else {
        1
    };
    match head_tail(line, k + 4) {
        None => None,
        Some((head, mount)) => {
            if is_blank(&mount) {
                return None;
            }
            let ghost w = words_of(line@);
            assert(forall|i: int|
                0 <= i < k + 4 ==> w[i] == w.take(k + 4)[i] && w.take(k + 4)[i]
                    == #[trigger] head@[i]@);
            let fstype = if has_type {
                string_of(head[1])
            } else {
                "-".to_string()
            };
            Some(
                Filesystem {
                    source: string_of(head[0]),
                    fstype,
                    size: string_of(head[k]),
                    used: string_of(head[k + 1]),
                    avail: string_of(head[k + 2]),
                    use_pct: parse_pct(head[k + 3]),
                    inode_pct: None,
                    mount,
                },
            )
        },
    }
}

/// Reads the table of `df -hPT`, or of `df -hP` where `-T` is not to be had.
pub fn parse_df(raw: &str) -> (r: Vec<Filesystem>)
    ensures
        views(r@) == df_of(raw@),
{
    let cs = chars_of(raw);
    let ls = lines(cs.as_slice());
    let has_type = has_type_column(&ls);
    let row = |line: &[char]| -> (r: Option<Filesystem>)
        ensures
            viewed(r) == df_row_of(line@, has_type),
        { df_row(line, has_type) };
    each_part(&ls, row, Ghost(df_rule(has_type)))
}

/// The filesystems with the inode usage of the first one mounted at `mount`.
pub open spec fn with_inodes(
    fs: Seq<FilesystemView>,
    mount: Seq<char>,
    pct: Option<Single>,
) -> Seq<FilesystemView>
    decreases fs.len(),
{
    if fs.len() == 0 {
        fs
    } else if fs[0].mount == mount {
        fs.update(0, FilesystemView { inode_pct: pct, ..fs[0] })
    } else {
        seq![fs[0]] + with_inodes(fs.skip(1), mount, pct)
    }
}

/// The filesystems after one more row of `df -iP`.
pub open spec fn inodes_after(fs: Seq<FilesystemView>, line: Seq<char>) -> Seq<FilesystemView> {
    let w = words_of(line);
    if headed_by(line, "Filesystem"@) || w.len() < 5 {
        fs
    } else {
        with_inodes(fs, tail_of(line, 5), pct_of(w[4]))
    }
}

/// The filesystems after all the rows.
pub open spec fn inodes_of(fs: Seq<FilesystemView>, lines: Seq<Seq<char>>) -> Seq<FilesystemView>
    decreases lines.len(),
{
    if lines.len() == 0 {
        fs
    } else {
        inodes_after(inodes_of(fs, lines.drop_last()), lines.last())
    }
}

fn set_inodes(fs: &mut Vec<Filesystem>, mount: &String, pct: Option<Single>)
    ensures
        views(final(fs)@) == with_inodes(views(old(fs)@), mount@, pct),
{
    let ghost all = views(fs@);
    let mut i: usize = 0;
    assert(all.skip(0) =~= all);
    assert(with_inodes(all, mount@, pct) =~= all.take(0) + with_inodes(all.skip(0), mount@, pct));
    while i < fs.len()
        invariant
            i <= fs.len(),
            all == views(fs@),
            all == views(old(fs)@),
            with_inodes(all, mount@, pct) == all.take(i as int) + with_inodes(
                all.skip(i as int),
                mount@,
                pct,
            ),
        decreases fs.len() - i,
    {
        let ghost rest = all.skip(i as int);
        assert(rest[0] == fs@[i as int]@);
        if fs[i].mount == *mount {
            fs[i].inode_pct = pct;
            assert(views(fs@) =~= all.take(i as int) + rest.update(
                0,
                FilesystemView { inode_pct: pct, ..rest[0] },
            ));
            return;
        }
        assert(rest.skip(1) =~= all.skip(i + 1));
        assert(all.take(i as int) + (seq![rest[0]] + with_inodes(rest.skip(1), mount@, pct))
            =~= all.take(i + 1) + with_inodes(rest.skip(1), mount@, pct));
        i += 1;
    }
    assert(all.take(all.len() as int) + with_inodes(all.skip(all.len() as int), mount@, pct)
        =~= all);
}

/// Fold `df -iP` output into filesystems already parsed from `df -hPT`.
pub fn merge_inodes(filesystems: &mut Vec<Filesystem>, raw: &str)
    ensures
        views(final(filesystems)@) == inodes_of(views(old(filesystems)@), lines_of(raw@)),
{
    let cs = chars_of(raw);
    let ls = lines(cs.as_slice());
    let ghost all = views(ls@);
    let ghost start = views(filesystems@);
    let mut i: usize = 0;
    while i < ls.len()
        invariant
            i <= ls.len(),
            all == views(ls@),
            start == views(old(filesystems)@),
            views(filesystems@) == inodes_of(start, all.take(i as int)),
        decreases ls.len() - i,
    {
        assert(all.take(i + 1).drop_last() =~= all.take(i as int));
        let line = ls[i];
        if !is_header(line, "Filesystem") {
            if let Some((head, mount)) = head_tail(line, 5) {
                assert(words_of(line@).take(5)[4] == head@[4]@);
                let pct = parse_pct(head[4]);
                set_inodes(filesystems, &mount, pct);
            }
        }
        i += 1;
    }
    assert(all.take(all.len() as int) =~= all);
}

/// What a suffix of `du -h` multiplies by: powers of 1024.
pub open spec fn multiplier(suffix: Seq<char>) -> Option<nat> {
    if suffix.len() == 0 {
        Some(1)
    } else {
        let c = suffix[0];
        if c == 'B' || c == 'b' {
            Some(1)
        } else if c == 'K' || c == 'k' {
            Some(1024)
        } else if c == 'M' || c == 'm' {
            Some(1024 * 1024)
        } else if c == 'G' || c == 'g' {
            Some(1024 * 1024 * 1024)
        } else if c == 'T' || c == 't' {
            Some(1024 * 1024 * 1024 * 1024)
        } else if c == 'P' || c == 'p' {
            Some(1024 * 1024 * 1024 * 1024 * 1024)
        } else {
            None
        }
    }
}

/// `12G` / `1.5M` / `4.0K` / `0` as bytes: a number, computed with in double
/// precision, up to the first letter, and from there a suffix.
pub open spec fn bytes_of(s: Seq<char>) -> Option<u64> {
    let t = trimmed(s);
    let i = first_in(t, Class::Alpha);
    if t.len() == 0 {
        None
    } else {
        match (double_of(t.take(i)), multiplier(t.skip(i))) {
            (Some(x), Some(k)) => if x.is_nan() || x.negative() {
                Some(0u64)
            } else {
                let b = Format::Double.truncated(Format::Double.product(x.magnitude(), k));
                Some(
                    if b <= u64::MAX {
                        b as u64
                    } else {
                        u64::MAX
                    },
                )
            },
            _ => None,
        }
    }
}

fn read_multiplier(suffix: &[char]) -> (r: Option<u64>)
    ensures
        match r {
            Some(k) => multiplier(suffix@) == Some(k as nat),
            None => multiplier(suffix@) is None,
        },
{
    if suffix.len() == 0 {
        return Some(1);
    }
    let c = suffix[0];
    if c == 'B' || c == 'b' {
        Some(1)
    } else if c == 'K' || c == 'k' {
        Some(1024)
    } else if c == 'M' || c == 'm' {
        Some(1024 * 1024)
    } else if c == 'G' || c == 'g' {
        Some(1024 * 1024 * 1024)
    } else if c == 'T' || c == 't' {
        Some(1024 * 1024 * 1024 * 1024)
    } else if c == 'P' || c == 'p' {
        Some(1024 * 1024 * 1024 * 1024 * 1024)
    } else {
        None
    }
}

fn to_bytes(s: &[char]) -> (r: Option<u64>)
    ensures
        r == bytes_of(s@),
{
    let t = trim(s);
    if t.len() == 0 {
        return None;
    }
    let i = find_in(t, Class::Alpha);
    let num = slice_subrange(t, 0, i);
    let suffix = slice_subrange(t, i, t.len());
    assert(num@ =~= t@.take(i as int));
    assert(suffix@ =~= t@.skip(i as int));
    match (read_double(num), read_multiplier(suffix)) {
        (Some(x), Some(k)) => {
            let (neg, b) = x.split();
            if neg || b > Format::Double.infinite() {
                Some(0)
            } else {
                Some(Format::Double.truncate(Format::Double.multiply(b, k)))
            }
        },
        _ => None,
    }
}

/// `12G` / `1.5M` / `4.0K` / `0` -> bytes. `du -h` uses powers of 1024.
pub fn human_to_bytes(s: &str) -> (r: Option<u64>)
    ensures
        r == bytes_of(s@),
{
    let cs = chars_of(s);
    to_bytes(cs.as_slice())
}

/// The name of a power of 1024.
pub open spec fn unit_name(unit: nat) -> Seq<char> {
    if unit == 0 {
        "B"@
    } else if unit == 1 {
        "K"@
    } else if unit == 2 {
        "M"@
    } else if unit == 3 {
        "G"@
    } else if unit == 4 {
        "T"@
    } else {
        "P"@
    }
}

/// A double-precision number divided by 1024 as often as it is at least that,
/// five times at most, and how often that was.
pub open spec fn reduced(b: nat, unit: nat) -> (nat, nat)
    decreases 5 - unit,
{
    if unit < 5 && Format::Double.reaches(b, 1024) {
        reduced(Format::Double.quotient(b, Format::Double.nearest(1024, 1)), unit + 1)
    } else {
        (b, unit)
    }
}

/// A number of bytes for people: one decimal below ten, none from there on.
pub open spec fn bytes_text(bytes: nat) -> Seq<char> {
    let (b, unit) = reduced(Format::Double.nearest(bytes, 1), 0);
    if unit == 0 {
        dec(bytes) + "B"@
    } else if !Format::Double.reaches(b, 10) {
        Format::Double.printed(b, 1) + unit_name(unit)
    } else {
        Format::Double.printed(b, 0) + unit_name(unit)
    }
}

pub fn format_bytes(bytes: u64) -> (r: String)
    ensures
        r@ == bytes_text(bytes as nat),
{
    let f = Format::Double;
    let k = f.from_integer(1024);
    let mut value = f.from_integer(bytes);
    let mut unit: u64 = 0;
    while unit < 5 && f.is_at_least(value, 1024)
        invariant
            unit <= 5,
            f == Format::Double,
            value <= f.infinity(),
            k <= f.infinity(),
            k == f.nearest(1024, 1),
            f.scaled(k as nat) > 0,
            reduced(value as nat, unit as nat) == reduced(f.nearest(bytes as nat, 1), 0),
        decreases 5 - unit,
    {
        value = f.divide(value, k);
        unit += 1;
    }
    if unit == 0 {
        let n = decimal(bytes);
        return cat2(n.as_str(), "B");
    }
    let name = if unit == 1 {
        "K"
    } else if unit == 2 {
        "M"
    } else if unit == 3 {
        "G"
    } else if unit == 4 {
        "T"
    } else {
        "P"
    };
    let places: u64 = if f.is_at_least(value, 10) {
        0
    } else {
        1
    };
    let n = f.print(value, places);
    cat2(n.as_str(), name)
}

/// The directory in a line of `du`: a size and a path with a tab between them,
/// or at least white space. Without the tab, a line whose first word is no size,
/// such as an error message, is no row.
pub open spec fn du_row_of(line: Seq<char>) -> Option<DirUsageView> {
    match cut_first(line, '\t') {
        Some((size, path)) => {
            let size = trimmed(size);
            let path = trimmed(path);
            if path.len() == 0 || path.contains('*') {
                None
            } else {
                Some(DirUsageView { path, human: size, bytes: bytes_or_zero(size) })
            }
        },
        None => {
            let w = words_of(line);
            let tail = tail_of(line, 1);
            if w.len() < 1 || tail.len() == 0 {
                None
            } else {
                match bytes_of(w[0]) {
                    Some(bytes) => Some(DirUsageView { path: tail, human: w[0], bytes }),
                    None => None,
                }
            }
        },
    }
}

/// A size in bytes, zero where it is none.
pub open spec fn bytes_or_zero(s: Seq<char>) -> u64 {
    match bytes_of(s) {
        Some(b) => b,
        None => 0,
    }
}

/// `du_row_of` as a function to hand over.
pub open spec fn du_rule() -> spec_fn(Seq<char>) -> Option<DirUsageView> {
    |line: Seq<char>| du_row_of(line)
}

fn du_row(line: &[char]) -> (r: Option<DirUsage>)
    ensures
        viewed(r) == du_row_of(line@),
{
    match split_once(line, '\t') {
        Some((size, path)) => {
            let size = trim(size);
            let path = trim(path);
            if path.len() == 0 || has_char(path, '*') {
                return None;
            }
            let bytes: u64 = match to_bytes(size) {
                Some(b) => b,
                None => 0,
            };
            Some(DirUsage { path: string_of(path), human: string_of(size), bytes })
        },
        None => match head_tail(line, 1) {
            None => None,
            Some((head, tail)) => {
                if is_blank(&tail) {
                    return None;
                }
                assert(words_of(line@).take(1)[0] == head@[0]@);
                match to_bytes(head[0]) {
                    Some(bytes) => Some(
                        DirUsage { path: tail, human: string_of(head[0]), bytes },
                    ),
                    None => None,
                }
            },
        },
    }
}

/// Whether a line is one of `du`, with a size that can be read.
pub open spec fn is_sized(line: Seq<char>) -> bool {
    match du_row_of(line) {
        Some(row) => bytes_of(row.human) is Some,
        None => false,
    }
}

pub fn has_size(line: &[char]) -> (yes: bool)
    ensures
        yes == is_sized(line@),
{
    match du_row(line) {
        Some(row) => human_to_bytes(row.human.as_str()).is_some(),
        None => false,
    }
}

pub fn has_char(s: &[char], c: char) -> (yes: bool)
    ensures
        yes == s@.contains(c),
{
    let yes = some_in(s, Class::Only(c));
    assert(s@.contains(c) ==> any_in(s@, Class::Only(c))) by {
        if s@.contains(c) {
            let i = choose|i: int| 0 <= i < s@.len() && s@[i] == c;
            assert(Class::Only(c).holds(s@[i]));
        }
    }
    yes
}

impl Ranked for DirUsage {
    /// The bigger one first.
    open spec fn at_most(a: DirUsageView, b: DirUsageView) -> bool {
        a.bytes >= b.bytes
    }

    fn ranks_at_most(&self, other: &Self) -> (yes: bool) {
        self.bytes >= other.bytes
    }
}

/// Reads the lines of `du`, the biggest directory first.
pub fn parse_du(raw: &str) -> (r: Vec<DirUsage>)
    ensures
        views(r@) == sorted(lines_of(raw@).filter_map(du_rule()), rank::<DirUsage>()),
{
    let out = each_line(raw, du_row, Ghost(du_rule()));
    sort(out)
}

// ---------------------------------------------------------- scheduling ----

/// How often a run-parts directory runs: what its extension says, else daily.
pub open spec fn cadence(dir: Seq<char>) -> Seq<char> {
    let ext = match cut_last(dir, '.') {
        Some((_, ext)) => ext,
        None => dir,
    };
    if ext == "hourly"@ {
        "hourly"@
    } else if ext == "weekly"@ {
        "weekly"@
    } else if ext == "monthly"@ {
        "monthly"@
    } else {
        "daily"@
    }
}

pub fn cadence_of(dir: &[char]) -> (r: &'static str)
    ensures
        r@ == cadence(dir@),
{
    let ext = match rsplit_once(dir, '.') {
        Some((_, ext)) => ext,
        None => dir,
    };
    if spells(ext, "hourly") {
        "hourly"
    } else if spells(ext, "weekly") {
        "weekly"
    } else if spells(ext, "monthly") {
        "monthly"
    } else {
        "daily"
    }
}

/// `NAME=value`: a setting, not a job.
pub open spec fn is_setting(line: Seq<char>) -> bool {
    match cut_first(line, '=') {
        Some((name, _)) => name.len() > 0 && all_in(name, Class::Name) && !is_digit(name[0]),
        None => false,
    }
}

pub fn is_env_assignment(line: &[char]) -> (yes: bool)
    ensures
        yes == is_setting(line@),
{
    match split_once(line, '=') {
        Some((name, _)) => name.len() > 0 && every_in(name, Class::Name) && !Class::Digit.has(
            name[0],
        ),
        None => false,
    }
}

/// Whether a word can be one of the five fields of a schedule.
pub open spec fn is_cron_field(f: Seq<char>) -> bool {
    f.len() > 0 && all_in(f, Class::Field) && any_in(f, Class::Star)
}

pub fn looks_like_cron_field(f: &[char]) -> (yes: bool)
    ensures
        yes == is_cron_field(f@),
{
    f.len() > 0 && every_in(f, Class::Field) && some_in(f, Class::Star)
}

/// Schedule, user and command of a crontab line: one `@word` or five fields,
/// then a user where the table has that column, then at least one word.
pub open spec fn cron_line_of(line: Seq<char>, has_user: bool) -> Option<
    (Seq<char>, Seq<char>, Seq<char>),
> {
    let w = words_of(line);
    let n: int = if line.len() > 0 && line[0] == '@' {
        1
    } else {
        5
    };
    let m: int = if has_user {
        n + 1
    } else {
        n
    };
    if w.len() < m + 1 {
        None
    } else if n == 5 && !(forall|i: int| 0 <= i < 5 ==> is_cron_field(#[trigger] w[i])) {
        None
    } else {
        Some(
            (
                joined(w.take(n), " "@),
                if has_user {
                    w[n]
                } else {
                    seq![]
                },
                joined(w.skip(m), " "@),
            ),
        )
    }
}

fn five_fields(w: &Vec<&[char]>) -> (yes: bool)
    requires
        w@.len() >= 5,
    ensures
        yes == (forall|i: int| 0 <= i < 5 ==> is_cron_field(#[trigger] views(w@)[i])),
{
    let ghost all = views(w@);
    let mut i: usize = 0;
    while i < 5
        invariant
            i <= 5,
            w@.len() >= 5,
            all == views(w@),
            forall|k: int| 0 <= k < i ==> is_cron_field(#[trigger] all[k]),
        decreases 5 - i,
    {
        assert(all[i as int] == w@[i as int]@);
        if !looks_like_cron_field(w[i]) {
            return false;
        }
        i += 1;
    }
    true
}

/// Returns `(schedule, user, command)`; `user` is empty when not applicable.
pub fn parse_cron_line(line: &[char], has_user_column: bool) -> (r: Option<
    (String, String, String),
>)
    ensures
        match r {
            Some((schedule, user, command)) => cron_line_of(line@, has_user_column) == Some(
                (schedule@, user@, command@),
            ),
            None => cron_line_of(line@, has_user_column) is None,
        },
{
    let w = words(line);
    let ghost all = words_of(line@);
    assert(all.len() == w@.len());
    let n: usize = if line.len() > 0 && line[0] == '@' {
        1
    } else {
        5
    };
    let m: usize = if has_user_column {
        n + 1
    } else {
        n
    };
    if w.len() < m + 1 {
        return None;
    }
    if n == 5 && !five_fields(&w) {
        return None;
    }
    let fields = slice_subrange(w.as_slice(), 0, n);
    let command = slice_subrange(w.as_slice(), m, w.len());
    assert(views(fields@) =~= all.take(n as int));
    assert(views(command@) =~= all.skip(m as int));
    let user = if has_user_column {
        string_of(w[n])
    } else {
        let none = String::new();
        assert(none@ =~= seq![]);
        none
    };
    Some((join_words(fields, " "), user, join_words(command, " ")))
}

/// Where the lines so far say that the next ones come from: what follows the
/// last `##SRC `, and nothing before the first.
pub open spec fn source_after(lines: Seq<Seq<char>>) -> Seq<char>
    decreases lines.len(),
{
    if lines.len() == 0 {
        seq![]
    } else {
        match after_prefix(lines.last(), "##SRC "@) {
            Some(rest) => trimmed(rest),
            None => source_after(lines.drop_last()),
        }
    }
}

/// The job on a line that came from `source`.
pub open spec fn cron_entry_of(source: Seq<char>, line: Seq<char>) -> Option<CronEntryView> {
    let t = trimmed(line);
    if after_prefix(line, "##SRC "@) is Some || t.len() == 0 || t[0] == '#' || source.len() == 0 {
        None
    } else {
        match after_prefix(source, "dir:"@) {
            Some(dir) => if t.contains('/') || t.contains(' ') {
                None
            } else {
                Some(
                    CronEntryView {
                        source: dir,
                        schedule: "@"@ + cadence(dir),
                        user: "root"@,
                        command: dir + "/"@ + t,
                    },
                )
            },
            None => {
                let has_user = source[0] == '/';
                match cron_line_of(t, has_user) {
                    Some((schedule, user, command)) => if is_setting(t) {
                        None
                    } else {
                        Some(
                            CronEntryView {
                                source,
                                schedule,
                                user: if has_user {
                                    user
                                } else {
                                    match after_prefix(source, "crontab:"@) {
                                        Some(user) => user,
                                        None => "?"@,
                                    }
                                },
                                command,
                            },
                        )
                    },
                    None => None,
                }
            },
        }
    }
}

/// The jobs on all the lines.
pub open spec fn cron_of(lines: Seq<Seq<char>>) -> Seq<CronEntryView>
    decreases lines.len(),
{
    if lines.len() == 0 {
        seq![]
    } else {
        let before = lines.drop_last();
        match cron_entry_of(source_after(before), lines.last()) {
            Some(entry) => cron_of(before).push(entry),
            None => cron_of(before),
        }
    }
}

fn cron_entry(source: &[char], line: &[char]) -> (r: Option<CronEntry>)
    requires
        after_prefix(line@, "##SRC "@) is None,
    ensures
        viewed(r) == cron_entry_of(source@, line@),
{
    let t = trim(line);
    if t.len() == 0 || t[0] == '#' || source.len() == 0 {
        return None;
    }
    if let Some(dir) = strip_prefix(source, "dir:") {
        // run-parts drop-ins: the filename *is* the job.
        if has_char(t, '/') || has_char(t, ' ') {
            return None;
        }
        let d = string_of(dir);
        let name = string_of(t);
        return Some(
            CronEntry {
                schedule: cat2("@", cadence_of(dir)),
                user: "root".to_string(),
                command: cat3(d.as_str(), "/", name.as_str()),
                source: d,
            },
        );
    }
    if is_env_assignment(t) {
        return None;
    }
    // /etc/crontab and /etc/cron.d/* carry a user column; user crontabs do not.
    let has_user = source[0] == '/';
    match parse_cron_line(t, has_user) {
        None => None,
        Some((schedule, column, command)) => {
            let user = if has_user {
                column
            } else {
                match strip_prefix(source, "crontab:") {
                    Some(user) => string_of(user),
                    None => "?".to_string(),
                }
            };
            Some(CronEntry { source: string_of(source), schedule, user, command })
        },
    }
}

/// Parses the `##SRC <source>` stream the cron probe emits.
pub fn parse_cron(raw: &str) -> (r: Vec<CronEntry>)
    ensures
        views(r@) == cron_of(lines_of(raw@)),
{
    let cs = chars_of(raw);
    let ls = lines(cs.as_slice());
    let ghost all = views(ls@);
    let mut out: Vec<CronEntry> = Vec::new();
    let mut source: &[char] = slice_subrange(cs.as_slice(), 0, 0);
    let mut i: usize = 0;
    assert(views(out@) =~= cron_of(all.take(0)));
    assert(source@ =~= source_after(all.take(0)));
    while i < ls.len()
        invariant
            i <= ls.len(),
            all == views(ls@),
            source@ == source_after(all.take(i as int)),
            views(out@) == cron_of(all.take(i as int)),
        decreases ls.len() - i,
    {
        assert(all.take(i + 1).drop_last() =~= all.take(i as int));
        assert(all.take(i + 1).last() == ls@[i as int]@);
        let line = ls[i];
        match strip_prefix(line, "##SRC ") {
            Some(rest) => {
                source = trim(rest);
            },
            None => {
                if let Some(entry) = cron_entry(source, line) {
                    let ghost seen = entry@;
                    let ghost before = out@;
                    out.push(entry);
                    assert(views(out@) =~= views(before).push(seen));
                }
            },
        }
        i += 1;
    }
    assert(all.take(all.len() as int) =~= all);
    out
}

// ---------------------------------------------------------------- laws ----

/// The directories stand the biggest first, and none is lost.
pub proof fn law_biggest_directory_first(rows: Seq<DirUsageView>)
    ensures
        sorted(rows, rank::<DirUsage>()).len() == rows.len(),
        sorted(rows, rank::<DirUsage>()).to_multiset() == rows.to_multiset(),
        forall|i: int, j: int|
            0 <= i < j < rows.len() ==> (#[trigger] sorted(rows, rank::<DirUsage>())[i]).bytes >= (
            #[trigger] sorted(rows, rank::<DirUsage>())[j]).bytes,
{
    let le = rank::<DirUsage>();
    let s = sorted(rows, le);
    assert(is_total_preorder(le));
    lemma_sorted_ascending(rows, le);
    lemma_sorted_same_elements(rows, le);
    lemma_sorted_len(rows, le);
    assert forall|i: int, j: int| 0 <= i < j < rows.len() implies (#[trigger] s[i]).bytes >= (
    #[trigger] s[j]).bytes by {
        assert(le(s[i], s[j]));
    }
}

/// A socket is classified by the address it is bound to.
spec fn well_classified() -> spec_fn(ListenerView) -> bool {
    |l: ListenerView| l.exposure == exposure_of(l.addr)
}

/// How far a socket can be reached follows from the address it is bound to,
/// whichever tool listed it.
pub proof fn law_exposure_follows_the_address(raw: Seq<char>, i: int)
    requires
        0 <= i < listeners_of(raw).len(),
    ensures
        listeners_of(raw)[i].exposure == exposure_of(listeners_of(raw)[i].addr),
{
    lemma_filter_map_all(lines_of(raw), netstat_rule(), well_classified());
    lemma_filter_map_all(lines_of(raw), ss_rule(), well_classified());
    assert(well_classified()(listeners_of(raw)[i]));
}

/// Where `ss` names no owner, none is made up.
pub proof fn law_no_owner_is_made_up(line: Seq<char>)
    requires
        ss_row_of(line) is Some,
        tail_of(line, 6).len() == 0,
    ensures
        ss_row_of(line)->0.process is None,
        ss_row_of(line)->0.pid is None,
{
    let users = tail_of(line, 6);
    assert(holders_of(users).len() == 0);
}

/// Reading inode usage changes nothing else, and makes and loses no filesystem.
pub proof fn law_inodes_change_nothing_else(
    fs: Seq<FilesystemView>,
    lines: Seq<Seq<char>>,
)
    ensures
        inodes_of(fs, lines).len() == fs.len(),
        forall|i: int|
            0 <= i < fs.len() ==> #[trigger] inodes_of(fs, lines)[i] == (FilesystemView {
                inode_pct: inodes_of(fs, lines)[i].inode_pct,
                ..fs[i]
            }),
    decreases lines.len(),
{
    if lines.len() > 0 {
        law_inodes_change_nothing_else(fs, lines.drop_last());
        let before = inodes_of(fs, lines.drop_last());
        let w = words_of(lines.last());
        lemma_with_inodes(before, tail_of(lines.last(), 5), pct_of(w[4]));
    }
}

proof fn lemma_with_inodes(fs: Seq<FilesystemView>, mount: Seq<char>, pct: Option<Single>)
    ensures
        with_inodes(fs, mount, pct).len() == fs.len(),
        forall|i: int|
            0 <= i < fs.len() ==> #[trigger] with_inodes(fs, mount, pct)[i] == (FilesystemView {
                inode_pct: with_inodes(fs, mount, pct)[i].inode_pct,
                ..fs[i]
            }),
    decreases fs.len(),
{
    if fs.len() > 0 && fs[0].mount != mount {
        lemma_with_inodes(fs.skip(1), mount, pct);
        let rest = with_inodes(fs.skip(1), mount, pct);
        assert forall|i: int| 0 <= i < fs.len() implies #[trigger] with_inodes(fs, mount, pct)[i]
            == (FilesystemView { inode_pct: with_inodes(fs, mount, pct)[i].inode_pct, ..fs[i] }) by {
            if i > 0 {
                assert(with_inodes(fs, mount, pct)[i] == rest[i - 1]);
                assert(fs.skip(1)[i - 1] == fs[i]);
            }
        }
    }
}

/// A time left or passed reads the same with and without the word `left`, so both
/// generations of `list-timers` read the same.
pub proof fn law_the_word_left_says_nothing(a: Seq<Seq<char>>, b: Seq<Seq<char>>)
    ensures
        telling(a + seq!["left"@] + b) == telling(a + b),
    decreases b.len(),
{
    let whole = a + seq!["left"@] + b;
    if b.len() == 0 {
        assert(whole.drop_last() =~= a + b);
        assert(whole.last() == "left"@);
    } else {
        law_the_word_left_says_nothing(a, b.drop_last());
        assert(whole.drop_last() =~= a + seq!["left"@] + b.drop_last());
        assert((a + b).drop_last() =~= a + b.drop_last());
        assert(whole.last() == b.last());
        assert((a + b).last() == b.last());
    }
}

/// The words of a row of `list-timers`: when the timer runs next, how long that is
/// from now, with or without a word behind it, when it last ran, how long that is
/// ago, the unit, and what it activates.
pub open spec fn timer_words(
    next: Seq<Seq<char>>,
    left: Seq<Seq<char>>,
    last: Seq<Seq<char>>,
    passed: Seq<Seq<char>>,
    unit: Seq<char>,
    activates: Seq<Seq<char>>,
) -> Seq<Seq<char>> {
    next + left + last + passed.push("ago"@) + seq![unit] + activates
}

/// What such a row says.
pub open spec fn timer_said(
    next: Seq<Seq<char>>,
    left: Seq<Seq<char>>,
    last: Seq<Seq<char>>,
    passed: Seq<Seq<char>>,
    unit: Seq<char>,
    activates: Seq<Seq<char>>,
) -> TimerView {
    TimerView {
        unit,
        activates: joined(activates, " "@),
        next: joined(next, " "@),
        left: joined(left, " "@),
        last: joined(last, " "@),
        passed: joined(passed.push("ago"@), " "@),
    }
}

/// A word of a duration, such as `2h` or `day`: no placeholder and no date, and not
/// the name of a timer.
pub open spec fn is_span_word(w: Seq<char>) -> bool {
    is_word(w) && !is_filler(w) && !is_date(w) && !".timer"@.is_suffix_of(w)
}

/// Four words that are a timestamp, none of them the name of a timer.
pub open spec fn is_stamp_words(t: Seq<Seq<char>>) -> bool {
    &&& t.len() == 4
    &&& is_stamp(t, 0)
    &&& forall|i: int| 0 <= i < 4 ==> is_word(#[trigger] t[i]) && !".timer"@.is_suffix_of(t[i])
}

pub proof fn lemma_telling_all(t: Seq<Seq<char>>)
    requires
        forall|i: int| 0 <= i < t.len() ==> !is_filler(#[trigger] t[i]),
    ensures
        telling(t) == t,
    decreases t.len(),
{
    if t.len() > 0 {
        let r = t.drop_last();
        assert forall|i: int| 0 <= i < r.len() implies !is_filler(#[trigger] r[i]) by {
            assert(r[i] == t[i]);
        }
        lemma_telling_all(r);
        assert(t.last() == t[t.len() - 1]);
        assert(r.push(t.last()) =~= t);
    }
}

pub proof fn lemma_timer_column(head: Seq<Seq<char>>, unit: Seq<char>, rest: Seq<Seq<char>>)
    requires
        forall|i: int| 0 <= i < head.len() ==> !".timer"@.is_suffix_of(#[trigger] head[i]),
        ".timer"@.is_suffix_of(unit),
    ensures
        timer_column(head + seq![unit] + rest) == head.len(),
    decreases head.len(),
{
    let t = head + seq![unit] + rest;
    if head.len() == 0 {
        assert(t[0] == unit);
    } else {
        let h = head.skip(1);
        assert forall|i: int| 0 <= i < h.len() implies !".timer"@.is_suffix_of(#[trigger] h[i]) by {
            assert(h[i] == head[i + 1]);
        }
        lemma_timer_column(h, unit, rest);
        assert(t.skip(1) =~= h + seq![unit] + rest);
        assert(t[0] == head[0]);
    }
}

/// Two timestamps among words that are no dates are found where they stand.
proof fn lemma_two_stamps(
    next: Seq<Seq<char>>,
    gap: Seq<Seq<char>>,
    last: Seq<Seq<char>>,
    tail: Seq<Seq<char>>,
    n: nat,
)
    requires
        next.len() == 4 && is_stamp(next, 0),
        last.len() == 4 && is_stamp(last, 0),
        forall|i: int| 0 <= i < gap.len() ==> !is_date(#[trigger] gap[i]),
        forall|i: int| 0 <= i < tail.len() ==> !is_date(#[trigger] tail[i]),
        n <= (next + gap + last + tail).len(),
    ensures
        stamps_of(next + gap + last + tail, n) == (if n == 0 {
            seq![]
        } else if n <= 4 + gap.len() {
            seq![0int]
        } else {
            seq![0int, (4 + gap.len()) as int]
        }),
    decreases n,
{
    let t = next + gap + last + tail;
    let m = 4 + gap.len();
    if n > 0 {
        lemma_two_stamps(next, gap, last, tail, (n - 1) as nat);
        let i = n - 1;
        if i == 0 {
            assert(t[0] == next[0] && t[1] == next[1] && t[2] == next[2] && t[3] == next[3]);
            assert(stamps_of(t, n) =~= seq![0int]);
        } else if 4 <= i < m {
            if i + 1 < m {
                assert(t[i + 1] == gap[i + 1 - 4]);
            } else {
                assert(t[i + 1] == last[0]);
            }
            assert(!is_date(t[i + 1]));
        } else if i == m {
            assert(t[i] == last[0] && t[i + 1] == last[1] && t[i + 2] == last[2] && t[i + 3]
                == last[3]);
            assert(stamps_of(t, n) =~= seq![0int, m as int]);
        } else if i >= m + 4 {
            if i + 1 < t.len() {
                assert(t[i + 1] == tail[i + 1 - m - 4]);
            }
        }
    }
}

proof fn lemma_timer_row(
    next: Seq<Seq<char>>,
    gap: Seq<Seq<char>>,
    left: Seq<Seq<char>>,
    last: Seq<Seq<char>>,
    passed: Seq<Seq<char>>,
    unit: Seq<char>,
    activates: Seq<Seq<char>>,
    line: Seq<char>,
)
    requires
        is_stamp_words(next),
        is_stamp_words(last),
        forall|i: int|
            0 <= i < gap.len() ==> !is_date(#[trigger] gap[i]) && !".timer"@.is_suffix_of(gap[i]),
        telling(gap) == left,
        forall|i: int| 0 <= i < passed.len() ==> is_span_word(#[trigger] passed[i]),
        ".timer"@.is_suffix_of(unit),
        words_of(line) == timer_words(next, gap, last, passed, unit, activates),
    ensures
        timer_row_of(line) == Some(timer_said(next, left, last, passed, unit, activates)),
{
    reveal_strlit("ago");
    reveal_strlit("-");
    reveal_strlit("n/a");
    reveal_strlit("left");
    reveal_strlit("*");
    reveal_strlit(".timer");
    let tail = passed.push("ago"@);
    let head = next + gap + last + tail;
    let t = words_of(line);
    let m = 4 + gap.len();
    assert("n/a"@[0] == 'n' && "ago"@[0] == 'a');
    assert forall|i: int| 0 <= i < tail.len() implies !is_date(#[trigger] tail[i]) && !is_filler(
        tail[i],
    ) && !".timer"@.is_suffix_of(tail[i]) by {
        if i < passed.len() {
            assert(tail[i] == passed[i]);
            assert(is_span_word(passed[i]));
        }
    }
    assert forall|i: int| 0 <= i < head.len() implies !".timer"@.is_suffix_of(#[trigger] head[i]) by {
        if i < 4 {
            assert(head[i] == next[i]);
        } else if i < m {
            assert(head[i] == gap[i - 4]);
        } else if i < m + 4 {
            assert(head[i] == last[i - m]);
        } else {
            assert(head[i] == tail[i - m - 4]);
        }
    }
    assert(t =~= head + seq![unit] + activates);
    lemma_timer_column(head, unit, activates);
    let u = head.len() as int;
    assert(t.take(u) =~= head);
    assert(t[u] == unit);
    assert(t.skip(u + 1) =~= activates);
    lemma_two_stamps(next, gap, last, tail, head.len());
    assert(head.subrange(0, 4) =~= next);
    assert(head.subrange(m as int, (m + 4) as int) =~= last);
    assert(head.subrange((m + 4) as int, u) =~= tail);
    lemma_telling_all(tail);
    if gap.len() > 0 {
        assert(head.subrange(4, m as int) =~= gap);
    } else {
        assert(joined(left, " "@) =~= seq![]);
    }
}

/// A row of `list-timers` reads the same with and without the word `left`, and its
/// columns are what stands in them.
pub proof fn law_timer_generations_read_the_same(
    next: Seq<Seq<char>>,
    left: Seq<Seq<char>>,
    last: Seq<Seq<char>>,
    passed: Seq<Seq<char>>,
    unit: Seq<char>,
    activates: Seq<Seq<char>>,
)
    requires
        is_stamp_words(next),
        is_stamp_words(last),
        forall|i: int| 0 <= i < left.len() ==> is_span_word(#[trigger] left[i]),
        forall|i: int| 0 <= i < passed.len() ==> is_span_word(#[trigger] passed[i]),
        is_word(unit),
        ".timer"@.is_suffix_of(unit),
        forall|i: int| 0 <= i < activates.len() ==> is_word(#[trigger] activates[i]),
    ensures
        ({
            let old = joined(
                timer_words(next, left.push("left"@), last, passed, unit, activates),
                " "@,
            );
            let new = joined(timer_words(next, left, last, passed, unit, activates), " "@);
            let said = timer_said(next, left, last, passed, unit, activates);
            &&& lines_of(old).filter_map(timer_rule()) == seq![said]
            &&& lines_of(new).filter_map(timer_rule()) == seq![said]
        }),
{
    reveal_strlit("left");
    reveal_strlit(".timer");
    let gap = left.push("left"@);
    assert forall|i: int| 0 <= i < gap.len() implies is_word(#[trigger] gap[i]) && !is_date(gap[i])
        && !".timer"@.is_suffix_of(gap[i]) by {
        if i < left.len() {
            assert(gap[i] == left[i]);
            assert(is_span_word(left[i]));
        } else {
            assert(gap[i] == "left"@);
        }
    }
    assert forall|i: int| 0 <= i < left.len() implies !is_filler(#[trigger] left[i]) && is_word(
        left[i],
    ) by {
        assert(is_span_word(left[i]));
    }
    lemma_telling_all(left);
    assert(gap.drop_last() =~= left);
    assert(telling(gap) == left);
    lemma_timer_line(next, gap, left, last, passed, unit, activates);
    lemma_timer_line(next, left, left, last, passed, unit, activates);
}

proof fn lemma_timer_line(
    next: Seq<Seq<char>>,
    gap: Seq<Seq<char>>,
    left: Seq<Seq<char>>,
    last: Seq<Seq<char>>,
    passed: Seq<Seq<char>>,
    unit: Seq<char>,
    activates: Seq<Seq<char>>,
)
    requires
        is_stamp_words(next),
        is_stamp_words(last),
        forall|i: int|
            0 <= i < gap.len() ==> is_word(#[trigger] gap[i]) && !is_date(gap[i])
                && !".timer"@.is_suffix_of(gap[i]),
        telling(gap) == left,
        forall|i: int| 0 <= i < passed.len() ==> is_span_word(#[trigger] passed[i]),
        is_word(unit),
        ".timer"@.is_suffix_of(unit),
        forall|i: int| 0 <= i < activates.len() ==> is_word(#[trigger] activates[i]),
    ensures
        lines_of(joined(timer_words(next, gap, last, passed, unit, activates), " "@)).filter_map(
            timer_rule(),
        ) == seq![timer_said(next, left, last, passed, unit, activates)],
{
    reveal_strlit("ago");
    let ws = timer_words(next, gap, last, passed, unit, activates);
    let m = 4 + gap.len();
    let tail = passed.push("ago"@);
    let u = m + 4 + tail.len();
    assert forall|i: int| 0 <= i < ws.len() implies is_word(#[trigger] ws[i]) by {
        if i < 4 {
            assert(ws[i] == next[i]);
        } else if i < m {
            assert(ws[i] == gap[i - 4]);
        } else if i < m + 4 {
            assert(ws[i] == last[i - m]);
        } else if i < u {
            assert(ws[i] == tail[i - m - 4]);
            if i - m - 4 < passed.len() {
                assert(is_span_word(passed[i - m - 4]));
            }
        } else if i == u {
            assert(ws[i] == unit);
        } else {
            assert(ws[i] == activates[i - u - 1]);
        }
    }
    lemma_words_joined(ws);
    let line = joined(ws, " "@);
    lemma_single_line(line);
    lemma_timer_row(next, gap, left, last, passed, unit, activates, line);
    let one = seq![line];
    assert(one.drop_last() =~= seq![]);
    assert(one.last() == line);
    assert(one.drop_last().filter_map(timer_rule()) =~= seq![]);
    assert(one.filter_map(timer_rule()) =~= seq![
        timer_said(next, left, last, passed, unit, activates),
    ]);
}

/// In a crontab, settings, comments and stray text are no jobs: every job has a
/// schedule of one `@word` or of five fields.
pub proof fn law_only_jobs_are_jobs(source: Seq<char>, line: Seq<char>)
    requires
        after_prefix(source, "dir:"@) is None,
        cron_entry_of(source, line) is Some,
    ensures
        !is_setting(trimmed(line)),
        trimmed(line)[0] != '#',
        trimmed(line)[0] == '@' || forall|i: int|
            0 <= i < 5 ==> is_cron_field(#[trigger] words_of(trimmed(line))[i]),
{
}

/// A script in a run-parts directory is one job, run by root as often as the
/// directory says.
pub proof fn law_drop_ins_are_jobs(dir: Seq<char>, name: Seq<char>)
    requires
        name.len() > 0,
        trimmed(name) == name,
        name[0] != '#',
        !name.contains('/'),
        !name.contains(' '),
    ensures
        cron_entry_of("dir:"@ + dir, name) == Some(
            CronEntryView {
                source: dir,
                schedule: "@"@ + cadence(dir),
                user: "root"@,
                command: dir + "/"@ + name,
            },
        ),
{
    reveal_strlit("dir:");
    reveal_strlit("##SRC ");
    let source = "dir:"@ + dir;
    assert(source.skip(4) =~= dir);
    assert("dir:"@.is_prefix_of(source));
    if after_prefix(name, "##SRC "@) is Some {
        assert("##SRC "@[0] == name[0]);
    }
}

} // verus!
