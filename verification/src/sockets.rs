//! Lines of `ss` and `netstat` read back as the sockets they tell of.

use crate::columns::lemma_two_lines;
use crate::fmt::dec;
use crate::lines::{
    is_word, lemma_dec_digits, lemma_first_in_is, lemma_first_out_is, lemma_single_line,
    lemma_trimmed_already, lemma_words_joined,
};
use crate::model::{Exposure, ListenerView};
use crate::number::unsigned_of;
use crate::parse::{
    endpoint_of, exposure_of, first_name, first_pid, holders_of, listeners_of, looks_like_netstat,
    netstat_header, netstat_row_of, netstat_rule, pid_in, program_of, ss_row_of, ss_rule, tail_of,
};
use crate::text::{
    contains_text, find_text, first_in, is_digit, is_space, joined, last_in, last_out,
    lemma_first_in, lemma_last_in, lemma_last_out, lines_of, strip_back, strip_front, trimmed,
    words_of, Class,
};
use vstd::prelude::*;

verus! {

// ------------------------------------------------------------ addresses ----

/// A text without the characters that are written around an address.
pub open spec fn is_bare(s: Seq<char>) -> bool {
    forall|i: int|
        0 <= i < s.len() ==> (#[trigger] s[i]) != '[' && s[i] != ']' && s[i] != '%' && !is_space(s[i])
}

/// Where a bare address can be reached from.
pub open spec fn reach_of(addr: Seq<char>) -> Exposure {
    if addr == "0.0.0.0"@ || addr == "::"@ || addr == "*"@ || addr.len() == 0 {
        Exposure::AllInterfaces
    } else if addr == "::1"@ || (addr.len() >= 4 && addr[0] == '1' && addr[1] == '2' && addr[2] == '7'
        && addr[3] == '.') {
        Exposure::Loopback
    } else {
        Exposure::Interface
    }
}

proof fn lemma_stripped(s: Seq<char>)
    requires
        is_bare(s),
    ensures
        strip_front(s, Class::Only('[')) == s,
        strip_back(s, Class::Only(']')) == s,
{
    lemma_first_out_is(s, Class::Only('['), 0);
    assert(strip_front(s, Class::Only('[')) =~= s);
    lemma_last_out(s, Class::Only(']'));
    if s.len() > 0 {
        assert(!Class::Only(']').holds(s[s.len() - 1]));
    }
    assert(strip_back(s, Class::Only(']')) =~= s);
}

/// An address says how far a socket reaches, with brackets round it or not and with the
/// name of an interface behind it or not: every interface for the three wildcards,
/// loopback for `::1` and all of `127.`, and one interface for every other.
pub proof fn law_reach_is_in_the_address(addr: Seq<char>, iface: Seq<char>)
    requires
        is_bare(addr),
        is_bare(iface),
    ensures
        exposure_of(addr) == reach_of(addr),
        exposure_of("["@ + addr + "]"@) == reach_of(addr),
        exposure_of(addr + "%"@ + iface) == reach_of(addr),
        exposure_of("["@ + addr + "%"@ + iface + "]"@) == reach_of(addr),
{
    reveal_strlit("[");
    reveal_strlit("]");
    reveal_strlit("%");
    lemma_reach_plain(addr);
    let with = addr + "%"@ + iface;
    assert(with.take(addr.len() as int) =~= addr);
    lemma_reach_cut(addr, with);
    let b = "["@ + with + "]"@;
    assert("["@ + addr + "%"@ + iface + "]"@ =~= b);
    lemma_unbracketed(addr);
    lemma_unbracketed(with);
}

proof fn lemma_reach_plain(addr: Seq<char>)
    requires
        is_bare(addr),
    ensures
        exposure_of(addr) == reach_of(addr),
        addr.take(first_in(addr, Class::Only('%'))) == addr,
        ({
            let a = addr;
            (a == "::1"@ || "127."@.is_prefix_of(a)) == (a == "::1"@ || (a.len() >= 4 && a[0] == '1'
                && a[1] == '2' && a[2] == '7' && a[3] == '.'))
        }),
{
    reveal_strlit("127.");
    lemma_stripped(addr);
    lemma_first_in_is(addr, Class::Only('%'), addr.len() as int);
    assert(addr.take(addr.len() as int) =~= addr);
    if addr.len() >= 4 && addr[0] == '1' && addr[1] == '2' && addr[2] == '7' && addr[3] == '.' {
        assert("127."@ =~= addr.take(4));
        assert("127."@.is_prefix_of(addr));
    }
    if "127."@.is_prefix_of(addr) {
        assert(addr.take(4)[0] == '1' && addr.take(4)[1] == '2' && addr.take(4)[2] == '7'
            && addr.take(4)[3] == '.');
    }
}

proof fn lemma_reach_cut(addr: Seq<char>, with: Seq<char>)
    requires
        is_bare(addr),
        with.len() > addr.len(),
        with.take(addr.len() as int) == addr,
        with[addr.len() as int] == '%',
        forall|i: int| 0 <= i < with.len() ==> #[trigger] with[i] != '[' && with[i] != ']',
    ensures
        exposure_of(with) == reach_of(addr),
        strip_front(with, Class::Only('[')) == with,
        strip_back(with, Class::Only(']')) == with,
{
    lemma_reach_plain(addr);
    lemma_first_out_is(with, Class::Only('['), 0);
    assert(strip_front(with, Class::Only('[')) =~= with);
    lemma_last_out(with, Class::Only(']'));
    assert(!Class::Only(']').holds(with[with.len() - 1]));
    assert(strip_back(with, Class::Only(']')) =~= with);
    assert forall|j: int| 0 <= j < addr.len() implies !Class::Only('%').holds(#[trigger] with[j]) by {
        assert(with[j] == with.take(addr.len() as int)[j]);
    }
    lemma_first_in_is(with, Class::Only('%'), addr.len() as int);
}

/// Brackets round an address change nothing.
proof fn lemma_unbracketed(s: Seq<char>)
    requires
        forall|i: int| 0 <= i < s.len() ==> #[trigger] s[i] != '[' && s[i] != ']',
    ensures
        exposure_of("["@ + s + "]"@) == exposure_of(s),
{
    reveal_strlit("[");
    reveal_strlit("]");
    let t = "["@ + s + "]"@;
    let f = Class::Only('[');
    let b = Class::Only(']');
    if s.len() > 0 {
        assert(t[1] == s[0]);
    }
    lemma_first_out_is(t, f, 1);
    let u = s + "]"@;
    assert(strip_front(t, f) =~= u);
    lemma_last_out(u, b);
    assert(b.holds(u[u.len() - 1]));
    assert(strip_back(u, b) =~= s) by {
        let i = last_out(u, b);
        if s.len() > 0 {
            assert(u[s.len() - 1] == s[s.len() - 1]);
            assert(!b.holds(u[s.len() - 1]));
            assert(i == s.len() - 1);
        } else {
            assert(i == -1);
        }
    }
    lemma_first_out_is(s, f, 0);
    assert(strip_front(s, f) =~= s);
    lemma_last_out(s, b);
    if s.len() > 0 {
        assert(!b.holds(s[s.len() - 1]));
    }
    assert(strip_back(s, b) =~= s);
}

// ----------------------------------------------------------------- rows ----

/// Where a text is found first, it stands, and nowhere before.
pub proof fn lemma_found_at(s: Seq<char>, p: Seq<char>, i: int)
    requires
        0 <= i,
        i + p.len() <= s.len(),
        s.subrange(i, i + p.len()) == p,
        p.len() > 0,
        forall|j: int| 0 <= j < i ==> #[trigger] s[j] != p[0] || (p.len() > 1 && s[j + 1] != p[1]),
    ensures
        find_text(s, p) == Some(i),
    decreases i,
{
    if i == 0 {
        assert(s.take(p.len() as int) =~= p);
    } else {
        if p.is_prefix_of(s) {
            assert(s.take(p.len() as int) == p);
            assert(s[0] == p[0]);
            if p.len() > 1 {
                assert(s[1] == s.take(p.len() as int)[1]);
            }
        }
        let t = s.skip(1);
        assert(t.subrange(i - 1, i - 1 + p.len()) =~= p);
        assert forall|j: int| 0 <= j < i - 1 implies #[trigger] t[j] != p[0] || (p.len() > 1 && t[j
            + 1] != p[1]) by {
            assert(t[j] == s[j + 1]);
        }
        lemma_found_at(t, p, i - 1);
    }
}

/// An address and a port with a colon between them, the port without one, are told
/// apart again.
pub proof fn lemma_endpoint(addr: Seq<char>, port: Seq<char>)
    requires
        !port.contains(':'),
    ensures
        endpoint_of(addr + ":"@ + port) == (addr, port),
{
    reveal_strlit(":");
    let s = addr + ":"@ + port;
    let k = Class::Only(':');
    let n = addr.len() as int;
    lemma_last_in(s, k);
    let i = last_in(s, k);
    assert(s[n] == ':');
    assert(i == n) by {
        if i > n {
            assert(s[i] == port[i - n - 1]);
        } else if i < n {
            assert(k.holds(s[n]));
        }
    }
    assert(s.take(n) =~= addr);
    assert(s.skip(n + 1) =~= port);
}

/// Who holds a socket, as `ss` writes it.
pub open spec fn users_text(name: Seq<char>, pid: u32, more: Seq<char>) -> Seq<char> {
    "users:((\""@ + name + "\",pid="@ + dec(pid as nat) + ","@ + more
}

proof fn lemma_number_read(n: nat, max: nat)
    requires
        n <= max,
    ensures
        unsigned_of(dec(n), max) == Some(n),
{
    lemma_dec_digits(n);
    assert(is_digit(dec(n)[0]));
}

/// The first holder of a socket is read, with its process id.
proof fn lemma_first_holder(name: Seq<char>, pid: u32, more: Seq<char>)
    requires
        name.len() > 0,
        !name.contains('"'),
    ensures
        first_name(holders_of(users_text(name, pid, more))) == Some(name),
        first_pid(holders_of(users_text(name, pid, more))) == Some(pid as nat),
{
    reveal_strlit("users:((\"");
    reveal_strlit("\",pid=");
    reveal_strlit(",");
    reveal_strlit("(\"");
    reveal_strlit("pid=");
    let s = users_text(name, pid, more);
    let d = dec(pid as nat);
    lemma_dec_digits(pid as nat);
    assert(s.subrange(7, 9) =~= "(\""@);
    lemma_found_at(s, "(\""@, 7);
    let after = s.skip(9);
    let tail = "\",pid="@ + d + ","@ + more;
    assert(after =~= name + tail);
    assert forall|j: int| 0 <= j < name.len() implies !Class::Only('"').holds(#[trigger] after[j]) by {
        assert(after[j] == name[j]);
    }
    assert(after[name.len() as int] == '"');
    lemma_first_in_is(after, Class::Only('"'), name.len() as int);
    assert(after.take(name.len() as int) =~= name);
    let from = after.skip(name.len() as int);
    assert(from =~= tail);
    let k = Class::Only(')');
    lemma_first_in(from, k);
    let e = first_in(from, k);
    let m = 6 + d.len() as int;
    assert(e > m) by {
        if e <= m {
            assert(from[e] == '"' || from[e] == ',' || from[e] == 'p' || from[e] == 'i' || from[e] == 'd'
                || from[e] == '=' || is_digit(from[e])) by {
                if 6 <= e < m {
                    assert(from[e] == d[e - 6]);
                }
            }
        }
    }
    let part = from.take(e);
    assert(part.subrange(2, 6) =~= "pid="@);
    lemma_found_at(part, "pid="@, 2);
    let t = from.skip(6);
    assert forall|j: int| 0 <= j < d.len() implies Class::Digit.holds(#[trigger] t[j]) by {
        assert(t[j] == d[j]);
    }
    assert(t[d.len() as int] == ',');
    lemma_first_out_is(t, Class::Digit, d.len() as int);
    assert(t.take(d.len() as int) =~= d);
    lemma_number_read(pid as nat, u32::MAX as nat);
    assert(pid_in(from) == Some(pid as nat));
    let h = holders_of(s);
    assert(h[0].name == name);
    assert(h[0].pid == Some(pid as nat));
}

/// Words in one line are the words of that line and its only line.
proof fn lemma_words_line(ws: Seq<Seq<char>>)
    requires
        ws.len() > 0,
        forall|i: int| 0 <= i < ws.len() ==> is_word(#[trigger] ws[i]),
    ensures
        words_of(joined(ws, " "@)) == ws,
        lines_of(joined(ws, " "@)) == seq![joined(ws, " "@)],
{
    lemma_words_joined(ws);
    lemma_single_line(joined(ws, " "@));
}

/// The protocols that `ss` lists.
pub open spec fn is_protocol(p: Seq<char>) -> bool {
    p == "tcp"@ || p == "udp"@ || p == "tcp6"@ || p == "udp6"@ || p == "raw"@ || p == "sctp"@
}

proof fn lemma_protocol(p: Seq<char>)
    requires
        is_protocol(p),
    ensures
        is_word(p),
        p != "Netid"@,
        p != "State"@,
        p != "Proto"@,
{
    reveal_strlit("tcp");
    reveal_strlit("udp");
    reveal_strlit("tcp6");
    reveal_strlit("udp6");
    reveal_strlit("raw");
    reveal_strlit("sctp");
    reveal_strlit("Netid");
    reveal_strlit("State");
    reveal_strlit("Proto");
}

proof fn lemma_no_netstat(line: Seq<char>, ws: Seq<Seq<char>>)
    requires
        words_of(line) == ws,
        lines_of(line) == seq![line],
        ws.len() > 0,
        ws[0] != "Proto"@,
    ensures
        listeners_of(line) == lines_of(line).filter_map(ss_rule()),
        listeners_of(line) == (match ss_row_of(line) {
            Some(l) => seq![l],
            None => seq![],
        }),
{
    let one = lines_of(line);
    assert forall|i: int| 0 <= i < one.len() implies !netstat_header(#[trigger] one[i]) by {}
    assert(one.drop_last() =~= seq![]);
    assert(one.last() == line);
    assert(one.drop_last().filter_map(ss_rule()) =~= seq![]);
    assert(one.filter_map(ss_rule()) =~= (match ss_row_of(line) {
        Some(l) => seq![l],
        None => seq![],
    }));
}

/// A line of `ss` that is put together from its columns is a socket with exactly these:
/// of any protocol, with the owner that is named, and with none where none is named.
pub proof fn law_sockets_read_back(
    proto: Seq<char>,
    state: Seq<char>,
    received: Seq<char>,
    sent: Seq<char>,
    addr: Seq<char>,
    port: Seq<char>,
    peer: Seq<char>,
    name: Seq<char>,
    pid: u32,
    more: Seq<char>,
)
    requires
        is_protocol(proto),
        is_word(state),
        is_word(received),
        is_word(sent),
        is_word(addr + ":"@ + port),
        !port.contains(':'),
        is_word(peer),
        is_word(name),
        !name.contains('"'),
        more.len() == 0 || is_word(more),
    ensures
        ({
            let place = addr + ":"@ + port;
            let columns = seq![proto, state, received, sent, place, peer];
            let users = users_text(name, pid, more);
            let socket = ListenerView {
                proto,
                state,
                addr,
                port,
                process: Some(name),
                pid: Some(pid),
                users,
                exposure: exposure_of(addr),
            };
            &&& listeners_of(joined(columns.push(users), " "@)) == seq![socket]
            &&& listeners_of(joined(columns, " "@)) == seq![
                ListenerView { process: None, pid: None, users: seq![], ..socket },
            ]
        }),
{
    let place = addr + ":"@ + port;
    let columns = seq![proto, state, received, sent, place, peer];
    let users = users_text(name, pid, more);
    let all = columns.push(users);
    lemma_protocol(proto);
    lemma_endpoint(addr, port);
    lemma_users_word(name, pid, more);
    lemma_first_holder(name, pid, more);
    lemma_words_line(all);
    lemma_words_line(columns);
    let one = joined(all, " "@);
    let two = joined(columns, " "@);
    lemma_no_netstat(one, all);
    lemma_no_netstat(two, columns);
    assert(all.skip(6) =~= seq![users]);
    assert(tail_of(one, 6) == users);
    assert(users.last() == users[users.len() - 1]);
    lemma_trimmed_already(users);
    assert(columns.skip(6) =~= seq![]);
    let none: Seq<char> = seq![];
    assert(tail_of(two, 6) =~= none);
    lemma_nothing(none);
}

proof fn lemma_users_word(name: Seq<char>, pid: u32, more: Seq<char>)
    requires
        is_word(name),
        more.len() == 0 || is_word(more),
    ensures
        is_word(users_text(name, pid, more)),
{
    reveal_strlit("users:((\"");
    reveal_strlit("\",pid=");
    reveal_strlit(",");
    let s = users_text(name, pid, more);
    let d = dec(pid as nat);
    lemma_dec_digits(pid as nat);
    let a = "users:((\""@;
    let b = "\",pid="@;
    assert forall|j: int| 0 <= j < s.len() implies !is_space(#[trigger] s[j]) by {
        if j < 9 {
            assert(s[j] == a[j]);
        } else if j < 9 + name.len() {
            assert(s[j] == name[j - 9]);
        } else if j < 15 + name.len() {
            assert(s[j] == b[j - 9 - name.len()]);
        } else if j < 15 + name.len() + d.len() {
            assert(s[j] == d[j - 15 - name.len()]);
        } else if j > 15 + name.len() + d.len() {
            assert(s[j] == more[j - 16 - name.len() - d.len()]);
        }
    }
}

proof fn lemma_nothing(s: Seq<char>)
    requires
        s.len() == 0,
    ensures
        trimmed(s) == s,
        first_name(holders_of(s)) is None,
        first_pid(holders_of(s)) is None,
{
    reveal_strlit("(\"");
    lemma_first_out_is(s, Class::Space, 0);
    assert(strip_front(s, Class::Space) =~= s);
    assert(strip_back(s, Class::Space) =~= s);
    assert(find_text(s, "(\""@) is None);
    assert(holders_of(s) =~= seq![]);
}

/// The owner that `netstat` names.
proof fn lemma_program(name: Seq<char>, pid: u32)
    requires
        is_word(name),
        !name.contains(':'),
    ensures
        program_of(dec(pid as nat) + "/"@ + name) == (Some(name), Some(pid)),
        is_word(dec(pid as nat) + "/"@ + name),
{
    reveal_strlit("/");
    reveal_strlit("-");
    let d = dec(pid as nat);
    let s = d + "/"@ + name;
    let n = d.len() as int;
    lemma_dec_digits(pid as nat);
    assert(s[0] == d[0]);
    assert(s.last() == name[name.len() - 1]);
    assert forall|j: int| 0 <= j < s.len() implies !is_space(#[trigger] s[j]) by {
        if j < n {
            assert(s[j] == d[j]);
        } else if j > n {
            assert(s[j] == name[j - n - 1]);
        }
    }
    lemma_trimmed_already(s);
    assert(s != "-"@) by {
        assert(is_digit(s[0]));
    }
    assert forall|j: int| 0 <= j < n implies !Class::Only('/').holds(#[trigger] s[j]) by {
        assert(s[j] == d[j]);
    }
    assert(s[n] == '/');
    lemma_first_in_is(s, Class::Only('/'), n);
    assert(s.take(n) =~= d);
    assert(s.skip(n + 1) =~= name);
    assert forall|j: int| 0 <= j < name.len() implies !Class::Only(':').holds(#[trigger] name[j]) by {
        assert(name.contains(name[j]));
    }
    lemma_first_in_is(name, Class::Only(':'), name.len() as int);
    assert(name.take(name.len() as int) =~= name);
    assert(name.last() == name[name.len() - 1]);
    lemma_trimmed_already(name);
    assert(d.last() == d[n - 1]);
    lemma_trimmed_already(d);
    lemma_number_read(pid as nat, u32::MAX as nat);
}

/// A header of `netstat` and a row give one socket.
proof fn lemma_netstat_row(header: Seq<char>, ws: Seq<Seq<char>>)
    requires
        header.len() > 0,
        forall|j: int| 0 <= j < header.len() ==> #[trigger] header[j] != '\n' && header[j] != '\r',
        words_of(header).len() > 0,
        words_of(header)[0] == "Proto"@,
        contains_text(header, "Local Address"@),
        ws.len() > 0,
        forall|i: int| 0 <= i < ws.len() ==> is_word(#[trigger] ws[i]),
        netstat_row_of(joined(ws, " "@)) is Some,
    ensures
        words_of(joined(ws, " "@)) == ws,
        listeners_of(header + "\n"@ + joined(ws, " "@)) == seq![netstat_row_of(joined(ws, " "@))->0],
{
    reveal_strlit("Proto");
    reveal_strlit("tcp");
    reveal_strlit("udp");
    let line = joined(ws, " "@);
    lemma_words_joined(ws);
    lemma_two_lines(header, line);
    let raw = header + "\n"@ + line;
    assert(lines_of(raw)[0] == header);
    assert(netstat_header(lines_of(raw)[0]));
    assert(looks_like_netstat(raw));
    let p = "Proto"@;
    assert(p[0] == 'P' && "tcp"@[0] == 't' && "udp"@[0] == 'u');
    assert(!"tcp"@.is_prefix_of(p) && !"udp"@.is_prefix_of(p));
    assert(netstat_row_of(header) is None);
    let two = seq![header, line];
    assert(two.drop_last() =~= seq![header]);
    assert(two.last() == line);
    let one = seq![header];
    assert(one.drop_last() =~= seq![]);
    assert(one.last() == header);
    assert(one.drop_last().filter_map(netstat_rule()) =~= seq![]);
    assert(one.filter_map(netstat_rule()) =~= seq![]);
    assert(two.filter_map(netstat_rule()) =~= seq![netstat_row_of(line)->0]);
}

/// A row of `netstat` behind its header, put together from its columns, is a socket with
/// exactly these. A datagram socket has no column for its state.
pub proof fn law_netstat_rows_read_back(
    header: Seq<char>,
    six: bool,
    received: Seq<char>,
    sent: Seq<char>,
    addr: Seq<char>,
    port: Seq<char>,
    peer: Seq<char>,
    state: Seq<char>,
    name: Seq<char>,
    pid: u32,
)
    requires
        header.len() > 0,
        forall|j: int| 0 <= j < header.len() ==> #[trigger] header[j] != '\n' && header[j] != '\r',
        words_of(header).len() > 0,
        words_of(header)[0] == "Proto"@,
        contains_text(header, "Local Address"@),
        is_word(received),
        is_word(sent),
        is_word(addr + ":"@ + port),
        !port.contains(':'),
        is_word(peer),
        is_word(state),
        is_word(name),
        !name.contains(':'),
    ensures
        ({
            let owner = dec(pid as nat) + "/"@ + name;
            let place = addr + ":"@ + port;
            let tcp = if six {
                "tcp6"@
            } else {
                "tcp"@
            };
            let udp = if six {
                "udp6"@
            } else {
                "udp"@
            };
            let socket = ListenerView {
                proto: tcp,
                state,
                addr,
                port,
                process: Some(name),
                pid: Some(pid),
                users: owner,
                exposure: exposure_of(addr),
            };
            let unowned = ListenerView { process: None, pid: None, users: "-"@, ..socket };
            &&& listeners_of(
                header + "\n"@ + joined(seq![tcp, received, sent, place, peer, state, owner], " "@),
            ) == seq![socket]
            &&& listeners_of(
                header + "\n"@ + joined(seq![tcp, received, sent, place, peer, state, "-"@], " "@),
            ) == seq![unowned]
            &&& listeners_of(
                header + "\n"@ + joined(seq![udp, received, sent, place, peer, owner], " "@),
            ) == seq![ListenerView { proto: udp, state: "UNCONN"@, ..socket }]
            &&& listeners_of(
                header + "\n"@ + joined(seq![udp, received, sent, place, peer, "-"@], " "@),
            ) == seq![ListenerView { proto: udp, state: "UNCONN"@, ..unowned }]
        }),
{
    let owner = dec(pid as nat) + "/"@ + name;
    let tcp = if six {
        "tcp6"@
    } else {
        "tcp"@
    };
    let udp = if six {
        "udp6"@
    } else {
        "udp"@
    };
    lemma_endpoint(addr, port);
    lemma_program(name, pid);
    lemma_no_program();
    lemma_families();
    lemma_netstat_stream(header, tcp, received, sent, addr, port, peer, state, owner);
    lemma_netstat_stream(header, tcp, received, sent, addr, port, peer, state, "-"@);
    lemma_netstat_datagram(header, udp, received, sent, addr, port, peer, owner);
    lemma_netstat_datagram(header, udp, received, sent, addr, port, peer, "-"@);
}

proof fn lemma_no_program()
    ensures
        program_of("-"@) == (None::<Seq<char>>, None::<u32>),
        is_word("-"@),
{
    reveal_strlit("-");
    lemma_trimmed_already("-"@);
}

proof fn lemma_families()
    ensures
        is_word("tcp"@) && "tcp"@.is_prefix_of("tcp"@) && !"udp"@.is_prefix_of("tcp"@),
        is_word("tcp6"@) && "tcp"@.is_prefix_of("tcp6"@) && !"udp"@.is_prefix_of("tcp6"@),
        is_word("udp"@) && "udp"@.is_prefix_of("udp"@),
        is_word("udp6"@) && "udp"@.is_prefix_of("udp6"@),
{
    reveal_strlit("tcp");
    reveal_strlit("tcp6");
    reveal_strlit("udp");
    reveal_strlit("udp6");
    assert("tcp"@ =~= "tcp"@.take(3));
    assert("udp"@ =~= "udp"@.take(3));
    assert("tcp"@ =~= "tcp6"@.take(3));
    assert("udp"@ =~= "udp6"@.take(3));
    assert("tcp"@[0] == 't' && "tcp6"@[0] == 't' && "udp"@[0] == 'u');
}

proof fn lemma_netstat_stream(
    header: Seq<char>,
    proto: Seq<char>,
    received: Seq<char>,
    sent: Seq<char>,
    addr: Seq<char>,
    port: Seq<char>,
    peer: Seq<char>,
    state: Seq<char>,
    owner: Seq<char>,
)
    requires
        header.len() > 0,
        forall|j: int| 0 <= j < header.len() ==> #[trigger] header[j] != '\n' && header[j] != '\r',
        words_of(header).len() > 0,
        words_of(header)[0] == "Proto"@,
        contains_text(header, "Local Address"@),
        is_word(proto),
        "tcp"@.is_prefix_of(proto),
        !"udp"@.is_prefix_of(proto),
        is_word(received),
        is_word(sent),
        is_word(addr + ":"@ + port),
        endpoint_of(addr + ":"@ + port) == (addr, port),
        is_word(peer),
        is_word(state),
        is_word(owner),
    ensures
        listeners_of(
            header + "\n"@ + joined(
                seq![proto, received, sent, addr + ":"@ + port, peer, state, owner],
                " "@,
            ),
        ) == seq![
            ListenerView {
                proto,
                state,
                addr,
                port,
                process: program_of(owner).0,
                pid: program_of(owner).1,
                users: owner,
                exposure: exposure_of(addr),
            },
        ],
{
    let ws = seq![proto, received, sent, addr + ":"@ + port, peer, state, owner];
    lemma_words_joined(ws);
    assert(ws.skip(6) =~= seq![owner]);
    assert(tail_of(joined(ws, " "@), 6) == owner);
    lemma_netstat_row(header, ws);
}

proof fn lemma_netstat_datagram(
    header: Seq<char>,
    proto: Seq<char>,
    received: Seq<char>,
    sent: Seq<char>,
    addr: Seq<char>,
    port: Seq<char>,
    peer: Seq<char>,
    owner: Seq<char>,
)
    requires
        header.len() > 0,
        forall|j: int| 0 <= j < header.len() ==> #[trigger] header[j] != '\n' && header[j] != '\r',
        words_of(header).len() > 0,
        words_of(header)[0] == "Proto"@,
        contains_text(header, "Local Address"@),
        is_word(proto),
        "udp"@.is_prefix_of(proto),
        is_word(received),
        is_word(sent),
        is_word(addr + ":"@ + port),
        endpoint_of(addr + ":"@ + port) == (addr, port),
        is_word(peer),
        is_word(owner),
    ensures
        listeners_of(
            header + "\n"@ + joined(
                seq![proto, received, sent, addr + ":"@ + port, peer, owner],
                " "@,
            ),
        ) == seq![
            ListenerView {
                proto,
                state: "UNCONN"@,
                addr,
                port,
                process: program_of(owner).0,
                pid: program_of(owner).1,
                users: owner,
                exposure: exposure_of(addr),
            },
        ],
{
    let ws = seq![proto, received, sent, addr + ":"@ + port, peer, owner];
    lemma_words_joined(ws);
    assert(ws.skip(5) =~= seq![owner]);
    assert(tail_of(joined(ws, " "@), 5) == owner);
    lemma_netstat_row(header, ws);
}

} // verus!
