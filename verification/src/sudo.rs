//! When the collection script calls `sudo`: only where that was asked for, and only
//! in the form that never asks for a password.

use crate::fmt::{dec, hex, hex_char};
use crate::lines::lemma_dec_digits;
use crate::probe::{
    asking, du_probe, escaped, marker, opening, preamble, probe_lines, probes_for, probes_text,
    quoted, quoting, settling, wish, CONTAINERS, CRON, CollectOptionsView, DF, HOST, LISTENERS,
    ProbeSpecView, SERVICES, TIMERS, UNIT_FILES,
};
use crate::text::{contains_text, joined, lemma_contains_text};
use vstd::prelude::*;

verus! {

/// Whether a text neither calls `sudo` nor decides how it is called.
pub open spec fn leaves_sudo_alone(s: Seq<char>) -> bool {
    !contains_text(s, "sudo"@) && !contains_text(s, "SA_SUDO="@)
}

/// A character that is in neither of these words.
pub open spec fn is_edge(c: char) -> bool {
    !"sudo"@.contains(c) && !"SA_SUDO="@.contains(c)
}

pub open spec fn sudo_at(s: Seq<char>, i: int) -> bool {
    s[i] == 's' && s[i + 1] == 'u' && s[i + 2] == 'd' && s[i + 3] == 'o'
}

spec fn set_at(s: Seq<char>, i: int) -> bool {
    s[i] == '_' && s[i + 1] == 'S' && s[i + 5] == '='
}

/// A text in which a word does not stand at any position does not contain it.
proof fn lemma_not_in(s: Seq<char>, p: Seq<char>)
    requires
        forall|i: int|
            0 <= i && i + p.len() <= s.len() ==> #[trigger] s.subrange(i, i + p.len()) != p,
    ensures
        !contains_text(s, p),
{
    lemma_contains_text(s, p);
    assert forall|i: int| 0 <= i <= s.len() implies !p.is_prefix_of(#[trigger] s.skip(i)) by {
        if p.is_prefix_of(s.skip(i)) {
            assert(s.subrange(i, i + p.len()) =~= p);
        }
    }
}

/// What a text does not contain, a part of it does not contain.
proof fn lemma_part(s: Seq<char>, p: Seq<char>, i: int, j: int)
    requires
        !contains_text(s, p),
        0 <= i <= j <= s.len(),
    ensures
        !contains_text(s.subrange(i, j), p),
{
    let t = s.subrange(i, j);
    lemma_contains_text(s, p);
    assert forall|n: int| 0 <= n && n + p.len() <= t.len() implies #[trigger] t.subrange(
        n,
        n + p.len(),
    ) != p by {
        if t.subrange(n, n + p.len()) == p {
            assert(s.skip(i + n).take(p.len() as int) =~= p);
            assert(p.is_prefix_of(s.skip(i + n)));
        }
    }
    lemma_not_in(t, p);
}

/// Two texts without a word have none of it where a character between them is not in
/// the word.
proof fn lemma_not_across(a: Seq<char>, b: Seq<char>, p: Seq<char>)
    requires
        p.len() > 0,
        !contains_text(a, p),
        !contains_text(b, p),
        a.len() == 0 || b.len() == 0 || !p.contains(a.last()) || !p.contains(b[0]),
    ensures
        !contains_text(a + b, p),
{
    let s = a + b;
    let n = p.len() as int;
    let m = a.len() as int;
    lemma_contains_text(a, p);
    lemma_contains_text(b, p);
    assert forall|i: int| 0 <= i && i + n <= s.len() implies #[trigger] s.subrange(i, i + n) != p by {
        let t = s.subrange(i, i + n);
        if t == p {
            if i + n <= m {
                assert(a.skip(i).take(n) =~= t);
                assert(p.is_prefix_of(a.skip(i)));
            } else if i >= m {
                assert(b.skip(i - m).take(n) =~= t);
                assert(p.is_prefix_of(b.skip(i - m)));
            } else {
                assert(t[m - 1 - i] == a.last());
                assert(t[m - i] == b[0]);
            }
        }
    }
    lemma_not_in(s, p);
}

/// Two texts that leave `sudo` alone do so together where an edge is between them.
proof fn lemma_together(a: Seq<char>, b: Seq<char>)
    requires
        leaves_sudo_alone(a),
        leaves_sudo_alone(b),
        a.len() == 0 || b.len() == 0 || is_edge(a.last()) || is_edge(b[0]),
    ensures
        leaves_sudo_alone(a + b),
{
    reveal_strlit("sudo");
    reveal_strlit("SA_SUDO=");
    lemma_not_across(a, b, "sudo"@);
    lemma_not_across(a, b, "SA_SUDO="@);
}

/// A text leaves `sudo` alone if the two words stand nowhere in it.
proof fn lemma_scanned(s: Seq<char>)
    requires
        forall|i: int| 0 <= i && i + 4 <= s.len() ==> !#[trigger] sudo_at(s, i),
        forall|i: int| 0 <= i && i + 6 <= s.len() ==> !#[trigger] set_at(s, i),
    ensures
        leaves_sudo_alone(s),
{
    reveal_strlit("sudo");
    reveal_strlit("SA_SUDO=");
    let p = "sudo"@;
    let q = "SA_SUDO="@;
    assert forall|i: int| 0 <= i && i + p.len() <= s.len() implies #[trigger] s.subrange(
        i,
        i + p.len(),
    ) != p by {
        let t = s.subrange(i, i + p.len());
        assert(!sudo_at(s, i));
        assert(t[0] == s[i] && t[1] == s[i + 1] && t[2] == s[i + 2] && t[3] == s[i + 3]);
    }
    lemma_not_in(s, p);
    assert forall|i: int| 0 <= i && i + q.len() <= s.len() implies #[trigger] s.subrange(
        i,
        i + q.len(),
    ) != q by {
        let t = s.subrange(i, i + q.len());
        assert(!set_at(s, i + 2));
        assert(t[2] == s[i + 2] && t[3] == s[i + 3] && t[7] == s[i + 7]);
    }
    lemma_not_in(s, q);
}

/// So does a text without the letters `s` and `S`.
proof fn lemma_without_s(s: Seq<char>)
    requires
        forall|i: int| 0 <= i < s.len() ==> #[trigger] s[i] != 's' && s[i] != 'S',
    ensures
        leaves_sudo_alone(s),
{
    lemma_scanned(s);
}

proof fn lemma_host()
    ensures
        leaves_sudo_alone(HOST@),
{
    reveal_strlit(
        r#"echo "HOSTNAME=$(hostname -f 2>/dev/null || hostname 2>/dev/null)"
( . /etc/os-release 2>/dev/null; echo "OS=${PRETTY_NAME:-$(uname -o 2>/dev/null || echo Linux)}" )
echo "KERNEL=$(uname -r)"
echo "ARCH=$(uname -m)"
echo "UPTIME=$(uptime -p 2>/dev/null || uptime 2>/dev/null)"
echo "CPUS=$(nproc 2>/dev/null || grep -c '^processor' /proc/cpuinfo 2>/dev/null)"
echo "LOAD=$(cut -d' ' -f1-3 /proc/loadavg 2>/dev/null)"
awk '/^MemTotal:/{t=$2} /^MemAvailable:/{a=$2} END{if(t>0){printf "MEMTOTAL=%d\nMEMUSED=%d\n", t/1024, (t-a)/1024}}' /proc/meminfo 2>/dev/null
echo "USER=$(id -un)"
echo "VIRT=$(systemd-detect-virt 2>/dev/null || echo unknown)"
echo "SUDO=$SA_PRIV""#,
    );
    lemma_scanned(HOST@);
}

proof fn lemma_listeners()
    ensures
        leaves_sudo_alone(LISTENERS@),
{
    reveal_strlit(
        r#"if command -v ss >/dev/null 2>&1; then
  $SA_SUDO ss -tulnp
elif command -v netstat >/dev/null 2>&1; then
  $SA_SUDO netstat -tulnp
else
  echo "srvaudit: neither ss nor netstat is installed" >&2
  exit 127
fi"#,
    );
    lemma_scanned(LISTENERS@);
}

proof fn lemma_containers()
    ensures
        leaves_sudo_alone(CONTAINERS@),
{
    reveal_strlit(
        r###"FMT='{{.ID}}\t{{.Image}}\t{{.Names}}\t{{.State}}\t{{.Status}}\t{{.Ports}}\t{{.RunningFor}}'
if command -v docker >/dev/null 2>&1; then
  echo "##RUNTIME docker"
  $SA_SUDO docker ps -a --format "$FMT"
elif command -v podman >/dev/null 2>&1; then
  echo "##RUNTIME podman"
  $SA_SUDO podman ps -a --format "$FMT"
else
  echo "srvaudit: no docker or podman on this host" >&2
  exit 127
fi"###,
    );
    lemma_scanned(CONTAINERS@);
}

proof fn lemma_services()
    ensures
        leaves_sudo_alone(SERVICES@),
{
    reveal_strlit(
        r#"if command -v systemctl >/dev/null 2>&1; then
  systemctl list-units --type=service --state=running,failed,exited --no-pager --no-legend --plain
else
  echo "srvaudit: systemctl not found (not a systemd host)" >&2
  exit 127
fi"#,
    );
    lemma_scanned(SERVICES@);
}

proof fn lemma_unit_files()
    ensures
        leaves_sudo_alone(UNIT_FILES@),
{
    reveal_strlit(
        r#"if command -v systemctl >/dev/null 2>&1; then
  systemctl list-unit-files --type=service --state=enabled --no-pager --no-legend
else
  echo "srvaudit: systemctl not found (not a systemd host)" >&2
  exit 127
fi"#,
    );
    lemma_scanned(UNIT_FILES@);
}

proof fn lemma_timers()
    ensures
        leaves_sudo_alone(TIMERS@),
{
    reveal_strlit(
        r#"if command -v systemctl >/dev/null 2>&1; then
  systemctl list-timers --all --no-pager --no-legend
else
  echo "srvaudit: systemctl not found (not a systemd host)" >&2
  exit 127
fi"#,
    );
    lemma_scanned(TIMERS@);
}

proof fn lemma_df()
    ensures
        leaves_sudo_alone(DF@),
{
    reveal_strlit(
        r#"df -hPT 2>/dev/null || df -hP"#,
    );
    lemma_scanned(DF@);
}

proof fn lemma_cron()
    ensures
        leaves_sudo_alone(CRON@),
{
    reveal_strlit(
        r###"echo "##SRC crontab:$(id -un)"
crontab -l 2>&1
for f in /etc/crontab /etc/cron.d/*; do
  [ -f "$f" ] || continue
  echo "##SRC $f"
  $SA_SUDO cat "$f" 2>&1
done
for d in /etc/cron.hourly /etc/cron.daily /etc/cron.weekly /etc/cron.monthly; do
  [ -d "$d" ] || continue
  echo "##SRC dir:$d"
  ls -1 "$d" 2>/dev/null
done
if [ -n "$SA_SUDO" ] || [ "$(id -u)" = 0 ]; then
  ME=$(id -un)
  for sp in /var/spool/cron/crontabs /var/spool/cron; do
    [ -d "$sp" ] || continue
    for u in $($SA_SUDO ls -1 "$sp" 2>/dev/null); do
      [ "$u" = "$ME" ] && continue
      [ -f "$sp/$u" ] || $SA_SUDO test -f "$sp/$u" || continue
      echo "##SRC crontab:$u"
      $SA_SUDO cat "$sp/$u" 2>/dev/null
    done
  done
fi"###,
    );
    lemma_scanned(CRON@);
}

proof fn lemma_opening()
    ensures
        !contains_text(opening(), "sudo"@),
        opening().len() > 0,
        opening().last() == '\n',
{
    reveal_strlit(
        "LC_ALL=C\nexport LC_ALL\nPATH=\"$PATH:/usr/sbin:/sbin:/usr/local/sbin:/usr/local/bin\"\nexport PATH\nSA_SUDO=\nif [ \"$(id -u)\" = 0 ]; then\n  SA_PRIV=root\n",
    );
    reveal_strlit("sudo");
    let s = opening();
    let p = "sudo"@;
    assert forall|i: int| 0 <= i && i + p.len() <= s.len() implies #[trigger] s.subrange(
        i,
        i + p.len(),
    ) != p by {
        let t = s.subrange(i, i + p.len());
        assert(!sudo_at(s, i));
        assert(t[0] == s[i] && t[1] == s[i + 1] && t[2] == s[i + 2] && t[3] == s[i + 3]);
    }
    lemma_not_in(s, p);
}

proof fn lemma_settling(opts: CollectOptionsView)
    ensures
        leaves_sudo_alone(settling(opts)),
        settling(opts).len() > 0,
        settling(opts).last() == '\n',
{
    let a = "  SA_PRIV=passwordless\nelif [ "@;
    let b = " = 1 ]; then\n  SA_PRIV=needs-password\nelse\n  SA_PRIV=not-requested\nfi\nSA_TO=\nif command -v timeout >/dev/null 2>&1; then SA_TO=\"timeout "@;
    let c = "\"; fi\n"@;
    reveal_strlit("  SA_PRIV=passwordless\nelif [ ");
    reveal_strlit(
        " = 1 ]; then\n  SA_PRIV=needs-password\nelse\n  SA_PRIV=not-requested\nfi\nSA_TO=\nif command -v timeout >/dev/null 2>&1; then SA_TO=\"timeout ",
    );
    reveal_strlit("\"; fi\n");
    reveal_strlit("0");
    reveal_strlit("1");
    reveal_strlit("sudo");
    reveal_strlit("SA_SUDO=");
    let w = wish(opts.sudo);
    let n = dec(opts.du_timeout as nat);
    lemma_dec_digits(opts.du_timeout as nat);
    lemma_scanned(a);
    lemma_scanned(b);
    lemma_without_s(c);
    lemma_without_s(w);
    lemma_without_s(n);
    assert(is_edge(' ') && is_edge('"'));
    lemma_together(a, w);
    lemma_together(a + w, b);
    lemma_together(a + w + b, n);
    lemma_together(a + w + b + n, c);
}

proof fn lemma_escaped_parts(a: Seq<char>, b: Seq<char>)
    ensures
        escaped(a + b) == escaped(a) + escaped(b),
    decreases b.len(),
{
    if b.len() == 0 {
        assert(a + b =~= a);
        assert(escaped(a) + escaped(b) =~= escaped(a));
    } else {
        assert((a + b).drop_last() =~= a + b.drop_last());
        lemma_escaped_parts(a, b.drop_last());
        assert(escaped(a + b) =~= escaped(a) + escaped(b));
    }
}

proof fn lemma_escaped_plain(p: Seq<char>)
    requires
        !p.contains('\''),
    ensures
        escaped(p) == p,
    decreases p.len(),
{
    if p.len() > 0 {
        assert(p.last() == p[p.len() - 1]);
        assert(!p.drop_last().contains('\'')) by {
            if p.drop_last().contains('\'') {
                let i = p.drop_last().index_of('\'');
                assert(p[i] == '\'');
            }
        }
        lemma_escaped_plain(p.drop_last());
        assert(escaped(p) =~= p);
    } else {
        assert(escaped(p) =~= p);
    }
}

/// A text that leaves `sudo` alone does so when its quotes are written for a shell.
proof fn lemma_escaped(p: Seq<char>)
    requires
        leaves_sudo_alone(p),
    ensures
        leaves_sudo_alone(escaped(p)),
    decreases p.len(),
{
    if p.contains('\'') {
        let k = p.index_of('\'');
        let a = p.subrange(0, k);
        let q = seq!['\''];
        let b = p.subrange(k + 1, p.len() as int);
        assert(p =~= a + (q + b));
        lemma_part(p, "sudo"@, 0, k);
        lemma_part(p, "SA_SUDO="@, 0, k);
        lemma_part(p, "sudo"@, k + 1, p.len() as int);
        lemma_part(p, "SA_SUDO="@, k + 1, p.len() as int);
        lemma_escaped(a);
        lemma_escaped(b);
        lemma_escaped_parts(a, q + b);
        lemma_escaped_parts(q, b);
        assert(q.drop_last() =~= seq![]);
        let e = seq!['\'', '\\', '\'', '\''];
        assert(escaped(q.drop_last()) =~= seq![]);
        assert(q.last() == '\'');
        assert(escaped(q) =~= e);
        reveal_strlit("sudo");
        reveal_strlit("SA_SUDO=");
        assert(is_edge('\''));
        lemma_without_s(e);
        lemma_together(e, escaped(b));
        lemma_together(escaped(a), e + escaped(b));
    } else {
        lemma_escaped_plain(p);
    }
}

proof fn lemma_quoted(p: Seq<char>)
    requires
        leaves_sudo_alone(p),
    ensures
        leaves_sudo_alone(quoted(p)),
        quoted(p).len() > 0,
        quoted(p).last() == '\'',
{
    reveal_strlit("sudo");
    reveal_strlit("SA_SUDO=");
    let q = seq!['\''];
    assert(is_edge('\''));
    lemma_escaped(p);
    lemma_without_s(q);
    lemma_together(q, escaped(p));
    lemma_together(q + escaped(p), q);
}

proof fn lemma_quoted_paths(paths: Seq<Seq<char>>)
    requires
        forall|i: int| 0 <= i < paths.len() ==> leaves_sudo_alone(#[trigger] paths[i]),
    ensures
        leaves_sudo_alone(joined(paths.map_values(quoting()), " "@)),
    decreases paths.len(),
{
    reveal_strlit(" ");
    reveal_strlit("sudo");
    reveal_strlit("SA_SUDO=");
    let t = paths.map_values(quoting());
    let text = joined(t, " "@);
    if paths.len() == 0 {
        lemma_without_s(text);
    } else {
        let rest = paths.drop_last();
        assert forall|i: int| 0 <= i < rest.len() implies leaves_sudo_alone(#[trigger] rest[i]) by {
            assert(rest[i] == paths[i]);
        }
        lemma_quoted_paths(rest);
        assert(t.drop_last() =~= rest.map_values(quoting()));
        assert(paths.last() == paths[paths.len() - 1]);
        assert(t.last() == quoted(paths.last()));
        lemma_quoted(paths.last());
        if paths.len() > 1 {
            let before = joined(t.drop_last(), " "@);
            assert(is_edge(' '));
            lemma_without_s(" "@);
            lemma_together(before, " "@);
            lemma_together(before + " "@, t.last());
        }
    }
}

proof fn lemma_du(opts: CollectOptionsView)
    requires
        forall|i: int|
            0 <= i < opts.du_paths.len() ==> leaves_sudo_alone(#[trigger] opts.du_paths[i]),
    ensures
        leaves_sudo_alone(du_probe(opts).script),
{
    if opts.skip_du {
        reveal_strlit("echo '##SKIPPED'");
        lemma_scanned(du_probe(opts).script);
    } else {
        let a = "for d in "@;
        let b = joined(opts.du_paths.map_values(quoting()), " "@);
        let c = "; do [ -d \"$d\" ] || continue; $SA_SUDO $SA_TO du -shx \"$d\"/* 2>/dev/null; done"@;
        reveal_strlit("for d in ");
        reveal_strlit(
            "; do [ -d \"$d\" ] || continue; $SA_SUDO $SA_TO du -shx \"$d\"/* 2>/dev/null; done",
        );
        reveal_strlit("sudo");
        reveal_strlit("SA_SUDO=");
        lemma_quoted_paths(opts.du_paths);
        lemma_without_s(a);
        lemma_scanned(c);
        assert(is_edge(' ') && is_edge(';'));
        lemma_together(a, b);
        lemma_together(a + b, c);
    }
}

proof fn lemma_ids()
    ensures
        leaves_sudo_alone("host"@),
        leaves_sudo_alone("listeners"@),
        leaves_sudo_alone("containers"@),
        leaves_sudo_alone("services"@),
        leaves_sudo_alone("unitfiles"@),
        leaves_sudo_alone("timers"@),
        leaves_sudo_alone("df"@),
        leaves_sudo_alone("inodes"@),
        leaves_sudo_alone("du"@),
        leaves_sudo_alone("cron"@),
        leaves_sudo_alone("df -iP"@),
{
    reveal_strlit("host");
    reveal_strlit("listeners");
    reveal_strlit("containers");
    reveal_strlit("services");
    reveal_strlit("unitfiles");
    reveal_strlit("timers");
    reveal_strlit("df");
    reveal_strlit("inodes");
    reveal_strlit("du");
    reveal_strlit("cron");
    reveal_strlit("df -iP");
    lemma_scanned("host"@);
    lemma_scanned("listeners"@);
    lemma_scanned("containers"@);
    lemma_scanned("services"@);
    lemma_scanned("unitfiles"@);
    lemma_scanned("timers"@);
    lemma_scanned("df"@);
    lemma_scanned("inodes"@);
    lemma_scanned("du"@);
    lemma_scanned("cron"@);
    lemma_scanned("df -iP"@);
}

/// The probes leave it to the preamble whether and how `sudo` is called, unless the
/// name of a directory to measure has the word in it.
pub proof fn law_probes_leave_sudo_alone(opts: CollectOptionsView)
    requires
        forall|i: int|
            0 <= i < opts.du_paths.len() ==> leaves_sudo_alone(#[trigger] opts.du_paths[i]),
    ensures
        forall|i: int|
            0 <= i < probes_for(opts).len() ==> leaves_sudo_alone(
                (#[trigger] probes_for(opts)[i]).id,
            ) && leaves_sudo_alone(probes_for(opts)[i].script),
{
    lemma_ids();
    lemma_host();
    lemma_listeners();
    lemma_containers();
    lemma_services();
    lemma_unit_files();
    lemma_timers();
    lemma_df();
    lemma_du(opts);
    lemma_cron();
}

proof fn lemma_hex_digits(n: nat)
    ensures
        forall|i: int| 0 <= i < hex(n).len() ==> #[trigger] hex(n)[i] != 's' && hex(n)[i] != 'S',
    decreases n,
{
    let d = (n % 16) as int;
    assert(hex_char(d) != 's' && hex_char(d) != 'S');
    if n >= 16 {
        let rest = hex(n / 16);
        lemma_hex_digits(n / 16);
        assert forall|i: int| 0 <= i < hex(n).len() implies #[trigger] hex(n)[i] != 's' && hex(n)[i]
            != 'S' by {
            if i < rest.len() {
                assert(hex(n)[i] == rest[i]);
            }
        }
    }
}

/// So does the marker of a run.
pub proof fn law_markers_leave_sudo_alone(nanos: u128, pid: u32)
    ensures
        leaves_sudo_alone(marker(nanos, pid)),
{
    lemma_hex_digits((nanos ^ ((pid as u128) << 17u128)) as nat);
    lemma_without_s(marker(nanos, pid));
}

proof fn lemma_probe(spec: ProbeSpecView, nonce: Seq<char>)
    requires
        leaves_sudo_alone(spec.id),
        leaves_sudo_alone(spec.script),
        leaves_sudo_alone(nonce),
    ensures
        leaves_sudo_alone(probe_lines(spec, nonce)),
        probe_lines(spec, nonce).len() > 0,
        probe_lines(spec, nonce).last() == '\n',
{
    let a = "printf '\\n%s\\n' '###"@;
    let b = ":B:"@;
    let c = "'\n(\n"@;
    let d = "\n) 2>&1\nprintf '\\n%s %d\\n' '###"@;
    let e = ":E:"@;
    let f = "' $?\n"@;
    reveal_strlit("printf '\\n%s\\n' '###");
    reveal_strlit(":B:");
    reveal_strlit("'\n(\n");
    reveal_strlit("\n) 2>&1\nprintf '\\n%s %d\\n' '###");
    reveal_strlit(":E:");
    reveal_strlit("' $?\n");
    reveal_strlit("sudo");
    reveal_strlit("SA_SUDO=");
    lemma_scanned(a);
    lemma_scanned(b);
    lemma_scanned(c);
    lemma_scanned(d);
    lemma_scanned(e);
    lemma_scanned(f);
    assert(is_edge('#') && is_edge(':') && is_edge('\'') && is_edge('\n'));
    let t = a + nonce;
    lemma_together(a, nonce);
    let u = t + b;
    lemma_together(t, b);
    let v = u + spec.id;
    lemma_together(u, spec.id);
    let w = v + c;
    lemma_together(v, c);
    let x = w + spec.script;
    lemma_together(w, spec.script);
    let y = x + d;
    lemma_together(x, d);
    let z = y + nonce;
    lemma_together(y, nonce);
    lemma_together(z, e);
    lemma_together(z + e, spec.id);
    lemma_together(z + e + spec.id, f);
}

proof fn lemma_probes(specs: Seq<ProbeSpecView>, nonce: Seq<char>)
    requires
        forall|i: int|
            0 <= i < specs.len() ==> leaves_sudo_alone((#[trigger] specs[i]).id)
                && leaves_sudo_alone(specs[i].script),
        leaves_sudo_alone(nonce),
    ensures
        leaves_sudo_alone(probes_text(specs, nonce)),
        specs.len() > 0 ==> probes_text(specs, nonce).len() > 0,
        specs.len() > 0 ==> probes_text(specs, nonce).last() == '\n',
    decreases specs.len(),
{
    reveal_strlit("sudo");
    reveal_strlit("SA_SUDO=");
    if specs.len() == 0 {
        lemma_without_s(probes_text(specs, nonce));
    } else {
        let rest = specs.drop_last();
        assert forall|i: int| 0 <= i < rest.len() implies leaves_sudo_alone(
            (#[trigger] rest[i]).id,
        ) && leaves_sudo_alone(rest[i].script) by {
            assert(rest[i] == specs[i]);
        }
        assert(specs.last() == specs[specs.len() - 1]);
        lemma_probes(rest, nonce);
        lemma_probe(specs.last(), nonce);
        assert(is_edge('\n'));
        lemma_together(probes_text(rest, nonce), probe_lines(specs.last(), nonce));
    }
}

/// Whether a word stands at a position of a text.
pub open spec fn stands_at(s: Seq<char>, i: int, p: Seq<char>) -> bool {
    0 <= i && i + p.len() <= s.len() && s.subrange(i, i + p.len()) == p
}

proof fn lemma_stands_nowhere(s: Seq<char>, p: Seq<char>, i: int)
    requires
        !contains_text(s, p),
    ensures
        !stands_at(s, i, p),
{
    lemma_contains_text(s, p);
    if stands_at(s, i, p) {
        assert(s.skip(i).take(p.len() as int) =~= p);
        assert(p.is_prefix_of(s.skip(i)));
    }
}

/// The branch of the preamble calls `sudo` with `-n`, or looks whether there is one.
proof fn lemma_asking(sudo: bool, i: int)
    requires
        stands_at(asking(sudo), i, "sudo"@),
    ensures
        stands_at(asking(sudo), i, "sudo -n"@) || stands_at(asking(sudo), i - 11, "command -v sudo"@),
{
    reveal_strlit("elif [ ");
    reveal_strlit("0");
    reveal_strlit("1");
    reveal_strlit(
        " = 1 ] && command -v sudo >/dev/null 2>&1 && sudo -n true >/dev/null 2>&1; then\n  SA_SUDO=\"sudo -n\"\n",
    );
    reveal_strlit("sudo");
    reveal_strlit("sudo -n");
    reveal_strlit("command -v sudo");
    let s = asking(sudo);
    let t = s.subrange(i, i + 4);
    assert(t[0] == s[i] && t[1] == s[i + 1] && t[2] == s[i + 2] && t[3] == s[i + 3]);
    assert(sudo_at(s, i));
    if i == 29 {
        assert(s.subrange(18, 33) =~= "command -v sudo"@);
    } else {
        assert(s.subrange(i, i + 7) =~= "sudo -n"@);
    }
}

/// The script names `sudo` in one branch only, which is not taken unless `sudo` was
/// asked for; there it is called with `-n`, so that it never asks for a password, or
/// looked up without being called. Nothing that follows changes that.
///
/// The words are counted wherever they stand, so the probes and the marker of the run
/// must not have them in their own text.
pub proof fn law_sudo_only_on_request(
    opts: CollectOptionsView,
    specs: Seq<ProbeSpecView>,
    nonce: Seq<char>,
)
    requires
        forall|i: int|
            0 <= i < specs.len() ==> leaves_sudo_alone((#[trigger] specs[i]).id)
                && leaves_sudo_alone(specs[i].script),
        leaves_sudo_alone(nonce),
    ensures
        ({
            let script = preamble(opts) + probes_text(specs, nonce);
            let rest = settling(opts) + probes_text(specs, nonce);
            &&& script == opening() + asking(opts.sudo) + rest
            &&& !contains_text(opening(), "sudo"@)
            &&& leaves_sudo_alone(rest)
            &&& forall|i: int|
                #[trigger] stands_at(script, i, "sudo"@) ==> stands_at(script, i, "sudo -n"@)
                    || stands_at(script, i - 11, "command -v sudo"@)
        }),
{
    reveal_strlit("sudo");
    reveal_strlit("SA_SUDO=");
    reveal_strlit("sudo -n");
    reveal_strlit("command -v sudo");
    let p = "sudo"@;
    let script = preamble(opts) + probes_text(specs, nonce);
    let head = opening();
    let branch = asking(opts.sudo);
    let rest = settling(opts) + probes_text(specs, nonce);
    assert(is_edge('\n'));
    lemma_opening();
    lemma_settling(opts);
    lemma_probes(specs, nonce);
    lemma_together(settling(opts), probes_text(specs, nonce));
    assert(script =~= head + branch + rest);
    lemma_branch_ends(opts.sudo);
    let m = head.len() as int;
    let n = m + branch.len();
    assert forall|i: int| #[trigger] stands_at(script, i, p) implies stands_at(
        script,
        i,
        "sudo -n"@,
    ) || stands_at(script, i - 11, "command -v sudo"@) by {
        let t = script.subrange(i, i + 4);
        assert(t == p);
        if i + 4 <= m {
            assert(head.subrange(i, i + 4) =~= t);
            lemma_stands_nowhere(head, p, i);
        } else if i < m {
            assert(t[m - 1 - i] == head.last());
        } else if i + 4 <= n {
            assert(branch.subrange(i - m, i - m + 4) =~= t);
            lemma_asking(opts.sudo, i - m);
            if stands_at(branch, i - m, "sudo -n"@) {
                assert(script.subrange(i, i + 7) =~= branch.subrange(i - m, i - m + 7));
            } else {
                assert(script.subrange(i - 11, i + 4) =~= branch.subrange(i - m - 11, i - m + 4));
            }
        } else if i < n {
            assert(t[n - 1 - i] == branch.last());
        } else {
            assert(rest.subrange(i - n, i - n + 4) =~= t);
            lemma_stands_nowhere(rest, p, i - n);
        }
    }
}

proof fn lemma_branch_ends(sudo: bool)
    ensures
        asking(sudo).len() > 0,
        asking(sudo).last() == '\n',
{
    reveal_strlit("elif [ ");
    reveal_strlit("0");
    reveal_strlit("1");
    reveal_strlit(
        " = 1 ] && command -v sudo >/dev/null 2>&1 && sudo -n true >/dev/null 2>&1; then\n  SA_SUDO=\"sudo -n\"\n",
    );
}

} // verus!
