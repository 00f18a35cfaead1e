//! Builds the one shell script we send to the server, and turns its output
//! back into an [`Audit`].
//!
//! Everything runs inside a single SSH session: one authentication, one
//! round trip, a consistent snapshot. Each probe is wrapped in `( ... )` so a
//! probe that decides to `exit` only ends its own subshell.

use crate::findings::{analyze, findings_of};
use crate::fmt::{cat11, cat2, cat3, cat5, dec, dec_int, decimal, decimal_int, hex, hexadecimal};
use crate::gather::lemma_filter_map_keeps;
use crate::lines::{
    is_word, lemma_dec_int_reads_back, lemma_first_in_is, lemma_first_out_is, lemma_joined_pieces,
    lemma_last_line, lemma_lines_are_pieces, lemma_lines_concat, lemma_one_line,
    lemma_trimmed_already, lemma_trimmed_cr, lemma_two_words, lemma_word_and_rest,
};
use crate::model::{
    Audit, AuditView, DirUsage, FilesystemView, HostInfoView, ProbeOutcome, ProbeOutcomeView,
    ProbeStatus, SCHEMA_VERSION,
};
use crate::number::{read_i32, signed_of};
use crate::parse::{
    bytes_of, container_rule, cron_entry_of, cron_of, df_of, du_rule, has_size, host_of, inodes_of,
    is_cron_field, is_sized, listeners_of, merge_inodes, parse_containers, parse_cron, parse_df,
    parse_du, parse_host, parse_listeners, parse_services, parse_timers, parse_unit_files,
    service_rule, timer_rule, unit_file_rule,
};
use crate::reading::{decimal_of, mantissa_of, numeral_of};
use crate::sorting::{rank, sorted};
use crate::text::{
    after_prefix, ascii_lowered, begins_with, chars_of, contains_text, each_line, eq, first_in,
    holds_text, is_alpha, is_ascii_text, is_blank, is_digit, is_space, join, join_words, joined,
    last_out, lemma_first_in, lemma_holds_last, lemma_holds_then, lemma_holds_through,
    lemma_last_out, lines, lines_of, lower_ascii, lowercase, pieces, spells, string_of, strip_back,
    strip_front, strip_prefix, to_lowercase, trim, trim_back, trim_front, trimmed, viewed, views,
    words, words_of, Class,
};
use vstd::hash_map::StringHashMap;
use vstd::prelude::*;

verus! {

// ------------------------------------------------------- probe scripts ----

/// Facts about the machine, as `KEY=value` lines.
pub const HOST: &'static str = r#"echo "HOSTNAME=$(hostname -f 2>/dev/null || hostname 2>/dev/null)"
( . /etc/os-release 2>/dev/null; echo "OS=${PRETTY_NAME:-$(uname -o 2>/dev/null || echo Linux)}" )
echo "KERNEL=$(uname -r)"
echo "ARCH=$(uname -m)"
echo "UPTIME=$(uptime -p 2>/dev/null || uptime 2>/dev/null)"
echo "CPUS=$(nproc 2>/dev/null || grep -c '^processor' /proc/cpuinfo 2>/dev/null)"
echo "LOAD=$(cut -d' ' -f1-3 /proc/loadavg 2>/dev/null)"
awk '/^MemTotal:/{t=$2} /^MemAvailable:/{a=$2} END{if(t>0){printf "MEMTOTAL=%d\nMEMUSED=%d\n", t/1024, (t-a)/1024}}' /proc/meminfo 2>/dev/null
echo "USER=$(id -un)"
echo "VIRT=$(systemd-detect-virt 2>/dev/null || echo unknown)"
echo "SUDO=$SA_PRIV""#;

/// Listening sockets, by whichever tool is there.
pub const LISTENERS: &'static str = r#"if command -v ss >/dev/null 2>&1; then
  $SA_SUDO ss -tulnp
elif command -v netstat >/dev/null 2>&1; then
  $SA_SUDO netstat -tulnp
else
  echo "srvaudit: neither ss nor netstat is installed" >&2
  exit 127
fi"#;

/// Containers, running or not, by whichever runtime is there.
pub const CONTAINERS: &'static str = r###"FMT='{{.ID}}\t{{.Image}}\t{{.Names}}\t{{.State}}\t{{.Status}}\t{{.Ports}}\t{{.RunningFor}}'
if command -v docker >/dev/null 2>&1; then
  echo "##RUNTIME docker"
  $SA_SUDO docker ps -a --format "$FMT"
elif command -v podman >/dev/null 2>&1; then
  echo "##RUNTIME podman"
  $SA_SUDO podman ps -a --format "$FMT"
else
  echo "srvaudit: no docker or podman on this host" >&2
  exit 127
fi"###;

/// Service units that run, failed or exited.
pub const SERVICES: &'static str = r#"if command -v systemctl >/dev/null 2>&1; then
  systemctl list-units --type=service --state=running,failed,exited --no-pager --no-legend --plain
else
  echo "srvaudit: systemctl not found (not a systemd host)" >&2
  exit 127
fi"#;

/// Service units that start at boot.
pub const UNIT_FILES: &'static str = r#"if command -v systemctl >/dev/null 2>&1; then
  systemctl list-unit-files --type=service --state=enabled --no-pager --no-legend
else
  echo "srvaudit: systemctl not found (not a systemd host)" >&2
  exit 127
fi"#;

/// Timers, scheduled or not.
pub const TIMERS: &'static str = r#"if command -v systemctl >/dev/null 2>&1; then
  systemctl list-timers --all --no-pager --no-legend
else
  echo "srvaudit: systemctl not found (not a systemd host)" >&2
  exit 127
fi"#;

/// How full the filesystems are.
pub const DF: &'static str = r#"df -hPT 2>/dev/null || df -hP"#;

/// Every crontab in reach, each behind a line that names its source.
pub const CRON: &'static str = r###"echo "##SRC crontab:$(id -un)"
crontab -l 2>&1
for f in /etc/crontab /etc/cron.d/*; do
  [ -f "$f" ] || continue
  echo "##SRC $f"
  $SA_SUDO cat "$f" 2>&1
done
for d in /etc/cron.hourly /etc/cron.daily /etc/cron.weekly /etc/cron.monthly; do
  [ -d "$d" ] || continue
  echo "##SRC dir:$d"
  ls -1 "$d" 2>/dev/null
done
if [ -n "$SA_SUDO" ] || [ "$(id -u)" = 0 ]; then
  ME=$(id -un)
  for sp in /var/spool/cron/crontabs /var/spool/cron; do
    [ -d "$sp" ] || continue
    for u in $($SA_SUDO ls -1 "$sp" 2>/dev/null); do
      [ "$u" = "$ME" ] && continue
      [ -f "$sp/$u" ] || $SA_SUDO test -f "$sp/$u" || continue
      echo "##SRC crontab:$u"
      $SA_SUDO cat "$sp/$u" 2>/dev/null
    done
  done
fi"###;

/// What to collect, and how.
#[derive(Debug, Clone)]
pub struct CollectOptions {
    /// Try `sudo -n` for the probes that see more as root.
    pub sudo: bool,
    /// Directories to measure with `du -sh <dir>/*`.
    pub du_paths: Vec<String>,
    /// Skip the `du` pass entirely: it is the one slow probe.
    pub skip_du: bool,
    /// Seconds to give `du` before giving up on it.
    pub du_timeout: u64,
}

/// What a `CollectOptions` holds.
#[verifier::ext_equal]
pub struct CollectOptionsView {
    pub sudo: bool,
    pub du_paths: Seq<Seq<char>>,
    pub skip_du: bool,
    pub du_timeout: u64,
}

impl View for CollectOptions {
    type V = CollectOptionsView;

    open spec fn view(&self) -> CollectOptionsView {
        CollectOptionsView {
            sudo: self.sudo,
            du_paths: views(self.du_paths@),
            skip_du: self.skip_du,
            du_timeout: self.du_timeout,
        }
    }
}

impl Default for CollectOptions {
    fn default() -> (r: Self)
        ensures
            r@ == (CollectOptionsView {
                sudo: false,
                du_paths: seq!["/var/lib"@],
                skip_du: false,
                du_timeout: 45,
            }),
    {
        let mut du_paths: Vec<String> = Vec::new();
        du_paths.push("/var/lib".to_string());
        assert(views(du_paths@) =~= seq!["/var/lib"@]);
        CollectOptions { sudo: false, du_paths, skip_du: false, du_timeout: 45 }
    }
}

/// One question to ask the server.
#[derive(Debug, Clone)]
pub struct ProbeSpec {
    pub id: &'static str,
    pub label: &'static str,
    /// Shown verbatim in the Probes tab so you can rerun it by hand.
    pub display: String,
    pub script: String,
    /// This command routinely exits non-zero while still returning most of the
    /// answer: `du` over a tree with a few root-only subdirectories, or `cat`
    /// across a directory of cron files where one is unreadable. Throwing that
    /// output away would lose real data over a partial permission problem.
    pub tolerates_partial: bool,
}

/// What a `ProbeSpec` holds.
#[verifier::ext_equal]
pub struct ProbeSpecView {
    pub id: Seq<char>,
    pub label: Seq<char>,
    pub display: Seq<char>,
    pub script: Seq<char>,
    pub tolerates_partial: bool,
}

impl View for ProbeSpec {
    type V = ProbeSpecView;

    open spec fn view(&self) -> ProbeSpecView {
        ProbeSpecView {
            id: self.id@,
            label: self.label@,
            display: self.display@,
            script: self.script@,
            tolerates_partial: self.tolerates_partial,
        }
    }
}

/// A per-run marker so a probe that happens to print `###SA...` cannot forge
/// a section boundary: the time in nanoseconds mixed with the process id.
pub open spec fn marker(nanos: u128, pid: u32) -> Seq<char> {
    hex((nanos ^ ((pid as u128) << 17u128)) as nat)
}

pub fn nonce(nanos: u128, pid: u32) -> (r: String)
    ensures
        r@ == marker(nanos, pid),
{
    hexadecimal(nanos ^ ((pid as u128) << 17u128))
}

/// A probe that is asked in the same way on every run.
pub open spec fn fixed(
    id: Seq<char>,
    label: Seq<char>,
    display: Seq<char>,
    script: Seq<char>,
) -> ProbeSpecView {
    ProbeSpecView { id, label, display, script, tolerates_partial: false }
}

fn plain(id: &'static str, label: &'static str, display: &str, script: &str) -> (r: ProbeSpec)
    ensures
        r@ == fixed(id@, label@, display@, script@),
{
    ProbeSpec {
        id,
        label,
        display: display.to_string(),
        script: script.to_string(),
        tolerates_partial: false,
    }
}

// ------------------------------------------------------------- quoting ----

/// A path in single quotes, its own quotes written as `'\''`.
pub open spec fn escaped(p: Seq<char>) -> Seq<char>
    decreases p.len(),
{
    if p.len() == 0 {
        seq![]
    } else if p.last() == '\'' {
        escaped(p.drop_last()) + seq!['\'', '\\', '\'', '\'']
    } else {
        escaped(p.drop_last()).push(p.last())
    }
}

/// `escaped` between two quotes.
pub open spec fn quoted(p: Seq<char>) -> Seq<char> {
    seq!['\''] + escaped(p) + seq!['\'']
}

/// `quoted` as a function to hand over.
pub open spec fn quoting() -> spec_fn(Seq<char>) -> Seq<char> {
    |p: Seq<char>| quoted(p)
}

fn quote(p: &str) -> (r: String)
    ensures
        r@ == quoted(p@),
{
    let cs = chars_of(p);
    let mut r = String::new();
    r.push('\'');
    let mut i: usize = 0;
    assert(r@ =~= seq!['\''] + escaped(p@.take(0)));
    while i < cs.len()
        invariant
            i <= cs.len(),
            cs@ == p@,
            r@ == seq!['\''] + escaped(p@.take(i as int)),
        decreases cs.len() - i,
    {
        assert(p@.take(i + 1).drop_last() =~= p@.take(i as int));
        let ghost before = r@;
        if cs[i] == '\'' {
            r.push('\'');
            r.push('\\');
            r.push('\'');
            r.push('\'');
            assert(r@ =~= before + seq!['\'', '\\', '\'', '\'']);
        } else {
            r.push(cs[i]);
        }
        assert(r@ =~= seq!['\''] + escaped(p@.take(i + 1)));
        i += 1;
    }
    assert(p@.take(p@.len() as int) =~= p@);
    r.push('\'');
    assert(r@ =~= quoted(p@));
    r
}

/// Single-quote each path for the remote shell.
pub fn shell_list(paths: &Vec<String>) -> (r: String)
    ensures
        r@ == joined(views(paths@).map_values(quoting()), " "@),
{
    let mut quoted_paths: Vec<String> = Vec::new();
    let ghost all = views(paths@);
    let mut i: usize = 0;
    assert(views(quoted_paths@) =~= all.take(0).map_values(quoting()));
    while i < paths.len()
        invariant
            i <= paths.len(),
            all == views(paths@),
            views(quoted_paths@) == all.take(i as int).map_values(quoting()),
        decreases paths.len() - i,
    {
        let ghost before = quoted_paths@;
        quoted_paths.push(quote(paths[i].as_str()));
        assert(views(quoted_paths@) =~= views(before).push(quoted(paths@[i as int]@)));
        assert(views(quoted_paths@) =~= all.take(i + 1).map_values(quoting()));
        i += 1;
    }
    assert(all.take(all.len() as int) =~= all);
    join(&quoted_paths, " ")
}

/// What a POSIX shell makes of a word that is written with single quotes and
/// backslashes alone, in or out of quotes; nothing where a quote is left open.
pub open spec fn shell_word(s: Seq<char>, open: bool) -> Option<Seq<char>>
    decreases s.len(),
{
    if s.len() == 0 {
        if open {
            None
        } else {
            Some(seq![])
        }
    } else if s[0] == '\'' {
        shell_word(s.skip(1), !open)
    } else if !open && s[0] == '\\' {
        if s.len() == 1 {
            None
        } else {
            match shell_word(s.skip(2), open) {
                Some(t) => Some(seq![s[1]] + t),
                None => None,
            }
        }
    } else {
        match shell_word(s.skip(1), open) {
            Some(t) => Some(seq![s[0]] + t),
            None => None,
        }
    }
}

proof fn lemma_escaped_reads_back(p: Seq<char>, rest: Seq<char>)
    ensures
        shell_word(escaped(p) + rest, true) == (match shell_word(rest, true) {
            Some(t) => Some(p + t),
            None => None,
        }),
    decreases p.len(),
{
    if p.len() == 0 {
        assert(escaped(p) + rest =~= rest);
        assert(shell_word(rest, true) matches Some(t) ==> p + t =~= t);
    } else {
        let q = p.drop_last();
        let c = p.last();
        if c == '\'' {
            let tail = seq!['\'', '\\', '\'', '\''] + rest;
            assert(escaped(p) + rest =~= escaped(q) + tail);
            lemma_escaped_reads_back(q, tail);
            assert(tail.skip(1) =~= seq!['\\', '\'', '\''] + rest);
            assert(tail.skip(1).skip(2) =~= seq!['\''] + rest);
            assert((seq!['\''] + rest).skip(1) =~= rest);
            assert(shell_word(seq!['\''] + rest, false) == shell_word(rest, true));
            assert(shell_word(tail.skip(1), false) == (match shell_word(rest, true) {
                Some(t) => Some(seq!['\''] + t),
                None => None,
            }));
            assert(shell_word(rest, true) matches Some(t) ==> q + (seq!['\''] + t) =~= p + t);
        } else {
            let tail = seq![c] + rest;
            assert(escaped(p) + rest =~= escaped(q) + tail);
            lemma_escaped_reads_back(q, tail);
            assert(tail.skip(1) =~= rest);
            assert(shell_word(rest, true) matches Some(t) ==> q + (seq![c] + t) =~= p + t);
        }
    }
}

/// The remote shell reads back exactly the path that was quoted, whatever
/// characters it is made of.
pub proof fn law_quoting_is_faithful(p: Seq<char>)
    ensures
        shell_word(quoted(p), false) == Some(p),
{
    let end = seq!['\''];
    lemma_escaped_reads_back(p, end);
    assert(end.skip(1) =~= seq![]);
    assert(shell_word(end.skip(1), false) == Some(Seq::<char>::empty()));
    assert(shell_word(end, true) == Some(Seq::<char>::empty()));
    assert(quoted(p).skip(1) =~= escaped(p) + end);
    assert(p + Seq::<char>::empty() =~= p);
}

// -------------------------------------------------------------- probes ----

/// A directory as the glob of what is in it.
pub open spec fn globbing() -> spec_fn(Seq<char>) -> Seq<char> {
    |p: Seq<char>| strip_back(p, Class::Only('/')) + "/*"@
}

/// The globs of the directories to measure.
pub open spec fn globs_of(paths: Seq<Seq<char>>) -> Seq<char> {
    joined(paths.map_values(globbing()), " "@)
}

/// The probe that measures directories.
pub open spec fn du_probe(opts: CollectOptionsView) -> ProbeSpecView {
    ProbeSpecView {
        id: "du"@,
        label: "Directory sizes"@,
        display: if opts.skip_du {
            "du -shx "@ + globs_of(opts.du_paths) + "   (skipped: --no-du)"@
        } else {
            "du -shx "@ + globs_of(opts.du_paths)
        },
        script: if opts.skip_du {
            "echo '##SKIPPED'"@
        } else {
            "for d in "@ + joined(opts.du_paths.map_values(quoting()), " "@)
                + "; do [ -d \"$d\" ] || continue; $SA_SUDO $SA_TO du -shx \"$d\"/* 2>/dev/null; done"@
        },
        tolerates_partial: true,
    }
}

/// The probe that collects crontabs.
pub open spec fn cron_probe() -> ProbeSpecView {
    ProbeSpecView {
        id: "cron"@,
        label: "Scheduled jobs"@,
        display: "crontab -l; cat /etc/crontab /etc/cron.d/*; ls /etc/cron.daily"@,
        script: CRON@,
        tolerates_partial: true,
    }
}

/// Every probe, in the order in which they run.
pub open spec fn probes_for(opts: CollectOptionsView) -> Seq<ProbeSpecView> {
    seq![
        fixed("host"@, "Host facts"@, "uname / os-release / uptime / loadavg"@, HOST@),
        fixed("listeners"@, "Listening sockets"@, "ss -tulnp"@, LISTENERS@),
        fixed("containers"@, "Containers"@, "docker ps -a"@, CONTAINERS@),
        fixed(
            "services"@,
            "Running services"@,
            "systemctl list-units --type=service --state=running,failed,exited"@,
            SERVICES@,
        ),
        fixed(
            "unitfiles"@,
            "Enabled at boot"@,
            "systemctl list-unit-files --type=service --state=enabled"@,
            UNIT_FILES@,
        ),
        fixed("timers"@, "Systemd timers"@, "systemctl list-timers --all"@, TIMERS@),
        fixed("df"@, "Filesystems"@, "df -hPT"@, DF@),
        fixed("inodes"@, "Inodes"@, "df -iP"@, "df -iP"@),
        du_probe(opts),
        cron_probe(),
    ]
}

fn globs(paths: &Vec<String>) -> (r: String)
    ensures
        r@ == globs_of(views(paths@)),
{
    let mut out: Vec<String> = Vec::new();
    let ghost all = views(paths@);
    let mut i: usize = 0;
    assert(views(out@) =~= all.take(0).map_values(globbing()));
    while i < paths.len()
        invariant
            i <= paths.len(),
            all == views(paths@),
            views(out@) == all.take(i as int).map_values(globbing()),
        decreases paths.len() - i,
    {
        let ghost before = out@;
        let p = chars_of(paths[i].as_str());
        let dir = string_of(trim_back(p.as_slice(), Class::Only('/')));
        let glob = cat2(dir.as_str(), "/*");
        let ghost seen = glob@;
        out.push(glob);
        assert(views(out@) =~= views(before).push(seen));
        assert(views(out@) =~= all.take(i + 1).map_values(globbing()));
        i += 1;
    }
    assert(all.take(all.len() as int) =~= all);
    join(&out, " ")
}

fn du_spec(opts: &CollectOptions) -> (r: ProbeSpec)
    ensures
        r@ == du_probe(opts@),
{
    let what = globs(&opts.du_paths);
    let paths = shell_list(&opts.du_paths);
    let display = if opts.skip_du {
        cat3("du -shx ", what.as_str(), "   (skipped: --no-du)")
    } else {
        cat2("du -shx ", what.as_str())
    };
    let script = if opts.skip_du {
        "echo '##SKIPPED'".to_string()
    } else {
        cat3(
            "for d in ",
            paths.as_str(),
            "; do [ -d \"$d\" ] || continue; $SA_SUDO $SA_TO du -shx \"$d\"/* 2>/dev/null; done",
        )
    };
    ProbeSpec { id: "du", label: "Directory sizes", display, script, tolerates_partial: true }
}

/// The probes to run.
pub fn specs(opts: &CollectOptions) -> (r: Vec<ProbeSpec>)
    ensures
        views(r@) == probes_for(opts@),
{
    let mut v: Vec<ProbeSpec> = Vec::new();
    v.push(plain("host", "Host facts", "uname / os-release / uptime / loadavg", HOST));
    v.push(plain("listeners", "Listening sockets", "ss -tulnp", LISTENERS));
    v.push(plain("containers", "Containers", "docker ps -a", CONTAINERS));
    v.push(
        plain(
            "services",
            "Running services",
            "systemctl list-units --type=service --state=running,failed,exited",
            SERVICES,
        ),
    );
    v.push(
        plain(
            "unitfiles",
            "Enabled at boot",
            "systemctl list-unit-files --type=service --state=enabled",
            UNIT_FILES,
        ),
    );
    v.push(plain("timers", "Systemd timers", "systemctl list-timers --all", TIMERS));
    v.push(plain("df", "Filesystems", "df -hPT", DF));
    v.push(plain("inodes", "Inodes", "df -iP", "df -iP"));
    v.push(du_spec(opts));
    v.push(
        ProbeSpec {
            id: "cron",
            label: "Scheduled jobs",
            display: "crontab -l; cat /etc/crontab /etc/cron.d/*; ls /etc/cron.daily".to_string(),
            script: CRON.to_string(),
            tolerates_partial: true,
        },
    );
    assert(views(v@) =~= probes_for(opts@));
    v
}

// -------------------------------------------------------------- script ----

/// `1` where `sudo` is asked for, `0` where it is not.
pub open spec fn wish(sudo: bool) -> Seq<char> {
    if sudo {
        "1"@
    } else {
        "0"@
    }
}

/// What the script starts with: a plain environment, and no need of `sudo` for the
/// superuser.
pub open spec fn opening() -> Seq<char> {
    "LC_ALL=C\nexport LC_ALL\nPATH=\"$PATH:/usr/sbin:/sbin:/usr/local/sbin:/usr/local/bin\"\nexport PATH\nSA_SUDO=\nif [ \"$(id -u)\" = 0 ]; then\n  SA_PRIV=root\n"@
}

/// The branch that is taken where `sudo` is asked for and works without a password.
pub open spec fn asking(sudo: bool) -> Seq<char> {
    "elif [ "@ + wish(sudo)
        + " = 1 ] && command -v sudo >/dev/null 2>&1 && sudo -n true >/dev/null 2>&1; then\n  SA_SUDO=\"sudo -n\"\n"@
}

/// The other branches, and how long `du` may take.
pub open spec fn settling(opts: CollectOptionsView) -> Seq<char> {
    "  SA_PRIV=passwordless\nelif [ "@ + wish(opts.sudo)
        + " = 1 ]; then\n  SA_PRIV=needs-password\nelse\n  SA_PRIV=not-requested\nfi\nSA_TO=\nif command -v timeout >/dev/null 2>&1; then SA_TO=\"timeout "@
        + dec(opts.du_timeout as nat) + "\"; fi\n"@
}

/// What comes before the probes: a plain environment, how privileged probes are
/// to be run, and how long `du` may take.
pub open spec fn preamble(opts: CollectOptionsView) -> Seq<char> {
    opening() + asking(opts.sudo) + settling(opts)
}

/// One probe between its two markers, the second with the exit code.
pub open spec fn probe_lines(spec: ProbeSpecView, nonce: Seq<char>) -> Seq<char> {
    "printf '\\n%s\\n' '###"@ + nonce + ":B:"@ + spec.id + "'\n(\n"@ + spec.script
        + "\n) 2>&1\nprintf '\\n%s %d\\n' '###"@ + nonce + ":E:"@ + spec.id + "' $?\n"@
}

/// The probes one after the other.
pub open spec fn probes_text(specs: Seq<ProbeSpecView>, nonce: Seq<char>) -> Seq<char>
    decreases specs.len(),
{
    if specs.len() == 0 {
        seq![]
    } else {
        probes_text(specs.drop_last(), nonce) + probe_lines(specs.last(), nonce)
    }
}

/// The script for one run.
pub fn build_script(opts: &CollectOptions, specs: &[ProbeSpec], nonce: &str) -> (r: String)
    ensures
        r@ == preamble(opts@) + probes_text(views(specs@), nonce@),
{
    let want = if opts.sudo {
        "1"
    } else {
        "0"
    };
    let timeout = decimal(opts.du_timeout);
    let branch = cat3(
        "elif [ ",
        want,
        " = 1 ] && command -v sudo >/dev/null 2>&1 && sudo -n true >/dev/null 2>&1; then\n  SA_SUDO=\"sudo -n\"\n",
    );
    let others = cat5(
        "  SA_PRIV=passwordless\nelif [ ",
        want,
        " = 1 ]; then\n  SA_PRIV=needs-password\nelse\n  SA_PRIV=not-requested\nfi\nSA_TO=\nif command -v timeout >/dev/null 2>&1; then SA_TO=\"timeout ",
        timeout.as_str(),
        "\"; fi\n",
    );
    let mut s = cat3(
        "LC_ALL=C\nexport LC_ALL\nPATH=\"$PATH:/usr/sbin:/sbin:/usr/local/sbin:/usr/local/bin\"\nexport PATH\nSA_SUDO=\nif [ \"$(id -u)\" = 0 ]; then\n  SA_PRIV=root\n",
        branch.as_str(),
        others.as_str(),
    );
    let ghost head = s@;
    let ghost all = views(specs@);
    let mut i: usize = 0;
    assert(s@ =~= head + probes_text(all.take(0), nonce@));
    while i < specs.len()
        invariant
            i <= specs.len(),
            all == views(specs@),
            s@ == head + probes_text(all.take(i as int), nonce@),
        decreases specs.len() - i,
    {
        assert(all.take(i + 1).drop_last() =~= all.take(i as int));
        assert(all.take(i + 1).last() == specs@[i as int]@);
        let part = cat11(
            "printf '\\n%s\\n' '###",
            nonce,
            ":B:",
            specs[i].id,
            "'\n(\n",
            specs[i].script.as_str(),
            "\n) 2>&1\nprintf '\\n%s %d\\n' '###",
            nonce,
            ":E:",
            specs[i].id,
            "' $?\n",
        );
        s.append(part.as_str());
        assert(s@ =~= head + (probes_text(all.take(i as int), nonce@) + part@));
        i += 1;
    }
    assert(all.take(all.len() as int) =~= all);
    s
}

// ------------------------------------------------------------ sections ----

/// A section by its text and exit code.
pub open spec fn section_view() -> spec_fn((String, i32)) -> (Seq<char>, i32) {
    |v: (String, i32)| (v.0@, v.1)
}

/// The sections of a run: output and exit code by probe.
pub struct Sections {
    map: StringHashMap<(String, i32)>,
}

impl View for Sections {
    type V = Map<Seq<char>, (Seq<char>, i32)>;

    closed spec fn view(&self) -> Map<Seq<char>, (Seq<char>, i32)> {
        self.map@.map_values(section_view())
    }
}

impl Sections {
    pub fn new() -> (r: Sections)
        ensures
            r@ == Map::<Seq<char>, (Seq<char>, i32)>::empty(),
    {
        let r = Sections { map: StringHashMap::new() };
        assert(r@ =~= Map::<Seq<char>, (Seq<char>, i32)>::empty());
        r
    }

    /// Adds a section, in place of the one that had its id.
    pub fn insert(&mut self, id: String, section: (String, i32))
        ensures
            final(self)@ == old(self)@.insert(id@, (section.0@, section.1)),
    {
        self.map.insert(id, section);
        assert(self@ =~= old(self)@.insert(id@, (section.0@, section.1)));
    }

    pub fn get(&self, id: &str) -> (r: Option<&(String, i32)>)
        ensures
            match r {
                Some(s) => self@.dom().contains(id@) && self@[id@] == (s.0@, s.1),
                None => !self@.dom().contains(id@),
            },
    {
        self.map.get(id)
    }

    pub fn contains_key(&self, id: &str) -> (yes: bool)
        ensures
            yes == self@.dom().contains(id@),
    {
        self.map.contains_key(id)
    }

    pub fn len(&self) -> (n: usize)
        ensures
            n == self@.dom().len(),
    {
        assert(self@.dom() =~= self.map@.dom());
        self.map.len()
    }
}

/// The output so far: the sections that are complete, and the one that is
/// being read.
pub struct Cut {
    pub done: Map<Seq<char>, (Seq<char>, i32)>,
    pub open: Option<(Seq<char>, Seq<Seq<char>>)>,
}

/// What a marker that opens a section starts with.
pub open spec fn begin_mark(nonce: Seq<char>) -> Seq<char> {
    "###"@ + nonce + ":B:"@
}

/// What a marker that closes a section starts with.
pub open spec fn end_mark(nonce: Seq<char>) -> Seq<char> {
    "###"@ + nonce + ":E:"@
}

/// The text of a section: its lines, without the line breaks around them.
pub open spec fn body_of(lines: Seq<Seq<char>>) -> Seq<char> {
    strip_back(strip_front(joined(lines, "\n"@), Class::Only('\n')), Class::Only('\n'))
}

/// The exit code behind a closing marker, -1 where there is none.
pub open spec fn code_of(rest: Seq<char>) -> i32 {
    let w = words_of(rest);
    if w.len() < 2 {
        -1i32
    } else {
        match signed_of(w[1], i32::MAX as nat) {
            Some(n) => n as i32,
            None => -1i32,
        }
    }
}

/// The id behind a closing marker.
pub open spec fn closing_id(rest: Seq<char>) -> Seq<char> {
    let w = words_of(rest);
    if w.len() == 0 {
        seq![]
    } else {
        w[0]
    }
}

/// The output after one more line.
pub open spec fn cut_after(c: Cut, line: Seq<char>, nonce: Seq<char>) -> Cut {
    let t = trimmed(line);
    match after_prefix(t, begin_mark(nonce)) {
        Some(id) => Cut { open: Some((trimmed(id), seq![])), ..c },
        None => match after_prefix(t, end_mark(nonce)) {
            Some(rest) => match c.open {
                Some((id, lines)) => Cut {
                    done: c.done.insert(
                        if id.len() == 0 {
                            closing_id(rest)
                        } else {
                            id
                        },
                        (body_of(lines), code_of(rest)),
                    ),
                    open: None,
                },
                None => c,
            },
            None => match c.open {
                Some((id, lines)) => Cut { open: Some((id, lines.push(line))), ..c },
                None => c,
            },
        },
    }
}

/// The output after all the lines.
pub open spec fn cut_of(lines: Seq<Seq<char>>, nonce: Seq<char>) -> Cut
    decreases lines.len(),
{
    if lines.len() == 0 {
        Cut { done: Map::empty(), open: None }
    } else {
        cut_after(cut_of(lines.drop_last(), nonce), lines.last(), nonce)
    }
}

/// The complete sections of a run.
pub open spec fn sections_of(stdout: Seq<char>, nonce: Seq<char>) -> Map<
    Seq<char>,
    (Seq<char>, i32),
> {
    cut_of(lines_of(stdout), nonce).done
}

fn close(id: &String, body: &Vec<&[char]>, rest: &[char], out: &mut Sections)
    ensures
        final(out)@ == old(out)@.insert(
            if id@.len() == 0 {
                closing_id(rest@)
            } else {
                id@
            },
            (body_of(views(body@)), code_of(rest@)),
        ),
{
    let w = words(rest);
    assert(views(w@).len() == w@.len());
    let code: i32 = if w.len() < 2 {
        -1
    } else {
        match read_i32(w[1]) {
            Some(n) => n,
            None => -1,
        }
    };
    let text = join_words(body.as_slice(), "\n");
    let cs = chars_of(text.as_str());
    let trimmed_text = trim_back(trim_front(cs.as_slice(), Class::Only('\n')), Class::Only('\n'));
    let key = if is_blank(id) {
        if w.len() == 0 {
            let none = String::new();
            assert(none@ =~= seq![]);
            none
        } else {
            string_of(w[0])
        }
    } else {
        id.clone()
    };
    out.insert(key, (string_of(trimmed_text), code));
}

/// Cut the combined stdout back into `(id -> (output, exit code))`.
pub fn split_sections(stdout: &str, nonce: &str) -> (r: Sections)
    ensures
        r@ == sections_of(stdout@, nonce@),
{
    let begin = cat3("###", nonce, ":B:");
    let end = cat3("###", nonce, ":E:");
    let cs = chars_of(stdout);
    let ls = lines(cs.as_slice());
    let ghost all = views(ls@);
    let mut out = Sections::new();
    let mut open = false;
    let mut id = String::new();
    let mut body: Vec<&[char]> = Vec::new();
    let mut i: usize = 0;
    while i < ls.len()
        invariant
            i <= ls.len(),
            all == views(ls@),
            begin@ == begin_mark(nonce@),
            end@ == end_mark(nonce@),
            out@ == cut_of(all.take(i as int), nonce@).done,
            match cut_of(all.take(i as int), nonce@).open {
                Some((key, part)) => open && id@ == key && views(body@) == part,
                None => !open,
            },
        decreases ls.len() - i,
    {
        assert(all.take(i + 1).drop_last() =~= all.take(i as int));
        assert(all.take(i + 1).last() == ls@[i as int]@);
        let line = ls[i];
        let t = trim(line);
        if let Some(rest) = strip_prefix(t, begin.as_str()) {
            open = true;
            id = string_of(trim(rest));
            body = Vec::new();
            assert(views(body@) =~= seq![]);
        } else if let Some(rest) = strip_prefix(t, end.as_str()) {
            if open {
                close(&id, &body, rest, &mut out);
                open = false;
            }
        } else if open {
            let ghost before = body@;
            body.push(line);
            assert(views(body@) =~= views(before).push(line@));
        }
        i += 1;
    }
    assert(all.take(all.len() as int) =~= all);
    out
}

// -------------------------------------------------------------- status ----

/// Whether a line is one that a probe writes to say what follows, not output.
pub open spec fn is_tag(line: Seq<char>) -> bool {
    !is_payload(line) || "##SRC"@.is_prefix_of(line)
}

/// The first line of output that says something, trimmed.
pub open spec fn first_words(lines: Seq<Seq<char>>) -> Seq<char>
    decreases lines.len(),
{
    if lines.len() == 0 {
        seq![]
    } else if trimmed(lines[0]).len() > 0 && !is_tag(lines[0]) {
        trimmed(lines[0])
    } else {
        first_words(lines.skip(1))
    }
}

/// Whether the output, in lower case, says that the tool is not there.
pub open spec fn says_missing(lower: Seq<char>) -> bool {
    ||| contains_text(lower, "command not found"@)
    ||| contains_text(lower, "not found"@)
    ||| contains_text(lower, "no such file or directory"@)
    ||| contains_text(lower, "cannot connect to the docker daemon"@) && !contains_text(
        lower,
        "permission denied"@,
    )
}

/// Whether the output, in lower case, says that we were refused.
pub open spec fn says_denied(lower: Seq<char>) -> bool {
    ||| contains_text(lower, "permission denied"@)
    ||| contains_text(lower, "operation not permitted"@)
    ||| contains_text(lower, "must be root"@)
    ||| contains_text(lower, "are you root"@)
    ||| contains_text(lower, "sudo:"@)
    ||| contains_text(lower, "access denied"@)
}

/// Whether a line is the size of a directory, and speaks neither of a missing tool
/// nor of a refusal.
pub open spec fn is_measure(line: Seq<char>) -> bool {
    &&& is_sized(line)
    &&& !says_missing(ascii_lowered(line))
    &&& !says_denied(ascii_lowered(line))
}

/// Whether the output of a probe that routinely fails in part holds a part of the
/// answer: a job, or the size of a directory. What neither parser reads is none.
pub open spec fn holds_answer(raw: Seq<char>) -> bool {
    ||| cron_of(lines_of(raw)).len() > 0
    ||| exists|i: int| 0 <= i < lines_of(raw).len() && is_measure(#[trigger] lines_of(raw)[i])
}

/// What came of a probe, from its output, the same in lower case, its exit code
/// and whether it routinely fails in part. Where it does, what was answered counts
/// although a part was refused or missing.
pub open spec fn status_of(
    raw: Seq<char>,
    lower: Seq<char>,
    code: i32,
    tolerates_partial: bool,
) -> ProbeStatus {
    if trimmed(raw) == "##SKIPPED"@ {
        ProbeStatus::Skipped
    } else if code == 0 {
        if trimmed(raw).len() == 0 {
            ProbeStatus::Empty
        } else {
            ProbeStatus::Complete
        }
    } else if code != 127 && tolerates_partial && trimmed(raw).len() > 0 && holds_answer(raw) {
        ProbeStatus::Partial
    } else if code == 127 || says_missing(lower) {
        ProbeStatus::Unsupported
    } else if says_denied(lower) {
        ProbeStatus::Denied
    } else if tolerates_partial && trimmed(raw).len() > 0 {
        ProbeStatus::Partial
    } else {
        ProbeStatus::Failed
    }
}

/// What there is to say about a status.
pub open spec fn note_for(status: ProbeStatus, raw: Seq<char>, code: i32) -> Seq<char> {
    match status {
        ProbeStatus::Skipped => "skipped by --no-du"@,
        ProbeStatus::Empty | ProbeStatus::Complete => seq![],
        ProbeStatus::Partial => "exited "@ + dec_int(code as int)
            + "; some paths were unreadable, the rest is shown"@,
        _ => first_words(lines_of(raw)),
    }
}

fn first_error(raw: &str) -> (r: String)
    ensures
        r@ == first_words(lines_of(raw@)),
{
    let cs = chars_of(raw);
    let ls = lines(cs.as_slice());
    let ghost all = lines_of(raw@);
    let mut i: usize = 0;
    assert(all.skip(0) =~= all);
    while i < ls.len()
        invariant
            i <= ls.len(),
            all == views(ls@),
            all == lines_of(raw@),
            first_words(all) == first_words(all.skip(i as int)),
        decreases ls.len() - i,
    {
        assert(all.skip(i as int)[0] == ls@[i as int]@);
        let t = trim(ls[i]);
        if t.len() > 0 && !begins_with(ls[i], "##RUNTIME") && !begins_with(ls[i], "##SRC") {
            return string_of(t);
        }
        assert(all.skip(i as int).skip(1) =~= all.skip(i + 1));
        i += 1;
    }
    let none = String::new();
    assert(none@ =~= seq![]);
    none
}

fn tells_missing(l: &[char]) -> (yes: bool)
    ensures
        yes == says_missing(l@),
{
    holds_text(l, "command not found") || holds_text(l, "not found") || holds_text(
        l,
        "no such file or directory",
    ) || (holds_text(l, "cannot connect to the docker daemon") && !holds_text(
        l,
        "permission denied",
    ))
}

fn tells_denied(l: &[char]) -> (yes: bool)
    ensures
        yes == says_denied(l@),
{
    holds_text(l, "permission denied") || holds_text(l, "operation not permitted") || holds_text(
        l,
        "must be root",
    ) || holds_text(l, "are you root") || holds_text(l, "sudo:") || holds_text(l, "access denied")
}

fn has_answer(raw: &str) -> (yes: bool)
    ensures
        yes == holds_answer(raw@),
{
    let jobs = parse_cron(raw);
    if jobs.len() > 0 {
        return true;
    }
    let cs = chars_of(raw);
    let ls = lines(cs.as_slice());
    let ghost all = lines_of(raw@);
    let mut i: usize = 0;
    while i < ls.len()
        invariant
            i <= ls.len(),
            all == views(ls@),
            all == lines_of(raw@),
            forall|k: int| 0 <= k < i ==> !is_measure(#[trigger] all[k]),
        decreases ls.len() - i,
    {
        assert(all[i as int] == ls@[i as int]@);
        let low = lower_ascii(ls[i]);
        if has_size(ls[i]) && !tells_missing(low.as_slice()) && !tells_denied(low.as_slice()) {
            assert(is_measure(lines_of(raw@)[i as int]));
            return true;
        }
        i += 1;
    }
    false
}

/// The decision of `classify`, with the output in lower case at hand.
pub fn classify_lowered(raw: &str, lower: &str, code: i32, tolerates_partial: bool) -> (r: (
    ProbeStatus,
    String,
))
    ensures
        r.0 == status_of(raw@, lower@, code, tolerates_partial),
        r.1@ == note_for(r.0, raw@, code),
{
    let cs = chars_of(raw);
    let t = trim(cs.as_slice());
    let none = String::new();
    assert(none@ =~= seq![]);
    if spells(t, "##SKIPPED") {
        return (ProbeStatus::Skipped, "skipped by --no-du".to_string());
    }
    if code == 0 {
        return if t.len() == 0 {
            (ProbeStatus::Empty, none)
        } else {
            (ProbeStatus::Complete, none)
        };
    }
    let low = chars_of(lower);
    let l = low.as_slice();
    // `du` exits 1 for a single unreadable subdirectory after correctly sizing
    // everything else, and `cat` for one unreadable cron file. Keep the data and say
    // the coverage is incomplete.
    if code != 127 && tolerates_partial && t.len() > 0 && has_answer(raw) {
        return (ProbeStatus::Partial, partial_note(code));
    }
    if code == 127 || tells_missing(l) {
        return (ProbeStatus::Unsupported, first_error(raw));
    }
    if tells_denied(l) {
        return (ProbeStatus::Denied, first_error(raw));
    }
    if tolerates_partial && t.len() > 0 {
        return (ProbeStatus::Partial, partial_note(code));
    }
    (ProbeStatus::Failed, first_error(raw))
}

fn partial_note(code: i32) -> (r: String)
    ensures
        r@ == note_for(ProbeStatus::Partial, seq![], code),
{
    let n = decimal_int(code as i64);
    cat3("exited ", n.as_str(), "; some paths were unreadable, the rest is shown")
}

pub fn classify(raw: &str, code: i32, tolerates_partial: bool) -> (r: (ProbeStatus, String))
    ensures
        r.0 == status_of(raw@, lowercase(raw@), code, tolerates_partial),
        is_ascii_text(raw@) ==> r.0 == status_of(
            raw@,
            ascii_lowered(raw@),
            code,
            tolerates_partial,
        ),
        r.1@ == note_for(r.0, raw@, code),
{
    let lower = to_lowercase(raw);
    classify_lowered(raw, lower.as_str(), code, tolerates_partial)
}

// ------------------------------------------------------------ assembly ----

/// Whether a line is output, not the name of the container runtime.
pub open spec fn is_payload(line: Seq<char>) -> bool {
    !"##RUNTIME"@.is_prefix_of(line)
}

/// The lines that are output.
pub open spec fn payload_rule() -> spec_fn(Seq<char>) -> Option<Seq<char>> {
    |line: Seq<char>|
        if is_payload(line) {
            Some(line)
        } else {
            None
        }
}

/// The container rows of a section.
pub open spec fn container_body(raw: Seq<char>) -> Seq<char> {
    joined(lines_of(raw).filter_map(payload_rule()), "\n"@)
}

/// The runtime that a section names.
pub open spec fn runtime_of(raw: Seq<char>) -> Seq<char> {
    if contains_text(raw, "##RUNTIME podman"@) {
        "podman"@
    } else {
        "docker"@
    }
}

/// An audit with the output of one more probe.
pub open spec fn audit_with(a: AuditView, id: Seq<char>, raw: Seq<char>) -> AuditView {
    if id == "host"@ {
        AuditView { host: host_of(lines_of(raw)), ..a }
    } else if id == "listeners"@ {
        AuditView { listeners: listeners_of(raw), ..a }
    } else if id == "containers"@ {
        AuditView {
            containers: lines_of(container_body(raw)).filter_map(container_rule(runtime_of(raw))),
            ..a
        }
    } else if id == "services"@ {
        AuditView { services: lines_of(raw).filter_map(service_rule()), ..a }
    } else if id == "unitfiles"@ {
        AuditView { unit_files: lines_of(raw).filter_map(unit_file_rule()), ..a }
    } else if id == "timers"@ {
        AuditView { timers: lines_of(raw).filter_map(timer_rule()), ..a }
    } else if id == "df"@ {
        AuditView { filesystems: df_of(raw), ..a }
    } else if id == "inodes"@ {
        AuditView { filesystems: inodes_of(a.filesystems, lines_of(raw)), ..a }
    } else if id == "du"@ {
        AuditView { dir_usage: sorted(lines_of(raw).filter_map(du_rule()), rank::<DirUsage>()), ..a }
    } else if id == "cron"@ {
        AuditView { cron: cron_of(lines_of(raw)), ..a }
    } else {
        a
    }
}

/// What came of a probe, from its section; a probe without a section failed.
pub open spec fn outcome_of(
    spec: ProbeSpecView,
    sections: Map<Seq<char>, (Seq<char>, i32)>,
) -> ProbeOutcomeView {
    if sections.dom().contains(spec.id) {
        let (raw, code) = sections[spec.id];
        let status = status_of(raw, lowercase(raw), code, spec.tolerates_partial);
        ProbeOutcomeView {
            id: spec.id,
            label: spec.label,
            command: spec.display,
            status,
            exit_code: code,
            note: note_for(status, raw, code),
            raw,
        }
    } else {
        ProbeOutcomeView {
            id: spec.id,
            label: spec.label,
            command: spec.display,
            status: ProbeStatus::Failed,
            exit_code: -1i32,
            note: "probe produced no output section"@,
            raw: seq![],
        }
    }
}

/// An audit after one more probe: its outcome is recorded, and its output is
/// read where there is any.
#[verifier::opaque]
pub open spec fn audit_after(
    a: AuditView,
    spec: ProbeSpecView,
    sections: Map<Seq<char>, (Seq<char>, i32)>,
) -> AuditView {
    let o = outcome_of(spec, sections);
    let b = if o.status.holds_data() {
        audit_with(a, spec.id, o.raw)
    } else {
        a
    };
    AuditView { probes: b.probes.push(o), ..b }
}

/// An audit after all the probes.
pub open spec fn collected(
    start: AuditView,
    specs: Seq<ProbeSpecView>,
    sections: Map<Seq<char>, (Seq<char>, i32)>,
) -> AuditView
    decreases specs.len(),
{
    if specs.len() == 0 {
        start
    } else {
        audit_after(collected(start, specs.drop_last(), sections), specs.last(), sections)
    }
}

/// An audit that nothing is in yet.
pub open spec fn blank_audit(
    target: Seq<char>,
    collected_at: Seq<char>,
    duration_ms: u64,
) -> AuditView {
    AuditView {
        schema: SCHEMA_VERSION,
        target,
        collected_at,
        duration_ms,
        host: HostInfoView::empty(),
        listeners: seq![],
        containers: seq![],
        services: seq![],
        unit_files: seq![],
        timers: seq![],
        filesystems: seq![],
        dir_usage: seq![],
        cron: seq![],
        probes: seq![],
        findings: seq![],
    }
}

/// A fully populated, analysed audit.
pub open spec fn assembled(
    target: Seq<char>,
    specs: Seq<ProbeSpecView>,
    sections: Map<Seq<char>, (Seq<char>, i32)>,
    duration_ms: u64,
    collected_at: Seq<char>,
) -> AuditView {
    analysed(collected(blank_audit(target, collected_at, duration_ms), specs, sections))
}

fn payload(line: &[char]) -> (r: Option<String>)
    ensures
        viewed(r) == payload_rule()(line@),
{
    if begins_with(line, "##RUNTIME") {
        None
    } else {
        Some(string_of(line))
    }
}

fn read_section(a: Audit, id: &str, raw: &str) -> (r: Audit)
    ensures
        r@ == audit_with(a@, id@, raw@),
{
    if eq(id, "host") {
        Audit { host: parse_host(raw), ..a }
    } else if eq(id, "listeners") {
        Audit { listeners: parse_listeners(raw), ..a }
    } else if eq(id, "containers") {
        let cs = chars_of(raw);
        let runtime = if holds_text(cs.as_slice(), "##RUNTIME podman") {
            "podman"
        } else {
            "docker"
        };
        let kept = each_line(raw, payload, Ghost(payload_rule()));
        let body = join(&kept, "\n");
        Audit { containers: parse_containers(body.as_str(), runtime), ..a }
    } else if eq(id, "services") {
        Audit { services: parse_services(raw), ..a }
    } else if eq(id, "unitfiles") {
        Audit { unit_files: parse_unit_files(raw), ..a }
    } else if eq(id, "timers") {
        Audit { timers: parse_timers(raw), ..a }
    } else if eq(id, "df") {
        Audit { filesystems: parse_df(raw), ..a }
    } else if eq(id, "inodes") {
        let mut a = a;
        merge_inodes(&mut a.filesystems, raw);
        a
    } else if eq(id, "du") {
        Audit { dir_usage: parse_du(raw), ..a }
    } else if eq(id, "cron") {
        Audit { cron: parse_cron(raw), ..a }
    } else {
        a
    }
}

fn outcome(spec: &ProbeSpec, sections: &Sections) -> (r: ProbeOutcome)
    ensures
        r@ == outcome_of(spec@, sections@),
{
    match sections.get(spec.id) {
        Some(section) => {
            let code: i32 = section.1;
            let (status, note) = classify(section.0.as_str(), code, spec.tolerates_partial);
            ProbeOutcome {
                id: spec.id.to_string(),
                label: spec.label.to_string(),
                command: spec.display.clone(),
                status,
                exit_code: code,
                note,
                raw: section.0.clone(),
            }
        },
        None => {
            let raw = String::new();
            assert(raw@ =~= seq![]);
            ProbeOutcome {
                id: spec.id.to_string(),
                label: spec.label.to_string(),
                command: spec.display.clone(),
                status: ProbeStatus::Failed,
                exit_code: -1,
                note: "probe produced no output section".to_string(),
                raw,
            }
        },
    }
}

fn start(target: &str, collected_at: String, duration_ms: u64) -> (r: Audit)
    ensures
        r@ == blank_audit(target@, collected_at@, duration_ms),
{
    let r = Audit {
        schema: SCHEMA_VERSION,
        target: target.to_string(),
        collected_at,
        duration_ms,
        ..Audit::default()
    };
    assert(r@ =~= blank_audit(target@, collected_at@, duration_ms));
    r
}

fn record(a: Audit, spec: &ProbeSpec, sections: &Sections) -> (r: Audit)
    ensures
        r@ == audit_after(a@, spec@, sections@),
{
    proof {
        reveal(audit_after);
    }
    let o = outcome(spec, sections);
    let mut b = if o.status.has_data() {
        read_section(a, spec.id, o.raw.as_str())
    } else {
        a
    };
    let ghost seen = o@;
    let ghost before = b.probes@;
    b.probes.push(o);
    assert(views(b.probes@) =~= views(before).push(seen));
    b
}

fn collect(start: Audit, specs: &[ProbeSpec], sections: &Sections) -> (r: Audit)
    ensures
        r@ == collected(start@, views(specs@), sections@),
{
    let ghost blank = start@;
    let ghost all = views(specs@);
    let mut a = start;
    let mut i: usize = 0;
    assert(all.take(0).len() == 0);
    while i < specs.len()
        invariant
            i <= specs.len(),
            all == views(specs@),
            a@ == collected(blank, all.take(i as int), sections@),
        decreases specs.len() - i,
    {
        assert(all.take(i + 1).drop_last() =~= all.take(i as int));
        assert(all.take(i + 1).last() == specs@[i as int]@);
        a = record(a, &specs[i], sections);
        i += 1;
    }
    assert(all.take(all.len() as int) =~= all);
    a
}

/// An audit with its findings.
pub open spec fn analysed(a: AuditView) -> AuditView {
    AuditView { findings: findings_of(a), ..a }
}

fn finish(a: Audit) -> (r: Audit)
    ensures
        r@ == analysed(a@),
{
    let findings = analyze(&a);
    Audit { findings, ..a }
}

/// `assemble` for an audit that was collected at a given time.
pub fn assemble_at(
    target: &str,
    specs: &[ProbeSpec],
    sections: &Sections,
    duration_ms: u64,
    collected_at: String,
) -> (r: Audit)
    ensures
        r@ == assembled(target@, views(specs@), sections@, duration_ms, collected_at@),
{
    let blank = start(target, collected_at, duration_ms);
    finish(collect(blank, specs, sections))
}

/// A character of a date and time.
pub open spec fn is_moment_char(c: char) -> bool {
    is_digit(c) || c == '-' || c == '+' || c == ':' || c == '.' || c == 'T'
}

/// Whether a text can be a date and time as RFC 3339 writes them: digits and marks,
/// at the end the distance from UTC, hours and minutes behind a sign.
pub open spec fn is_moment(s: Seq<char>) -> bool {
    let n = s.len();
    &&& n >= 25
    &&& forall|i: int| 0 <= i < n ==> is_moment_char(#[trigger] s[i])
    &&& s.contains('T')
    &&& s[n - 6] == '+' || s[n - 6] == '-'
    &&& is_digit(s[n - 5]) && is_digit(s[n - 4])
    &&& s[n - 3] == ':'
    &&& is_digit(s[n - 2]) && is_digit(s[n - 1])
}

/// `chrono::Local::now` and `DateTime::to_rfc3339`: the time on this machine's
/// clock, in its time zone. The year is written with at least four digits, and with
/// a sign where it needs more or is negative; month, day, hour, minute and second
/// with two; a fraction of the second behind a point where there is one; and the
/// distance from UTC with a sign, two digits, a colon and two digits. Which time it
/// is is left unsaid.
#[verifier::external_body]
fn current_time() -> (r: String)
    ensures
        is_moment(r@),
{
    chrono::Local::now().to_rfc3339()
}

/// Turn raw sections into a fully populated, analysed [`Audit`].
pub fn assemble(target: &str, specs: &[ProbeSpec], sections: &Sections, duration_ms: u64) -> (r:
    Audit)
    ensures
        r@ == assembled(target@, views(specs@), sections@, duration_ms, r@.collected_at),
        is_moment(r@.collected_at),
{
    let now = current_time();
    let ghost t = now@;
    let r = assemble_at(target, specs, sections, duration_ms, now);
    proof {
        lemma_collected_at(
            blank_audit(target@, t, duration_ms),
            views(specs@),
            sections@,
        );
    }
    r
}

proof fn lemma_collected_at(
    start: AuditView,
    specs: Seq<ProbeSpecView>,
    sections: Map<Seq<char>, (Seq<char>, i32)>,
)
    ensures
        collected(start, specs, sections).collected_at == start.collected_at,
    decreases specs.len(),
{
    reveal(audit_after);
    if specs.len() > 0 {
        lemma_collected_at(start, specs.drop_last(), sections);
    }
}

// ---------------------------------------------------------------- laws ----

/// Whether a line is a marker of this run.
pub open spec fn is_marker(line: Seq<char>, nonce: Seq<char>) -> bool {
    ||| begin_mark(nonce).is_prefix_of(trimmed(line))
    ||| end_mark(nonce).is_prefix_of(trimmed(line))
}

/// What a probe prints cannot forge a section boundary: a line that is no
/// marker of this run, whatever markers it imitates, only adds to the section
/// that is open.
pub proof fn law_payload_stays_payload(c: Cut, line: Seq<char>, nonce: Seq<char>)
    requires
        !is_marker(line, nonce),
    ensures
        cut_after(c, line, nonce).done == c.done,
        cut_after(c, line, nonce).open == (match c.open {
            Some((id, lines)) => Some((id, lines.push(line))),
            None => None,
        }),
{
}

/// A marker begins with the run's nonce.
pub proof fn law_markers_carry_the_nonce(line: Seq<char>, nonce: Seq<char>)
    requires
        !("###"@ + nonce + ":"@).is_prefix_of(trimmed(line)),
    ensures
        !is_marker(line, nonce),
{
    let p = "###"@ + nonce + ":"@;
    let t = trimmed(line);
    reveal_strlit("###");
    reveal_strlit(":");
    reveal_strlit(":B:");
    reveal_strlit(":E:");
    if begin_mark(nonce).is_prefix_of(t) {
        assert(begin_mark(nonce).take(p.len() as int) =~= p);
        assert(t.take(p.len() as int) =~= p);
    }
    if end_mark(nonce).is_prefix_of(t) {
        assert(end_mark(nonce).take(p.len() as int) =~= p);
        assert(t.take(p.len() as int) =~= p);
    }
}

/// A probe's output between two markers, the second with the exit code, each marker
/// on a line of its own.
pub open spec fn frame(id: Seq<char>, body: Seq<char>, code: i32, nonce: Seq<char>) -> Seq<char> {
    begin_line(id, nonce).push('\n') + body.push('\n') + end_line(id, code, nonce).push('\n')
}

/// What the script makes a probe's output: a frame, with a line break before it that
/// completes whatever was printed before.
pub open spec fn framed(id: Seq<char>, body: Seq<char>, code: i32, nonce: Seq<char>) -> Seq<char> {
    seq!['\n'] + frame(id, body, code, nonce)
}

/// A text without the line breaks around it.
pub open spec fn unframed(body: Seq<char>) -> Seq<char> {
    strip_back(strip_front(body, Class::Only('\n')), Class::Only('\n'))
}

proof fn lemma_body_lines(before: Seq<Seq<char>>, body: Seq<Seq<char>>, nonce: Seq<char>)
    requires
        cut_of(before, nonce).open is Some,
        forall|j: int| 0 <= j < body.len() ==> !is_marker(#[trigger] body[j], nonce),
    ensures
        cut_of(before + body, nonce) == (Cut {
            open: Some(
                ((cut_of(before, nonce).open->0).0, (cut_of(before, nonce).open->0).1 + body),
            ),
            ..cut_of(before, nonce)
        }),
    decreases body.len(),
{
    let c = cut_of(before, nonce);
    if body.len() == 0 {
        assert(before + body =~= before);
        assert((c.open->0).1 + body =~= (c.open->0).1);
    } else {
        let rest = body.drop_last();
        assert forall|j: int| 0 <= j < rest.len() implies !is_marker(#[trigger] rest[j], nonce) by {
            assert(rest[j] == body[j]);
        }
        lemma_body_lines(before, rest, nonce);
        assert((before + body).drop_last() =~= before + rest);
        assert((before + body).last() == body[body.len() - 1]);
        law_payload_stays_payload(cut_of(before + rest, nonce), body.last(), nonce);
        assert(((c.open->0).1 + rest).push(body.last()) =~= (c.open->0).1 + body);
    }
}

proof fn lemma_begin_line(c: Cut, id: Seq<char>, nonce: Seq<char>)
    requires
        is_word(id),
    ensures
        cut_after(c, begin_mark(nonce) + id, nonce) == (Cut { open: Some((id, seq![])), ..c }),
{
    let m = begin_mark(nonce);
    let line = m + id;
    reveal_strlit("###");
    assert(line[0] == '#');
    assert(line.last() == id[id.len() - 1]);
    lemma_trimmed_already(line);
    assert(line.take(m.len() as int) =~= m);
    assert(line.skip(m.len() as int) =~= id);
    assert(id.last() == id[id.len() - 1]);
    lemma_trimmed_already(id);
}

proof fn lemma_end_line(c: Cut, id: Seq<char>, code: i32, nonce: Seq<char>)
    requires
        is_word(id),
        c.open is Some,
        (c.open->0).0.len() > 0,
    ensures
        cut_after(c, end_mark(nonce) + id + seq![' '] + dec_int(code as int), nonce) == (Cut {
            done: c.done.insert((c.open->0).0, (body_of((c.open->0).1), code)),
            open: None,
        }),
{
    let m = end_mark(nonce);
    let b = begin_mark(nonce);
    let d = dec_int(code as int);
    let line = m + id + seq![' '] + d;
    let rest = id + seq![' '] + d;
    lemma_dec_int_reads_back(code as int, i32::MAX as nat);
    reveal_strlit("###");
    reveal_strlit(":B:");
    reveal_strlit(":E:");
    assert(line[0] == '#');
    assert(line.last() == d[d.len() - 1]);
    lemma_trimmed_already(line);
    assert(line.take(m.len() as int) =~= m);
    assert(line.skip(m.len() as int) =~= rest);
    let p = 4 + nonce.len();
    assert(b[p as int] == 'B');
    assert(m[p as int] == 'E');
    assert(line[p as int] == m[p as int]);
    assert(!b.is_prefix_of(line)) by {
        if b.is_prefix_of(line) {
            assert(line.take(b.len() as int)[p as int] == b[p as int]);
        }
    }
    lemma_two_words(id, d);
}

/// The line that opens a section.
pub open spec fn begin_line(id: Seq<char>, nonce: Seq<char>) -> Seq<char> {
    begin_mark(nonce) + id
}

/// The line that closes a section.
pub open spec fn end_line(id: Seq<char>, code: i32, nonce: Seq<char>) -> Seq<char> {
    end_mark(nonce) + id + seq![' '] + dec_int(code as int)
}

proof fn lemma_marker_lines(id: Seq<char>, code: i32, nonce: Seq<char>)
    requires
        is_word(id),
        !nonce.contains('\n'),
    ensures
        lines_of(begin_line(id, nonce).push('\n')) == seq![begin_line(id, nonce)],
        lines_of(end_line(id, code, nonce).push('\n')) == seq![end_line(id, code, nonce)],
{
    let begin = begin_line(id, nonce);
    let end = end_line(id, code, nonce);
    let d = dec_int(code as int);
    reveal_strlit("###");
    reveal_strlit(":B:");
    reveal_strlit(":E:");
    lemma_dec_int_reads_back(code as int, i32::MAX as nat);
    assert forall|j: int| 0 <= j < begin.len() implies begin[j] != '\n' by {
        let m = begin_mark(nonce);
        if j >= m.len() {
            assert(begin[j] == id[j - m.len()]);
        } else if 3 <= j < 3 + nonce.len() {
            assert(begin[j] == nonce[j - 3]);
        }
    }
    assert forall|j: int| 0 <= j < end.len() implies end[j] != '\n' by {
        let m = end_mark(nonce);
        if j >= m.len() + id.len() + 1 {
            assert(end[j] == d[j - m.len() - id.len() - 1]);
        } else if m.len() <= j < m.len() + id.len() {
            assert(end[j] == id[j - m.len()]);
        } else if 3 <= j < 3 + nonce.len() {
            assert(end[j] == nonce[j - 3]);
        }
    }
    assert(begin.last() == id[id.len() - 1]);
    assert(end.last() == d[d.len() - 1]);
    lemma_one_line(begin);
    lemma_one_line(end);
}

proof fn lemma_frame_lines(
    before: Seq<char>,
    id: Seq<char>,
    body: Seq<char>,
    code: i32,
    nonce: Seq<char>,
)
    requires
        before.len() > 0 ==> before.last() == '\n',
        is_word(id),
        !nonce.contains('\n'),
        !body.contains('\r'),
    ensures
        lines_of(before + frame(id, body, code, nonce)) == lines_of(before).push(
            begin_line(id, nonce),
        ) + pieces(body, '\n') + seq![end_line(id, code, nonce)],
{
    let begin = begin_line(id, nonce).push('\n');
    let end = end_line(id, code, nonce).push('\n');
    lemma_marker_lines(id, code, nonce);
    lemma_lines_are_pieces(body);
    let p2 = before + begin;
    let p3 = p2 + body.push('\n');
    assert(before + frame(id, body, code, nonce) =~= p3 + end);
    lemma_lines_concat(before, begin);
    lemma_lines_concat(p2, body.push('\n'));
    lemma_lines_concat(p3, end);
    assert(lines_of(p2) =~= lines_of(before).push(begin_line(id, nonce)));
}

proof fn lemma_section_lines(
    before: Seq<Seq<char>>,
    id: Seq<char>,
    body: Seq<Seq<char>>,
    code: i32,
    nonce: Seq<char>,
)
    requires
        is_word(id),
        forall|j: int| 0 <= j < body.len() ==> !is_marker(#[trigger] body[j], nonce),
    ensures
        cut_of(
            before.push(begin_line(id, nonce)) + body + seq![end_line(id, code, nonce)],
            nonce,
        ).done == cut_of(before, nonce).done.insert(id, (body_of(body), code)),
{
    let l2 = before.push(begin_line(id, nonce));
    let l3 = l2 + body;
    let l4 = l3 + seq![end_line(id, code, nonce)];
    assert(l2.drop_last() =~= before);
    lemma_begin_line(cut_of(before, nonce), id, nonce);
    lemma_body_lines(l2, body, nonce);
    assert(seq![] + body =~= body);
    assert(l4.drop_last() =~= l3);
    assert(l4.last() == end_line(id, code, nonce));
    lemma_end_line(cut_of(l3, nonce), id, code, nonce);
}

proof fn lemma_empty_line(before: Seq<Seq<char>>, nonce: Seq<char>)
    ensures
        cut_of(before.push(seq![]), nonce).done == cut_of(before, nonce).done,
{
    let e = Seq::<char>::empty();
    assert(before.push(e).drop_last() =~= before);
    lemma_first_out_is(e, Class::Space, 0);
    assert(strip_front(e, Class::Space) =~= e);
    assert(trimmed(e).len() == 0);
    reveal_strlit("###");
    law_payload_stays_payload(cut_of(before, nonce), e, nonce);
}

/// A line break at the end of the output neither makes nor breaks a section.
proof fn lemma_final_break(before: Seq<char>, nonce: Seq<char>)
    ensures
        sections_of(before.push('\n'), nonce) == sections_of(before, nonce),
{
    let gap = seq!['\n'];
    if before.len() == 0 || before.last() == '\n' {
        lemma_one_line(seq![]);
        assert(Seq::<char>::empty().push('\n') =~= gap);
        assert(before.push('\n') =~= before + gap);
        lemma_lines_concat(before, gap);
        assert(lines_of(before + gap) =~= lines_of(before).push(seq![]));
        lemma_empty_line(lines_of(before), nonce);
    } else {
        lemma_last_line(before);
        let l = lines_of(before);
        let m = lines_of(before.push('\n'));
        assert(m.drop_last() =~= l.drop_last());
        lemma_trimmed_cr(l.last());
    }
}

/// What a probe printed comes back: behind output that ends with a line break, or
/// none, a frame adds a section under its id with its exit code and its text, but
/// for line breaks around the text.
pub proof fn law_frames_come_back(
    before: Seq<char>,
    id: Seq<char>,
    body: Seq<char>,
    code: i32,
    nonce: Seq<char>,
)
    requires
        before.len() > 0 ==> before.last() == '\n',
        is_word(id),
        !nonce.contains('\n'),
        !body.contains('\r'),
        forall|j: int|
            0 <= j < pieces(body, '\n').len() ==> !is_marker(
                #[trigger] pieces(body, '\n')[j],
                nonce,
            ),
    ensures
        sections_of(before + frame(id, body, code, nonce), nonce) == sections_of(
            before,
            nonce,
        ).insert(id, (unframed(body), code)),
{
    lemma_frame_lines(before, id, body, code, nonce);
    lemma_section_lines(lines_of(before), id, pieces(body, '\n'), code, nonce);
    lemma_joined_pieces(body, '\n');
    reveal_strlit("\n");
    assert("\n"@ =~= seq!['\n']);
}

/// The same behind any output, for a frame as the script prints it, with a line
/// break before it.
pub proof fn law_sections_round_trip(
    before: Seq<char>,
    id: Seq<char>,
    body: Seq<char>,
    code: i32,
    nonce: Seq<char>,
)
    requires
        is_word(id),
        !nonce.contains('\n'),
        !body.contains('\r'),
        forall|j: int|
            0 <= j < pieces(body, '\n').len() ==> !is_marker(
                #[trigger] pieces(body, '\n')[j],
                nonce,
            ),
    ensures
        sections_of(before + framed(id, body, code, nonce), nonce) == sections_of(
            before,
            nonce,
        ).insert(id, (unframed(body), code)),
{
    law_frames_come_back(before.push('\n'), id, body, code, nonce);
    lemma_final_break(before, nonce);
    assert(before + framed(id, body, code, nonce) =~= before.push('\n') + frame(
        id,
        body,
        code,
        nonce,
    ));
}

/// What one probe printed, and how it ended.
pub struct Printed {
    pub id: Seq<char>,
    pub body: Seq<char>,
    pub code: i32,
}

/// The output of a run: what stood there before it, then every probe's part.
pub open spec fn transcript(noise: Seq<char>, run: Seq<Printed>, nonce: Seq<char>) -> Seq<char>
    decreases run.len(),
{
    if run.len() == 0 {
        noise
    } else {
        transcript(noise, run.drop_last(), nonce) + framed(
            run.last().id,
            run.last().body,
            run.last().code,
            nonce,
        )
    }
}

/// The sections with every probe's part under its id.
pub open spec fn filed(
    sections: Map<Seq<char>, (Seq<char>, i32)>,
    run: Seq<Printed>,
) -> Map<Seq<char>, (Seq<char>, i32)>
    decreases run.len(),
{
    if run.len() == 0 {
        sections
    } else {
        filed(sections, run.drop_last()).insert(
            run.last().id,
            (unframed(run.last().body), run.last().code),
        )
    }
}

/// A probe whose output holds no marker of this run.
pub open spec fn is_plain(p: Printed, nonce: Seq<char>) -> bool {
    &&& is_word(p.id)
    &&& !p.body.contains('\r')
    &&& forall|j: int|
        0 <= j < pieces(p.body, '\n').len() ==> !is_marker(
            #[trigger] pieces(p.body, '\n')[j],
            nonce,
        )
}

/// A whole run comes back: every probe's part under its id, whatever the remote
/// side printed before the first.
pub proof fn law_whole_run_comes_back(noise: Seq<char>, run: Seq<Printed>, nonce: Seq<char>)
    requires
        !nonce.contains('\n'),
        forall|i: int| 0 <= i < run.len() ==> is_plain(#[trigger] run[i], nonce),
    ensures
        sections_of(transcript(noise, run, nonce), nonce) == filed(
            sections_of(noise, nonce),
            run,
        ),
    decreases run.len(),
{
    if run.len() > 0 {
        let rest = run.drop_last();
        assert forall|i: int| 0 <= i < rest.len() implies is_plain(#[trigger] rest[i], nonce) by {
            assert(rest[i] == run[i]);
        }
        law_whole_run_comes_back(noise, rest, nonce);
        let p = run[run.len() - 1];
        assert(is_plain(p, nonce));
        law_sections_round_trip(transcript(noise, rest, nonce), p.id, p.body, p.code, nonce);
    }
}

/// The output of a run whose frames follow one another directly.
pub open spec fn adjacent(noise: Seq<char>, run: Seq<Printed>, nonce: Seq<char>) -> Seq<char>
    decreases run.len(),
{
    if run.len() == 0 {
        noise
    } else {
        adjacent(noise, run.drop_last(), nonce) + frame(
            run.last().id,
            run.last().body,
            run.last().code,
            nonce,
        )
    }
}

/// A run whose frames follow one another directly comes back just as well.
pub proof fn law_adjacent_frames_come_back(noise: Seq<char>, run: Seq<Printed>, nonce: Seq<char>)
    requires
        noise.len() > 0 ==> noise.last() == '\n',
        !nonce.contains('\n'),
        forall|i: int| 0 <= i < run.len() ==> is_plain(#[trigger] run[i], nonce),
    ensures
        sections_of(adjacent(noise, run, nonce), nonce) == filed(sections_of(noise, nonce), run),
        adjacent(noise, run, nonce).len() > 0 ==> adjacent(noise, run, nonce).last() == '\n',
    decreases run.len(),
{
    if run.len() > 0 {
        let rest = run.drop_last();
        assert forall|i: int| 0 <= i < rest.len() implies is_plain(#[trigger] rest[i], nonce) by {
            assert(rest[i] == run[i]);
        }
        law_adjacent_frames_come_back(noise, rest, nonce);
        let p = run[run.len() - 1];
        assert(is_plain(p, nonce));
        law_frames_come_back(adjacent(noise, rest, nonce), p.id, p.body, p.code, nonce);
        assert(frame(p.id, p.body, p.code, nonce).last() == '\n');
    }
}

proof fn lemma_no_section(lines: Seq<Seq<char>>, nonce: Seq<char>)
    requires
        forall|i: int| 0 <= i < lines.len() ==> !is_marker(#[trigger] lines[i], nonce),
    ensures
        cut_of(lines, nonce) == (Cut { done: Map::empty(), open: None }),
    decreases lines.len(),
{
    if lines.len() > 0 {
        let rest = lines.drop_last();
        assert forall|i: int| 0 <= i < rest.len() implies !is_marker(#[trigger] rest[i], nonce) by {
            assert(rest[i] == lines[i]);
        }
        lemma_no_section(rest, nonce);
        law_payload_stays_payload(cut_of(rest, nonce), lines[lines.len() - 1], nonce);
    }
}

proof fn lemma_filed(run: Seq<Printed>)
    requires
        forall|i: int, j: int|
            0 <= i < j < run.len() ==> (#[trigger] run[i]).id != (#[trigger] run[j]).id,
    ensures
        forall|id: Seq<char>| #[trigger]
            filed(Map::empty(), run).dom().contains(id) <==> exists|i: int|
                0 <= i < run.len() && (#[trigger] run[i]).id == id,
        forall|i: int|
            0 <= i < run.len() ==> filed(Map::empty(), run)[(#[trigger] run[i]).id] == (
                unframed(run[i].body),
                run[i].code,
            ),
    decreases run.len(),
{
    if run.len() > 0 {
        let rest = run.drop_last();
        let last = run[run.len() - 1];
        assert forall|i: int, j: int| 0 <= i < j < rest.len() implies (#[trigger] rest[i]).id != (
        #[trigger] rest[j]).id by {
            assert(rest[i] == run[i] && rest[j] == run[j]);
        }
        lemma_filed(rest);
        let m = filed(Map::empty(), rest);
        let all = filed(Map::empty(), run);
        assert(all == m.insert(last.id, (unframed(last.body), last.code)));
        assert forall|id: Seq<char>| #[trigger] all.dom().contains(id) <==> exists|i: int|
            0 <= i < run.len() && (#[trigger] run[i]).id == id by {
            if m.dom().contains(id) {
                let i = choose|i: int| 0 <= i < rest.len() && (#[trigger] rest[i]).id == id;
                assert(run[i].id == id);
            }
            if exists|i: int| 0 <= i < run.len() && (#[trigger] run[i]).id == id {
                let i = choose|i: int| 0 <= i < run.len() && (#[trigger] run[i]).id == id;
                if i < rest.len() {
                    assert(rest[i].id == id);
                }
            }
        }
        assert forall|i: int| 0 <= i < run.len() implies all[(#[trigger] run[i]).id] == (
            unframed(run[i].body),
            run[i].code,
        ) by {
            if i < rest.len() {
                assert(rest[i] == run[i]);
                assert(run[i].id != last.id);
            }
        }
    }
}

proof fn lemma_unframed_already(body: Seq<char>)
    requires
        body.len() > 0 ==> body[0] != '\n' && body.last() != '\n',
    ensures
        unframed(body) == body,
{
    let k = Class::Only('\n');
    lemma_first_out_is(body, k, 0);
    assert(strip_front(body, k) =~= body);
    if body.len() > 0 {
        assert(last_out(body, k) == body.len() - 1);
    }
    assert(strip_back(body, k) =~= body);
}

/// Cutting undoes framing: of a run with different ids, whose texts hold no markers
/// and have no line breaks around them, behind output without markers, the sections
/// are exactly the texts and exit codes under their ids, and what stood before the
/// first marker is dropped. That holds of frames that follow one another directly
/// and of frames as the script prints them.
pub proof fn law_cutting_undoes_framing(noise: Seq<char>, run: Seq<Printed>, nonce: Seq<char>)
    requires
        !nonce.contains('\n'),
        forall|i: int|
            0 <= i < lines_of(noise).len() ==> !is_marker(#[trigger] lines_of(noise)[i], nonce),
        forall|i: int| 0 <= i < run.len() ==> is_plain(#[trigger] run[i], nonce),
        forall|i: int|
            0 <= i < run.len() && (#[trigger] run[i]).body.len() > 0 ==> run[i].body[0] != '\n'
                && run[i].body.last() != '\n',
        forall|i: int, j: int|
            0 <= i < j < run.len() ==> (#[trigger] run[i]).id != (#[trigger] run[j]).id,
    ensures
        ({
            let sections = sections_of(transcript(noise, run, nonce), nonce);
            &&& forall|id: Seq<char>| #[trigger]
                sections.dom().contains(id) <==> exists|i: int|
                    0 <= i < run.len() && (#[trigger] run[i]).id == id
            &&& forall|i: int|
                0 <= i < run.len() ==> sections[(#[trigger] run[i]).id] == (
                    run[i].body,
                    run[i].code,
                )
            &&& noise.len() == 0 || noise.last() == '\n' ==> sections_of(
                adjacent(noise, run, nonce),
                nonce,
            ) == sections
        }),
{
    lemma_no_section(lines_of(noise), nonce);
    law_whole_run_comes_back(noise, run, nonce);
    if noise.len() == 0 || noise.last() == '\n' {
        law_adjacent_frames_come_back(noise, run, nonce);
    }
    lemma_filed(run);
    assert forall|i: int| 0 <= i < run.len() implies filed(Map::empty(), run)[(
    #[trigger] run[i]).id] == (run[i].body, run[i].code) by {
        lemma_unframed_already(run[i].body);
    }
}

/// Where a probe has data, it was able to look.
pub proof fn law_data_means_looked(s: ProbeStatus)
    requires
        s.holds_data(),
    ensures
        s.was_seen(),
{
}

/// A probe adds its outcome, and only that, to those before it.
proof fn lemma_recorded(
    a: AuditView,
    spec: ProbeSpecView,
    sections: Map<Seq<char>, (Seq<char>, i32)>,
)
    ensures
        audit_after(a, spec, sections).probes == a.probes.push(outcome_of(spec, sections)),
{
    reveal(audit_after);
}

/// Every probe leaves one outcome, in the order of the probes, and what its
/// section says is what the outcome says.
#[verifier::spinoff_prover]
pub proof fn law_every_probe_is_recorded(
    start: AuditView,
    specs: Seq<ProbeSpecView>,
    sections: Map<Seq<char>, (Seq<char>, i32)>,
)
    ensures
        collected(start, specs, sections).probes == start.probes + Seq::new(
            specs.len(),
            |i: int| outcome_of(specs[i], sections),
        ),
    decreases specs.len(),
{
    let outcomes = Seq::new(specs.len(), |i: int| outcome_of(specs[i], sections));
    if specs.len() == 0 {
        assert(start.probes + outcomes =~= start.probes);
    } else {
        let rest = specs.drop_last();
        let last = outcome_of(specs.last(), sections);
        let some = Seq::new(rest.len(), |i: int| outcome_of(rest[i], sections));
        law_every_probe_is_recorded(start, rest, sections);
        lemma_recorded(collected(start, rest, sections), specs.last(), sections);
        assert(outcomes =~= some.push(last));
        assert(start.probes + outcomes =~= (start.probes + some).push(last));
    }
}

/// The ids of the probes are different texts.
proof fn lemma_ids_differ()
    ensures
        "host"@ != "listeners"@,
        "host"@ != "containers"@,
        "host"@ != "services"@,
        "host"@ != "unitfiles"@,
        "host"@ != "timers"@,
        "host"@ != "df"@,
        "host"@ != "inodes"@,
        "host"@ != "du"@,
        "host"@ != "cron"@,
        "listeners"@ != "containers"@,
        "listeners"@ != "services"@,
        "listeners"@ != "unitfiles"@,
        "listeners"@ != "timers"@,
        "listeners"@ != "df"@,
        "listeners"@ != "inodes"@,
        "listeners"@ != "du"@,
        "listeners"@ != "cron"@,
        "containers"@ != "services"@,
        "containers"@ != "unitfiles"@,
        "containers"@ != "timers"@,
        "containers"@ != "df"@,
        "containers"@ != "inodes"@,
        "containers"@ != "du"@,
        "containers"@ != "cron"@,
        "services"@ != "unitfiles"@,
        "services"@ != "timers"@,
        "services"@ != "df"@,
        "services"@ != "inodes"@,
        "services"@ != "du"@,
        "services"@ != "cron"@,
        "unitfiles"@ != "timers"@,
        "unitfiles"@ != "df"@,
        "unitfiles"@ != "inodes"@,
        "unitfiles"@ != "du"@,
        "unitfiles"@ != "cron"@,
        "timers"@ != "df"@,
        "timers"@ != "inodes"@,
        "timers"@ != "du"@,
        "timers"@ != "cron"@,
        "df"@ != "inodes"@,
        "df"@ != "du"@,
        "df"@ != "cron"@,
        "inodes"@ != "du"@,
        "inodes"@ != "cron"@,
        "du"@ != "cron"@,
{
    reveal_strlit("host");
    reveal_strlit("listeners");
    reveal_strlit("containers");
    reveal_strlit("services");
    reveal_strlit("unitfiles");
    reveal_strlit("timers");
    reveal_strlit("df");
    reveal_strlit("inodes");
    reveal_strlit("du");
    reveal_strlit("cron");
    assert("host"@.len() == 4);
    assert("listeners"@.len() == 9);
    assert("containers"@.len() == 10);
    assert("services"@.len() == 8);
    assert("unitfiles"@.len() == 9);
    assert("timers"@.len() == 6);
    assert("df"@.len() == 2);
    assert("inodes"@.len() == 6);
    assert("du"@.len() == 2);
    assert("cron"@.len() == 4);
    assert("host"@[0] == 'h' && "cron"@[0] == 'c');
    assert("listeners"@[0] == 'l' && "unitfiles"@[0] == 'u');
    assert("timers"@[0] == 't' && "inodes"@[0] == 'i');
    assert("df"@[1] == 'f' && "du"@[1] == 'u');
}

proof fn lemma_collected_step(
    start: AuditView,
    specs: Seq<ProbeSpecView>,
    sections: Map<Seq<char>, (Seq<char>, i32)>,
    k: int,
)
    requires
        0 <= k < specs.len(),
    ensures
        collected(start, specs.take(k + 1), sections) == audit_after(
            collected(start, specs.take(k), sections),
            specs[k],
            sections,
        ),
{
    assert(specs.take(k + 1).drop_last() =~= specs.take(k));
    assert(specs.take(k + 1).last() == specs[k]);
}

proof fn lemma_parts(
    a: AuditView,
    spec: ProbeSpecView,
    sections: Map<Seq<char>, (Seq<char>, i32)>,
)
    ensures
        ({
            let r = audit_after(a, spec, sections);
            let o = outcome_of(spec, sections);
            let yes = o.status.holds_data();
            &&& r.host == (if spec.id == "host"@ && yes {
                host_of(lines_of(o.raw))
            } else {
                a.host
            })
            &&& r.listeners == (if spec.id == "listeners"@ && yes {
                listeners_of(o.raw)
            } else {
                a.listeners
            })
            &&& r.containers == (if spec.id == "containers"@ && yes {
                lines_of(container_body(o.raw)).filter_map(container_rule(runtime_of(o.raw)))
            } else {
                a.containers
            })
            &&& r.services == (if spec.id == "services"@ && yes {
                lines_of(o.raw).filter_map(service_rule())
            } else {
                a.services
            })
            &&& r.unit_files == (if spec.id == "unitfiles"@ && yes {
                lines_of(o.raw).filter_map(unit_file_rule())
            } else {
                a.unit_files
            })
            &&& r.timers == (if spec.id == "timers"@ && yes {
                lines_of(o.raw).filter_map(timer_rule())
            } else {
                a.timers
            })
            &&& r.dir_usage == (if spec.id == "du"@ && yes {
                sorted(lines_of(o.raw).filter_map(du_rule()), rank::<DirUsage>())
            } else {
                a.dir_usage
            })
            &&& r.cron == (if spec.id == "cron"@ && yes {
                cron_of(lines_of(o.raw))
            } else {
                a.cron
            })
            &&& r.filesystems == (if spec.id == "df"@ && yes {
                df_of(o.raw)
            } else if spec.id == "inodes"@ && yes {
                inodes_of(a.filesystems, lines_of(o.raw))
            } else {
                a.filesystems
            })
            &&& yes ==> o.raw == sections[spec.id].0
        }),
{
    reveal(audit_after);
    lemma_ids_differ();
}

/// Whether the probe with this id, of those that `specs` makes, returned data.
pub open spec fn answered(
    opts: CollectOptionsView,
    sections: Map<Seq<char>, (Seq<char>, i32)>,
    i: int,
) -> bool {
    outcome_of(probes_for(opts)[i], sections).status.holds_data()
}

/// Every part of an audit comes from its own probe and from no other: where the
/// probe returned data, in full or in part, the part is what its parser reads in
/// it, and where it did not, the part is empty.
pub proof fn law_each_probe_fills_its_part(
    target: Seq<char>,
    opts: CollectOptionsView,
    sections: Map<Seq<char>, (Seq<char>, i32)>,
    duration_ms: u64,
    collected_at: Seq<char>,
)
    ensures
        ({
            let a = assembled(target, probes_for(opts), sections, duration_ms, collected_at);
            let out = |id: Seq<char>| sections[id].0;
            let lines = |id: Seq<char>| lines_of(sections[id].0);
            &&& a.host == (if answered(opts, sections, 0) {
                host_of(lines("host"@))
            } else {
                HostInfoView::empty()
            })
            &&& a.listeners == (if answered(opts, sections, 1) {
                listeners_of(out("listeners"@))
            } else {
                seq![]
            })
            &&& a.containers == (if answered(opts, sections, 2) {
                lines_of(container_body(out("containers"@))).filter_map(
                    container_rule(runtime_of(out("containers"@))),
                )
            } else {
                seq![]
            })
            &&& a.services == (if answered(opts, sections, 3) {
                lines("services"@).filter_map(service_rule())
            } else {
                seq![]
            })
            &&& a.unit_files == (if answered(opts, sections, 4) {
                lines("unitfiles"@).filter_map(unit_file_rule())
            } else {
                seq![]
            })
            &&& a.timers == (if answered(opts, sections, 5) {
                lines("timers"@).filter_map(timer_rule())
            } else {
                seq![]
            })
            &&& a.filesystems == inodes_if(
                answered(opts, sections, 7),
                if answered(opts, sections, 6) {
                    df_of(out("df"@))
                } else {
                    seq![]
                },
                lines("inodes"@),
            )
            &&& a.dir_usage == (if answered(opts, sections, 8) {
                sorted(lines("du"@).filter_map(du_rule()), rank::<DirUsage>())
            } else {
                seq![]
            })
            &&& a.cron == (if answered(opts, sections, 9) {
                cron_of(lines("cron"@))
            } else {
                seq![]
            })
        }),
{
    lemma_ids_differ();
    let p = probes_for(opts);
    let start = blank_audit(target, collected_at, duration_ms);
    assert(p.take(0).len() == 0);
    lemma_collected_step(start, p, sections, 0);
    lemma_parts(collected(start, p.take(0), sections), p[0], sections);
    lemma_collected_step(start, p, sections, 1);
    lemma_parts(collected(start, p.take(1), sections), p[1], sections);
    lemma_collected_step(start, p, sections, 2);
    lemma_parts(collected(start, p.take(2), sections), p[2], sections);
    lemma_collected_step(start, p, sections, 3);
    lemma_parts(collected(start, p.take(3), sections), p[3], sections);
    lemma_collected_step(start, p, sections, 4);
    lemma_parts(collected(start, p.take(4), sections), p[4], sections);
    lemma_collected_step(start, p, sections, 5);
    lemma_parts(collected(start, p.take(5), sections), p[5], sections);
    lemma_collected_step(start, p, sections, 6);
    lemma_parts(collected(start, p.take(6), sections), p[6], sections);
    lemma_collected_step(start, p, sections, 7);
    lemma_parts(collected(start, p.take(7), sections), p[7], sections);
    lemma_collected_step(start, p, sections, 8);
    lemma_parts(collected(start, p.take(8), sections), p[8], sections);
    lemma_collected_step(start, p, sections, 9);
    lemma_parts(collected(start, p.take(9), sections), p[9], sections);
    assert(p.take(10) =~= p);
}

/// The filesystems with their inode usage, where that is known.
pub open spec fn inodes_if(
    known: bool,
    fs: Seq<FilesystemView>,
    lines: Seq<Seq<char>>,
) -> Seq<FilesystemView> {
    if known {
        inodes_of(fs, lines)
    } else {
        fs
    }
}

/// What the exit code and the output make of a probe, in the order in which they
/// decide: a probe that was told to skip, one that succeeded, with or without output,
/// and one whose tool is not there, which exit code 127 says whatever was printed.
pub proof fn law_exit_codes_decide(
    raw: Seq<char>,
    lower: Seq<char>,
    code: i32,
    tolerates_partial: bool,
)
    ensures
        trimmed(raw) == "##SKIPPED"@ ==> status_of(raw, lower, code, tolerates_partial) is Skipped,
        trimmed(raw) != "##SKIPPED"@ && code == 0 && trimmed(raw).len() == 0 ==> status_of(
            raw,
            lower,
            code,
            tolerates_partial,
        ) is Empty,
        trimmed(raw) != "##SKIPPED"@ && code == 0 && trimmed(raw).len() > 0 ==> status_of(
            raw,
            lower,
            code,
            tolerates_partial,
        ) is Complete,
        trimmed(raw) != "##SKIPPED"@ && code == 127 ==> status_of(
            raw,
            lower,
            code,
            tolerates_partial,
        ) is Unsupported,
        note_for(ProbeStatus::Unsupported, raw, code) == first_words(lines_of(raw)),
{
}

/// Whether the words of a missing tool stand in an output in lower case.
pub open spec fn names_missing_tool(lower: Seq<char>) -> bool {
    ||| contains_text(lower, "not found"@)
    ||| contains_text(lower, "no such file or directory"@)
    ||| contains_text(lower, "cannot connect to the docker daemon"@) && !contains_text(
        lower,
        "permission denied"@,
    )
}

/// What the words of the output make of a probe that failed and from which nothing
/// is kept: a missing tool comes before a refusal, a refusal before a failure.
pub proof fn law_words_decide(raw: Seq<char>, lower: Seq<char>, code: i32)
    requires
        trimmed(raw) != "##SKIPPED"@,
        code != 0,
        code != 127,
    ensures
        ({
            let status = status_of(raw, lower, code, false);
            let refused = contains_text(lower, "permission denied"@) || contains_text(
                lower,
                "operation not permitted"@,
            ) || contains_text(lower, "must be root"@) || contains_text(lower, "are you root"@)
                || contains_text(lower, "sudo:"@) || contains_text(lower, "access denied"@);
            &&& status is Unsupported <==> names_missing_tool(lower)
            &&& status is Denied <==> refused && !names_missing_tool(lower)
            &&& status is Failed <==> !refused && !names_missing_tool(lower)
            // The same where failing in part is routine, unless a part was answered.
            &&& !holds_answer(raw) && (refused || names_missing_tool(lower) || trimmed(raw).len() == 0)
                ==> status_of(raw, lower, code, true) == status
            &&& trimmed(raw).len() > 0 && !refused && !names_missing_tool(lower) ==> status_of(
                raw,
                lower,
                code,
                true,
            ) is Partial
        }),
{
    reveal_strlit("command not found");
    reveal_strlit("not found");
    if contains_text(lower, "command not found"@) {
        let c = "command "@;
        reveal_strlit("command ");
        assert("command not found"@ =~= c + "not found"@);
        lemma_holds_last(c, "not found"@);
        lemma_holds_through(lower, "command not found"@, "not found"@);
    }
}

/// A probe that returned most of an answer keeps it: where failing in part is
/// routine, one job or one size that was read is enough, whatever the other lines
/// and the exit code say.
pub proof fn law_partial_answers_are_kept(raw: Seq<char>, lower: Seq<char>, code: i32)
    requires
        trimmed(raw).len() > 0,
        trimmed(raw) != "##SKIPPED"@,
        code != 127,
        code != 0 ==> holds_answer(raw) || (!says_missing(lower) && !says_denied(lower)),
    ensures
        status_of(raw, lower, code, true).holds_data(),
        status_of(raw, lower, code, true) is Complete <==> code == 0,
{
}

/// Data only ever comes from a probe that printed something and was not skipped,
/// and without its success only where failing in part is routine and there is an
/// answer, or at least no word of a missing tool or a refusal.
pub proof fn law_data_needs_an_answer(
    raw: Seq<char>,
    lower: Seq<char>,
    code: i32,
    tolerates_partial: bool,
)
    requires
        status_of(raw, lower, code, tolerates_partial).holds_data(),
    ensures
        trimmed(raw).len() > 0,
        trimmed(raw) != "##SKIPPED"@,
        code == 0 || (tolerates_partial && code != 127 && (holds_answer(raw) || (!says_denied(lower)
            && !says_missing(lower)))),
{
}

/// A refusal from which nothing was read is a refusal, also where failing in part is
/// routine and whatever else was printed.
pub proof fn law_refusals_alone_are_denied(
    raw: Seq<char>,
    lower: Seq<char>,
    code: i32,
    tolerates_partial: bool,
)
    requires
        trimmed(raw) != "##SKIPPED"@,
        code != 0,
        code != 127,
        !tolerates_partial || !holds_answer(raw),
        !says_missing(lower),
        says_denied(lower),
    ensures
        status_of(raw, lower, code, tolerates_partial) is Denied,
        !status_of(raw, lower, code, tolerates_partial).was_seen(),
        note_for(ProbeStatus::Denied, raw, code) == first_words(lines_of(raw)),
{
}

/// Where neither parser reads anything, there is no answer.
pub proof fn law_answers_are_read(raw: Seq<char>)
    requires
        cron_of(lines_of(raw)).len() == 0,
        lines_of(raw).filter_map(du_rule()).len() == 0,
    ensures
        !holds_answer(raw),
{
    let all = lines_of(raw);
    assert forall|i: int| 0 <= i < all.len() implies !is_measure(#[trigger] all[i]) by {
        if is_measure(all[i]) {
            assert(du_rule()(all[i]) is Some);
            lemma_filter_map_keeps(all, du_rule(), i);
        }
    }
}

/// What starts with a letter still does when it is trimmed, up to a later letter at
/// least.
proof fn lemma_trimmed_start(s: Seq<char>, i: int)
    requires
        0 <= i < s.len(),
        !is_space(s[0]),
        !is_space(s[i]),
    ensures
        i < trimmed(s).len() <= s.len(),
        trimmed(s) == s.take(trimmed(s).len() as int),
{
    lemma_first_out_is(s, Class::Space, 0);
    assert(strip_front(s, Class::Space) =~= s);
    lemma_last_out(s, Class::Space);
}

/// What starts with a letter is no size.
proof fn lemma_no_size(s: Seq<char>)
    requires
        s.len() > 0,
        is_alpha(s[0]),
    ensures
        bytes_of(s) is None,
{
    lemma_trimmed_start(s, 0);
    let t = trimmed(s);
    assert(t[0] == s[0]);
    lemma_first_in_is(t, Class::Alpha, 0);
    let none = t.take(0);
    reveal_strlit("nan");
    reveal_strlit("inf");
    reveal_strlit("infinity");
    assert(numeral_of(none) == decimal_of(none));
    lemma_first_in_is(none, Class::Exponent, 0);
    assert(none.take(0) =~= none);
    lemma_first_in_is(none, Class::Only('.'), 0);
    assert(mantissa_of(none) is None);
}

/// That a user has no crontab is no job and no size, wherever it is said.
pub proof fn law_no_crontab_is_no_answer(source: Seq<char>, rest: Seq<char>)
    ensures
        cron_entry_of(source, "no crontab for "@ + rest) is None,
        !is_measure("no crontab for "@ + rest),
{
    reveal_strlit("no crontab for ");
    reveal_strlit("##SRC ");
    let line = "no crontab for "@ + rest;
    let no = seq!['n', 'o'];
    assert(line[0] == 'n' && line[2] == ' ' && line[13] == 'r');
    assert("##SRC "@[0] == '#');
    assert(after_prefix(line, "##SRC "@) is None);
    lemma_trimmed_start(line, 13);
    let t = trimmed(line);
    assert(t[2] == ' ');
    assert(t.contains(' '));
    assert(t =~= no + t.skip(2));
    assert(line =~= no + line.skip(2));
    lemma_word_and_rest(no, t.skip(2));
    lemma_word_and_rest(no, line.skip(2));
    assert(words_of(t)[0] == no);
    assert(words_of(line)[0] == no);
    assert(!is_cron_field(no)) by {
        assert(!Class::Star.holds(no[0]) && !Class::Star.holds(no[1]));
    }
    lemma_no_size(no);
    lemma_first_in(line, Class::Only('\t'));
    let i = first_in(line, Class::Only('\t'));
    if i < line.len() {
        let size = line.take(i);
        assert(i > 13) by {
            assert(forall|j: int| 0 <= j < 14 ==> #[trigger] line[j] != '\t');
        }
        lemma_trimmed_start(size, 13);
        lemma_no_size(trimmed(size));
    }
}

/// A note is never one of the lines that a probe writes to say what follows.
pub proof fn law_notes_are_output(lines: Seq<Seq<char>>)
    ensures
        first_words(lines).len() == 0 || exists|i: int|
            0 <= i < lines.len() && !is_tag(#[trigger] lines[i]) && first_words(lines) == trimmed(
                lines[i],
            ),
    decreases lines.len(),
{
    if lines.len() > 0 && !(trimmed(lines[0]).len() > 0 && !is_tag(lines[0])) {
        let rest = lines.skip(1);
        law_notes_are_output(rest);
        if first_words(rest).len() > 0 {
            let i = choose|i: int|
                0 <= i < rest.len() && !is_tag(#[trigger] rest[i]) && first_words(rest) == trimmed(
                    rest[i],
                );
            assert(lines[i + 1] == rest[i]);
        }
    }
}

/// The script runs every probe, between the marker that opens its section and the
/// one that closes it.
pub proof fn law_script_covers_every_probe(
    opts: CollectOptionsView,
    specs: Seq<ProbeSpecView>,
    nonce: Seq<char>,
    i: int,
)
    requires
        0 <= i < specs.len(),
    ensures
        ({
            let script = preamble(opts) + probes_text(specs, nonce);
            &&& contains_text(script, probe_lines(specs[i], nonce))
            &&& contains_text(script, begin_line(specs[i].id, nonce))
            &&& contains_text(script, specs[i].script)
            &&& contains_text(script, end_mark(nonce) + specs[i].id)
        }),
{
    let script = preamble(opts) + probes_text(specs, nonce);
    let spec = specs[i];
    let part = probe_lines(spec, nonce);
    lemma_holds_last(preamble(opts), probes_text(specs, nonce));
    lemma_holds_probe(specs, nonce, i);
    lemma_holds_through(script, probes_text(specs, nonce), part);
    reveal_strlit("printf '\\n%s\\n' '###");
    reveal_strlit("\n) 2>&1\nprintf '\\n%s %d\\n' '###");
    reveal_strlit("###");
    let one = "printf '\\n%s\\n' '"@;
    let two = "\n) 2>&1\nprintf '\\n%s %d\\n' '"@;
    reveal_strlit("printf '\\n%s\\n' '");
    reveal_strlit("\n) 2>&1\nprintf '\\n%s %d\\n' '");
    assert("printf '\\n%s\\n' '###"@ =~= one + "###"@);
    assert("\n) 2>&1\nprintf '\\n%s %d\\n' '###"@ =~= two + "###"@);
    let begin = begin_line(spec.id, nonce);
    let end = end_mark(nonce) + spec.id;
    let a = one + begin;
    let b = a + "'\n(\n"@;
    let c = b + spec.script;
    let d = c + two;
    let e = d + end;
    assert(part =~= e + "' $?\n"@);
    lemma_holds_last(one, begin);
    lemma_holds_then(a, "'\n(\n"@, begin);
    lemma_holds_then(b, spec.script, begin);
    lemma_holds_then(c, two, begin);
    lemma_holds_then(d, end, begin);
    lemma_holds_then(e, "' $?\n"@, begin);
    lemma_holds_last(b, spec.script);
    lemma_holds_then(c, two, spec.script);
    lemma_holds_then(d, end, spec.script);
    lemma_holds_then(e, "' $?\n"@, spec.script);
    lemma_holds_last(d, end);
    lemma_holds_then(e, "' $?\n"@, end);
    lemma_holds_through(script, part, begin);
    lemma_holds_through(script, part, spec.script);
    lemma_holds_through(script, part, end);
}

proof fn lemma_holds_probe(specs: Seq<ProbeSpecView>, nonce: Seq<char>, i: int)
    requires
        0 <= i < specs.len(),
    ensures
        contains_text(probes_text(specs, nonce), probe_lines(specs[i], nonce)),
    decreases specs.len(),
{
    let rest = specs.drop_last();
    let last = probe_lines(specs.last(), nonce);
    if i < rest.len() {
        assert(rest[i] == specs[i]);
        lemma_holds_probe(rest, nonce, i);
        lemma_holds_then(probes_text(rest, nonce), last, probe_lines(specs[i], nonce));
    } else {
        lemma_holds_last(probes_text(rest, nonce), last);
    }
}

} // verus!
