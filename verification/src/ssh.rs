//! How the system `ssh` binary is driven.
//!
//! Deliberately not a Rust SSH client. Going through OpenSSH means `~/.ssh/config`
//! aliases, `ProxyJump`, agent keys, certificates, FIDO tokens, 2FA prompts and
//! `known_hosts` all behave exactly as they do when you type `ssh` yourself,
//! none of which another client would get right for free.
//!
//! The first call opens a `ControlMaster` socket; refreshes reuse it, so you
//! authenticate once even if the audit is re-run from inside the TUI.

use crate::fmt::{cat2, cat3, cat4, dec, decimal, hex, hexadecimal};
use crate::lines::{lemma_dec_digits, lemma_trimmed_already};
use crate::number::{read_u16, unsigned_of};
use crate::parse::{count_in, has_char, tally};
use crate::text::{
    all_in, chars_of, cut_first, cut_last, first_in, is_blank, is_digit, is_space, last_in,
    lemma_first_in, lemma_last_in, rsplit_once, split_once, string_of, trim, trimmed, viewed, views,
    Class,
};
use vstd::prelude::*;
use vstd::slice::slice_subrange;
use vstd::utf8::encode_utf8;

verus! {

/// Where to connect, and how.
#[derive(Debug, Clone)]
pub struct SshTarget {
    /// `[user@]host` exactly as ssh wants it; may be an `~/.ssh/config` alias.
    pub destination: String,
    pub port: Option<u16>,
    pub user: Option<String>,
    pub identity: Option<String>,
    pub jump: Option<String>,
    /// Raw `-o Key=Value` pass-throughs.
    pub options: Vec<String>,
    pub connect_timeout: u64,
}

/// What a `SshTarget` holds.
#[verifier::ext_equal]
pub struct SshTargetView {
    pub destination: Seq<char>,
    pub port: Option<u16>,
    pub user: Option<Seq<char>>,
    pub identity: Option<Seq<char>>,
    pub jump: Option<Seq<char>>,
    pub options: Seq<Seq<char>>,
    pub connect_timeout: u64,
}

impl View for SshTarget {
    type V = SshTargetView;

    open spec fn view(&self) -> SshTargetView {
        SshTargetView {
            destination: self.destination@,
            port: self.port,
            user: viewed(self.user),
            identity: viewed(self.identity),
            jump: viewed(self.jump),
            options: views(self.options@),
            connect_timeout: self.connect_timeout,
        }
    }
}

impl Default for SshTarget {
    fn default() -> (r: Self)
        ensures
            r@ == (SshTargetView {
                destination: seq![],
                port: None,
                user: None,
                identity: None,
                jump: None,
                options: seq![],
                connect_timeout: 0,
            }),
    {
        let r = SshTarget {
            destination: String::new(),
            port: None,
            user: None,
            identity: None,
            jump: None,
            options: Vec::new(),
            connect_timeout: 0,
        };
        assert(r@.destination =~= seq![]);
        assert(r@.options =~= seq![]);
        r
    }
}

/// Why a target could not be read.
#[derive(Debug, Clone)]
pub enum TargetError {
    /// There was nothing to read.
    Empty,
    /// No hostname could be read out of this.
    NoHost(String),
}

/// What a `TargetError` holds.
pub enum TargetErrorView {
    Empty,
    NoHost(Seq<char>),
}

impl View for TargetError {
    type V = TargetErrorView;

    open spec fn view(&self) -> TargetErrorView {
        match self {
            TargetError::Empty => TargetErrorView::Empty,
            TargetError::NoHost(s) => TargetErrorView::NoHost(s@),
        }
    }
}

/// A result by its views.
pub open spec fn outcome<T: View, E: View>(r: Result<T, E>) -> Result<T::V, E::V> {
    match r {
        Ok(x) => Ok(x@),
        Err(e) => Err(e@),
    }
}

/// A port number as the field that holds it.
pub open spec fn port_of(s: Seq<char>) -> Option<u16> {
    match unsigned_of(s, u16::MAX as nat) {
        Some(n) => Some(n as u16),
        None => None,
    }
}

/// `host:2222` as host and port; bare IPv6 literals, with their many colons, are
/// left alone, and bracketed ones lose their brackets.
pub open spec fn host_and_port(s: Seq<char>) -> (Seq<char>, Option<u16>) {
    let bracketed = if s.len() > 0 && s[0] == '[' {
        cut_first(s.skip(1), ']')
    } else {
        None
    };
    match bracketed {
        Some((inner, tail)) => (
            inner,
            if tail.len() > 0 && tail[0] == ':' {
                port_of(tail.skip(1))
            } else {
                None
            },
        ),
        None => match cut_last(s, ':') {
            Some((host, port)) => if count_in(s, Class::Only(':')) == 1 && port_of(port) is Some
                && host.len() > 0 {
                (host, port_of(port))
            } else {
                (s, None)
            },
            None => (s, None),
        },
    }
}

pub fn split_host_port(s: &[char]) -> (r: (String, Option<u16>))
    ensures
        (r.0@, r.1) == host_and_port(s@),
{
    if s.len() > 0 && s[0] == '[' {
        let rest = slice_subrange(s, 1, s.len());
        assert(rest@ =~= s@.skip(1));
        if let Some((inner, tail)) = split_once(rest, ']') {
            let port: Option<u16> = if tail.len() > 0 && tail[0] == ':' {
                let digits = slice_subrange(tail, 1, tail.len());
                assert(digits@ =~= tail@.skip(1));
                read_u16(digits)
            } else {
                None
            };
            return (string_of(inner), port);
        }
    }
    if tally(s, Class::Only(':')) == 1 {
        if let Some((host, port)) = rsplit_once(s, ':') {
            if host.len() > 0 {
                if let Some(p) = read_u16(port) {
                    return (string_of(host), Some(p));
                }
            }
        }
    }
    (string_of(s), None)
}

/// A target: `host`, `user@host`, `host:2222`, `user@host:2222`, `[::1]:22` or any
/// alias from the user's ssh config.
pub open spec fn target_of(spec: Seq<char>) -> Result<SshTargetView, TargetErrorView> {
    let s = trimmed(spec);
    if s.len() == 0 {
        Err(TargetErrorView::Empty)
    } else {
        let (user, rest) = match cut_last(s, '@') {
            Some((user, host)) => (Some(user), host),
            None => (None::<Seq<char>>, s),
        };
        let (host, port) = host_and_port(rest);
        if host.len() == 0 {
            Err(TargetErrorView::NoHost(s))
        } else {
            Ok(
                SshTargetView {
                    destination: match user {
                        Some(u) => u + "@"@ + host,
                        None => host,
                    },
                    port,
                    user: None,
                    identity: None,
                    jump: None,
                    options: seq![],
                    connect_timeout: 15,
                },
            )
        }
    }
}

/// A host as it stands before a port: in brackets where it has a colon of its own.
pub open spec fn guarded(host: Seq<char>) -> Seq<char> {
    if host.contains(':') {
        "["@ + host + "]"@
    } else {
        host
    }
}

impl SshTargetView {
    /// What the user typed, for titles and export filenames.
    pub open spec fn name(self) -> Seq<char> {
        match self.port {
            Some(p) => (match cut_last(self.destination, '@') {
                Some((user, host)) => user + "@"@ + guarded(host),
                None => guarded(self.destination),
            }) + ":"@ + dec(p as nat),
            None => self.destination,
        }
    }

    /// What the control socket adds to the command line.
    pub open spec fn control_args(control: Option<Seq<char>>) -> Seq<Seq<char>> {
        match control {
            Some(path) => seq![
                "-o"@,
                "ControlMaster=auto"@,
                "-o"@,
                "ControlPath="@ + path,
                "-o"@,
                "ControlPersist=120"@,
            ],
            None => seq![],
        }
    }

    /// An option with its value, where there is one.
    pub open spec fn flag(name: Seq<char>, value: Option<Seq<char>>) -> Seq<Seq<char>> {
        match value {
            Some(v) => seq![name, v],
            None => seq![],
        }
    }

    /// The private key, which is then the only one that is offered.
    pub open spec fn key_args(identity: Option<Seq<char>>) -> Seq<Seq<char>> {
        match identity {
            Some(path) => seq!["-i"@, path, "-o"@, "IdentitiesOnly=yes"@],
            None => seq![],
        }
    }

    /// The raw options, each behind its own `-o`.
    pub open spec fn option_args(options: Seq<Seq<char>>) -> Seq<Seq<char>>
        decreases options.len(),
    {
        if options.len() == 0 {
            seq![]
        } else {
            Self::option_args(options.drop_last()).push("-o"@).push(options.last())
        }
    }

    /// The arguments that every call of `ssh` begins with.
    pub open spec fn args(self, control: Option<Seq<char>>) -> Seq<Seq<char>> {
        seq!["-o"@, "ConnectTimeout="@ + dec(self.connect_timeout as nat)] + Self::control_args(
            control,
        ) + Self::flag(
            "-p"@,
            match self.port {
                Some(p) => Some(dec(p as nat)),
                None => None,
            },
        ) + Self::key_args(self.identity) + Self::flag("-J"@, self.jump) + Self::flag(
            "-l"@,
            self.user,
        ) + Self::option_args(self.options)
    }
}

fn arg(a: &mut Vec<String>, s: &str)
    ensures
        views(final(a)@) == views(old(a)@).push(s@),
{
    let ghost before = a@;
    a.push(s.to_string());
    assert(views(a@) =~= views(before).push(s@));
}

fn flag_arg(a: &mut Vec<String>, name: &str, value: &Option<String>)
    ensures
        views(final(a)@) == views(old(a)@) + SshTargetView::flag(name@, viewed(*value)),
{
    let ghost before = views(a@);
    if let Some(v) = value {
        arg(a, name);
        arg(a, v.as_str());
    }
    assert(views(a@) =~= before + SshTargetView::flag(name@, viewed(*value)));
}

fn guard(host: &[char]) -> (r: String)
    ensures
        r@ == guarded(host@),
{
    let h = string_of(host);
    if has_char(host, ':') {
        cat3("[", h.as_str(), "]")
    } else {
        h
    }
}

impl SshTarget {
    /// Accepts `host`, `user@host`, `host:2222`, `user@host:2222`, `[::1]:22`
    /// and any alias from the user's ssh config.
    pub fn parse(spec: &str) -> (r: Result<SshTarget, TargetError>)
        ensures
            outcome(r) == target_of(spec@),
    {
        let cs = chars_of(spec);
        let s = trim(cs.as_slice());
        if s.len() == 0 {
            return Err(TargetError::Empty);
        }
        let (user, rest) = match rsplit_once(s, '@') {
            Some((user, host)) => (Some(string_of(user)), host),
            None => (None, s),
        };
        let (host, port) = split_host_port(rest);
        if is_blank(&host) {
            return Err(TargetError::NoHost(string_of(s)));
        }
        let destination = match &user {
            Some(u) => cat3(u.as_str(), "@", host.as_str()),
            None => host,
        };
        Ok(SshTarget { destination, port, connect_timeout: 15, ..SshTarget::default() })
    }

    /// What the user typed, for titles and export filenames.
    pub fn label(&self) -> (r: String)
        ensures
            r@ == self@.name(),
    {
        match self.port {
            Some(p) => {
                let n = decimal(p as u64);
                let cs = chars_of(self.destination.as_str());
                let place = match rsplit_once(cs.as_slice(), '@') {
                    Some((user, host)) => {
                        let u = string_of(user);
                        let h = guard(host);
                        cat3(u.as_str(), "@", h.as_str())
                    },
                    None => guard(cs.as_slice()),
                };
                cat3(place.as_str(), ":", n.as_str())
            },
            None => self.destination.clone(),
        }
    }

    /// The arguments that every call of `ssh` begins with.
    pub fn base_args(&self, control: Option<&str>) -> (r: Vec<String>)
        ensures
            views(r@) == self@.args(
                match control {
                    Some(path) => Some(path@),
                    None => None,
                },
            ),
    {
        let ghost c = match control {
            Some(path) => Some(path@),
            None => None,
        };
        let mut a: Vec<String> = Vec::new();
        assert(views(a@) =~= seq![]);
        let seconds = decimal(self.connect_timeout);
        let timeout = cat2("ConnectTimeout=", seconds.as_str());
        arg(&mut a, "-o");
        arg(&mut a, timeout.as_str());
        let ghost g0 = views(a@);
        assert(g0 =~= seq!["-o"@, "ConnectTimeout="@ + dec(self@.connect_timeout as nat)]);
        if let Some(path) = control {
            let socket = cat2("ControlPath=", path);
            arg(&mut a, "-o");
            arg(&mut a, "ControlMaster=auto");
            arg(&mut a, "-o");
            arg(&mut a, socket.as_str());
            arg(&mut a, "-o");
            arg(&mut a, "ControlPersist=120");
        }
        let ghost g1 = views(a@);
        assert(g1 =~= g0 + SshTargetView::control_args(c));
        let port = match self.port {
            Some(p) => Some(decimal(p as u64)),
            None => None,
        };
        flag_arg(&mut a, "-p", &port);
        let ghost g2 = views(a@);
        if let Some(path) = &self.identity {
            arg(&mut a, "-i");
            arg(&mut a, path.as_str());
            // An explicit key should be the only key we offer, otherwise the
            // agent can burn through the server's auth attempt budget first.
            arg(&mut a, "-o");
            arg(&mut a, "IdentitiesOnly=yes");
        }
        assert(views(a@) =~= g2 + SshTargetView::key_args(self@.identity));
        flag_arg(&mut a, "-J", &self.jump);
        flag_arg(&mut a, "-l", &self.user);
        let ghost g3 = views(a@);
        let ghost all = self@.options;
        let mut i: usize = 0;
        assert(views(a@) =~= g3 + SshTargetView::option_args(all.take(0)));
        while i < self.options.len()
            invariant
                i <= self.options.len(),
                all == views(self.options@),
                views(a@) == g3 + SshTargetView::option_args(all.take(i as int)),
            decreases self.options.len() - i,
        {
            assert(all.take(i + 1).drop_last() =~= all.take(i as int));
            assert(all.take(i + 1).last() == self.options@[i as int]@);
            arg(&mut a, "-o");
            arg(&mut a, self.options[i].as_str());
            assert(views(a@) =~= g3 + SshTargetView::option_args(all.take(i + 1)));
            i += 1;
        }
        assert(all.take(all.len() as int) =~= all);
        a
    }
}

// ------------------------------------------------------------- session ----

/// What came back from a run of `ssh`.
#[derive(Debug, Clone)]
pub struct Run {
    pub stdout: String,
    pub stderr: String,
    pub code: Option<i32>,
}

/// What a `Run` holds.
#[verifier::ext_equal]
pub struct RunView {
    pub stdout: Seq<char>,
    pub stderr: Seq<char>,
    pub code: Option<i32>,
}

impl View for Run {
    type V = RunView;

    open spec fn view(&self) -> RunView {
        RunView {
            stdout: self.stdout@,
            stderr: self.stderr@,
            code: self.code,
        }
    }
}

/// A connection whose control socket is kept alive between runs.
#[derive(Debug, Clone)]
pub struct Session {
    pub target: SshTarget,
    pub control: Option<String>,
}

/// What a `Session` holds.
#[verifier::ext_equal]
pub struct SessionView {
    pub target: SshTargetView,
    pub control: Option<Seq<char>>,
}

impl View for Session {
    type V = SessionView;

    open spec fn view(&self) -> SessionView {
        SessionView {
            target: self.target@,
            control: viewed(self.control),
        }
    }
}

impl SessionView {
    /// The command line that feeds a script to a remote `sh`.
    pub open spec fn run_line(self) -> Seq<Seq<char>> {
        self.target.args(self.control) + seq!["-T"@, self.target.destination, "sh"@, "-s"@]
    }

    /// The command line that tears the connection down, where it is kept alive.
    pub open spec fn close_line(self) -> Option<Seq<Seq<char>>> {
        match self.control {
            Some(path) => Some(
                self.target.args(None) + seq![
                    "-o"@,
                    "ControlPath="@ + path,
                    "-O"@,
                    "exit"@,
                    self.target.destination,
                ],
            ),
            None => None,
        }
    }
}

/// Strings by what they hold, where there are any.
pub open spec fn texts(o: Option<Vec<String>>) -> Option<Seq<Seq<char>>> {
    match o {
        Some(v) => Some(views(v@)),
        None => None,
    }
}

impl Session {
    /// A connection with the control socket that could be had, if any.
    pub fn open(target: SshTarget, control: Option<String>) -> (r: Session)
        ensures
            r@ == (SessionView { target: target@, control: viewed(control) }),
    {
        Session { target, control }
    }

    /// The command line that feeds a script to a remote `sh`.
    pub fn run_args(&self) -> (r: Vec<String>)
        ensures
            views(r@) == self@.run_line(),
    {
        let control = match &self.control {
            Some(path) => Some(path.as_str()),
            None => None,
        };
        let mut a = self.target.base_args(control);
        let ghost before = views(a@);
        arg(&mut a, "-T");
        arg(&mut a, self.target.destination.as_str());
        arg(&mut a, "sh");
        arg(&mut a, "-s");
        assert(views(a@) =~= before + seq!["-T"@, self@.target.destination, "sh"@, "-s"@]);
        a
    }

    /// The command line that tears the connection down, where it is kept alive.
    pub fn close_args(&self) -> (r: Option<Vec<String>>)
        ensures
            texts(r) == self@.close_line(),
    {
        match &self.control {
            Some(path) => {
                let mut a = self.target.base_args(None);
                let ghost before = views(a@);
                let socket = cat2("ControlPath=", path.as_str());
                arg(&mut a, "-o");
                arg(&mut a, socket.as_str());
                arg(&mut a, "-O");
                arg(&mut a, "exit");
                arg(&mut a, self.target.destination.as_str());
                assert(views(a@) =~= before + seq![
                    "-o"@,
                    "ControlPath="@ + path@,
                    "-O"@,
                    "exit"@,
                    self@.target.destination,
                ]);
                Some(a)
            },
            None => None,
        }
    }
}

/// The name of the directory for the control socket, unique to a run.
pub fn control_dir(pid: u32, nanos: u32) -> (r: String)
    ensures
        r@ == ".srvaudit-"@ + dec(pid as nat) + "-"@ + hex(nanos as nat),
{
    let p = decimal(pid as u64);
    let n = hexadecimal(nanos as u128);
    cat4(".srvaudit-", p.as_str(), "-", n.as_str())
}

/// Whether a path is short enough for a socket: they are capped near 104 bytes.
pub fn fits_socket(path: &str) -> (yes: bool)
    ensures
        yes == (encode_utf8(path@).len() <= 100),
{
    path.as_bytes().len() <= 100
}

/// The message for a run that took too long.
pub fn timeout_message(seconds: u64) -> (r: String)
    ensures
        r@ == "the audit did not finish within "@ + dec(seconds as nat)
            + "s. `du` over a huge directory is the usual cause — try --no-du, a smaller --du-path, or a longer --timeout."@,
{
    let n = decimal(seconds);
    cat3(
        "the audit did not finish within ",
        n.as_str(),
        "s. `du` over a huge directory is the usual cause — try --no-du, a smaller --du-path, or a longer --timeout.",
    )
}

// ---------------------------------------------------------------- laws ----

/// Whether a text is free of a character.
pub open spec fn lacks(s: Seq<char>, c: char) -> bool {
    forall|i: int| 0 <= i < s.len() ==> #[trigger] s[i] != c
}

proof fn lemma_cut_last(a: Seq<char>, c: char, b: Seq<char>)
    requires
        lacks(b, c),
    ensures
        cut_last(a + seq![c] + b, c) == Some((a, b)),
{
    let s = a + seq![c] + b;
    let k = Class::Only(c);
    let i = last_in(s, k);
    lemma_last_in(s, k);
    assert(k.holds(s[a.len() as int]));
    if i > a.len() {
        assert(s[i] == b[i - a.len() - 1]);
    }
    assert(s.take(i) =~= a);
    assert(s.skip(i + 1) =~= b);
}

proof fn lemma_cut_last_none(s: Seq<char>, c: char)
    requires
        lacks(s, c),
    ensures
        cut_last(s, c) is None,
{
    lemma_last_in(s, Class::Only(c));
}

proof fn lemma_count_none(s: Seq<char>, c: char)
    requires
        lacks(s, c),
    ensures
        count_in(s, Class::Only(c)) == 0,
    decreases s.len(),
{
    if s.len() > 0 {
        assert(s.last() == s[s.len() - 1]);
        assert(lacks(s.drop_last(), c)) by {
            assert forall|i: int| 0 <= i < s.drop_last().len() implies #[trigger] s.drop_last()[i]
                != c by {
                assert(s[i] != c);
            }
        }
        lemma_count_none(s.drop_last(), c);
    }
}

proof fn lemma_count_concat(s: Seq<char>, t: Seq<char>, k: Class)
    ensures
        count_in(s + t, k) == count_in(s, k) + count_in(t, k),
    decreases t.len(),
{
    if t.len() == 0 {
        assert(s + t =~= s);
    } else {
        lemma_count_concat(s, t.drop_last(), k);
        assert((s + t).drop_last() =~= s + t.drop_last());
        assert((s + t).last() == t.last());
    }
}

/// `[user@]host`.
pub open spec fn login(user: Option<Seq<char>>, host: Seq<char>) -> Seq<char> {
    match user {
        Some(u) => u + "@"@ + host,
        None => host,
    }
}

/// What follows the host where there is a port.
pub open spec fn port_suffix(port: Option<u16>) -> Seq<char> {
    match port {
        Some(p) => ":"@ + dec(p as nat),
        None => seq![],
    }
}

/// The login name of a target is cut off behind the last `@`.
proof fn lemma_login(user: Option<Seq<char>>, rest: Seq<char>)
    requires
        lacks(rest, '@'),
    ensures
        cut_last(login(user, rest), '@') == match user {
            Some(u) => Some((u, rest)),
            None => None::<(Seq<char>, Seq<char>)>,
        },
{
    reveal_strlit("@");
    match user {
        Some(u) => {
            assert("@"@ =~= seq!['@']);
            lemma_cut_last(u, '@', rest);
        },
        None => lemma_cut_last_none(rest, '@'),
    }
}

proof fn lemma_port_reads_back(p: u16)
    ensures
        port_of(dec(p as nat)) == Some(p),
        dec(p as nat).len() > 0,
        lacks(dec(p as nat), ':'),
        lacks(dec(p as nat), '@'),
        !is_space(dec(p as nat).last()),
{
    let d = dec(p as nat);
    lemma_dec_digits(p as nat);
    assert(is_digit(d[0]));
    assert(is_digit(d[d.len() - 1]));
    assert(all_in(d, Class::Digit));
    assert forall|i: int| 0 <= i < d.len() implies #[trigger] d[i] != ':' && d[i] != '@' by {
        assert(is_digit(d[i]));
    }
}

/// `[user@]host[:port]` is read as what it says, and the label gives back what was
/// typed, for every host without a colon that is not in brackets. White space
/// counts where nothing stands before or behind it.
pub proof fn law_targets_read_back(
    user: Option<Seq<char>>,
    host: Seq<char>,
    port: Option<u16>,
)
    requires
        host.len() > 0,
        lacks(host, ':'),
        lacks(host, '@'),
        host[0] == '[' ==> lacks(host, ']'),
        port is None ==> !is_space(host.last()),
        match user {
            Some(u) => u.len() == 0 || !is_space(u[0]),
            None => !is_space(host[0]),
        },
    ensures
        ({
            let typed = login(user, host) + port_suffix(port);
            &&& target_of(typed) is Ok
            &&& target_of(typed)->Ok_0.destination == login(user, host)
            &&& target_of(typed)->Ok_0.port == port
            &&& target_of(typed)->Ok_0.name() == typed
        }),
{
    reveal_strlit("@");
    reveal_strlit(":");
    let rest = host + port_suffix(port);
    let typed = login(user, host) + port_suffix(port);
    assert(typed =~= login(user, rest));
    match port {
        Some(p) => {
            let d = dec(p as nat);
            lemma_port_reads_back(p);
            assert(":"@ =~= seq![':']);
            assert(rest =~= host + seq![':'] + d);
            lemma_cut_last(host, ':', d);
            lemma_count_none(host, ':');
            lemma_count_none(d, ':');
            lemma_count_concat(host, seq![':'], Class::Only(':'));
            lemma_count_concat(host + seq![':'], d, Class::Only(':'));
            assert(count_in(seq![':'].drop_last(), Class::Only(':')) == 0);
            assert(seq![':'].last() == ':');
            assert(count_in(seq![':'], Class::Only(':')) == 1);
            assert(typed.last() == d.last());
            assert forall|i: int| 0 <= i < rest.len() implies #[trigger] rest[i] != '@' by {
                if i < host.len() {
                    assert(rest[i] == host[i]);
                } else if i > host.len() {
                    assert(rest[i] == d[i - host.len() - 1]);
                }
            }
        },
        None => {
            assert(rest =~= host);
            lemma_cut_last_none(host, ':');
            assert(typed.last() == host.last());
        },
    }
    lemma_login(user, rest);
    lemma_login(user, host);
    lemma_no_closing(host, port);
    assert(!host.contains(':'));
    assert(rest[0] == host[0]);
    assert(host_and_port(rest) == (host, port));
    assert(!is_space(typed[0]));
    lemma_trimmed_already(typed);
    let t = target_of(typed)->Ok_0;
    assert(t.destination == login(user, host));
    assert(t.name() =~= typed);
}

/// Where a host has no closing bracket, nor has it with a port.
proof fn lemma_no_closing(host: Seq<char>, port: Option<u16>)
    requires
        host.len() > 0,
    ensures
        lacks(host, ']') ==> cut_first((host + port_suffix(port)).skip(1), ']') is None,
{
    reveal_strlit(":");
    let t = (host + port_suffix(port)).skip(1);
    let k = Class::Only(']');
    lemma_first_in(t, k);
    if lacks(host, ']') && first_in(t, k) < t.len() {
        let i = first_in(t, k);
        if i + 1 < host.len() {
            assert(t[i] == host[i + 1]);
        } else if i + 1 > host.len() {
            let d = dec(port->0 as nat);
            lemma_dec_digits(port->0 as nat);
            assert(t[i] == d[i - host.len()]);
            assert(is_digit(d[i - host.len()]));
        }
    }
}

/// A bare IPv6 literal, which has more than one colon, is all host and no port.
pub proof fn law_bare_ipv6_is_no_port(user: Option<Seq<char>>, host: Seq<char>)
    requires
        host.len() > 0,
        lacks(host, '@'),
        count_in(host, Class::Only(':')) > 1,
        host[0] == '[' ==> lacks(host, ']'),
        !is_space(host.last()),
        match user {
            Some(u) => u.len() == 0 || !is_space(u[0]),
            None => !is_space(host[0]),
        },
    ensures
        ({
            let typed = login(user, host);
            &&& target_of(typed) is Ok
            &&& target_of(typed)->Ok_0.destination == typed
            &&& target_of(typed)->Ok_0.port is None
            &&& target_of(typed)->Ok_0.name() == typed
        }),
{
    reveal_strlit("@");
    let typed = login(user, host);
    lemma_login(user, host);
    lemma_no_closing(host, None);
    assert(host + port_suffix(None) =~= host);
    assert(typed.last() == host.last());
    assert(!is_space(typed[0]));
    lemma_trimmed_already(typed);
}

proof fn lemma_bracketed(inner: Seq<char>, port: u16)
    requires
        inner.len() > 0,
        lacks(inner, '@'),
        lacks(inner, ']'),
    ensures
        ({
            let rest = "["@ + inner + "]"@ + port_suffix(Some(port));
            &&& rest.len() > 0
            &&& rest[0] == '['
            &&& !is_space(rest.last())
            &&& lacks(rest, '@')
            &&& host_and_port(rest) == (inner, Some(port))
        }),
{
    reveal_strlit(":");
    reveal_strlit("[");
    reveal_strlit("]");
    let d = dec(port as nat);
    lemma_port_reads_back(port);
    let rest = "["@ + inner + "]"@ + port_suffix(Some(port));
    assert forall|i: int| 0 <= i < rest.len() implies #[trigger] rest[i] != '@' by {
        let n = inner.len();
        if 1 <= i <= n {
            assert(rest[i] == inner[i - 1]);
        } else if i > n + 2 {
            assert(rest[i] == d[i - n - 3]);
        }
    }
    let open = rest.skip(1);
    let k = Class::Only(']');
    assert(open =~= inner + seq![']'] + seq![':'] + d);
    lemma_first_in(open, k);
    let i = first_in(open, k);
    assert(k.holds(open[inner.len() as int]));
    if i < inner.len() {
        assert(open[i] == inner[i]);
    }
    assert(open.take(i) =~= inner);
    let tail = open.skip(i + 1);
    assert(tail =~= seq![':'] + d);
    assert(tail.skip(1) =~= d);
    assert(rest.last() == d.last());
}

/// A bracketed address loses its brackets, and what follows them is the port. The
/// label of an address with a colon has them again, so it gives back what was
/// typed and is read as the same target.
pub proof fn law_bracketed_address_is_read(
    user: Option<Seq<char>>,
    inner: Seq<char>,
    port: u16,
)
    requires
        inner.len() > 0,
        lacks(inner, '@'),
        lacks(inner, ']'),
        match user {
            Some(u) => u.len() == 0 || !is_space(u[0]),
            None => true,
        },
    ensures
        ({
            let typed = login(user, "["@ + inner + "]"@ + port_suffix(Some(port)));
            &&& target_of(typed) is Ok
            &&& target_of(typed)->Ok_0.destination == login(user, inner)
            &&& target_of(typed)->Ok_0.port == Some(port)
            &&& inner.contains(':') ==> target_of(typed)->Ok_0.name() == typed
        }),
{
    let rest = "["@ + inner + "]"@ + port_suffix(Some(port));
    let typed = login(user, rest);
    lemma_bracketed(inner, port);
    lemma_login(user, rest);
    lemma_login(user, inner);
    lemma_login_ends(user, rest);
    lemma_trimmed_already(typed);
    if inner.contains(':') {
        lemma_label_of_bracketed(user, inner, port);
    }
}

proof fn lemma_login_ends(user: Option<Seq<char>>, rest: Seq<char>)
    requires
        rest.len() > 0,
        match user {
            Some(u) => u.len() == 0 || !is_space(u[0]),
            None => !is_space(rest[0]),
        },
    ensures
        login(user, rest).len() > 0,
        !is_space(login(user, rest)[0]),
        login(user, rest).last() == rest.last(),
{
    reveal_strlit("@");
}

proof fn lemma_label_of_bracketed(user: Option<Seq<char>>, inner: Seq<char>, port: u16)
    requires
        lacks(inner, '@'),
        inner.contains(':'),
    ensures
        forall|t: SshTargetView|
            t.destination == login(user, inner) && t.port == Some(port) ==> #[trigger] t.name()
                == login(user, "["@ + inner + "]"@ + port_suffix(Some(port))),
{
    lemma_login(user, inner);
    let d = dec(port as nat);
    let whole = login(user, "["@ + inner + "]"@ + port_suffix(Some(port)));
    match user {
        Some(u) => {
            assert(u + "@"@ + guarded(inner) + ":"@ + d =~= whole);
        },
        None => {
            assert(guarded(inner) + ":"@ + d =~= whole);
        },
    }
}

} // verus!
