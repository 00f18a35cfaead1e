//! What the command line asks for.

use crate::columns::lemma_pieces_joined;
use crate::fmt::cat2;
use crate::lines::{lemma_first_out_is, lemma_joined_pieces};
use crate::probe::{CollectOptions, CollectOptionsView};
use crate::ssh::{outcome, target_of, SshTarget, SshTargetView, TargetError, TargetErrorView};
use crate::text::{
    chars_of, cut_last, each_part, eq, first_in, joined, last_in, lemma_first_in, lemma_last_in,
    lowercase, pieces, rsplit_once, spells, split, string_of, strip_front, to_lowercase, trimmed,
    viewed, views, Class,
};
use vstd::prelude::*;

verus! {

/// What a report is printed as.
#[derive(Debug, Clone, Copy, PartialEq, Eq, Structural)]
pub enum ReportFormat {
    /// Plain text for a terminal.
    Text,
    /// Markdown for a ticket or a pull request.
    Markdown,
    /// The full audit, replayable with --from-json.
    Json,
}

/// The arguments of the command line.
#[derive(Debug, Clone)]
pub struct Cli {
    /// [user@]host[:port], or any alias from your ~/.ssh/config.
    pub target: Option<String>,
    /// SSH port (overrides one given in TARGET).
    pub port: Option<u16>,
    /// Log in as this user.
    pub user: Option<String>,
    /// Private key to authenticate with.
    pub identity: Option<String>,
    /// Jump host, same syntax as `ssh -J`.
    pub jump: Option<String>,
    /// Extra ssh options.
    pub ssh_option: Vec<String>,
    /// Run the privileged probes through `sudo -n` (never prompts).
    pub sudo: bool,
    /// Directories to measure with `du`.
    pub du_path: Vec<String>,
    /// Skip the `du` pass: it is the one probe that can be slow.
    pub no_du: bool,
    /// Give up on the whole collection after this many seconds.
    pub timeout: u64,
    /// Give up on `du` alone after this many seconds.
    pub du_timeout: u64,
    /// Print a report instead of opening the TUI.
    pub report: Option<ReportFormat>,
    /// Write the report to a file (format inferred from the extension).
    pub out: Option<String>,
    /// Reopen a saved JSON audit instead of connecting to anything.
    pub from_json: Option<String>,
}

/// What a `Cli` holds.
#[verifier::ext_equal]
pub struct CliView {
    pub target: Option<Seq<char>>,
    pub port: Option<u16>,
    pub user: Option<Seq<char>>,
    pub identity: Option<Seq<char>>,
    pub jump: Option<Seq<char>>,
    pub ssh_option: Seq<Seq<char>>,
    pub sudo: bool,
    pub du_path: Seq<Seq<char>>,
    pub no_du: bool,
    pub timeout: u64,
    pub du_timeout: u64,
    pub report: Option<ReportFormat>,
    pub out: Option<Seq<char>>,
    pub from_json: Option<Seq<char>>,
}

impl View for Cli {
    type V = CliView;

    open spec fn view(&self) -> CliView {
        CliView {
            target: viewed(self.target),
            port: self.port,
            user: viewed(self.user),
            identity: viewed(self.identity),
            jump: viewed(self.jump),
            ssh_option: views(self.ssh_option@),
            sudo: self.sudo,
            du_path: views(self.du_path@),
            no_du: self.no_du,
            timeout: self.timeout,
            du_timeout: self.du_timeout,
            report: self.report,
            out: viewed(self.out),
            from_json: viewed(self.from_json),
        }
    }
}

/// A part of a path that is a name: not empty, and not the directory itself.
pub open spec fn name_rule() -> spec_fn(Seq<char>) -> Option<Seq<char>> {
    |part: Seq<char>|
        if part.len() == 0 || part == "."@ {
            None
        } else {
            Some(part)
        }
}

/// The last name in a path, unless it is the parent directory.
pub open spec fn file_name_of(path: Seq<char>) -> Option<Seq<char>> {
    let names = pieces(path, '/').filter_map(name_rule());
    if names.len() == 0 || names.last() == ".."@ {
        None
    } else {
        Some(names.last())
    }
}

/// What stands behind the last dot of a path's file name, unless the name begins
/// with that dot.
pub open spec fn extension_of(path: Seq<char>) -> Option<Seq<char>> {
    match file_name_of(path) {
        Some(name) => match cut_last(name, '.') {
            Some((stem, ext)) => if stem.len() == 0 {
                None
            } else {
                Some(ext)
            },
            None => None,
        },
        None => None,
    }
}

/// The format for an extension in lower case.
pub open spec fn format_for(ext: Seq<char>) -> ReportFormat {
    if ext == "json"@ {
        ReportFormat::Json
    } else if ext == "md"@ || ext == "markdown"@ {
        ReportFormat::Markdown
    } else {
        ReportFormat::Text
    }
}

fn name_part(part: &[char]) -> (r: Option<String>)
    ensures
        viewed(r) == name_rule()(part@),
{
    if part.len() == 0 || spells(part, ".") {
        None
    } else {
        Some(string_of(part))
    }
}

/// The last name in a path, unless it is the parent directory.
pub fn file_name(path: &str) -> (r: Option<String>)
    ensures
        viewed(r) == file_name_of(path@),
{
    let cs = chars_of(path);
    let parts = split(cs.as_slice(), '/');
    let names = each_part(&parts, name_part, Ghost(name_rule()));
    let n: usize = names.len();
    assert(views(names@).len() == n);
    if n == 0 {
        return None;
    }
    assert(views(names@).last() == names@[n - 1]@);
    if eq(names[n - 1].as_str(), "..") {
        None
    } else {
        Some(names[n - 1].clone())
    }
}

/// What stands behind the last dot of a path's file name, unless the name begins
/// with that dot.
pub fn extension(path: &str) -> (r: Option<String>)
    ensures
        viewed(r) == extension_of(path@),
{
    match file_name(path) {
        Some(name) => {
            let cs = chars_of(name.as_str());
            match rsplit_once(cs.as_slice(), '.') {
                Some((stem, ext)) => if stem.len() == 0 {
                    None
                } else {
                    Some(string_of(ext))
                },
                None => None,
            }
        },
        None => None,
    }
}

/// The format for an extension in lower case.
pub fn report_for(ext: &str) -> (r: ReportFormat)
    ensures
        r == format_for(ext@),
{
    if eq(ext, "json") {
        ReportFormat::Json
    } else if eq(ext, "md") || eq(ext, "markdown") {
        ReportFormat::Markdown
    } else {
        ReportFormat::Text
    }
}

/// Where a replayed audit came from.
pub fn replay_source(path: &str) -> (r: String)
    ensures
        r@ == "replayed from "@ + (match file_name_of(path@) {
            Some(name) => name,
            None => path@,
        }),
{
    match file_name(path) {
        Some(name) => cat2("replayed from ", name.as_str()),
        None => cat2("replayed from ", path),
    }
}

fn copies(v: &Vec<String>) -> (r: Vec<String>)
    ensures
        views(r@) == views(v@),
{
    let mut r: Vec<String> = Vec::new();
    let mut i: usize = 0;
    while i < v.len()
        invariant
            i <= v.len(),
            r@.len() == i,
            forall|k: int| 0 <= k < i ==> (#[trigger] r@[k])@ == v@[k]@,
        decreases v.len() - i,
    {
        r.push(v[i].clone());
        i += 1;
    }
    assert(views(r@) =~= views(v@));
    r
}

fn copy(o: &Option<String>) -> (r: Option<String>)
    ensures
        viewed(r) == viewed(*o),
{
    match o {
        Some(s) => Some(s.clone()),
        None => None,
    }
}

impl CliView {
    /// The target with every option of the command line: a port of its own wins
    /// over the one in the target.
    pub open spec fn target_with_options(self) -> Result<SshTargetView, TargetErrorView> {
        let spec = match self.target {
            Some(s) => s,
            None => seq![],
        };
        match target_of(spec) {
            Ok(t) => Ok(
                SshTargetView {
                    port: match self.port {
                        Some(p) => Some(p),
                        None => t.port,
                    },
                    user: self.user,
                    identity: self.identity,
                    jump: self.jump,
                    options: self.ssh_option,
                    ..t
                },
            ),
            Err(e) => Err(e),
        }
    }

    /// The report to print: the one asked for, else what the extension of the file
    /// says; none where there is neither.
    pub open spec fn report_asked(self) -> Option<ReportFormat> {
        match self.report {
            Some(f) => Some(f),
            None => match self.out {
                Some(path) => match extension_of(path) {
                    Some(ext) => Some(format_for(lowercase(ext))),
                    None => None,
                },
                None => None,
            },
        }
    }
}

impl Cli {
    pub fn collect_options(&self) -> (r: CollectOptions)
        ensures
            r@ == (CollectOptionsView {
                sudo: self@.sudo,
                du_paths: self@.du_path,
                skip_du: self@.no_du,
                du_timeout: self@.du_timeout,
            }),
    {
        CollectOptions {
            sudo: self.sudo,
            du_paths: copies(&self.du_path),
            skip_du: self.no_du,
            du_timeout: self.du_timeout,
        }
    }

    pub fn ssh_target(&self) -> (r: Result<SshTarget, TargetError>)
        ensures
            outcome(r) == self@.target_with_options(),
    {
        let none = "";
        proof {
            reveal_strlit("");
            assert(none@ =~= seq![]);
        }
        let spec = match &self.target {
            Some(s) => s.as_str(),
            None => none,
        };
        match SshTarget::parse(spec) {
            Ok(t) => {
                let port: Option<u16> = match self.port {
                    Some(p) => Some(p),
                    None => t.port,
                };
                Ok(
                    SshTarget {
                        port,
                        user: copy(&self.user),
                        identity: copy(&self.identity),
                        jump: copy(&self.jump),
                        options: copies(&self.ssh_option),
                        ..t
                    },
                )
            },
            Err(e) => Err(e),
        }
    }

    /// `--out report.md` implies markdown even without `--report`.
    pub fn effective_report(&self) -> (r: Option<ReportFormat>)
        ensures
            r == self@.report_asked(),
    {
        if let Some(f) = self.report {
            return Some(f);
        }
        match &self.out {
            Some(path) => match extension(path.as_str()) {
                Some(ext) => {
                    let lower = to_lowercase(ext.as_str());
                    Some(report_for(lower.as_str()))
                },
                None => None,
            },
            None => None,
        }
    }
}

// ---------------------------------------------------------------- laws ----

/// A port of its own wins over the one in the target, and without it the one in
/// the target stands.
pub proof fn law_own_port_wins(cli: CliView)
    requires
        cli.target_with_options() is Ok,
    ensures
        cli.target is Some,
        target_of(cli.target->0) is Ok,
        cli.port is Some ==> cli.target_with_options()->Ok_0.port == cli.port,
        cli.port is None ==> cli.target_with_options()->Ok_0.port == target_of(
            cli.target->0,
        )->Ok_0.port,
{
    let none = Seq::<char>::empty();
    lemma_first_out_is(none, Class::Space, 0);
    assert(strip_front(none, Class::Space) =~= none);
    assert(trimmed(none).len() == 0);
}

/// A report that is asked for by name wins over the extension of the file.
pub proof fn law_named_report_wins(cli: CliView)
    requires
        cli.report is Some,
    ensures
        cli.report_asked() == cli.report,
{
}

proof fn lemma_pieces_free(s: Seq<char>, c: char)
    ensures
        forall|i: int| 0 <= i < pieces(s, c).len() ==> !(#[trigger] pieces(s, c)[i]).contains(c),
    decreases s.len(),
{
    let k = Class::Only(c);
    lemma_first_in(s, k);
    let n = first_in(s, k);
    let head = s.take(n);
    assert(!head.contains(c)) by {
        if head.contains(c) {
            let i = head.index_of(c);
            assert(!k.holds(s[i]));
        }
    }
    if n < s.len() {
        let rest = pieces(s.skip(n + 1), c);
        lemma_pieces_free(s.skip(n + 1), c);
        assert forall|i: int| 0 <= i < pieces(s, c).len() implies !(
        #[trigger] pieces(s, c)[i]).contains(c) by {
            if i > 0 {
                assert(pieces(s, c)[i] == rest[i - 1]);
            }
        }
    } else {
        assert(s.take(n) =~= s);
    }
}

/// The name of a report file says which report is written: what follows its last point,
/// in whatever directory it is.
pub proof fn law_report_files_are_told_by_name(dir: Seq<char>, stem: Seq<char>, ext: Seq<char>)
    requires
        stem.len() > 0,
        !stem.contains('/'),
        !ext.contains('/'),
        !ext.contains('.'),
        stem + "."@ + ext != ".."@,
    ensures
        extension_of(stem + "."@ + ext) == Some(ext),
        extension_of(dir + "/"@ + (stem + "."@ + ext)) == Some(ext),
        format_for("json"@) is Json,
        format_for("md"@) is Markdown,
        format_for("markdown"@) is Markdown,
        format_for("txt"@) is Text,
{
    reveal_strlit(".");
    reveal_strlit("/");
    reveal_strlit("json");
    reveal_strlit("md");
    reveal_strlit("markdown");
    reveal_strlit("txt");
    assert("json"@.len() == 4 && "md"@.len() == 2 && "markdown"@.len() == 8 && "txt"@.len() == 3);
    let name = stem + "."@ + ext;
    let n = stem.len() as int;
    let k = Class::Only('.');
    assert(!name.contains('/')) by {
        if name.contains('/') {
            let i = name.index_of('/');
            if i < n {
                assert(stem[i] == '/');
            } else if i > n {
                assert(ext[i - n - 1] == '/');
            }
        }
    }
    lemma_last_in(name, k);
    let i = last_in(name, k);
    assert(name[n] == '.');
    assert(i == n) by {
        if i > n {
            assert(name[i] == ext[i - n - 1]);
        } else if i < n {
            assert(k.holds(name[n]));
        }
    }
    assert(name.take(n) =~= stem);
    assert(name.skip(n + 1) =~= ext);
    assert(name.len() > 1);
    let one = seq![name];
    lemma_pieces_joined(one, '/');
    assert(joined(one, seq!['/']) == name);
    lemma_last_name(seq![], name);
    assert(Seq::<Seq<char>>::empty().push(name) =~= one);
    let parts = pieces(dir, '/');
    lemma_pieces_free(dir, '/');
    lemma_joined_pieces(dir, '/');
    let all = parts.push(name);
    assert forall|j: int| 0 <= j < all.len() implies !(#[trigger] all[j]).contains('/') by {
        if j < parts.len() {
            assert(all[j] == parts[j]);
        }
    }
    lemma_pieces_joined(all, '/');
    assert(all.drop_last() =~= parts);
    assert(joined(all, seq!['/']) =~= dir + "/"@ + name);
    lemma_last_name(parts, name);
}

proof fn lemma_last_name(parts: Seq<Seq<char>>, name: Seq<char>)
    requires
        name.len() > 1,
    ensures
        parts.push(name).filter_map(name_rule()).len() > 0,
        parts.push(name).filter_map(name_rule()).last() == name,
{
    reveal_strlit(".");
    let all = parts.push(name);
    assert(all.drop_last() =~= parts);
    assert(all.last() == name);
    assert(name_rule()(name) == Some(name));
    assert(all.filter_map(name_rule()) =~= parts.filter_map(name_rule()).push(name));
}

} // verus!
