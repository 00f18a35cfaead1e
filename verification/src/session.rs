//! What the command lines of a session say.

use crate::fmt::dec;
use crate::ssh::{SessionView, SshTargetView};
use vstd::prelude::*;

verus! {

/// Whether one argument stands directly before another.
pub open spec fn passes(args: Seq<Seq<char>>, x: Seq<char>, y: Seq<char>) -> bool {
    exists|i: int| 0 <= i && i + 1 < args.len() && #[trigger] args[i] == x && args[i + 1] == y
}

proof fn lemma_passes_within(
    a: Seq<Seq<char>>,
    b: Seq<Seq<char>>,
    c: Seq<Seq<char>>,
    x: Seq<char>,
    y: Seq<char>,
)
    requires
        passes(b, x, y),
    ensures
        passes(a + b + c, x, y),
{
    let i = choose|i: int| 0 <= i && i + 1 < b.len() && #[trigger] b[i] == x && b[i + 1] == y;
    let all = a + b + c;
    assert(all[a.len() + i] == x);
    assert(all[a.len() + i + 1] == y);
}

proof fn lemma_option(options: Seq<Seq<char>>, i: int)
    requires
        0 <= i < options.len(),
    ensures
        passes(SshTargetView::option_args(options), "-o"@, options[i]),
    decreases options.len(),
{
    let before = SshTargetView::option_args(options.drop_last());
    let all = SshTargetView::option_args(options);
    if i == options.len() - 1 {
        assert(all[before.len() as int] == "-o"@);
        assert(all[(before.len() + 1) as int] == options[i]);
    } else {
        assert(options.drop_last()[i] == options[i]);
        lemma_option(options.drop_last(), i);
        let none: Seq<Seq<char>> = seq![];
        let last = seq!["-o"@, options.last()];
        lemma_passes_within(none, before, last, "-o"@, options[i]);
        assert(all =~= none + before + last);
    }
}

/// What is asked of a connection is passed on: the time limit always, and the port, the
/// key and nothing but that key, the jump host, the user, the shared connection and
/// every option where they are given.
#[verifier::spinoff_prover]
pub proof fn law_options_are_passed_on(t: SshTargetView, control: Option<Seq<char>>, i: int)
    ensures
        ({
            let args = t.args(control);
            &&& passes(args, "-o"@, "ConnectTimeout="@ + dec(t.connect_timeout as nat))
            &&& t.port matches Some(p) ==> passes(args, "-p"@, dec(p as nat))
            &&& t.identity matches Some(key) ==> passes(args, "-i"@, key) && passes(
                args,
                "-o"@,
                "IdentitiesOnly=yes"@,
            )
            &&& t.jump matches Some(jump) ==> passes(args, "-J"@, jump)
            &&& t.user matches Some(user) ==> passes(args, "-l"@, user)
            &&& control matches Some(path) ==> passes(args, "-o"@, "ControlMaster=auto"@) && passes(
                args,
                "-o"@,
                "ControlPath="@ + path,
            ) && passes(args, "-o"@, "ControlPersist=120"@)
            &&& 0 <= i < t.options.len() ==> passes(args, "-o"@, t.options[i])
        }),
{
    let limit = seq!["-o"@, "ConnectTimeout="@ + dec(t.connect_timeout as nat)];
    let shared = SshTargetView::control_args(control);
    let port = SshTargetView::flag(
        "-p"@,
        match t.port {
            Some(p) => Some(dec(p as nat)),
            None => None,
        },
    );
    let key = SshTargetView::key_args(t.identity);
    let jump = SshTargetView::flag("-J"@, t.jump);
    let user = SshTargetView::flag("-l"@, t.user);
    let more = SshTargetView::option_args(t.options);
    let none: Seq<Seq<char>> = seq![];
    let o = "-o"@;
    assert(limit[0] == o);
    lemma_in_args(none, limit, shared, port, key, jump, user, more, o, limit[1]);
    assert(none + limit =~= limit);
    if control is Some {
        assert(shared[0] == o && shared[2] == o && shared[4] == o);
        lemma_in_args(limit, shared, port, key, jump, user, more, none, o, shared[1]);
        lemma_in_args(limit, shared, port, key, jump, user, more, none, o, shared[3]);
        lemma_in_args(limit, shared, port, key, jump, user, more, none, o, shared[5]);
    }
    let r2 = limit + shared;
    if t.port is Some {
        assert(port[0] == "-p"@);
        lemma_in_args(r2, port, key, jump, user, more, none, none, "-p"@, port[1]);
    }
    let r3 = r2 + port;
    if t.identity is Some {
        assert(key[0] == "-i"@ && key[2] == o);
        lemma_in_args(r3, key, jump, user, more, none, none, none, "-i"@, key[1]);
        lemma_in_args(r3, key, jump, user, more, none, none, none, o, key[3]);
    }
    let r4 = r3 + key;
    if t.jump is Some {
        assert(jump[0] == "-J"@);
        lemma_in_args(r4, jump, user, more, none, none, none, none, "-J"@, jump[1]);
    }
    let r5 = r4 + jump;
    if t.user is Some {
        assert(user[0] == "-l"@);
        lemma_in_args(r5, user, more, none, none, none, none, none, "-l"@, user[1]);
    }
    let r6 = r5 + user;
    if 0 <= i < t.options.len() {
        lemma_option(t.options, i);
        lemma_in_args(r6, more, none, none, none, none, none, none, o, t.options[i]);
    }
    let args = r6 + more;
    assert(args + none =~= args);
}

proof fn lemma_in_args(
    a: Seq<Seq<char>>,
    b: Seq<Seq<char>>,
    c: Seq<Seq<char>>,
    d: Seq<Seq<char>>,
    e: Seq<Seq<char>>,
    f: Seq<Seq<char>>,
    g: Seq<Seq<char>>,
    h: Seq<Seq<char>>,
    x: Seq<char>,
    y: Seq<char>,
)
    requires
        passes(b, x, y),
    ensures
        passes(a + b + c + d + e + f + g + h, x, y),
{
    let rest = c + d + e + f + g + h;
    lemma_passes_within(a, b, rest, x, y);
    assert(a + b + c + d + e + f + g + h =~= a + b + rest);
}

/// The script is run by `sh -s` on the destination, without a terminal, over the shared
/// connection where there is one; and only a shared connection is closed, at the same
/// place.
pub proof fn law_sessions_run_and_close(s: SessionView)
    ensures
        ({
            let run = s.run_line();
            let n = run.len() as int;
            &&& n >= 4
            &&& run[n - 4] == "-T"@
            &&& run[n - 3] == s.target.destination
            &&& run[n - 2] == "sh"@
            &&& run[n - 1] == "-s"@
            &&& run.take(n - 4) == s.target.args(s.control)
        }),
        s.control is None ==> s.close_line() is None,
        s.control matches Some(path) ==> {
            &&& s.close_line() matches Some(line) && passes(line, "-o"@, "ControlPath="@ + path)
                && passes(line, "-O"@, "exit"@) && line.last() == s.target.destination
        },
{
    let run = s.run_line();
    let args = s.target.args(s.control);
    assert(run.take(run.len() - 4) =~= args);
    if s.control is Some {
        let path = s.control->0;
        let a = s.target.args(None);
        let end = seq!["-o"@, "ControlPath="@ + path, "-O"@, "exit"@, s.target.destination];
        let none: Seq<Seq<char>> = seq![];
        let line = s.close_line()->0;
        assert(end[0] == "-o"@ && end[2] == "-O"@);
        assert(line =~= a + end + none);
        lemma_passes_within(a, end, none, "-o"@, "ControlPath="@ + path);
        lemma_passes_within(a, end, none, "-O"@, "exit"@);
    }
}

/// What is not asked for is not passed on.
pub proof fn law_nothing_else_is_passed_on(t: SshTargetView)
    requires
        t.port is None,
        t.identity is None,
        t.jump is None,
        t.user is None,
    ensures
        t.args(None) == seq!["-o"@, "ConnectTimeout="@ + dec(t.connect_timeout as nat)]
            + SshTargetView::option_args(t.options),
        t.options.len() == 0 ==> t.args(None).len() == 2,
{
    assert(t.args(None) =~= seq!["-o"@, "ConnectTimeout="@ + dec(t.connect_timeout as nat)]
        + SshTargetView::option_args(t.options));
}

} // verus!
