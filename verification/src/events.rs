//! What the dashboard does when something happens: a key is pressed, a tick
//! passes, a run comes back.

use crate::app::{law_shown_rows_are_rows, App, AppView, Item};
use crate::float::Format;
use crate::fmt::{cat2, cat3, cat4, cat5, dec, dec_int, decimal, decimal_int};
use crate::gather::lemma_filter_map_total;
use crate::model::{Audit, AuditView, ProbeOutcomeView, ProbeStatus};
use crate::probe::{
    assemble, assemble_at, assembled, is_moment, sections_of, split_sections, ProbeSpec,
    ProbeSpecView,
};
use crate::rows::{finding_row, finding_rows};
use crate::ssh::{Run, RunView};
use crate::tab::{law_slugs_lead_back, Tab};
use crate::text::{
    chars_of, first_out, is_alnum, is_blank, is_digit, join, joined, lemma_first_out,
    lemma_last_out, string_of, strip_back, strip_front, trim, trim_back, trim_front, trimmed, views,
    Class,
};
use vstd::prelude::*;
use vstd::slice::slice_subrange;

verus! {

/// A key of the keyboard.
#[derive(Debug, Clone, Copy, PartialEq, Eq, Structural)]
pub enum Key {
    Enter,
    Esc,
    Backspace,
    Tab,
    BackTab,
    Left,
    Right,
    Up,
    Down,
    PageUp,
    PageDown,
    Home,
    End,
    Char(char),
    Other,
}

/// What is to be done outside the dashboard.
#[derive(Debug, Clone, Copy, PartialEq, Eq, Structural)]
pub enum Action {
    Nothing,
    /// Write the audit to files and report back.
    Export,
    /// Run the probes again and hand over what comes back.
    Refresh,
}

impl AppView {
    /// The state after a key while the filter is being edited.
    pub open spec fn after_filter_key(self, key: Key) -> AppView {
        match key {
            Key::Enter => AppView { filter_editing: false, ..self },
            Key::Esc => AppView { filter: seq![], filter_editing: false, ..self },
            Key::Backspace => AppView {
                filter: if self.filter.len() == 0 {
                    self.filter
                } else {
                    self.filter.drop_last()
                },
                ..self
            },
            Key::Char(c) => AppView { filter: self.filter.push(c), ..self },
            _ => self,
        }
    }

    /// The state with the detail pane scrolled.
    pub open spec fn scrolled(self, delta: int) -> AppView {
        let to = self.detail_scroll + delta;
        AppView {
            detail_scroll: if to < 0 {
                0
            } else if to > u16::MAX {
                u16::MAX
            } else {
                to as u16
            },
            ..self
        }
    }

    /// The state after a key while the detail pane is open.
    pub open spec fn after_detail_key(self, key: Key) -> AppView {
        match key {
            Key::Esc | Key::Enter => AppView { detail_open: false, detail_scroll: 0, ..self },
            Key::Down => self.scrolled(1),
            Key::Up => self.scrolled(-1),
            Key::PageDown => self.scrolled(10),
            Key::PageUp => self.scrolled(-10),
            Key::Char(c) => if c == 'q' {
                AppView { detail_open: false, detail_scroll: 0, ..self }
            } else if c == 'j' {
                self.scrolled(1)
            } else if c == 'k' {
                self.scrolled(-1)
            } else {
                self
            },
            _ => self,
        }
    }

    /// The tab that the selected finding points at, where it points at another one
    /// than the Overview.
    pub open spec fn signpost(self) -> Option<Tab> {
        let i = self.selection() as int;
        if self.open_tab() is Overview && i < self.shown().len() {
            match Tab::keyed(self.audit.findings[self.shown()[i].index].tab) {
                Some(tab) => if tab is Overview {
                    None
                } else {
                    Some(tab)
                },
                None => None,
            }
        } else {
            None
        }
    }

    /// The state after choosing the selected row: a finding is a signpost, and
    /// leads to its evidence; any other row opens its detail.
    pub open spec fn after_enter(self) -> AppView {
        if self.shown().len() == 0 {
            self
        } else {
            match self.signpost() {
                Some(tab) => AppView {
                    status: "jumped to "@ + tab.name(),
                    ..self.with_tab(tab.place() as usize)
                },
                None => AppView { detail_open: true, detail_scroll: 0, ..self },
            }
        }
    }

    /// The state after asking for a new run.
    pub open spec fn after_refresh(self, has_session: bool) -> AppView {
        if !has_session {
            AppView { status: "this audit was loaded from a file — nothing to refresh"@, ..self }
        } else if self.busy {
            self
        } else {
            AppView { busy: true, status: "re-running probes…"@, ..self }
        }
    }

    /// The state after a character while no overlay is open.
    pub open spec fn after_char(self, c: char, control: bool, has_session: bool) -> AppView {
        let len = self.shown().len();
        if c == 'q' || (c == 'c' && control) {
            AppView { quit: true, ..self }
        } else if c == '?' {
            AppView { help_open: true, ..self }
        } else if c == 'l' {
            self.with_tab(((self.tab + 1) % 8) as usize)
        } else if c == 'h' {
            self.with_tab(((self.tab - 1) % 8) as usize)
        } else if '1' <= c <= '8' {
            self.with_tab((c as int - '1' as int) as usize)
        } else if c == 'j' {
            self.moved(1, len)
        } else if c == 'k' {
            self.moved(-1, len)
        } else if c == 'g' {
            self.at_edge(false, len)
        } else if c == 'G' {
            self.at_edge(true, len)
        } else if c == '/' {
            AppView { filter_editing: true, status: seq![], ..self }
        } else if c == 's' {
            self.sort_cycled(self.whole_table().headers.len())
        } else if c == 'S' {
            self.sort_reversed()
        } else if c == 'r' {
            self.after_refresh(has_session)
        } else {
            self
        }
    }

    /// The state after a key while no overlay is open.
    pub open spec fn after_plain_key(self, key: Key, control: bool, has_session: bool) -> AppView {
        let len = self.shown().len();
        match key {
            Key::Char(c) => self.after_char(c, control, has_session),
            Key::Esc => if self.filter.len() == 0 {
                AppView { quit: true, ..self }
            } else {
                AppView { filter: seq![], ..self }
            },
            Key::Tab | Key::Right => self.with_tab(((self.tab + 1) % 8) as usize),
            Key::BackTab | Key::Left => self.with_tab(((self.tab - 1) % 8) as usize),
            Key::Down => self.moved(1, len),
            Key::Up => self.moved(-1, len),
            Key::PageDown => self.moved(10, len),
            Key::PageUp => self.moved(-10, len),
            Key::Home => self.at_edge(false, len),
            Key::End => self.at_edge(true, len),
            Key::Enter => self.after_enter(),
            Key::Backspace | Key::Other => self,
        }
    }

    /// The state after a key. Overlays and the filter box swallow keys before
    /// anything else sees them.
    pub open spec fn after_key(self, key: Key, control: bool, has_session: bool) -> AppView {
        if self.help_open {
            AppView { help_open: false, ..self }
        } else if self.filter_editing {
            self.after_filter_key(key)
        } else if self.detail_open {
            self.after_detail_key(key)
        } else {
            self.after_plain_key(key, control, has_session)
        }
    }

    /// What a key asks for.
    pub open spec fn asked(self, key: Key, has_session: bool) -> Action {
        if self.help_open || self.filter_editing || self.detail_open {
            Action::Nothing
        } else if key == Key::Char('e') {
            Action::Export
        } else if key == Key::Char('r') && has_session && !self.busy {
            Action::Refresh
        } else {
            Action::Nothing
        }
    }
}

fn filter_key(app: &mut App, key: Key)
    requires
        old(app)@.wf(),
    ensures
        final(app)@.wf(),
        final(app)@ == old(app)@.after_filter_key(key),
{
    match key {
        Key::Enter => {
            app.filter_editing = false;
        },
        Key::Esc => {
            app.filter = String::new();
            app.filter_editing = false;
            assert(app.filter@ =~= seq![]);
        },
        Key::Backspace => {
            let cs = chars_of(app.filter.as_str());
            let n: usize = cs.len();
            if n > 0 {
                let rest = slice_subrange(cs.as_slice(), 0, n - 1);
                assert(rest@ =~= app.filter@.drop_last());
                app.filter = string_of(rest);
            }
        },
        Key::Char(c) => {
            app.filter.push(c);
        },
        _ => {},
    }
}

fn scroll(app: &mut App, delta: i32)
    requires
        old(app)@.wf(),
        -10 <= delta <= 10,
    ensures
        final(app)@.wf(),
        final(app)@ == old(app)@.scrolled(delta as int),
{
    let to: i32 = app.detail_scroll as i32 + delta;
    app.detail_scroll = if to < 0 {
        0
    } else if to > u16::MAX as i32 {
        u16::MAX
    } else {
        to as u16
    };
}

fn close_detail(app: &mut App)
    requires
        old(app)@.wf(),
    ensures
        final(app)@.wf(),
        final(app)@ == (AppView { detail_open: false, detail_scroll: 0, ..old(app)@ }),
{
    app.detail_open = false;
    app.detail_scroll = 0;
}

fn detail_key(app: &mut App, key: Key)
    requires
        old(app)@.wf(),
    ensures
        final(app)@.wf(),
        final(app)@ == old(app)@.after_detail_key(key),
{
    match key {
        Key::Esc | Key::Enter => close_detail(app),
        Key::Down => scroll(app, 1),
        Key::Up => scroll(app, -1),
        Key::PageDown => scroll(app, 10),
        Key::PageUp => scroll(app, -10),
        Key::Char(c) => {
            if c == 'q' {
                close_detail(app);
            } else if c == 'j' {
                scroll(app, 1);
            } else if c == 'k' {
                scroll(app, -1);
            }
        },
        _ => {},
    }
}

proof fn lemma_signpost_in_range(app: AppView, i: int)
    requires
        app.wf(),
        app.open_tab() is Overview,
        0 <= i < app.shown().len(),
    ensures
        0 <= app.shown()[i].index < app.audit.findings.len(),
{
    law_shown_rows_are_rows(app, i);
    lemma_filter_map_total(app.audit.findings, finding_rows());
}

fn signpost(app: &App, items: &Vec<Item>) -> (r: Option<Tab>)
    requires
        app@.wf(),
        views(items@) == app@.shown(),
    ensures
        r == app@.signpost(),
{
    if app.current_tab() != Tab::Overview {
        return None;
    }
    let i = app.selected();
    assert(views(items@).len() == items@.len());
    if i >= items.len() {
        return None;
    }
    proof {
        lemma_signpost_in_range(app@, i as int);
        assert(app@.shown()[i as int] == items@[i as int]@);
    }
    let f = &app.audit.findings[items[i].index];
    assert(f@ == app@.audit.findings[app@.shown()[i as int].index]);
    match Tab::from_slug(f.tab.as_str()) {
        Some(tab) => if tab == Tab::Overview {
            None
        } else {
            Some(tab)
        },
        None => None,
    }
}

fn enter_key(app: &mut App)
    requires
        old(app)@.wf(),
    ensures
        final(app)@.wf(),
        final(app)@ == old(app)@.after_enter(),
{
    let items = app.items();
    assert(views(items@).len() == items@.len());
    if items.len() == 0 {
        return;
    }
    match signpost(app, &items) {
        Some(tab) => {
            app.set_tab(tab);
            app.status = cat2("jumped to ", tab.title());
        },
        None => {
            app.detail_open = true;
            app.detail_scroll = 0;
        },
    }
}

fn row_count(app: &App) -> (n: usize)
    requires
        app@.wf(),
    ensures
        n == app@.shown().len(),
{
    let items = app.items();
    assert(views(items@).len() == items@.len());
    items.len()
}

fn move_by(app: &mut App, delta: isize)
    requires
        old(app)@.wf(),
    ensures
        final(app)@.wf(),
        final(app)@ == old(app)@.moved(delta as int, old(app)@.shown().len()),
{
    let len = row_count(app);
    app.move_selection(delta, len);
}

fn move_to_edge(app: &mut App, last: bool)
    requires
        old(app)@.wf(),
    ensures
        final(app)@.wf(),
        final(app)@ == old(app)@.at_edge(last, old(app)@.shown().len()),
{
    let len = row_count(app);
    app.select_edge(last, len);
}

fn refresh_key(app: &mut App, has_session: bool)
    requires
        old(app)@.wf(),
    ensures
        final(app)@.wf(),
        final(app)@ == old(app)@.after_refresh(has_session),
{
    if !has_session {
        app.status = "this audit was loaded from a file — nothing to refresh".to_string();
    } else if !app.busy {
        app.busy = true;
        app.status = "re-running probes…".to_string();
    }
}

fn char_key(app: &mut App, c: char, control: bool, has_session: bool)
    requires
        old(app)@.wf(),
    ensures
        final(app)@.wf(),
        final(app)@ == old(app)@.after_char(c, control, has_session),
{
    if c == 'q' || (c == 'c' && control) {
        app.quit = true;
    } else if c == '?' {
        app.help_open = true;
    } else if c == 'l' {
        app.next_tab(1);
    } else if c == 'h' {
        app.next_tab(-1);
    } else if '1' <= c && c <= '8' {
        let i: usize = c as usize - '1' as usize;
        app.set_tab(Tab::at(i));
    } else if c == 'j' {
        move_by(app, 1);
    } else if c == 'k' {
        move_by(app, -1);
    } else if c == 'g' {
        move_to_edge(app, false);
    } else if c == 'G' {
        move_to_edge(app, true);
    } else if c == '/' {
        app.filter_editing = true;
        app.status = String::new();
        assert(app.status@ =~= seq![]);
    } else if c == 's' {
        let table = app.table();
        assert(table@.headers.len() == table.headers@.len());
        app.cycle_sort(table.headers.len());
    } else if c == 'S' {
        app.toggle_sort_direction();
    } else if c == 'r' {
        refresh_key(app, has_session);
    }
}

fn plain_key(app: &mut App, key: Key, control: bool, has_session: bool)
    requires
        old(app)@.wf(),
    ensures
        final(app)@.wf(),
        final(app)@ == old(app)@.after_plain_key(key, control, has_session),
{
    match key {
        Key::Char(c) => char_key(app, c, control, has_session),
        Key::Esc => {
            if is_blank(&app.filter) {
                app.quit = true;
            } else {
                app.filter = String::new();
                assert(app.filter@ =~= seq![]);
            }
        },
        Key::Tab | Key::Right => app.next_tab(1),
        Key::BackTab | Key::Left => app.next_tab(-1),
        Key::Down => move_by(app, 1),
        Key::Up => move_by(app, -1),
        Key::PageDown => move_by(app, 10),
        Key::PageUp => move_by(app, -10),
        Key::Home => move_to_edge(app, false),
        Key::End => move_to_edge(app, true),
        Key::Enter => enter_key(app),
        Key::Backspace | Key::Other => {},
    }
}

/// Reacts to a key, and says what is to be done outside the dashboard.
pub fn handle_key(app: &mut App, key: Key, control: bool, has_session: bool) -> (r: Action)
    requires
        old(app)@.wf(),
    ensures
        final(app)@.wf(),
        final(app)@ == old(app)@.after_key(key, control, has_session),
        r == old(app)@.asked(key, has_session),
{
    // Overlays and the filter box swallow keys before anything else sees them.
    if app.help_open {
        app.help_open = false;
        return Action::Nothing;
    }
    if app.filter_editing {
        filter_key(app, key);
        return Action::Nothing;
    }
    if app.detail_open {
        detail_key(app, key);
        return Action::Nothing;
    }
    let action = match key {
        Key::Char(c) => if c == 'e' {
            Action::Export
        } else if c == 'r' && has_session && !app.busy {
            Action::Refresh
        } else {
            Action::Nothing
        },
        _ => Action::Nothing,
    };
    plain_key(app, key, control, has_session);
    action
}

// --------------------------------------------------------------- summary ----

/// How many probes have a status.
pub open spec fn count_status(probes: Seq<ProbeOutcomeView>, status: ProbeStatus) -> nat
    decreases probes.len(),
{
    if probes.len() == 0 {
        0
    } else {
        count_status(probes.drop_last(), status) + if probes.last().status == status {
            1nat
        } else {
            0nat
        }
    }
}

/// A number of milliseconds in seconds, computed in double precision, with one
/// decimal.
pub open spec fn seconds_text(ms: u64) -> Seq<char> {
    let f = Format::Double;
    f.printed(f.quotient(f.nearest(ms as nat, 1), f.nearest(1000, 1)), 1)
}

/// A count that is worth mentioning.
pub open spec fn mentioned(n: nat, word: Seq<char>) -> Seq<Seq<char>> {
    if n == 0 {
        seq![]
    } else {
        seq![dec(n) + " "@ + word]
    }
}

/// A run in one line.
pub open spec fn summary_of(a: AuditView) -> Seq<char> {
    joined(
        seq![
            "collected in "@ + seconds_text(a.duration_ms) + "s — "@ + dec(
                count_status(a.probes, ProbeStatus::Complete),
            ) + " probes ok"@,
        ] + mentioned(count_status(a.probes, ProbeStatus::Denied), "denied"@) + mentioned(
            count_status(a.probes, ProbeStatus::Unsupported),
            "unavailable"@,
        ) + mentioned(count_status(a.probes, ProbeStatus::Failed), "failed"@) + seq![
            dec(a.findings.len()) + " findings"@,
        ],
        ", "@,
    )
}

fn count(a: &Audit, status: ProbeStatus) -> (n: usize)
    ensures
        n == count_status(a@.probes, status),
{
    let ghost all = a@.probes;
    let mut n: usize = 0;
    let mut i: usize = 0;
    while i < a.probes.len()
        invariant
            i <= a.probes.len(),
            n <= i,
            all == views(a.probes@),
            n == count_status(all.take(i as int), status),
        decreases a.probes.len() - i,
    {
        assert(all.take(i + 1).drop_last() =~= all.take(i as int));
        assert(all.take(i + 1).last() == a.probes@[i as int]@);
        if a.probes[i].status == status {
            n += 1;
        }
        i += 1;
    }
    assert(all.take(all.len() as int) =~= all);
    n
}

fn mention(parts: &mut Vec<String>, n: usize, word: &str)
    ensures
        views(final(parts)@) == views(old(parts)@) + mentioned(n as nat, word@),
{
    let ghost before = parts@;
    if n > 0 {
        let d = decimal(n as u64);
        let s = cat3(d.as_str(), " ", word);
        let ghost seen = s@;
        parts.push(s);
        assert(views(parts@) =~= views(before) + seq![seen]);
    } else {
        assert(views(parts@) =~= views(before) + seq![]);
    }
}

/// A run in one line.
pub fn summarise(a: &Audit) -> (r: String)
    ensures
        r@ == summary_of(a@),
{
    let f = Format::Double;
    let secs = f.print(f.divide(f.from_integer(a.duration_ms), f.from_integer(1000)), 1);
    let ok = decimal(count(a, ProbeStatus::Complete) as u64);
    let mut parts: Vec<String> = Vec::new();
    parts.push(cat5("collected in ", secs.as_str(), "s — ", ok.as_str(), " probes ok"));
    assert(views(parts@) =~= seq![parts@[0]@]);
    mention(&mut parts, count(a, ProbeStatus::Denied), "denied");
    mention(&mut parts, count(a, ProbeStatus::Unsupported), "unavailable");
    mention(&mut parts, count(a, ProbeStatus::Failed), "failed");
    let ghost before = parts@;
    let n = decimal(a.findings.len() as u64);
    let last = cat2(n.as_str(), " findings");
    let ghost seen = last@;
    parts.push(last);
    assert(views(parts@) =~= views(before) + seq![seen]);
    join(&parts, ", ")
}

/// The message for a connection that brought no section back.
pub open spec fn no_data_text(label: Seq<char>, code: Option<i32>, stderr: Seq<char>) -> Seq<char> {
    "no audit data came back from "@ + label + (match code {
        Some(c) => " (ssh exited "@ + dec_int(c as int) + ")"@,
        None => ""@,
    }) + (if trimmed(stderr).len() == 0 {
        ""@
    } else {
        "\n"@ + trimmed(stderr)
    })
}

/// The message for a connection that brought no section back.
pub fn no_data_message(label: &str, code: Option<i32>, stderr: &str) -> (r: String)
    ensures
        r@ == no_data_text(label@, code, stderr@),
{
    let exited = match code {
        Some(c) => {
            let n = decimal_int(c as i64);
            cat3(" (ssh exited ", n.as_str(), ")")
        },
        None => "".to_string(),
    };
    let cs = chars_of(stderr);
    let t = trim(cs.as_slice());
    let hint = if t.len() == 0 {
        "".to_string()
    } else {
        let h = string_of(t);
        cat2("\n", h.as_str())
    };
    cat4("no audit data came back from ", label, exited.as_str(), hint.as_str())
}

/// What a run of the script amounts to: an audit, or the reason why there is none.
pub open spec fn run_outcome(
    label: Seq<char>,
    specs: Seq<ProbeSpecView>,
    nonce: Seq<char>,
    run: RunView,
    duration_ms: u64,
    collected_at: Seq<char>,
) -> Result<AuditView, Seq<char>> {
    let sections = sections_of(run.stdout, nonce);
    if sections.dom().len() == 0 {
        Err(no_data_text(label, run.code, run.stderr))
    } else {
        Ok(assembled(label, specs, sections, duration_ms, collected_at))
    }
}

/// `audit_from` for a run that ended at a given time.
pub fn audit_from_at(
    label: &str,
    specs: &[ProbeSpec],
    nonce: &str,
    run: &Run,
    duration_ms: u64,
    collected_at: String,
) -> (r: Result<Audit, String>)
    ensures
        told(r) == run_outcome(label@, views(specs@), nonce@, run@, duration_ms, collected_at@),
{
    let sections = split_sections(run.stdout.as_str(), nonce);
    if sections.len() == 0 {
        Err(no_data_message(label, run.code, run.stderr.as_str()))
    } else {
        Ok(assemble_at(label, specs, &sections, duration_ms, collected_at))
    }
}

/// Turns what came back from a run of the script, just now, into an audit.
pub fn audit_from(
    label: &str,
    specs: &[ProbeSpec],
    nonce: &str,
    run: &Run,
    duration_ms: u64,
) -> (r: Result<Audit, String>)
    ensures
        told(r) == run_outcome(
            label@,
            views(specs@),
            nonce@,
            run@,
            duration_ms,
            match r {
                Ok(audit) => audit@.collected_at,
                Err(_) => seq![],
            },
        ),
        r matches Ok(audit) ==> is_moment(audit@.collected_at),
{
    let sections = split_sections(run.stdout.as_str(), nonce);
    if sections.len() == 0 {
        Err(no_data_message(label, run.code, run.stderr.as_str()))
    } else {
        Ok(assemble(label, specs, &sections, duration_ms))
    }
}

/// A result with its contents taken by their views.
pub open spec fn told(r: Result<Audit, String>) -> Result<AuditView, Seq<char>> {
    match r {
        Ok(audit) => Ok(audit@),
        Err(e) => Err(e@),
    }
}

// ---------------------------------------------------------------- events ----

/// A tick passed.
pub fn on_tick(app: &mut App)
    ensures
        final(app)@ == (AppView {
            spinner: if old(app).spinner == usize::MAX {
                0
            } else {
                (old(app).spinner + 1) as usize
            },
            ..old(app)@
        }),
{
    app.spinner = if app.spinner == usize::MAX {
        0
    } else {
        app.spinner + 1
    };
}

impl AppView {
    /// The state after a run came back.
    pub open spec fn after_run(self, result: Result<AuditView, Seq<char>>) -> AppView {
        match result {
            Ok(audit) => AppView {
                busy: false,
                status: "refreshed — "@ + summary_of(audit),
                audit,
                ..self
            },
            Err(e) => AppView { busy: false, status: "refresh failed: "@ + e, ..self },
        }
    }
}

/// A run came back.
pub fn on_collected(app: &mut App, result: Result<Audit, String>)
    ensures
        final(app)@ == old(app)@.after_run(told(result)),
{
    app.busy = false;
    match result {
        Ok(audit) => {
            let s = summarise(&audit);
            app.status = cat2("refreshed — ", s.as_str());
            app.audit = audit;
        },
        Err(e) => {
            app.status = cat2("refresh failed: ", e.as_str());
        },
    }
}

// ---------------------------------------------------------------- export ----

/// A character that is safe in a file name.
pub open spec fn safe_char() -> spec_fn(char) -> char {
    |c: char|
        if is_alnum(c) {
            c
        } else {
            '-'
        }
}

/// A text as a part of a file name: letters and digits, dashes between them.
pub open spec fn slug_of(s: Seq<char>) -> Seq<char> {
    strip_back(strip_front(s.map_values(safe_char()), Class::Only('-')), Class::Only('-'))
}

pub fn slug(s: &str) -> (r: String)
    ensures
        r@ == slug_of(s@),
{
    let cs = chars_of(s);
    let mut out: Vec<char> = Vec::new();
    let mut i: usize = 0;
    while i < cs.len()
        invariant
            i <= cs.len(),
            cs@ == s@,
            out@ == s@.take(i as int).map_values(safe_char()),
        decreases cs.len() - i,
    {
        let c = if Class::Alnum.has(cs[i]) {
            cs[i]
        } else {
            '-'
        };
        out.push(c);
        assert(out@ =~= s@.take(i + 1).map_values(safe_char()));
        i += 1;
    }
    assert(s@.take(s@.len() as int) =~= s@);
    string_of(trim_back(trim_front(out.as_slice(), Class::Only('-')), Class::Only('-')))
}

/// What both files of an export are called, up to the extension.
pub open spec fn export_stem(target: Seq<char>, stamp: Seq<char>) -> Seq<char> {
    "srvaudit-"@ + slug_of(target) + "-"@ + stamp
}

/// The names of the JSON and the Markdown file of an export made at a given time.
pub fn export_names(target: &str, stamp: &str) -> (r: (String, String))
    ensures
        r.0@ == export_stem(target@, stamp@) + ".json"@,
        r.1@ == export_stem(target@, stamp@) + ".md"@,
{
    let what = slug(target);
    let stem = cat4("srvaudit-", what.as_str(), "-", stamp);
    (cat2(stem.as_str(), ".json"), cat2(stem.as_str(), ".md"))
}

/// Whether a text can be the year, month, day, dash, hour, minute and second of a
/// time: digits, the dash, and the sign of a year that does not have four digits.
pub open spec fn is_time_stamp(s: Seq<char>) -> bool {
    &&& s.len() >= 15
    &&& forall|i: int| 0 <= i < s.len() ==> is_stamp_char(#[trigger] s[i])
}

/// A digit or a sign.
pub open spec fn is_stamp_char(c: char) -> bool {
    is_digit(c) || c == '-' || c == '+'
}

/// `chrono::Local::now`, `DateTime::format` with `%Y%m%d-%H%M%S`, and `to_string`:
/// the time on this machine's clock, in its time zone. The year is written with at
/// least four digits, and with a sign where it needs more or is negative; every
/// other number with two digits. Which time it is is left unsaid.
#[verifier::external_body]
fn time_stamp() -> (r: String)
    ensures
        is_time_stamp(r@),
{
    chrono::Local::now().format("%Y%m%d-%H%M%S").to_string()
}

/// The names of the JSON and the Markdown file of an export made now.
pub fn export_names_now(target: &str) -> (r: (String, String))
    ensures
        exists|stamp: Seq<char>|
            {
                &&& is_time_stamp(stamp)
                &&& r.0@ == #[trigger] export_stem(target@, stamp) + ".json"@
                &&& r.1@ == export_stem(target@, stamp) + ".md"@
            },
{
    let stamp = time_stamp();
    export_names(target, stamp.as_str())
}

/// An export was written, or not.
pub fn on_exported(app: &mut App, result: Result<(String, String), String>)
    ensures
        final(app)@ == (AppView {
            status: match result {
                Ok((json, md)) => "wrote "@ + json@ + " and "@ + md@,
                Err(e) => "export failed: "@ + e@,
            },
            ..old(app)@
        }),
{
    app.status = match result {
        Ok((json, md)) => cat4("wrote ", json.as_str(), " and ", md.as_str()),
        Err(e) => cat2("export failed: ", e.as_str()),
    };
}

// ---------------------------------------------------------------- laws ----

/// A key never changes what was found, and what it leaves is a state again.
pub proof fn law_keys_keep_the_audit(app: AppView, key: Key, control: bool, has_session: bool)
    requires
        app.wf(),
    ensures
        app.after_key(key, control, has_session).audit == app.audit,
        app.after_key(key, control, has_session).wf(),
{
}

/// An open overlay and the filter box swallow every key: whatever it is, it moves
/// no selection, opens no tab, sorts nothing, ends nothing and asks for nothing.
pub proof fn law_overlays_swallow_keys(app: AppView, key: Key, control: bool, has_session: bool)
    requires
        app.wf(),
        app.help_open || app.filter_editing || app.detail_open,
    ensures
        ({
            let then = app.after_key(key, control, has_session);
            &&& then.tab == app.tab
            &&& then.states == app.states
            &&& then.sort_column == app.sort_column
            &&& then.sort_desc == app.sort_desc
            &&& then.quit == app.quit
            &&& then.busy == app.busy
            &&& then.status == app.status
            &&& !app.filter_editing || app.help_open ==> then.filter == app.filter
        }),
        app.asked(key, has_session) is Nothing,
{
}

/// Only `q`, control-`c` and, where there is no filter to clear, escape end the
/// dashboard.
pub proof fn law_what_quits(app: AppView, key: Key, control: bool, has_session: bool)
    requires
        app.wf(),
        !app.quit,
        app.after_key(key, control, has_session).quit,
    ensures
        !app.help_open && !app.filter_editing && !app.detail_open,
        key == Key::Char('q') || (key == Key::Char('c') && control) || (key == Key::Esc
            && app.filter.len() == 0),
{
}

/// There is one run at a time: asking for one makes the dashboard busy, a busy
/// dashboard asks for none, and it is busy until the run comes back.
pub proof fn law_one_run_at_a_time(
    app: AppView,
    key: Key,
    control: bool,
    has_session: bool,
    result: Result<AuditView, Seq<char>>,
)
    requires
        app.wf(),
    ensures
        app.asked(key, has_session) is Refresh ==> !app.busy && has_session && app.after_key(
            key,
            control,
            has_session,
        ).busy,
        app.busy ==> !(app.asked(key, has_session) is Refresh) && app.after_key(
            key,
            control,
            has_session,
        ).busy,
        !app.after_run(result).busy,
{
}

/// A run that failed leaves what was found before.
pub proof fn law_failed_run_keeps_the_audit(app: AppView, why: Seq<char>)
    ensures
        app.after_run(Err(why)).audit == app.audit,
{
}

/// Choosing a finding on the Overview opens the tab that holds its evidence.
pub proof fn law_findings_lead_to_evidence(app: AppView, tab: Tab)
    requires
        app.wf(),
        app.open_tab() is Overview,
        app.selection() < app.shown().len(),
        app.audit.findings[app.shown()[app.selection() as int].index].tab == tab.key(),
        tab != Tab::Overview,
    ensures
        app.after_enter().open_tab() == tab,
        app.shown()[app.selection() as int].row == finding_row(
            app.audit.findings[app.shown()[app.selection() as int].index],
        ),
{
    law_slugs_lead_back(tab);
    law_shown_rows_are_rows(app, app.selection() as int);
    lemma_filter_map_total(app.audit.findings, finding_rows());
}

/// The part of a file name that stands for a target holds letters, digits and
/// dashes, and neither begins nor ends with a dash.
pub proof fn law_slugs_are_safe(s: Seq<char>)
    ensures
        slug_of(s).len() <= s.len(),
        forall|i: int|
            0 <= i < slug_of(s).len() ==> is_alnum(#[trigger] slug_of(s)[i]) || slug_of(s)[i]
                == '-',
        slug_of(s).len() > 0 ==> is_alnum(slug_of(s)[0]) && is_alnum(slug_of(s).last()),
{
    let k = Class::Only('-');
    let all = s.map_values(safe_char());
    lemma_first_out(all, k);
    let rest = strip_front(all, k);
    lemma_last_out(rest, k);
    assert(forall|i: int| 0 <= i < all.len() ==> is_alnum(#[trigger] all[i]) || all[i] == '-');
    assert(forall|i: int| 0 <= i < rest.len() ==> rest[i] == all[i + first_out(all, k)]);
    if slug_of(s).len() > 0 {
        assert(!k.holds(rest[0])) by {
            assert(rest[0] == all[first_out(all, k)]);
        }
    }
}

/// What an export is called, up to the extension, holds letters, digits, dashes and
/// the sign of the year: nothing that means something to a file system.
pub proof fn law_export_names_are_safe(target: Seq<char>, stamp: Seq<char>)
    requires
        is_time_stamp(stamp),
    ensures
        forall|i: int|
            0 <= i < export_stem(target, stamp).len() ==> is_alnum(
                #[trigger] export_stem(target, stamp)[i],
            ) || is_stamp_char(export_stem(target, stamp)[i]),
{
    reveal_strlit("srvaudit-");
    reveal_strlit("-");
    law_slugs_are_safe(target);
    let head = "srvaudit-"@;
    let what = slug_of(target);
    let s = export_stem(target, stamp);
    assert forall|i: int| 0 <= i < s.len() implies is_alnum(#[trigger] s[i]) || is_stamp_char(
        s[i],
    ) by {
        if i < head.len() {
            assert(s[i] == head[i]);
        } else if i < head.len() + what.len() {
            assert(s[i] == what[i - head.len()]);
        } else if i > head.len() + what.len() {
            assert(s[i] == stamp[i - head.len() - what.len() - 1]);
        }
    }
}

} // verus!
