//! What each key does, stated by what is on the screen before and after it.

use crate::app::AppView;
use crate::events::{Action, Key};
use crate::tab::Tab;
use vstd::prelude::*;

verus! {

/// Whether no overlay is open and the filter is not being typed.
pub open spec fn is_plain(app: AppView) -> bool {
    app.wf() && !app.help_open && !app.filter_editing && !app.detail_open
}

/// Whether two states differ in nothing but the selection of the open tab and the place
/// in the detail.
pub open spec fn only_moved(before: AppView, after: AppView) -> bool {
    &&& after.states.len() == 8
    &&& forall|t: int| 0 <= t < 8 && t != before.tab ==> #[trigger] after.states[t] == before.states[t]
    &&& after == (AppView {
        states: after.states,
        detail_scroll: after.detail_scroll,
        ..before
    })
}

/// The keys that move the selection: one row, ten rows or all the way, in both
/// directions, and never past the first or the last row.
pub proof fn law_movement_keys(app: AppView, control: bool, live: bool)
    requires
        is_plain(app),
        app.shown().len() > 0,
        app.shown().len() <= usize::MAX,
        app.selection() < app.shown().len(),
    ensures
        ({
            let n = app.shown().len() as int;
            let at = app.selection() as int;
            let to = |key: Key| app.after_key(key, control, live).selection() as int;
            &&& to(Key::Down) == (if at + 1 < n {
                at + 1
            } else {
                n - 1
            })
            &&& to(Key::Up) == (if at > 0 {
                at - 1
            } else {
                0
            })
            &&& to(Key::PageDown) == (if at + 10 < n {
                at + 10
            } else {
                n - 1
            })
            &&& to(Key::PageUp) == (if at > 10 {
                at - 10
            } else {
                0
            })
            &&& to(Key::Home) == 0
            &&& to(Key::End) == n - 1
            &&& to(Key::Char('j')) == to(Key::Down)
            &&& to(Key::Char('k')) == to(Key::Up)
            &&& to(Key::Char('g')) == 0
            &&& to(Key::Char('G')) == n - 1
        }),
        only_moved(app, app.after_key(Key::Down, control, live)),
        only_moved(app, app.after_key(Key::Up, control, live)),
        only_moved(app, app.after_key(Key::PageDown, control, live)),
        only_moved(app, app.after_key(Key::PageUp, control, live)),
        only_moved(app, app.after_key(Key::Home, control, live)),
        only_moved(app, app.after_key(Key::End, control, live)),
        only_moved(app, app.after_key(Key::Char('j'), control, live)),
        only_moved(app, app.after_key(Key::Char('k'), control, live)),
        only_moved(app, app.after_key(Key::Char('g'), control, live)),
        only_moved(app, app.after_key(Key::Char('G'), control, live)),
{
}

/// The keys that change the tab: one to the right, one to the left, each round the end,
/// and the tab with the given number. Each closes the detail and changes nothing else.
pub proof fn law_tab_keys(app: AppView, control: bool, live: bool, n: u8)
    requires
        is_plain(app),
        1 <= n <= 8,
    ensures
        ({
            let right = if app.tab == 7 {
                0usize
            } else {
                (app.tab + 1) as usize
            };
            let left = if app.tab == 0 {
                7usize
            } else {
                (app.tab - 1) as usize
            };
            let there = |tab: usize| AppView { tab, detail_open: false, ..app };
            &&& app.after_key(Key::Tab, control, live) == there(right)
            &&& app.after_key(Key::Right, control, live) == there(right)
            &&& app.after_key(Key::Char('l'), control, live) == there(right)
            &&& app.after_key(Key::BackTab, control, live) == there(left)
            &&& app.after_key(Key::Left, control, live) == there(left)
            &&& app.after_key(Key::Char('h'), control, live) == there(left)
            &&& app.after_key(Key::Char((48 + n) as char), control, live) == there((n - 1) as usize)
        }),
        Tab::nth(0) is Overview && Tab::nth(1) is Ports && Tab::nth(2) is Containers && Tab::nth(3) is Services
            && Tab::nth(4) is Disks && Tab::nth(5) is Dirs && Tab::nth(6) is Schedules && Tab::nth(
            7,
        ) is Probes,
{
}

/// While a filter is typed, a character goes to its end and is taken back by backspace;
/// Enter keeps the filter and Escape drops it. Nothing else changes.
pub proof fn law_filter_keys(app: AppView, c: char, control: bool, live: bool)
    requires
        app.wf(),
        !app.help_open,
        app.filter_editing,
    ensures
        ({
            let typed = app.after_key(Key::Char(c), control, live);
            &&& typed == (AppView { filter: app.filter.push(c), ..app })
            &&& typed.after_key(Key::Backspace, control, live) == app
            &&& app.after_key(Key::Enter, control, live) == (AppView { filter_editing: false, ..app })
            &&& app.after_key(Key::Esc, control, live) == (AppView {
                filter_editing: false,
                filter: seq![],
                ..app
            })
            &&& app.filter.len() == 0 ==> app.after_key(Key::Backspace, control, live) == app
            &&& app.after_key(Key::Tab, control, live) == app
            &&& app.after_key(Key::Down, control, live) == app
        }),
{
    assert(app.filter.push(c).drop_last() =~= app.filter);
}

/// In the detail of a row, the arrows and pages scroll, never above the top, and Enter,
/// Escape and `q` close it.
pub proof fn law_detail_keys(app: AppView, control: bool, live: bool)
    requires
        app.wf(),
        !app.help_open,
        !app.filter_editing,
        app.detail_open,
    ensures
        ({
            let at = app.detail_scroll as int;
            let to = |key: Key| app.after_key(key, control, live).detail_scroll as int;
            let closed = AppView { detail_open: false, detail_scroll: 0, ..app };
            &&& at < u16::MAX ==> to(Key::Down) == at + 1 && to(Key::Char('j')) == at + 1
            &&& at > 0 ==> to(Key::Up) == at - 1 && to(Key::Char('k')) == at - 1
            &&& at == 0 ==> to(Key::Up) == 0 && to(Key::Char('k')) == 0
            &&& at + 10 <= u16::MAX ==> to(Key::PageDown) == at + 10
            &&& at >= 10 ==> to(Key::PageUp) == at - 10
            &&& at < 10 ==> to(Key::PageUp) == 0
            &&& app.after_key(Key::Esc, control, live) == closed
            &&& app.after_key(Key::Enter, control, live) == closed
            &&& app.after_key(Key::Char('q'), control, live) == closed
        }),
{
}

/// The keys that open something, order the rows or leave: `?` opens the help, which any
/// key closes, `/` the filter, Enter the detail of a row; `S` turns the order round;
/// Escape first drops the filter, then leaves.
pub proof fn law_other_keys(app: AppView, key: Key, control: bool, live: bool)
    requires
        is_plain(app),
    ensures
        ({
            let helped = app.after_key(Key::Char('?'), control, live);
            &&& helped == (AppView { help_open: true, ..app })
            &&& helped.after_key(key, control, live) == app
        }),
        app.after_key(Key::Char('/'), control, live) == (AppView {
            filter_editing: true,
            status: seq![],
            ..app
        }),
        app.filter.len() > 0 ==> app.after_key(Key::Esc, control, live) == (AppView {
            filter: seq![],
            ..app
        }),
        app.filter.len() == 0 ==> app.after_key(Key::Esc, control, live) == (AppView {
            quit: true,
            ..app
        }),
        app.shown().len() > 0 && !(Tab::nth(app.tab as int) is Overview) ==> app.after_key(
            Key::Enter,
            control,
            live,
        ) == (AppView { detail_open: true, detail_scroll: 0, ..app }),
        app.shown().len() == 0 ==> app.after_key(Key::Enter, control, live) == app,
        ({
            let turned = app.after_key(Key::Char('S'), control, live);
            &&& turned.sort_desc[app.tab as int] == !app.sort_desc[app.tab as int]
            &&& turned.sort_column == app.sort_column
            &&& turned.audit == app.audit && turned.tab == app.tab && turned.filter == app.filter
        }),
        ({
            let n = app.whole_table().headers.len();
            let next = app.after_key(Key::Char('s'), control, live).sort_column[app.tab as int];
            match app.sort_column[app.tab as int] {
                None => n > 0 ==> next == Some(0usize),
                Some(c) => n > 0 ==> next == (if c + 1 < n {
                    Some((c + 1) as usize)
                } else {
                    None
                }),
            }
        }),
        app.after_key(Key::Other, control, live) == app,
        app.after_key(Key::Backspace, control, live) == app,
{
}

/// `r` asks for a new run, once, where there is a session to run it in, and says so; `e`
/// asks for an export; no other key asks for anything.
pub proof fn law_asking_keys(app: AppView, key: Key, live: bool)
    requires
        is_plain(app),
    ensures
        app.asked(Key::Char('e'), live) == Action::Export,
        live && !app.busy ==> app.asked(Key::Char('r'), live) == Action::Refresh && app.after_key(
            Key::Char('r'),
            false,
            live,
        ).busy,
        !live || app.busy ==> app.asked(Key::Char('r'), live) == Action::Nothing && app.after_key(
            Key::Char('r'),
            false,
            live,
        ).busy == app.busy,
        key != Key::Char('e') && key != Key::Char('r') ==> app.asked(key, live) == Action::Nothing,
{
}

} // verus!
