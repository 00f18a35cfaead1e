//! Application state: which tab is open, what is selected, how its rows are
//! filtered and sorted.

use crate::fmt::{cat2, dec, decimal};
use crate::gather::{lemma_filter_map_keeps, lemma_filter_map_total};
use crate::model::{Audit, AuditView};
use crate::order::{
    chunks, chunks_of, chunks_order, law_natural_order_is_an_order, natural_order, order_chunks,
    Chunk, ChunkView,
};
use crate::rows::{
    containers_table, containers_view, dirs_table, dirs_view, disks_table, disks_view,
    findings_table, findings_view, law_tables_are_rectangular, ports_table, ports_view,
    probes_table, probes_view, schedules_table, schedules_view, services_table, services_view,
    TableSpec, TableSpecView, ViewRow, ViewRowView,
};
use crate::sorting::{
    lemma_sorted_ascending, lemma_sorted_contains, lemma_sorted_len, lemma_sorted_map, rank, sort,
    sorted, Ranked,
};
use crate::tab::Tab;
use crate::text::{is_blank, lowercase, to_lowercase, views, Order};
use vstd::prelude::*;

verus! {

/// Which row of a table is selected.
#[derive(Debug, Clone, Copy, PartialEq, Eq, Structural)]
pub struct Selection {
    pub row: Option<usize>,
}

impl Selection {
    pub fn selected(&self) -> (r: Option<usize>)
        ensures
            r == self.row,
    {
        self.row
    }

    pub fn select(&mut self, row: Option<usize>)
        ensures
            *final(self) == (Selection { row }),
    {
        self.row = row;
    }
}

/// The state of the dashboard.
pub struct App {
    pub audit: Audit,
    /// The place of the open tab in the tab bar.
    pub tab: usize,
    pub states: Vec<Selection>,
    pub filter: String,
    pub filter_editing: bool,
    pub detail_open: bool,
    pub detail_scroll: u16,
    pub help_open: bool,
    pub status: String,
    pub busy: bool,
    pub spinner: usize,
    pub quit: bool,
    pub source: String,
    /// Whether `r` can actually re-run the audit.
    pub live: bool,
    pub sort_column: Vec<Option<usize>>,
    pub sort_desc: Vec<bool>,
}

/// What an `App` holds.
#[verifier::ext_equal]
pub struct AppView {
    pub audit: AuditView,
    pub tab: usize,
    pub states: Seq<Selection>,
    pub filter: Seq<char>,
    pub filter_editing: bool,
    pub detail_open: bool,
    pub detail_scroll: u16,
    pub help_open: bool,
    pub status: Seq<char>,
    pub busy: bool,
    pub spinner: usize,
    pub quit: bool,
    pub source: Seq<char>,
    pub live: bool,
    pub sort_column: Seq<Option<usize>>,
    pub sort_desc: Seq<bool>,
}

impl View for App {
    type V = AppView;

    open spec fn view(&self) -> AppView {
        AppView {
            audit: self.audit@,
            tab: self.tab,
            states: self.states@,
            filter: self.filter@,
            filter_editing: self.filter_editing,
            detail_open: self.detail_open,
            detail_scroll: self.detail_scroll,
            help_open: self.help_open,
            status: self.status@,
            busy: self.busy,
            spinner: self.spinner,
            quit: self.quit,
            source: self.source@,
            live: self.live,
            sort_column: self.sort_column@,
            sort_desc: self.sort_desc@,
        }
    }
}

/// A row and where it stood before it was filtered and sorted.
#[verifier::ext_equal]
pub struct Shown {
    pub row: ViewRowView,
    pub index: int,
}

impl AppView {
    /// The invariant of the state: the open tab is one of the eight, and each tab
    /// has a selection and a sort order of its own.
    pub open spec fn wf(self) -> bool {
        &&& self.tab < 8
        &&& self.states.len() == 8
        &&& self.sort_column.len() == 8
        &&& self.sort_desc.len() == 8
    }

    /// The open tab.
    pub open spec fn open_tab(self) -> Tab {
        Tab::nth(self.tab as int)
    }

    /// The selected row of the open tab, the first where none is.
    pub open spec fn selection(self) -> usize {
        match self.states[self.tab as int].row {
            Some(i) => i,
            None => 0,
        }
    }

    /// The state with another selection in the open tab.
    pub open spec fn with_selection(self, row: Option<usize>) -> AppView {
        AppView { states: self.states.update(self.tab as int, Selection { row }), ..self }
    }

    /// The state with another tab open.
    pub open spec fn with_tab(self, tab: usize) -> AppView {
        AppView { tab, detail_open: false, ..self }
    }

    /// The state after moving the selection among `len` rows, as far as they go.
    pub open spec fn moved(self, delta: int, len: nat) -> AppView {
        if len == 0 {
            self.with_selection(None)
        } else {
            let to = self.selection() + delta;
            let row = if to < 0 {
                0
            } else if to >= len {
                len - 1
            } else {
                to
            };
            AppView { detail_scroll: 0, ..self.with_selection(Some(row as usize)) }
        }
    }

    /// The state after moving the selection to the first or last of `len` rows.
    pub open spec fn at_edge(self, last: bool, len: nat) -> AppView {
        if len == 0 {
            self
        } else {
            AppView {
                detail_scroll: 0,
                ..self.with_selection(
                    Some(
                        if last {
                            (len - 1) as usize
                        } else {
                            0
                        },
                    ),
                )
            }
        }
    }

    /// The state after choosing the next column to sort by.
    pub open spec fn sort_cycled(self, columns: nat) -> AppView {
        if columns == 0 {
            self
        } else {
            let next = match self.sort_column[self.tab as int] {
                None => Some(0usize),
                Some(c) => if c + 1 < columns {
                    Some((c + 1) as usize)
                } else {
                    None
                },
            };
            AppView {
                sort_column: self.sort_column.update(self.tab as int, next),
                status: match next {
                    Some(c) => "sort: column "@ + dec((c + 1) as nat),
                    None => "sort: natural order"@,
                },
                ..self
            }
        }
    }

    /// The state after reversing the sort order.
    pub open spec fn sort_reversed(self) -> AppView {
        let desc = !self.sort_desc[self.tab as int];
        AppView {
            sort_desc: self.sort_desc.update(self.tab as int, desc),
            status: "sort: "@ + (if desc {
                "descending"@
            } else {
                "ascending"@
            }),
            ..self
        }
    }

    /// The table of the open tab before filter and sort.
    pub open spec fn whole_table(self) -> TableSpecView {
        match self.open_tab() {
            Tab::Overview => findings_view(self.audit),
            Tab::Ports => ports_view(self.audit),
            Tab::Containers => containers_view(self.audit),
            Tab::Services => services_view(self.audit),
            Tab::Disks => disks_view(self.audit),
            Tab::Dirs => dirs_view(self.audit),
            Tab::Schedules => schedules_view(self.audit),
            Tab::Probes => probes_view(self.audit),
        }
    }

    /// Whether the filter lets a row through.
    pub open spec fn lets_through(self, row: ViewRowView) -> bool {
        self.filter.len() == 0 || row.mentions(lowercase(self.filter))
    }

    /// The rows that the filter lets through, sorted as the tab is.
    pub open spec fn shown(self) -> Seq<Shown> {
        let kept = numbered(self.whole_table().rows).filter_map(keeping(self));
        match self.sort_column[self.tab as int] {
            Some(col) => sorted(kept, shown_rank(col, self.sort_desc[self.tab as int])),
            None => kept,
        }
    }

    /// The table of the open tab, with filter and sort applied.
    pub open spec fn table(self) -> TableSpecView {
        TableSpecView { rows: self.shown().map_values(the_row()), ..self.whole_table() }
    }
}

/// Rows with their places.
pub open spec fn numbered(rows: Seq<ViewRowView>) -> Seq<Shown> {
    Seq::new(rows.len(), |i: int| Shown { row: rows[i], index: i })
}

/// What the filter keeps.
pub open spec fn keeping(app: AppView) -> spec_fn(Shown) -> Option<Shown> {
    |s: Shown|
        if app.lets_through(s.row) {
            Some(s)
        } else {
            None
        }
}

/// The row of a shown one.
pub open spec fn the_row() -> spec_fn(Shown) -> ViewRowView {
    |s: Shown| s.row
}

/// The text of a row in a column.
pub open spec fn cell(row: ViewRowView, col: usize) -> Seq<char> {
    if col < row.cells.len() {
        row.cells[col as int]
    } else {
        seq![]
    }
}

/// Whether one row may stand before another when sorted by a column.
pub open spec fn row_at_most(a: ViewRowView, b: ViewRowView, col: usize, desc: bool) -> bool {
    let order = natural_order(cell(a, col), cell(b, col));
    if desc {
        order != Order::Less
    } else {
        order != Order::Greater
    }
}

/// `row_at_most` as a function to hand over.
pub open spec fn shown_rank(col: usize, desc: bool) -> spec_fn(Shown, Shown) -> bool {
    |a: Shown, b: Shown| row_at_most(a.row, b.row, col, desc)
}

/// A row with what it is sorted by.
struct Keyed {
    key: Vec<Chunk>,
    desc: bool,
    row: ViewRow,
    index: usize,
}

struct KeyedView {
    key: Seq<ChunkView>,
    desc: bool,
    shown: Shown,
}

impl View for Keyed {
    type V = KeyedView;

    closed spec fn view(&self) -> KeyedView {
        KeyedView {
            key: views(self.key@),
            desc: self.desc,
            shown: Shown { row: self.row@, index: self.index as int },
        }
    }
}

impl Ranked for Keyed {
    closed spec fn at_most(a: KeyedView, b: KeyedView) -> bool {
        let order = chunks_order(a.key, b.key);
        if a.desc {
            order != Order::Less
        } else {
            order != Order::Greater
        }
    }

    fn ranks_at_most(&self, other: &Self) -> (yes: bool) {
        let order = order_chunks(&self.key, &other.key);
        if self.desc {
            match order {
                Order::Less => false,
                _ => true,
            }
        } else {
            match order {
                Order::Greater => false,
                _ => true,
            }
        }
    }
}

spec fn keyed(col: usize, desc: bool) -> spec_fn(Shown) -> KeyedView {
    |s: Shown|
        KeyedView { key: chunks_of(lowercase(cell(s.row, col))), desc, shown: s }
}

/// A row that is shown, and where it stood before it was filtered and sorted.
pub struct Item {
    pub row: ViewRow,
    pub index: usize,
}

impl View for Item {
    type V = Shown;

    open spec fn view(&self) -> Shown {
        Shown { row: self.row@, index: self.index as int }
    }
}

fn key_of(row: &ViewRow, col: usize) -> (r: Vec<Chunk>)
    ensures
        views(r@) == chunks_of(lowercase(cell(row@, col))),
{
    let lower = if col < row.cells.len() {
        to_lowercase(row.cells[col].as_str())
    } else {
        let none = "";
        proof {
            reveal_strlit("");
            assert(none@ =~= seq![]);
        }
        to_lowercase(none)
    };
    chunks(lower.as_str())
}

fn sort_items(items: Vec<Item>, col: usize, desc: bool) -> (r: Vec<Item>)
    ensures
        views(r@) == sorted(views(items@), shown_rank(col, desc)),
{
    let ghost all = views(items@);
    let ghost f = keyed(col, desc);
    let mut rest = items;
    let mut decorated: Vec<Keyed> = Vec::new();
    let ghost mut n: int = 0;
    assert(all.skip(0) =~= all);
    assert(views(decorated@) =~= all.take(0).map_values(f));
    while rest.len() > 0
        invariant
            0 <= n <= all.len(),
            f == keyed(col, desc),
            views(rest@) == all.skip(n),
            views(decorated@) == all.take(n).map_values(f),
        decreases rest.len(),
    {
        let ghost before = rest@;
        let ghost done = decorated@;
        assert(views(before).len() == before.len());
        let x = rest.remove(0);
        assert(x@ == all.skip(n)[0]);
        proof {
            assert forall|i: int| 0 <= i < rest@.len() implies views(rest@)[i] == all.skip(
                n + 1,
            )[i] by {
                assert(rest@[i] == before[i + 1]);
                assert(views(before)[i + 1] == all.skip(n)[i + 1]);
            }
            assert(views(rest@) =~= all.skip(n + 1));
        }
        let k = Keyed { key: key_of(&x.row, col), desc, row: x.row, index: x.index };
        let ghost seen = k@;
        decorated.push(k);
        proof {
            assert(views(decorated@) =~= views(done).push(seen));
            assert(seen == f(all[n]));
            assert(views(decorated@) =~= all.take(n + 1).map_values(f));
            n = n + 1;
        }
    }
    assert(all.take(n) =~= all);
    let mut ordered = sort(decorated);
    proof {
        let le = shown_rank(col, desc);
        let le2 = rank::<Keyed>();
        assert forall|a: Shown, b: Shown| #[trigger] le(a, b) == le2(f(a), f(b)) by {}
        lemma_sorted_map(all, f, le, le2);
    }
    let ghost goal = sorted(all, shown_rank(col, desc));
    let ghost keys = views(ordered@);
    assert(keys == goal.map_values(f));
    let mut out: Vec<Item> = Vec::new();
    let ghost mut m: int = 0;
    assert(keys.skip(0) =~= keys);
    assert(views(out@) =~= goal.take(0));
    while ordered.len() > 0
        invariant
            0 <= m <= goal.len(),
            f == keyed(col, desc),
            keys == goal.map_values(f),
            views(ordered@) == keys.skip(m),
            views(out@) == goal.take(m),
        decreases ordered.len(),
    {
        let ghost before = ordered@;
        let ghost done = out@;
        assert(views(before).len() == before.len());
        let x = ordered.remove(0);
        assert(x@ == keys.skip(m)[0]);
        proof {
            assert forall|i: int| 0 <= i < ordered@.len() implies views(ordered@)[i] == keys.skip(
                m + 1,
            )[i] by {
                assert(ordered@[i] == before[i + 1]);
                assert(views(before)[i + 1] == keys.skip(m)[i + 1]);
            }
            assert(views(ordered@) =~= keys.skip(m + 1));
        }
        let item = Item { row: x.row, index: x.index };
        let ghost seen = item@;
        out.push(item);
        proof {
            assert(views(out@) =~= views(done).push(seen));
            assert(seen == goal[m]);
            assert(views(out@) =~= goal.take(m + 1));
            m = m + 1;
        }
    }
    assert(goal.take(m) =~= goal);
    out
}

fn keep_items(rows: Vec<ViewRow>, app: &App) -> (r: Vec<Item>)
    ensures
        views(r@) == numbered(views(rows@)).filter_map(keeping(app@)),
{
    let ghost all = numbered(views(rows@));
    let ghost rule = keeping(app@);
    let total: usize = rows.len();
    let any = is_blank(&app.filter);
    let needle = to_lowercase(app.filter.as_str());
    let mut rest = rows;
    let mut out: Vec<Item> = Vec::new();
    let mut i: usize = 0;
    assert(views(out@) =~= all.take(0).filter_map(rule));
    assert(views(rows@).skip(0) =~= views(rows@));
    while rest.len() > 0
        invariant
            i + rest@.len() == rows@.len(),
            all == numbered(views(rows@)),
            all.len() == rows@.len(),
            rows@.len() == total,
            rule == keeping(app@),
            any == (app@.filter.len() == 0),
            needle@ == lowercase(app@.filter),
            views(rest@) == views(rows@).skip(i as int),
            views(out@) == all.take(i as int).filter_map(rule),
        decreases rest.len(),
    {
        let ghost before = rest@;
        let ghost done = out@;
        assert(views(before).len() == before.len());
        let x = rest.remove(0);
        assert(x@ == views(rows@).skip(i as int)[0]);
        proof {
            assert forall|k: int| 0 <= k < rest@.len() implies views(rest@)[k] == views(
                rows@,
            ).skip(i + 1)[k] by {
                assert(rest@[k] == before[k + 1]);
                assert(views(before)[k + 1] == views(rows@).skip(i as int)[k + 1]);
            }
            assert(views(rest@) =~= views(rows@).skip(i + 1));
            all.lemma_filter_map_take_succ(rule, i as int);
            assert(all[i as int] == Shown { row: x@, index: i as int });
        }
        if any || x.matches(needle.as_str()) {
            let item = Item { row: x, index: i };
            let ghost seen = item@;
            out.push(item);
            assert(views(out@) =~= views(done) + seq![seen]);
        }
        i += 1;
    }
    assert(all.take(all.len() as int) =~= all);
    out
}

fn rows_of(items: Vec<Item>) -> (r: Vec<ViewRow>)
    ensures
        views(r@) == views(items@).map_values(the_row()),
{
    let ghost all = views(items@);
    let mut rest = items;
    let mut out: Vec<ViewRow> = Vec::new();
    let ghost mut n: int = 0;
    assert(all.skip(0) =~= all);
    assert(views(out@) =~= all.take(0).map_values(the_row()));
    while rest.len() > 0
        invariant
            0 <= n <= all.len(),
            views(rest@) == all.skip(n),
            views(out@) == all.take(n).map_values(the_row()),
        decreases rest.len(),
    {
        let ghost before = rest@;
        let ghost done = out@;
        assert(views(before).len() == before.len());
        let x = rest.remove(0);
        assert(x@ == all.skip(n)[0]);
        proof {
            assert forall|i: int| 0 <= i < rest@.len() implies views(rest@)[i] == all.skip(
                n + 1,
            )[i] by {
                assert(rest@[i] == before[i + 1]);
                assert(views(before)[i + 1] == all.skip(n)[i + 1]);
            }
            assert(views(rest@) =~= all.skip(n + 1));
        }
        let ghost seen = x.row@;
        out.push(x.row);
        proof {
            assert(views(out@) =~= views(done).push(seen));
            assert(views(out@) =~= all.take(n + 1).map_values(the_row()));
            n = n + 1;
        }
    }
    assert(all.take(n) =~= all);
    out
}

impl App {
    pub fn new(audit: Audit, source: String, live: bool) -> (r: App)
        ensures
            r@.wf(),
            r@ == (AppView {
                audit: audit@,
                tab: 0,
                states: Seq::new(8, |i: int| Selection { row: Some(0) }),
                filter: seq![],
                filter_editing: false,
                detail_open: false,
                detail_scroll: 0,
                help_open: false,
                status: seq![],
                busy: false,
                spinner: 0,
                quit: false,
                source: source@,
                live,
                sort_column: Seq::new(8, |i: int| None),
                sort_desc: Seq::new(8, |i: int| false),
            }),
    {
        let first = Selection { row: Some(0) };
        let states = vec![first, first, first, first, first, first, first, first];
        let sort_column: Vec<Option<usize>> = vec![
            None,
            None,
            None,
            None,
            None,
            None,
            None,
            None,
        ];
        let sort_desc = vec![false, false, false, false, false, false, false, false];
        let filter = String::new();
        let status = String::new();
        assert(filter@ =~= seq![]);
        assert(status@ =~= seq![]);
        assert(states@ =~= Seq::new(8, |i: int| Selection { row: Some(0usize) }));
        assert(sort_column@ =~= Seq::new(8, |i: int| None));
        assert(sort_desc@ =~= Seq::new(8, |i: int| false));
        App {
            audit,
            tab: 0,
            states,
            filter,
            filter_editing: false,
            detail_open: false,
            detail_scroll: 0,
            help_open: false,
            status,
            busy: false,
            spinner: 0,
            quit: false,
            source,
            live,
            sort_column,
            sort_desc,
        }
    }

    /// Whether the invariant holds, for callers that build a state field by field.
    pub fn is_sound(&self) -> (yes: bool)
        ensures
            yes == self@.wf(),
    {
        self.tab < 8 && self.states.len() == 8 && self.sort_column.len() == 8
            && self.sort_desc.len() == 8
    }

    pub fn current_tab(&self) -> (r: Tab)
        requires
            self@.wf(),
        ensures
            r == self@.open_tab(),
    {
        Tab::at(self.tab)
    }

    /// The selection of the open tab.
    pub fn state(&mut self) -> (r: &mut Selection)
        requires
            old(self)@.wf(),
        ensures
            *r == old(self)@.states[old(self).tab as int],
            final(self)@ == old(self)@.with_selection(final(r).row),
    {
        &mut self.states[self.tab]
    }

    pub fn selected(&self) -> (r: usize)
        requires
            self@.wf(),
        ensures
            r == self@.selection(),
    {
        match self.states[self.tab].row {
            Some(i) => i,
            None => 0,
        }
    }

    pub fn set_tab(&mut self, tab: Tab)
        requires
            old(self)@.wf(),
        ensures
            final(self)@.wf(),
            final(self)@ == old(self)@.with_tab(tab.place() as usize),
    {
        self.tab = tab.index();
        self.detail_open = false;
    }

    /// Opens the tab that many places further, round the ends.
    pub fn next_tab(&mut self, delta: isize)
        requires
            old(self)@.wf(),
        ensures
            final(self)@.wf(),
            final(self)@ == old(self)@.with_tab(((old(self).tab + delta) % 8) as usize),
    {
        let sum: i128 = self.tab as i128 + delta as i128;
        let to: i128 = if sum >= 0 {
            sum % 8
        } else {
            7 - (-1 - sum) % 8
        };
        assert(to == sum % 8);
        self.tab = to as usize;
        self.detail_open = false;
    }

    pub fn move_selection(&mut self, delta: isize, len: usize)
        requires
            old(self)@.wf(),
        ensures
            final(self)@.wf(),
            final(self)@ == old(self)@.moved(delta as int, len as nat),
    {
        if len == 0 {
            self.states[self.tab].row = None;
            assert(self@.states =~= old(self)@.moved(delta as int, len as nat).states);
            return;
        }
        let to: i128 = self.selected() as i128 + delta as i128;
        let row: usize = if to < 0 {
            0
        } else if to >= len as i128 {
            len - 1
        } else {
            to as usize
        };
        self.states[self.tab].row = Some(row);
        self.detail_scroll = 0;
        assert(self@.states =~= old(self)@.moved(delta as int, len as nat).states);
    }

    pub fn select_edge(&mut self, last: bool, len: usize)
        requires
            old(self)@.wf(),
        ensures
            final(self)@.wf(),
            final(self)@ == old(self)@.at_edge(last, len as nat),
    {
        if len == 0 {
            return;
        }
        let row: usize = if last {
            len - 1
        } else {
            0
        };
        self.states[self.tab].row = Some(row);
        self.detail_scroll = 0;
        assert(self@.states =~= old(self)@.at_edge(last, len as nat).states);
    }

    pub fn cycle_sort(&mut self, columns: usize)
        requires
            old(self)@.wf(),
        ensures
            final(self)@.wf(),
            final(self)@ == old(self)@.sort_cycled(columns as nat),
    {
        if columns == 0 {
            return;
        }
        let next: Option<usize> = match self.sort_column[self.tab] {
            None => Some(0),
            Some(c) => if c < columns - 1 {
                Some(c + 1)
            } else {
                None
            },
        };
        self.sort_column.set(self.tab, next);
        self.status = match next {
            Some(c) => {
                let n = decimal(c as u64 + 1);
                cat2("sort: column ", n.as_str())
            },
            None => "sort: natural order".to_string(),
        };
    }

    pub fn toggle_sort_direction(&mut self)
        requires
            old(self)@.wf(),
        ensures
            final(self)@.wf(),
            final(self)@ == old(self)@.sort_reversed(),
    {
        let desc = !self.sort_desc[self.tab];
        self.sort_desc.set(self.tab, desc);
        self.status = cat2(
            "sort: ",
            if desc {
                "descending"
            } else {
                "ascending"
            },
        );
    }

    fn unfiltered(&self) -> (r: TableSpec)
        requires
            self@.wf(),
        ensures
            r@ == self@.whole_table(),
    {
        let a = &self.audit;
        match self.current_tab() {
            Tab::Overview => findings_table(a),
            Tab::Ports => ports_table(a),
            Tab::Containers => containers_table(a),
            Tab::Services => services_table(a),
            Tab::Disks => disks_table(a),
            Tab::Dirs => dirs_table(a),
            Tab::Schedules => schedules_table(a),
            Tab::Probes => probes_table(a),
        }
    }

    fn arrange(&self, rows: Vec<ViewRow>) -> (r: Vec<Item>)
        requires
            self@.wf(),
            views(rows@) == self@.whole_table().rows,
        ensures
            views(r@) == self@.shown(),
    {
        let kept = keep_items(rows, self);
        match self.sort_column[self.tab] {
            Some(col) => sort_items(kept, col, self.sort_desc[self.tab]),
            None => kept,
        }
    }

    /// The rows of the open tab, with filter and sort applied, each with its place
    /// in the whole.
    pub fn items(&self) -> (r: Vec<Item>)
        requires
            self@.wf(),
        ensures
            views(r@) == self@.shown(),
    {
        let whole = self.unfiltered();
        self.arrange(whole.rows)
    }

    /// Build the current tab's table, with filter and sort applied.
    pub fn table(&self) -> (r: TableSpec)
        requires
            self@.wf(),
        ensures
            r@ == self@.table(),
    {
        let whole = self.unfiltered();
        let items = self.arrange(whole.rows);
        TableSpec {
            headers: whole.headers,
            widths: whole.widths,
            rows: rows_of(items),
            empty: whole.empty,
        }
    }
}

// ---------------------------------------------------------------- laws ----

/// A row that is shown is a row of the tab, in the place that it remembers, and
/// the filter lets it through.
pub proof fn law_shown_rows_are_rows(app: AppView, i: int)
    requires
        app.wf(),
        0 <= i < app.shown().len(),
    ensures
        0 <= app.shown()[i].index < app.whole_table().rows.len(),
        app.shown()[i].row == app.whole_table().rows[app.shown()[i].index],
        app.lets_through(app.shown()[i].row),
{
    let base = numbered(app.whole_table().rows);
    let kept = base.filter_map(keeping(app));
    let x = app.shown()[i];
    assert(app.shown().contains(x));
    match app.sort_column[app.tab as int] {
        Some(col) => {
            lemma_sorted_contains(kept, shown_rank(col, app.sort_desc[app.tab as int]), x);
        },
        None => {},
    }
    assert(kept.contains(x));
    base.lemma_filter_map_contains(keeping(app), x);
    let t = choose|t: Shown| #[trigger] base.contains(t) && keeping(app)(t) == Some(x);
    let j = choose|j: int| 0 <= j < base.len() && base[j] == t;
    assert(base[j] == x);
}

/// A row that the filter lets through is shown.
pub proof fn law_matching_rows_are_shown(app: AppView, j: int)
    requires
        app.wf(),
        0 <= j < app.whole_table().rows.len(),
        app.lets_through(app.whole_table().rows[j]),
    ensures
        app.shown().contains(Shown { row: app.whole_table().rows[j], index: j }),
{
    let base = numbered(app.whole_table().rows);
    let kept = base.filter_map(keeping(app));
    let x = Shown { row: app.whole_table().rows[j], index: j };
    assert(base[j] == x);
    lemma_filter_map_keeps(base, keeping(app), j);
    match app.sort_column[app.tab as int] {
        Some(col) => {
            lemma_sorted_contains(kept, shown_rank(col, app.sort_desc[app.tab as int]), x);
        },
        None => {},
    }
}

/// The table that is shown has a width for every column and a cell for every
/// column in every row, whatever the filter and the sort order.
pub proof fn law_shown_table_is_rectangular(app: AppView)
    requires
        app.wf(),
    ensures
        app.table().is_rectangular(),
{
    law_tables_are_rectangular(app.audit);
    let t = app.table();
    assert forall|i: int| 0 <= i < t.rows.len() implies (#[trigger] t.rows[i]).cells.len()
        == t.headers.len() by {
        law_shown_rows_are_rows(app, i);
        assert(t.rows[i] == app.shown()[i].row);
    }
}

/// Without a filter and a sort order, a tab shows its rows as they are.
pub proof fn law_nothing_asked_everything_shown(app: AppView)
    requires
        app.wf(),
        app.filter.len() == 0,
        app.sort_column[app.tab as int] is None,
    ensures
        app.shown() == numbered(app.whole_table().rows),
        app.table() == app.whole_table(),
{
    let base = numbered(app.whole_table().rows);
    lemma_filter_map_total(base, keeping(app));
    assert(app.shown() =~= base);
    assert(app.table().rows =~= app.whole_table().rows);
}

/// A filter only takes rows away, and two rows that it keeps stay in order.
pub proof fn law_filter_narrows(app: AppView)
    requires
        app.wf(),
    ensures
        app.shown().len() <= app.whole_table().rows.len(),
        app.sort_column[app.tab as int] is None ==> forall|i: int, j: int|
            0 <= i < j < app.shown().len() ==> (#[trigger] app.shown()[i]).index < (
            #[trigger] app.shown()[j]).index,
{
    let base = numbered(app.whole_table().rows);
    let kept = base.filter_map(keeping(app));
    lemma_kept_in_order(base, keeping(app));
    match app.sort_column[app.tab as int] {
        Some(col) => {
            lemma_sorted_len(kept, shown_rank(col, app.sort_desc[app.tab as int]));
        },
        None => {},
    }
}

proof fn lemma_kept_in_order(s: Seq<Shown>, f: spec_fn(Shown) -> Option<Shown>)
    requires
        forall|i: int| 0 <= i < s.len() ==> (#[trigger] s[i]).index == i,
        forall|x: Shown| (#[trigger] f(x)) is Some ==> f(x) == Some(x),
    ensures
        s.filter_map(f).len() <= s.len(),
        forall|i: int| 0 <= i < s.filter_map(f).len() ==> (#[trigger] s.filter_map(f)[i]).index
            < s.len(),
        forall|i: int, j: int|
            0 <= i < j < s.filter_map(f).len() ==> (#[trigger] s.filter_map(f)[i]).index < (
            #[trigger] s.filter_map(f)[j]).index,
    decreases s.len(),
{
    if s.len() > 0 {
        let t = s.drop_last();
        lemma_kept_in_order(t, f);
        let rest = t.filter_map(f);
        let all = s.filter_map(f);
        assert(s.last().index == s.len() - 1);
        assert(forall|i: int| 0 <= i < rest.len() ==> all[i] == rest[i]);
    }
}

/// A sorted tab shows its rows in the natural order of the column, or in the
/// reverse of it.
pub proof fn law_sorted_rows_are_in_order(app: AppView, i: int, j: int)
    requires
        app.wf(),
        app.sort_column[app.tab as int] is Some,
        0 <= i < j < app.table().rows.len(),
    ensures
        row_at_most(
            app.table().rows[i],
            app.table().rows[j],
            app.sort_column[app.tab as int]->0,
            app.sort_desc[app.tab as int],
        ),
{
    let col = app.sort_column[app.tab as int]->0;
    let desc = app.sort_desc[app.tab as int];
    let le = shown_rank(col, desc);
    assert forall|a: Shown, b: Shown| #[trigger] le(a, b) || le(b, a) by {
        law_natural_order_is_an_order(cell(a.row, col), cell(b.row, col), cell(b.row, col));
    }
    assert forall|a: Shown, b: Shown, c: Shown| #[trigger]
        le(a, b) && #[trigger] le(b, c) implies le(a, c) by {
        let x = cell(a.row, col);
        let y = cell(b.row, col);
        let z = cell(c.row, col);
        law_natural_order_is_an_order(x, y, z);
        law_natural_order_is_an_order(z, y, x);
        law_natural_order_is_an_order(x, z, z);
        law_natural_order_is_an_order(y, z, z);
    }
    let kept = numbered(app.whole_table().rows).filter_map(keeping(app));
    lemma_sorted_ascending(kept, le);
    assert(le(app.shown()[i], app.shown()[j]));
}

/// Moving the selection keeps it on one of the rows there are, and leaves the
/// other tabs alone.
pub proof fn law_selection_stays_in_range(app: AppView, delta: int, len: nat)
    requires
        app.wf(),
        len <= usize::MAX,
    ensures
        app.moved(delta, len).wf(),
        match app.moved(delta, len).states[app.tab as int].row {
            Some(row) => row < len,
            None => len == 0,
        },
        forall|t: int|
            0 <= t < 8 && t != app.tab ==> #[trigger] app.moved(delta, len).states[t]
                == app.states[t],
{
}

/// Steps that the rows have room for can be taken back.
pub proof fn law_steps_can_be_taken_back(app: AppView, delta: int, len: nat)
    requires
        app.wf(),
        len <= usize::MAX,
        app.selection() < len,
        0 <= app.selection() + delta < len,
    ensures
        app.moved(delta, len).selection() == app.selection() + delta,
        app.moved(delta, len).moved(-delta, len).selection() == app.selection(),
{
}

/// The tab bar goes round: eight steps lead back to the tab, and so does a step
/// back after a step.
pub proof fn law_tabs_go_round(tab: int, delta: int)
    requires
        0 <= tab < 8,
    ensures
        (tab + 8) % 8 == tab,
        ((tab + delta) % 8 - delta) % 8 == tab,
        Tab::nth(tab).place() == tab,
{
    let to = (tab + delta) % 8;
    let round = (tab + delta) / 8;
    assert(tab + delta == 8 * round + to);
    assert((to - delta) % 8 == tab) by (nonlinear_arith)
        requires
            tab + delta == 8 * round + to,
            0 <= tab < 8,
    ;
}

/// The state after sorting by the next column `n` times.
pub open spec fn sorted_on(app: AppView, columns: nat, n: nat) -> AppView
    decreases n,
{
    if n == 0 {
        app
    } else {
        sorted_on(app, columns, (n - 1) as nat).sort_cycled(columns)
    }
}

/// From the natural order, sorting on takes the columns one after the other and
/// then comes back to the natural order.
pub proof fn law_sort_goes_round(app: AppView, columns: nat, n: nat)
    requires
        app.wf(),
        app.sort_column[app.tab as int] is None,
        0 < columns <= usize::MAX,
        n <= columns + 1,
    ensures
        sorted_on(app, columns, n).wf(),
        sorted_on(app, columns, n).tab == app.tab,
        sorted_on(app, columns, n).sort_column[app.tab as int] == (if 1 <= n <= columns {
            Some((n - 1) as usize)
        } else {
            None
        }),
    decreases n,
{
    if n > 0 {
        law_sort_goes_round(app, columns, (n - 1) as nat);
    }
}

/// Reversing the sort order twice is no change.
pub proof fn law_reversing_twice_is_no_change(app: AppView)
    requires
        app.wf(),
    ensures
        app.sort_reversed().sort_reversed().sort_desc == app.sort_desc,
        app.sort_reversed().sort_reversed().shown() == app.shown(),
{
    let back = app.sort_reversed().sort_reversed();
    assert(back.sort_desc =~= app.sort_desc);
    assert(keeping(back) =~= keeping(app));
}

} // verus!
