//! The tabs of the dashboard and the shape of what they show.

use crate::text::{eq, views};
use vstd::prelude::*;

verus! {

#[derive(Debug, Clone, Copy, PartialEq, Eq, Structural)]
pub enum Tab {
    Overview,
    Ports,
    Containers,
    Services,
    Disks,
    Dirs,
    Schedules,
    Probes,
}

impl Tab {
    pub open spec fn name(self) -> Seq<char> {
        match self {
            Tab::Overview => "Overview"@,
            Tab::Ports => "Ports"@,
            Tab::Containers => "Containers"@,
            Tab::Services => "Services"@,
            Tab::Disks => "Disks"@,
            Tab::Dirs => "Dirs"@,
            Tab::Schedules => "Schedules"@,
            Tab::Probes => "Probes"@,
        }
    }

    pub open spec fn key(self) -> Seq<char> {
        match self {
            Tab::Overview => "overview"@,
            Tab::Ports => "listeners"@,
            Tab::Containers => "containers"@,
            Tab::Services => "services"@,
            Tab::Disks => "storage"@,
            Tab::Dirs => "dirs"@,
            Tab::Schedules => "schedules"@,
            Tab::Probes => "probes"@,
        }
    }

    /// The place of the tab in the tab bar.
    pub open spec fn place(self) -> int {
        match self {
            Tab::Overview => 0,
            Tab::Ports => 1,
            Tab::Containers => 2,
            Tab::Services => 3,
            Tab::Disks => 4,
            Tab::Dirs => 5,
            Tab::Schedules => 6,
            Tab::Probes => 7,
        }
    }

    /// The tab at a place.
    pub open spec fn nth(i: int) -> Tab {
        if i == 0 {
            Tab::Overview
        } else if i == 1 {
            Tab::Ports
        } else if i == 2 {
            Tab::Containers
        } else if i == 3 {
            Tab::Services
        } else if i == 4 {
            Tab::Disks
        } else if i == 5 {
            Tab::Dirs
        } else if i == 6 {
            Tab::Schedules
        } else {
            Tab::Probes
        }
    }

    /// The tab with a slug.
    pub open spec fn keyed(s: Seq<char>) -> Option<Tab> {
        if s == Tab::Overview.key() {
            Some(Tab::Overview)
        } else if s == Tab::Ports.key() {
            Some(Tab::Ports)
        } else if s == Tab::Containers.key() {
            Some(Tab::Containers)
        } else if s == Tab::Services.key() {
            Some(Tab::Services)
        } else if s == Tab::Disks.key() {
            Some(Tab::Disks)
        } else if s == Tab::Dirs.key() {
            Some(Tab::Dirs)
        } else if s == Tab::Schedules.key() {
            Some(Tab::Schedules)
        } else if s == Tab::Probes.key() {
            Some(Tab::Probes)
        } else {
            None
        }
    }

    /// The probes whose failure makes this tab's emptiness meaningless.
    pub open spec fn probes(self) -> Seq<Seq<char>> {
        match self {
            Tab::Ports => seq!["listeners"@],
            Tab::Containers => seq!["containers"@],
            Tab::Services => seq!["services"@, "unitfiles"@],
            Tab::Disks => seq!["df"@],
            Tab::Dirs => seq!["du"@],
            Tab::Schedules => seq!["cron"@, "timers"@],
            _ => seq![],
        }
    }

    /// Every tab, in the order of the tab bar.
    pub const ALL: [Tab; 8] = [
        Tab::Overview,
        Tab::Ports,
        Tab::Containers,
        Tab::Services,
        Tab::Disks,
        Tab::Dirs,
        Tab::Schedules,
        Tab::Probes,
    ];

    pub fn title(self) -> (r: &'static str)
        ensures
            r@ == self.name(),
    {
        match self {
            Tab::Overview => "Overview",
            Tab::Ports => "Ports",
            Tab::Containers => "Containers",
            Tab::Services => "Services",
            Tab::Disks => "Disks",
            Tab::Dirs => "Dirs",
            Tab::Schedules => "Schedules",
            Tab::Probes => "Probes",
        }
    }

    /// Slug used by `Finding::tab` so a finding can jump to its evidence.
    pub fn slug(self) -> (r: &'static str)
        ensures
            r@ == self.key(),
    {
        match self {
            Tab::Overview => "overview",
            Tab::Ports => "listeners",
            Tab::Containers => "containers",
            Tab::Services => "services",
            Tab::Disks => "storage",
            Tab::Dirs => "dirs",
            Tab::Schedules => "schedules",
            Tab::Probes => "probes",
        }
    }

    pub fn from_slug(s: &str) -> (r: Option<Tab>)
        ensures
            r == Tab::keyed(s@),
    {
        let mut i: usize = 0;
        while i < 8
            invariant
                i <= 8,
                forall|k: int| 0 <= k < i ==> s@ != (#[trigger] Tab::nth(k)).key(),
            decreases 8 - i,
        {
            let t = Tab::at(i);
            if eq(s, t.slug()) {
                proof {
                    law_slugs_lead_back(t);
                }
                return Some(t);
            }
            i += 1;
        }
        proof {
            assert(forall|k: int| 0 <= k < 8 ==> s@ != (#[trigger] Tab::nth(k)).key());
            assert(s@ != Tab::nth(0).key() && s@ != Tab::nth(1).key() && s@ != Tab::nth(2).key());
            assert(s@ != Tab::nth(3).key() && s@ != Tab::nth(4).key() && s@ != Tab::nth(5).key());
            assert(s@ != Tab::nth(6).key() && s@ != Tab::nth(7).key());
        }
        None
    }

    /// The tab at a place of the tab bar.
    pub fn at(i: usize) -> (r: Tab)
        requires
            i < 8,
        ensures
            r == Tab::nth(i as int),
            r.place() == i,
    {
        if i == 0 {
            Tab::Overview
        } else if i == 1 {
            Tab::Ports
        } else if i == 2 {
            Tab::Containers
        } else if i == 3 {
            Tab::Services
        } else if i == 4 {
            Tab::Disks
        } else if i == 5 {
            Tab::Dirs
        } else if i == 6 {
            Tab::Schedules
        } else {
            Tab::Probes
        }
    }

    /// The place of the tab in the tab bar.
    pub fn index(self) -> (i: usize)
        ensures
            i == self.place(),
            i < 8,
    {
        match self {
            Tab::Overview => 0,
            Tab::Ports => 1,
            Tab::Containers => 2,
            Tab::Services => 3,
            Tab::Disks => 4,
            Tab::Dirs => 5,
            Tab::Schedules => 6,
            Tab::Probes => 7,
        }
    }

    /// Probes whose failure makes this tab's emptiness meaningless.
    pub fn probe_ids(self) -> (r: Vec<&'static str>)
        ensures
            views(r@) == self.probes(),
    {
        let mut r: Vec<&'static str> = Vec::new();
        match self {
            Tab::Ports => {
                r.push("listeners");
            },
            Tab::Containers => {
                r.push("containers");
            },
            Tab::Services => {
                r.push("services");
                r.push("unitfiles");
            },
            Tab::Disks => {
                r.push("df");
            },
            Tab::Dirs => {
                r.push("du");
            },
            Tab::Schedules => {
                r.push("cron");
                r.push("timers");
            },
            _ => {},
        }
        assert(views(r@) =~= self.probes());
        r
    }
}

/// A tab's slug leads back to the tab.
pub proof fn law_slugs_lead_back(t: Tab)
    ensures
        Tab::keyed(t.key()) == Some(t),
        Tab::nth(t.place()) == t,
{
    reveal_strlit("overview");
    reveal_strlit("listeners");
    reveal_strlit("containers");
    reveal_strlit("services");
    reveal_strlit("storage");
    reveal_strlit("dirs");
    reveal_strlit("schedules");
    reveal_strlit("probes");
    assert("overview"@.len() == 8 && "listeners"@.len() == 9 && "containers"@.len() == 10);
    assert("services"@.len() == 8 && "storage"@.len() == 7 && "dirs"@.len() == 4);
    assert("schedules"@.len() == 9 && "probes"@.len() == 6);
    assert("overview"@[0] == 'o' && "services"@[0] == 's');
    assert("listeners"@[0] == 'l' && "schedules"@[0] == 's');
}

/// The tone of a row.
#[derive(Debug, Clone, Copy, PartialEq, Eq, Structural)]
pub enum Tone {
    Normal,
    Good,
    Warn,
    Bad,
    Dim,
}

/// How wide a column is.
#[derive(Debug, Clone, Copy, PartialEq, Eq, Structural)]
pub enum Width {
    /// Exactly this many cells.
    Length(u16),
    /// At most this many cells.
    Max(u16),
    /// A share of what is left.
    Fill(u16),
}

} // verus!
