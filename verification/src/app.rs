//! The viewer's state: the loaded log lines, their classification, the
//! tab selection, and the pagination of whichever sequence the selected
//! tab shows.  Navigation never panics: page moves stick at the
//! boundaries and tab moves wrap around.

use crate::classify::{
    classify, event_commands, events_model, events_of, first_seen_keys, lines_view, table_keys,
    EventModel, PrivilegedEvent,
};
use crate::freq::FreqTable;
use crate::pagination::{
    lemma_next_tab_mod, lemma_num_pages_formula, lemma_page_bounds, lemma_pages_cover,
    pages_concat, spec_next_tab, spec_num_pages, spec_page_down, spec_page_first, spec_page_last,
    spec_page_up, spec_prev_tab,
};
use crate::text::copy_range;
use vstd::arithmetic::div_mod::lemma_fundamental_div_mod;
use vstd::prelude::*;

verus! {

/// The fixed tabs of the viewer, in display order.
#[derive(Clone, Copy, PartialEq, Eq, Debug)]
pub enum Tab {
    All,
    Sudo,
    Commands,
}

/// A navigation command handed in by the keyboard layer.
#[derive(Clone, Copy, PartialEq, Eq, Debug)]
pub enum Nav {
    Quit,
    PageUp,
    PageDown,
    NextTab,
    PrevTab,
}

/// The application state.
pub struct App {
    pub logs: Vec<Vec<char>>,
    pub num_logs: usize,
    pub sudo_logs: Vec<Vec<char>>,
    pub events: Vec<PrivilegedEvent>,
    pub commands: FreqTable,
    pub titles: Vec<String>,
    pub tab_index: usize,
    pub page_index: usize,
    pub num_pages: usize,
    pub logs_per_page: usize,
}

/// Everything but the page index agrees.
pub open spec fn same_except_page(a: App, b: App) -> bool {
    &&& b.logs == a.logs
    &&& b.num_logs == a.num_logs
    &&& b.sudo_logs == a.sudo_logs
    &&& b.events == a.events
    &&& b.commands == a.commands
    &&& b.titles == a.titles
    &&& b.tab_index == a.tab_index
    &&& b.num_pages == a.num_pages
    &&& b.logs_per_page == a.logs_per_page
}

/// Everything but the tab index agrees.
pub open spec fn same_except_tab(a: App, b: App) -> bool {
    &&& b.logs == a.logs
    &&& b.num_logs == a.num_logs
    &&& b.sudo_logs == a.sudo_logs
    &&& b.events == a.events
    &&& b.commands == a.commands
    &&& b.titles == a.titles
    &&& b.page_index == a.page_index
    &&& b.num_pages == a.num_pages
    &&& b.logs_per_page == a.logs_per_page
}

/// The loaded data agrees; the pagination fields may differ.
pub open spec fn same_data(a: App, b: App) -> bool {
    &&& b.logs == a.logs
    &&& b.sudo_logs == a.sudo_logs
    &&& b.events == a.events
    &&& b.commands == a.commands
    &&& b.titles == a.titles
    &&& b.tab_index == a.tab_index
}

impl App {
    /// The tab selected by the current index.
    pub open spec fn spec_tab(self) -> Tab {
        if self.tab_index == 0 {
            Tab::All
        } else if self.tab_index == 1 {
            Tab::Sudo
        } else {
            Tab::Commands
        }
    }

    /// The sequence of lines the current tab pages through: all lines on
    /// the first tab, the event lines elsewhere.
    pub open spec fn selected_lines(self) -> Seq<Seq<char>> {
        match self.spec_tab() {
            Tab::All => lines_view(self.logs@),
            Tab::Sudo => lines_view(self.sudo_logs@),
            Tab::Commands => lines_view(self.sudo_logs@),
        }
    }

    /// Structural well-formedness and the classification invariant: the
    /// events, the event lines and the command counts all derive from the
    /// loaded lines.
    pub open spec fn inv(self) -> bool {
        &&& self.titles@.len() == 3
        &&& self.tab_index < 3
        &&& self.commands.wf()
        &&& events_model(self.events@) == events_of(lines_view(self.logs@))
        &&& lines_view(self.sudo_logs@) == events_of(lines_view(self.logs@)).map_values(
            |e: EventModel| e.line,
        )
        &&& forall|c: Seq<char>| #[trigger] self.commands.spec_count(c) == event_commands(
            lines_view(self.logs@),
        ).to_multiset().count(c)
        &&& table_keys(self.commands) == first_seen_keys(
            event_commands(lines_view(self.logs@)),
        )
    }

    /// The pagination fields agree with the current tab and capacity.
    pub open spec fn paging_ok(self) -> bool {
        &&& self.num_logs == self.selected_lines().len()
        &&& self.num_pages == spec_num_pages(self.num_logs as nat, self.logs_per_page as nat)
        &&& (self.num_pages > 0 ==> self.page_index < self.num_pages)
        &&& (self.num_pages == 0 ==> self.page_index == 0)
    }

    /// The selected tab, as executable code.
    pub fn tab(&self) -> (t: Tab)
        ensures
            t == self.spec_tab(),
    {
        if self.tab_index == 0 {
            Tab::All
        } else if self.tab_index == 1 {
            Tab::Sudo
        } else {
            Tab::Commands
        }
    }

    /// Builds the state for the given log lines: stores them, classifies
    /// them, and starts on the first tab with no pagination computed yet.
    pub fn new(lines: Vec<Vec<char>>) -> (app: App)
        ensures
            app.inv(),
            app.logs == lines,
            app.tab_index == 0,
            app.page_index == 0,
            app.num_pages == 0,
            app.num_logs == 0,
            app.logs_per_page == 0,
            app.titles@[0]@ == "ALL"@,
            app.titles@[1]@ == "SUDO"@,
            app.titles@[2]@ == "COMMANDS"@,
    {
        let mut titles: Vec<String> = Vec::new();
        titles.push("ALL".to_owned());
        titles.push("SUDO".to_owned());
        titles.push("COMMANDS".to_owned());
        let mut app = App {
            logs: lines,
            num_logs: 0,
            sudo_logs: Vec::new(),
            events: Vec::new(),
            commands: FreqTable::new(),
            titles,
            tab_index: 0,
            page_index: 0,
            num_pages: 0,
            logs_per_page: 0,
        };
        load_sudo_logs(&mut app);
        app
    }

    /// Selects the next tab, wrapping past the last.
    pub fn next(&mut self)
        requires
            old(self).inv(),
        ensures
            final(self).inv(),
            final(self).tab_index == spec_next_tab(old(self).tab_index as nat, 3),
            same_except_tab(*old(self), *final(self)),
    {
        proof {
            lemma_next_tab_mod(self.tab_index as nat, 3);
        }
        self.tab_index = (self.tab_index + 1) % self.titles.len();
    }

    /// Selects the previous tab, wrapping past the first.
    pub fn prev(&mut self)
        requires
            old(self).inv(),
        ensures
            final(self).inv(),
            final(self).tab_index == spec_prev_tab(old(self).tab_index as nat, 3),
            same_except_tab(*old(self), *final(self)),
    {
        if self.tab_index > 0 {
            self.tab_index -= 1;
        } else {
            self.tab_index = self.titles.len() - 1;
        }
    }

    /// Moves one page towards the start: a no-op on the first page.
    pub fn page_up(&mut self)
        ensures
            final(self).page_index == spec_page_up(old(self).page_index as nat),
            same_except_page(*old(self), *final(self)),
            old(self).page_index == 0 ==> *final(self) == *old(self),
            old(self).paging_ok() ==> final(self).paging_ok(),
    {
        if self.page_index != 0 {
            self.page_index -= 1;
        }
    }

    /// Moves one page towards the end: a no-op on the last page, and when
    /// there are no pages at all.
    pub fn page_down(&mut self)
        ensures
            final(self).page_index == spec_page_down(
                old(self).page_index as nat,
                old(self).num_pages as nat,
            ),
            same_except_page(*old(self), *final(self)),
            old(self).num_pages == 0 || old(self).page_index + 1 >= old(self).num_pages
                ==> *final(self) == *old(self),
            old(self).paging_ok() ==> final(self).paging_ok(),
    {
        if self.num_pages > 0 && self.page_index < self.num_pages - 1 {
            self.page_index += 1;
        }
    }

    /// Applies one navigation command and reports whether the tab
    /// changed, so the caller can jump to the most recent page.
    pub fn handle_nav(&mut self, cmd: Nav) -> (tab_changed: bool)
        requires
            old(self).inv(),
        ensures
            final(self).inv(),
            tab_changed == (cmd is NextTab || cmd is PrevTab),
            cmd is Quit ==> *final(self) == *old(self),
            cmd is PageUp ==> final(self).page_index == spec_page_up(old(self).page_index as nat)
                && same_except_page(*old(self), *final(self)),
            cmd is PageDown ==> final(self).page_index == spec_page_down(
                old(self).page_index as nat,
                old(self).num_pages as nat,
            ) && same_except_page(*old(self), *final(self)),
            cmd is NextTab ==> final(self).tab_index == spec_next_tab(
                old(self).tab_index as nat,
                3,
            ) && same_except_tab(*old(self), *final(self)),
            cmd is PrevTab ==> final(self).tab_index == spec_prev_tab(
                old(self).tab_index as nat,
                3,
            ) && same_except_tab(*old(self), *final(self)),
    {
        match cmd {
            Nav::Quit => false,
            Nav::PageUp => {
                self.page_up();
                false
            },
            Nav::PageDown => {
                self.page_down();
                false
            },
            Nav::NextTab => {
                self.next();
                true
            },
            Nav::PrevTab => {
                self.prev();
                true
            },
        }
    }

    /// Recomputes the pagination from the current display height: the
    /// item count follows the selected tab, the page count is the ceiling
    /// of `num_logs / height` (zero items or zero height give zero
    /// pages), and the page index jumps to the last page on a tab change
    /// and is clamped into range otherwise.
    pub fn update_log_information(&mut self, height: usize, go_to_last: bool)
        requires
            old(self).inv(),
        ensures
            final(self).inv(),
            final(self).paging_ok(),
            same_data(*old(self), *final(self)),
            final(self).logs_per_page == height,
            final(self).num_logs == final(self).selected_lines().len(),
            final(self).num_pages == spec_num_pages(final(self).num_logs as nat, height as nat),
            go_to_last ==> final(self).page_index as int == (if final(self).num_pages > 0 {
                final(self).num_pages - 1
            } else {
                0int
            }),
            !go_to_last ==> final(self).page_index as int == (if final(self).num_pages == 0 {
                0int
            } else if old(self).page_index < final(self).num_pages {
                old(self).page_index as int
            } else {
                final(self).num_pages - 1
            }),
    {
        self.logs_per_page = height;
        self.num_logs = match self.tab() {
            Tab::All => self.logs.len(),
            Tab::Sudo | Tab::Commands => self.sudo_logs.len(),
        };
        let n = self.num_logs;
        if height == 0 || n == 0 {
            self.num_pages = 0;
        } else {
            let q = n / height;
            if n % height == 0 {
                self.num_pages = q;
            } else {
                proof {
                    lemma_fundamental_div_mod(n as int, height as int);
                    if height == 1 {
                        assert(n as int % 1int == 0) by (nonlinear_arith);
                    }
                    assert(q < usize::MAX) by (nonlinear_arith)
                        requires
                            height >= 2,
                            n as int == height * q + (n as int % height as int),
                            0 <= n as int % height as int,
                            n <= usize::MAX,
                    ;
                }
                self.num_pages = q + 1;
            }
            proof {
                lemma_num_pages_formula(n as nat, height as nat);
            }
        }
        if go_to_last {
            self.page_index = if self.num_pages > 0 {
                self.num_pages - 1
            } else {
                0
            };
        } else {
            if self.num_pages == 0 {
                self.page_index = 0;
            } else if self.page_index >= self.num_pages {
                self.page_index = self.num_pages - 1;
            }
        }
    }

    /// The lines of the current page: the slice of the selected sequence
    /// from `page_index * logs_per_page`, of exactly `logs_per_page`
    /// lines on every page but the last, which runs to the end.
    pub fn get_page(&self) -> (r: Vec<Vec<char>>)
        requires
            self.inv(),
            self.paging_ok(),
        ensures
            self.num_pages > 0 ==> lines_view(r@) == self.selected_lines().subrange(
                spec_page_first(self.page_index as nat, self.logs_per_page as nat) as int,
                spec_page_last(
                    self.page_index as nat,
                    self.num_logs as nat,
                    self.logs_per_page as nat,
                ) as int,
            ),
            self.num_pages == 0 ==> r@.len() == 0,
    {
        if self.num_pages == 0 {
            return Vec::new();
        }
        proof {
            assert(self.logs_per_page > 0);
            lemma_page_bounds(
                self.num_logs as nat,
                self.logs_per_page as nat,
                self.page_index as nat,
            );
        }
        let first = self.page_index * self.logs_per_page;
        let last = if self.page_index == self.num_pages - 1 {
            self.num_logs
        } else {
            first + self.logs_per_page
        };
        let ghost lo = spec_page_first(self.page_index as nat, self.logs_per_page as nat) as int;
        let ghost hi = spec_page_last(
            self.page_index as nat,
            self.num_logs as nat,
            self.logs_per_page as nat,
        ) as int;
        proof {
            assert(first as int == lo);
            assert(last as int == hi);
        }
        let mut r: Vec<Vec<char>> = Vec::new();
        let mut k = first;
        proof {
            assert(lines_view(r@) =~= self.selected_lines().subrange(lo, lo));
        }
        while k < last
            invariant
                self.inv(),
                self.paging_ok(),
                self.num_pages > 0,
                lo <= k as int <= hi,
                first as int == lo,
                last as int == hi,
                hi <= self.selected_lines().len(),
                lines_view(r@) == self.selected_lines().subrange(lo, k as int),
            decreases last - k,
        {
            let line = if self.tab_index == 0 {
                copy_range(&self.logs[k], 0, self.logs[k].len())
            } else {
                copy_range(&self.sudo_logs[k], 0, self.sudo_logs[k].len())
            };
            proof {
                assert(line@ =~= self.selected_lines()[k as int]);
            }
            r.push(line);
            proof {
                assert(self.selected_lines().subrange(lo, k + 1) =~= self.selected_lines().subrange(
                    lo,
                    k as int,
                ).push(self.selected_lines()[k as int]));
                assert(lines_view(r@) =~= self.selected_lines().subrange(lo, k + 1));
            }
            k += 1;
        }
        r
    }

    /// The last `n` events (or all of them, when there are fewer), in
    /// file order, as invoking user and invoked command.
    pub fn recent_commands(&self, n: usize) -> (r: Vec<(Vec<char>, Vec<char>)>)
        requires
            self.inv(),
        ensures
            r@.len() == (if n <= self.events@.len() {
                n as int
            } else {
                self.events@.len() as int
            }),
            forall|k: int|
                0 <= k < r@.len() ==> {
                    let e = self.events@[self.events@.len() - r@.len() + k]@;
                    (#[trigger] r@[k]).0@ == e.user && r@[k].1@ == e.command
                },
    {
        let count = if n <= self.events.len() {
            n
        } else {
            self.events.len()
        };
        let start = self.events.len() - count;
        let mut r: Vec<(Vec<char>, Vec<char>)> = Vec::new();
        let mut k = start;
        while k < self.events.len()
            invariant
                start <= k <= self.events@.len(),
                r@.len() == k - start,
                forall|q: int|
                    0 <= q < r@.len() ==> {
                        let e = self.events@[start + q]@;
                        (#[trigger] r@[q]).0@ == e.user && r@[q].1@ == e.command
                    },
            decreases self.events@.len() - k,
        {
            let e = &self.events[k];
            let user = copy_range(&e.user, 0, e.user.len());
            let command = copy_range(&e.command, 0, e.command.len());
            proof {
                assert(user@ =~= e.user@);
                assert(command@ =~= e.command@);
            }
            r.push((user, command));
            k += 1;
        }
        r
    }
}

/// With the pagination coherent, the pages of the selected sequence,
/// taken in order, reconstruct that sequence exactly: what `get_page`
/// slices out for consecutive page indices covers every line once.
pub proof fn lemma_app_pages_cover(app: App)
    requires
        app.paging_ok(),
        app.logs_per_page > 0,
    ensures
        pages_concat(
            app.selected_lines(),
            app.logs_per_page as nat,
            app.num_pages as nat,
        ) == app.selected_lines(),
{
    lemma_pages_cover(app.selected_lines(), app.logs_per_page as nat);
}

/// Reclassifies the stored log lines: fills the event list, the event
/// lines and the command frequency table from `app.logs`.
pub fn load_sudo_logs(app: &mut App)
    ensures
        final(app).logs == old(app).logs,
        final(app).titles == old(app).titles,
        final(app).tab_index == old(app).tab_index,
        final(app).page_index == old(app).page_index,
        final(app).num_pages == old(app).num_pages,
        final(app).num_logs == old(app).num_logs,
        final(app).logs_per_page == old(app).logs_per_page,
        final(app).commands.wf(),
        events_model(final(app).events@) == events_of(lines_view(final(app).logs@)),
        lines_view(final(app).sudo_logs@) == events_of(lines_view(final(app).logs@)).map_values(
            |e: EventModel| e.line,
        ),
        forall|c: Seq<char>| #[trigger] final(app).commands.spec_count(c) == event_commands(
            lines_view(final(app).logs@),
        ).to_multiset().count(c),
        table_keys(final(app).commands) == first_seen_keys(
            event_commands(lines_view(final(app).logs@)),
        ),
{
    let (events, commands) = classify(&app.logs);
    app.events = events;
    app.commands = commands;
    let ghost em = events_model(app.events@);
    let mut sudo_logs: Vec<Vec<char>> = Vec::new();
    let mut i: usize = 0;
    proof {
        assert(lines_view(sudo_logs@) =~= em.subrange(0, 0).map_values(|e: EventModel| e.line));
    }
    while i < app.events.len()
        invariant
            i <= app.events@.len(),
            em == events_model(app.events@),
            lines_view(sudo_logs@) == em.subrange(0, i as int).map_values(|e: EventModel| e.line),
        decreases app.events@.len() - i,
    {
        let e = &app.events[i];
        let line = copy_range(&e.line, 0, e.line.len());
        proof {
            assert(line@ =~= em[i as int].line);
        }
        let ghost before = sudo_logs@;
        sudo_logs.push(line);
        proof {
            let f = |e: EventModel| e.line;
            assert(lines_view(sudo_logs@) =~= lines_view(before).push(line@));
            assert(em.subrange(0, i + 1) =~= em.subrange(0, i as int).push(em[i as int]));
            assert(em.subrange(0, i + 1).map_values(f) =~= em.subrange(0, i as int).map_values(
                f,
            ).push(f(em[i as int])));
            assert(lines_view(sudo_logs@) =~= em.subrange(0, i + 1).map_values(f));
        }
        i += 1;
    }
    proof {
        assert(em.subrange(0, em.len() as int) =~= em);
    }
    app.sudo_logs = sudo_logs;
}

} // verus!
