//! Classification of log lines: a line is a privilege-escalation event
//! exactly when it holds the escalation marker, lacks the bookkeeping
//! marker, and names an invoked command.  Events keep the original line
//! verbatim and carry the derived invoking user and invoked command;
//! commands are tallied in a frequency table.

use crate::freq::{entries_model, FreqEntryModel, FreqTable};
use crate::text::{
    contains_seq, contains_sub, copy_range, find_seq, find_sub, lemma_find_seq, matches_at,
    trim_range, trim_spec,
};
use vstd::prelude::*;
use vstd::seq_lib::group_to_multiset_ensures;

verus! {

/// The escalation marker that qualifies a line.
pub open spec fn marker_sudo() -> Seq<char> {
    seq!['s', 'u', 'd', 'o', ':']
}

/// The bookkeeping marker that disqualifies a line.
pub open spec fn marker_pam_unix() -> Seq<char> {
    seq!['p', 'a', 'm', '_', 'u', 'n', 'i', 'x']
}

/// The marker that introduces the invoked command.
pub open spec fn marker_command() -> Seq<char> {
    seq!['C', 'O', 'M', 'M', 'A', 'N', 'D', '=']
}

/// The escalation marker as a character vector.
pub fn marker_sudo_chars() -> (r: Vec<char>)
    ensures
        r@ == marker_sudo(),
{
    let r = vec!['s', 'u', 'd', 'o', ':'];
    proof {
        assert(r@ =~= marker_sudo());
    }
    r
}

/// The bookkeeping marker as a character vector.
pub fn marker_pam_unix_chars() -> (r: Vec<char>)
    ensures
        r@ == marker_pam_unix(),
{
    let r = vec!['p', 'a', 'm', '_', 'u', 'n', 'i', 'x'];
    proof {
        assert(r@ =~= marker_pam_unix());
    }
    r
}

/// The command marker as a character vector.
pub fn marker_command_chars() -> (r: Vec<char>)
    ensures
        r@ == marker_command(),
{
    let r = vec!['C', 'O', 'M', 'M', 'A', 'N', 'D', '='];
    proof {
        assert(r@ =~= marker_command());
    }
    r
}

/// The views of a sequence of text lines.
pub open spec fn lines_view(s: Seq<Vec<char>>) -> Seq<Seq<char>> {
    s.map_values(|l: Vec<char>| l@)
}

/// A line holds the escalation marker and not the bookkeeping marker.
pub open spec fn line_qualifies(line: Seq<char>) -> bool {
    contains_seq(line, marker_sudo()) && !contains_seq(line, marker_pam_unix())
}

/// A qualifying line that also names an invoked command; only these
/// become events, malformed qualifying lines are skipped.
pub open spec fn line_is_event(line: Seq<char>) -> bool {
    line_qualifies(line) && contains_seq(line, marker_command())
}

/// The suffix of the line after the first command marker.
pub open spec fn command_of(line: Seq<char>) -> Seq<char> {
    match find_seq(line, marker_command()) {
        Some(i) => line.subrange(i + marker_command().len() as int, line.len() as int),
        None => Seq::empty(),
    }
}

/// The text between the escalation marker and the next colon (or the end
/// of the line), stripped of surrounding blanks: the invoking user.
pub open spec fn user_of(line: Seq<char>) -> Seq<char> {
    match find_seq(line, marker_sudo()) {
        Some(i) => {
            let rest = line.subrange(i + marker_sudo().len() as int, line.len() as int);
            let end = match find_seq(rest, seq![':']) {
                Some(k) => k,
                None => rest.len() as int,
            };
            trim_spec(rest.subrange(0, end))
        },
        None => Seq::empty(),
    }
}

/// A privilege-escalation event: the original line verbatim, with the
/// derived invoking user and invoked command.
pub struct PrivilegedEvent {
    pub line: Vec<char>,
    pub user: Vec<char>,
    pub command: Vec<char>,
}

/// Mathematical model of an event.
#[verifier::ext_equal]
pub struct EventModel {
    pub line: Seq<char>,
    pub user: Seq<char>,
    pub command: Seq<char>,
}

impl View for PrivilegedEvent {
    type V = EventModel;

    open spec fn view(&self) -> EventModel {
        EventModel { line: self.line@, user: self.user@, command: self.command@ }
    }
}

/// The event a given line gives rise to.
pub open spec fn event_model_of(line: Seq<char>) -> EventModel {
    EventModel { line: line, user: user_of(line), command: command_of(line) }
}

/// The models of a sequence of events.
pub open spec fn events_model(s: Seq<PrivilegedEvent>) -> Seq<EventModel> {
    s.map_values(|e: PrivilegedEvent| e@)
}

/// The events derived from a sequence of lines, in file order.
pub open spec fn events_of(lines: Seq<Seq<char>>) -> Seq<EventModel> {
    lines.filter(|l: Seq<char>| line_is_event(l)).map_values(|l: Seq<char>| event_model_of(l))
}

/// The invoked commands of the event lines, in file order.
pub open spec fn event_commands(lines: Seq<Seq<char>>) -> Seq<Seq<char>> {
    lines.filter(|l: Seq<char>| line_is_event(l)).map_values(|l: Seq<char>| command_of(l))
}

/// The distinct commands of `s`, each listed at its first occurrence,
/// in that order: the key order of the frequency table.
pub open spec fn first_seen_keys(s: Seq<Seq<char>>) -> Seq<Seq<char>>
    decreases s.len(),
{
    if s.len() == 0 {
        Seq::empty()
    } else {
        let p = first_seen_keys(s.drop_last());
        if p.contains(s.last()) {
            p
        } else {
            p.push(s.last())
        }
    }
}

/// A command has a key exactly when it occurs.
proof fn lemma_first_seen_keys_contains(s: Seq<Seq<char>>, x: Seq<char>)
    ensures
        first_seen_keys(s).contains(x) <==> s.contains(x),
    decreases s.len(),
{
    if s.len() > 0 {
        let d = s.drop_last();
        lemma_first_seen_keys_contains(d, x);
        let p = first_seen_keys(d);
        if s.contains(x) {
            let q = choose|q: int| 0 <= q < s.len() && s[q] == x;
            if q < s.len() - 1 {
                assert(d[q] == x);
                assert(d.contains(x));
            }
        }
        if d.contains(x) {
            let q = choose|q: int| 0 <= q < d.len() && d[q] == x;
            assert(s[q] == x);
            assert(s.contains(x));
        }
        if s.last() == x {
            assert(s[s.len() - 1] == x);
            assert(s.contains(x));
        }
        if !p.contains(s.last()) {
            let r = p.push(s.last());
            if p.contains(x) {
                let q = choose|q: int| 0 <= q < p.len() && p[q] == x;
                assert(r[q] == x);
                assert(r.contains(x));
            }
            if x == s.last() {
                assert(r[r.len() - 1] == x);
                assert(r.contains(x));
            }
            if r.contains(x) {
                let q = choose|q: int| 0 <= q < r.len() && r[q] == x;
                if q < p.len() {
                    assert(p[q] == x);
                    assert(p.contains(x));
                } else {
                    assert(x == s.last());
                }
            }
        }
    }
}

/// The keys of a table, in entry order.
pub open spec fn table_keys(t: FreqTable) -> Seq<Seq<char>> {
    entries_model(t.entries@).map_values(|e: FreqEntryModel| e.command)
}

/// Classifies one line, returning its event exactly when it is one.
pub fn classify_line(line: &Vec<char>) -> (r: Option<PrivilegedEvent>)
    ensures
        match r {
            Some(e) => line_is_event(line@) && e@ == event_model_of(line@),
            None => !line_is_event(line@),
        },
{
    let sudo_m = marker_sudo_chars();
    let si = match find_sub(line, &sudo_m) {
        Some(s) => s,
        None => {
            proof {
                lemma_find_seq(line@, sudo_m@);
            }
            return None;
        },
    };
    let pam_m = marker_pam_unix_chars();
    if contains_sub(line, &pam_m) {
        return None;
    }
    let cmd_m = marker_command_chars();
    let ci = match find_sub(line, &cmd_m) {
        Some(c) => c,
        None => {
            proof {
                lemma_find_seq(line@, cmd_m@);
            }
            return None;
        },
    };
    let n = line.len();
    proof {
        lemma_find_seq(line@, sudo_m@);
        lemma_find_seq(line@, cmd_m@);
        assert(matches_at(line@, marker_sudo(), si as int));
        assert(matches_at(line@, marker_command(), ci as int));
        assert(ci + cmd_m@.len() <= n);
        assert(si + sudo_m@.len() <= n);
    }
    let command = copy_range(line, ci + cmd_m.len(), n);
    let ustart = si + sudo_m.len();
    let rest = copy_range(line, ustart, n);
    let colon = vec![':'];
    proof {
        assert(colon@ =~= seq![':']);
    }
    let uend = match find_sub(&rest, &colon) {
        Some(k) => {
            proof {
                lemma_find_seq(rest@, colon@);
                assert(matches_at(rest@, colon@, k as int));
            }
            k
        },
        None => rest.len(),
    };
    let user = trim_range(&rest, 0, uend);
    let verbatim = copy_range(line, 0, n);
    let e = PrivilegedEvent { line: verbatim, user, command };
    proof {
        assert(e.line@ =~= line@);
        assert(e@ =~= event_model_of(line@));
    }
    Some(e)
}

/// Scans the lines in file order: collects the events and tallies each
/// event's invoked command.  Every count equals the number of event lines
/// invoking that command; lines with the escalation marker but no command
/// marker are skipped without aborting the scan.
pub fn classify(lines: &Vec<Vec<char>>) -> (r: (Vec<PrivilegedEvent>, FreqTable))
    ensures
        events_model(r.0@) == events_of(lines_view(lines@)),
        r.1.wf(),
        forall|c: Seq<char>| #[trigger] r.1.spec_count(c) == event_commands(
            lines_view(lines@),
        ).to_multiset().count(c),
        table_keys(r.1) == first_seen_keys(event_commands(lines_view(lines@))),
{
    broadcast use group_to_multiset_ensures;
    broadcast use vstd::multiset::group_multiset_axioms;
    broadcast use vstd::multiset::group_multiset_properties;
    broadcast use vstd::seq::Seq::lemma_filter_len;

    let mut events: Vec<PrivilegedEvent> = Vec::new();
    let mut table = FreqTable::new();
    let mut i: usize = 0;
    proof {
        reveal(Seq::filter);
        assert(lines_view(lines@.subrange(0, 0)) =~= Seq::<Seq<char>>::empty());
        assert(events_model(events@) =~= events_of(lines_view(lines@.subrange(0, 0))));
        assert(event_commands(lines_view(lines@.subrange(0, 0))) =~= Seq::<Seq<char>>::empty());
        assert(table_keys(table) =~= first_seen_keys(
            event_commands(lines_view(lines@.subrange(0, 0))),
        ));
    }
    while i < lines.len()
        invariant
            i <= lines@.len(),
            events_model(events@) == events_of(lines_view(lines@.subrange(0, i as int))),
            table.wf(),
            table.entries@.len() <= i,
            forall|c: Seq<char>| #[trigger] table.spec_count(c) == event_commands(
                lines_view(lines@.subrange(0, i as int)),
            ).to_multiset().count(c),
            table_keys(table) == first_seen_keys(
                event_commands(lines_view(lines@.subrange(0, i as int))),
            ),
        decreases lines@.len() - i,
    {
        broadcast use group_to_multiset_ensures;
        broadcast use vstd::multiset::group_multiset_axioms;
        broadcast use vstd::multiset::group_multiset_properties;
        broadcast use vstd::seq::Seq::lemma_filter_len;

        let ghost prefix = lines_view(lines@.subrange(0, i as int));
        let ghost line_v = lines@[i as int]@;
        let ghost prefix1 = lines_view(lines@.subrange(0, i + 1));
        proof {
            reveal(Seq::filter);
            assert(lines@.subrange(0, i + 1) =~= lines@.subrange(0, i as int).push(
                lines@[i as int],
            ));
            assert(prefix1 =~= prefix.push(line_v));
            let p = |l: Seq<char>| line_is_event(l);
            assert(prefix1.len() == prefix.len() + 1);
            assert(prefix1.last() == line_v);
            assert(prefix1.drop_last() =~= prefix);
            assert(prefix1.drop_last().filter(p) == prefix.filter(p));
            assert(prefix1.filter(p) == if p(line_v) {
                prefix.filter(p).push(line_v)
            } else {
                prefix.filter(p)
            });
        }
        match classify_line(&lines[i]) {
            Some(e) => {
                let cmd = copy_range(&e.command, 0, e.command.len());
                proof {
                    assert(cmd@ =~= e.command@);
                    assert(cmd@ == command_of(line_v));
                    let p = |l: Seq<char>| line_is_event(l);
                    // the new command sequence is the old one plus this command
                    assert(event_commands(prefix1) =~= event_commands(prefix).push(cmd@));
                    // counts stay below the number of lines seen so far
                    assert(event_commands(prefix).len() <= prefix.len());
                    assert(event_commands(prefix).to_multiset().len() == event_commands(
                        prefix,
                    ).len());
                    assert(table.spec_count(cmd@) <= event_commands(prefix).to_multiset().len());
                }
                let ghost events_before = events@;
                let ghost table_before = table;
                let ghost cmds = event_commands(prefix);
                proof {
                    lemma_first_seen_keys_contains(cmds, cmd@);
                }
                table.increment(cmd);
                events.push(e);
                proof {
                    let p = |l: Seq<char>| line_is_event(l);
                    assert(events_model(events@) =~= events_model(events_before).push(e@));
                    assert(events_of(prefix1) =~= events_of(prefix).push(event_model_of(line_v)));
                    assert(events_model(events@) =~= events_of(prefix1));
                    assert(event_commands(prefix1).to_multiset() == event_commands(
                        prefix,
                    ).to_multiset().insert(cmd@));
                    // the key order follows the first occurrence of each command
                    let cmds1 = event_commands(prefix1);
                    assert(cmds1.drop_last() =~= cmds);
                    assert(cmds1.last() == cmd@);
                    if table_before.spec_count(cmd@) == 0 {
                        assert(!cmds.contains(cmd@));
                        assert(!first_seen_keys(cmds).contains(cmd@));
                        assert(table_keys(table) =~= table_keys(table_before).push(cmd@));
                        assert(first_seen_keys(cmds1) == first_seen_keys(cmds).push(cmd@));
                    } else {
                        assert(cmds.to_multiset().count(cmd@) > 0);
                        assert(cmds.contains(cmd@));
                        assert(first_seen_keys(cmds).contains(cmd@));
                        assert(first_seen_keys(cmds1) == first_seen_keys(cmds));
                        assert forall|j: int|
                            0 <= j < table.entries@.len() implies #[trigger] table.entries@[j]@.command
                            == table_before.entries@[j]@.command by {
                            if table_before.entries@[j]@.command == cmd@ {
                            }
                        }
                        assert(table_keys(table) =~= table_keys(table_before));
                    }
                }
            },
            None => {
                proof {
                    assert(events_of(prefix1) =~= events_of(prefix));
                    assert(event_commands(prefix1) =~= event_commands(prefix));
                }
            },
        }
        i += 1;
    }
    proof {
        assert(lines@.subrange(0, lines@.len() as int) =~= lines@);
    }
    (events, table)
}

/// The frequency counts depend only on which commands were invoked how
/// often, never on the order of the log lines: two logs whose qualifying
/// commands are permutations of one another yield identical counts.
pub proof fn lemma_counts_order_independent(
    l1: Seq<Seq<char>>,
    l2: Seq<Seq<char>>,
    t1: FreqTable,
    t2: FreqTable,
)
    requires
        forall|c: Seq<char>| #[trigger] t1.spec_count(c) == event_commands(
            l1,
        ).to_multiset().count(c),
        forall|c: Seq<char>| #[trigger] t2.spec_count(c) == event_commands(
            l2,
        ).to_multiset().count(c),
        event_commands(l1).to_multiset() == event_commands(l2).to_multiset(),
    ensures
        forall|c: Seq<char>| #[trigger] t1.spec_count(c) == t2.spec_count(c),
{
}

} // verus!
