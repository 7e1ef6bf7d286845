//! Frequency table of invoked commands: unique keys in first-seen order,
//! exact occurrence counts, and a descending sort for display.

use crate::text::{copy_range, eq_in_range};
use vstd::prelude::*;
use vstd::seq_lib::group_to_multiset_ensures;

verus! {

/// One command with its occurrence count and the rank at which it was
/// first seen.
pub struct FreqEntry {
    pub command: Vec<char>,
    pub count: usize,
    pub first_seen: usize,
}

/// Mathematical model of an entry.
#[verifier::ext_equal]
pub struct FreqEntryModel {
    pub command: Seq<char>,
    pub count: nat,
    pub first_seen: nat,
}

impl View for FreqEntry {
    type V = FreqEntryModel;

    open spec fn view(&self) -> FreqEntryModel {
        FreqEntryModel {
            command: self.command@,
            count: self.count as nat,
            first_seen: self.first_seen as nat,
        }
    }
}

/// The models of a sequence of entries.
pub open spec fn entries_model(s: Seq<FreqEntry>) -> Seq<FreqEntryModel> {
    s.map_values(|e: FreqEntry| e@)
}

/// Count recorded for `c` in `s`: zero when `c` has no entry.
pub open spec fn count_in(s: Seq<FreqEntryModel>, c: Seq<char>) -> nat
    decreases s.len(),
{
    if s.len() == 0 {
        0
    } else if s.last().command == c {
        s.last().count
    } else {
        count_in(s.drop_last(), c)
    }
}

/// Display order: larger counts first, ties broken by the smaller
/// first-seen rank.  A total order over well-formed tables, since ranks
/// are distinct there.
pub open spec fn entry_le(a: FreqEntryModel, b: FreqEntryModel) -> bool {
    a.count > b.count || (a.count == b.count && a.first_seen <= b.first_seen)
}

/// Mapping from command strings to how often each was invoked.
pub struct FreqTable {
    pub entries: Vec<FreqEntry>,
}

impl FreqTable {
    /// Well-formedness: commands are unique, ranks equal positions, and
    /// every entry was seen at least once.
    pub open spec fn wf(self) -> bool {
        &&& forall|i: int, j: int|
            0 <= i < j < self.entries@.len() ==> #[trigger] self.entries@[i]@.command
                != #[trigger] self.entries@[j]@.command
        &&& forall|i: int|
            0 <= i < self.entries@.len() ==> #[trigger] self.entries@[i]@.first_seen == i
        &&& forall|i: int| 0 <= i < self.entries@.len() ==> #[trigger] self.entries@[i]@.count >= 1
    }

    /// Count recorded for `c`.
    pub open spec fn spec_count(self, c: Seq<char>) -> nat {
        count_in(entries_model(self.entries@), c)
    }

    /// An empty table.
    pub fn new() -> (t: FreqTable)
        ensures
            t.wf(),
            t.entries@.len() == 0,
            forall|c: Seq<char>| t.spec_count(c) == 0,
    {
        FreqTable { entries: Vec::new() }
    }
}

/// `count_in` is unchanged at keys other than the one of an updated or
/// appended entry.
proof fn lemma_count_in_push(s: Seq<FreqEntryModel>, e: FreqEntryModel, c: Seq<char>)
    ensures
        count_in(s.push(e), c) == if e.command == c {
            e.count
        } else {
            count_in(s, c)
        },
{
    let t = s.push(e);
    assert(t.last() == e);
    assert(t.drop_last() =~= s);
}

proof fn lemma_count_in_update(s: Seq<FreqEntryModel>, i: int, e: FreqEntryModel, c: Seq<char>)
    requires
        0 <= i < s.len(),
        forall|j: int, k: int|
            0 <= j < k < s.len() ==> #[trigger] s[j].command != #[trigger] s[k].command,
        s[i].command == e.command,
    ensures
        count_in(s.update(i, e), c) == if e.command == c {
            e.count
        } else {
            count_in(s, c)
        },
    decreases s.len(),
{
    let t = s.update(i, e);
    if i == s.len() - 1 {
        assert(t.last() == e);
        assert(t.drop_last() =~= s.drop_last());
        if e.command != c {
            lemma_count_in_skip_last(s, c);
        }
    } else {
        assert(t.last() == s.last());
        assert(t.drop_last() =~= s.drop_last().update(i, e));
        lemma_count_in_update(s.drop_last(), i, e, c);
        if s.last().command == c {
            // the updated key differs from c, because keys are unique
            assert(s[i].command != s[s.len() - 1].command);
        }
    }
}

/// When the last entry's key is not `c`, dropping it keeps the count.
proof fn lemma_count_in_skip_last(s: Seq<FreqEntryModel>, c: Seq<char>)
    requires
        s.len() > 0,
    ensures
        s.last().command != c ==> count_in(s, c) == count_in(s.drop_last(), c),
{
}

impl FreqTable {
    /// Position of the entry for `cmd`, if one exists.
    fn find_entry(&self, cmd: &Vec<char>) -> (r: Option<usize>)
        ensures
            match r {
                Some(i) => i < self.entries@.len() && self.entries@[i as int]@.command == cmd@,
                None => forall|i: int|
                    0 <= i < self.entries@.len() ==> #[trigger] self.entries@[i]@.command != cmd@,
            },
    {
        let mut i: usize = 0;
        while i < self.entries.len()
            invariant
                i <= self.entries@.len(),
                forall|j: int|
                    0 <= j < i ==> #[trigger] self.entries@[j]@.command != cmd@,
            decreases self.entries@.len() - i,
        {
            let e = &self.entries[i];
            if eq_in_range(&e.command, 0, e.command.len(), cmd) {
                proof {
                    assert(e.command@.subrange(0, e.command@.len() as int) =~= e.command@);
                }
                return Some(i);
            }
            proof {
                assert(self.entries@[i as int]@.command =~= self.entries@[i as int].command@.subrange(
                    0,
                    self.entries@[i as int].command@.len() as int,
                ));
            }
            i += 1;
        }
        None
    }

    /// The recorded count of `cmd`: zero when it was never seen.
    pub fn get(&self, cmd: &Vec<char>) -> (r: usize)
        requires
            self.wf(),
        ensures
            r as nat == self.spec_count(cmd@),
    {
        match self.find_entry(cmd) {
            Some(i) => {
                proof {
                    lemma_count_at_index(entries_model(self.entries@), i as int);
                }
                self.entries[i].count
            },
            None => {
                proof {
                    lemma_count_key_present(entries_model(self.entries@), cmd@);
                    if self.spec_count(cmd@) > 0 {
                        let i = choose|i: int|
                            0 <= i < entries_model(self.entries@).len() && #[trigger] entries_model(
                                self.entries@,
                            )[i].command == cmd@;
                        assert(self.entries@[i]@.command == cmd@);
                    }
                }
                0
            },
        }
    }

    /// Records one more invocation of `cmd`: a fresh key is appended with
    /// count one, an existing key's count grows by one, and no other count
    /// changes.
    pub fn increment(&mut self, cmd: Vec<char>)
        requires
            old(self).wf(),
            old(self).spec_count(cmd@) < usize::MAX,
            old(self).entries@.len() < usize::MAX,
        ensures
            final(self).wf(),
            final(self).spec_count(cmd@) == old(self).spec_count(cmd@) + 1,
            forall|c: Seq<char>|
                c != cmd@ ==> final(self).spec_count(c) == old(self).spec_count(c),
            old(self).spec_count(cmd@) == 0 ==> entries_model(final(self).entries@)
                == entries_model(old(self).entries@).push(
                (FreqEntryModel {
                    command: cmd@,
                    count: 1,
                    first_seen: old(self).entries@.len(),
                }),
            ),
            old(self).spec_count(cmd@) > 0 ==> final(self).entries@.len()
                == old(self).entries@.len(),
            old(self).spec_count(cmd@) > 0 ==> forall|j: int|
                0 <= j < old(self).entries@.len() && old(self).entries@[j]@.command != cmd@
                    ==> (#[trigger] final(self).entries@[j])@ == old(self).entries@[j]@,
            old(self).spec_count(cmd@) > 0 ==> forall|j: int|
                0 <= j < old(self).entries@.len() && old(self).entries@[j]@.command == cmd@
                    ==> (#[trigger] final(self).entries@[j])@ == (FreqEntryModel {
                    command: cmd@,
                    count: old(self).spec_count(cmd@) + 1,
                    first_seen: j as nat,
                }),
    {
        proof {
            lemma_count_key_present(entries_model(self.entries@), cmd@);
        }
        match self.find_entry(&cmd) {
            Some(i) => {
                let old_count = self.entries[i].count;
                proof {
                    lemma_count_at_index(entries_model(self.entries@), i as int);
                }
                let mut e = self.entries.remove(i);
                e.count = old_count + 1;
                self.entries.insert(i, e);
                proof {
                    let oldm = entries_model(old(self).entries@);
                    let newm = entries_model(self.entries@);
                    let em = FreqEntryModel {
                        command: cmd@,
                        count: (old_count + 1) as nat,
                        first_seen: i as nat,
                    };
                    assert(self.entries@.len() == old(self).entries@.len());
                    assert(e.command@ == cmd@);
                    assert(e.count == old_count + 1);
                    assert(old(self).entries@[i as int]@.first_seen == i as nat);
                    assert(e.first_seen == i);
                    assert(e@ =~= em);
                    assert forall|j: int|
                        0 <= j < newm.len() implies newm[j] == oldm.update(i as int, em)[j] by {
                        assert(self.entries@ == old(self).entries@.remove(i as int).insert(
                            i as int,
                            e,
                        ));
                        if j != i {
                            assert(self.entries@[j] == old(self).entries@[j]);
                        }
                    }
                    assert(newm =~~= oldm.update(i as int, em));
                    lemma_count_in_update(oldm, i as int, em, cmd@);
                    assert forall|c: Seq<char>| c != cmd@ implies count_in(newm, c) == count_in(
                        oldm,
                        c,
                    ) by {
                        lemma_count_in_update(oldm, i as int, em, c);
                    }
                }
            },
            None => {
                let n = self.entries.len();
                let e = FreqEntry { command: cmd, count: 1, first_seen: n };
                self.entries.push(e);
                proof {
                    let oldm = entries_model(old(self).entries@);
                    let newm = entries_model(self.entries@);
                    let em = FreqEntryModel {
                        command: cmd@,
                        count: 1,
                        first_seen: n as nat,
                    };
                    assert(newm =~~= oldm.push(em));
                    lemma_count_in_push(oldm, em, cmd@);
                    assert forall|c: Seq<char>| c != cmd@ implies count_in(newm, c) == count_in(
                        oldm,
                        c,
                    ) by {
                        lemma_count_in_push(oldm, em, c);
                    }
                }
            },
        }
    }
}

/// The display order is total.
proof fn lemma_entry_le_total(a: FreqEntryModel, b: FreqEntryModel)
    ensures
        entry_le(a, b) || entry_le(b, a),
{
}

/// The display order is transitive.
proof fn lemma_entry_le_trans(a: FreqEntryModel, b: FreqEntryModel, c: FreqEntryModel)
    requires
        entry_le(a, b),
        entry_le(b, c),
    ensures
        entry_le(a, c),
{
}

/// Executable form of the display order.
fn entry_le_exec(a: &FreqEntry, b: &FreqEntry) -> (r: bool)
    ensures
        r == entry_le(a@, b@),
{
    a.count > b.count || (a.count == b.count && a.first_seen <= b.first_seen)
}

/// A fresh entry with the same command, count and rank.
fn clone_entry(e: &FreqEntry) -> (r: FreqEntry)
    ensures
        r@ == e@,
{
    let command = copy_range(&e.command, 0, e.command.len());
    proof {
        assert(command@ =~= e.command@);
    }
    let r = FreqEntry { command, count: e.count, first_seen: e.first_seen };
    proof {
        assert(r@ =~= e@);
    }
    r
}

impl FreqTable {
    /// The entries in display order: larger counts first, ties broken by
    /// first appearance.  The result is a permutation of the entries.
    pub fn sorted(&self) -> (r: Vec<FreqEntry>)
        ensures
            entries_model(r@).to_multiset() == entries_model(self.entries@).to_multiset(),
            forall|x: int, y: int|
                0 <= x < y < r@.len() ==> entry_le(#[trigger] r@[x]@, #[trigger] r@[y]@),
    {
        broadcast use group_to_multiset_ensures;

        let mut r: Vec<FreqEntry> = Vec::new();
        let mut k: usize = 0;
        proof {
            assert(entries_model(r@) =~= entries_model(self.entries@.subrange(0, 0)));
        }
        while k < self.entries.len()
            invariant
                k <= self.entries@.len(),
                r@.len() == k,
                entries_model(r@).to_multiset() == entries_model(
                    self.entries@.subrange(0, k as int),
                ).to_multiset(),
                forall|x: int, y: int|
                    0 <= x < y < r@.len() ==> entry_le(#[trigger] r@[x]@, #[trigger] r@[y]@),
            decreases self.entries@.len() - k,
        {
            broadcast use group_to_multiset_ensures;

            let e = clone_entry(&self.entries[k]);
            let ghost r_before = r@;
            let mut j: usize = 0;
            while j < r.len() && entry_le_exec(&r[j], &e)
                invariant
                    j <= r@.len(),
                    r@ == r_before,
                    forall|m: int| 0 <= m < j ==> entry_le(#[trigger] r@[m]@, e@),
                decreases r@.len() - j,
            {
                j += 1;
            }
            proof {
                if j < r@.len() {
                    lemma_entry_le_total(r@[j as int]@, e@);
                    assert forall|m: int| j <= m < r@.len() implies entry_le(
                        e@,
                        #[trigger] r@[m]@,
                    ) by {
                        if m > j {
                            lemma_entry_le_trans(e@, r@[j as int]@, r@[m]@);
                        }
                    }
                }
            }
            r.insert(j, e);
            proof {
                assert(entries_model(r@) =~~= entries_model(r_before).insert(j as int, e@));
                let prefix = self.entries@.subrange(0, k as int);
                let prefix1 = self.entries@.subrange(0, k + 1);
                assert(prefix1 =~= prefix.push(self.entries@[k as int]));
                assert(entries_model(prefix1) =~~= entries_model(prefix).push(
                    self.entries@[k as int]@,
                ));
                assert(entries_model(r@).to_multiset() == entries_model(prefix1).to_multiset());
                assert forall|x: int, y: int|
                    0 <= x < y < r@.len() implies entry_le(
                    #[trigger] r@[x]@,
                    #[trigger] r@[y]@,
                ) by {
                    if y < j {
                        assert(r@[x]@ == r_before[x]@ && r@[y]@ == r_before[y]@);
                    } else if x > j {
                        assert(r@[x]@ == r_before[x - 1]@ && r@[y]@ == r_before[y - 1]@);
                    } else if x < j && y == j {
                        assert(r@[x]@ == r_before[x]@);
                    } else if x == j {
                        assert(r@[y]@ == r_before[y - 1]@);
                    } else {
                        assert(x < j && y > j);
                        assert(r@[x]@ == r_before[x]@ && r@[y]@ == r_before[y - 1]@);
                        lemma_entry_le_trans(r_before[x]@, e@, r_before[y - 1]@);
                    }
                }
            }
            k += 1;
        }
        proof {
            assert(self.entries@.subrange(0, self.entries@.len() as int) =~= self.entries@);
        }
        r
    }
}

/// The count of a key is zero exactly when no entry carries it.
proof fn lemma_count_key_present(s: Seq<FreqEntryModel>, c: Seq<char>)
    requires
        forall|i: int| 0 <= i < s.len() ==> #[trigger] s[i].count >= 1,
    ensures
        (count_in(s, c) > 0) <==> exists|i: int| 0 <= i < s.len() && #[trigger] s[i].command == c,
    decreases s.len(),
{
    if s.len() > 0 {
        lemma_count_key_present(s.drop_last(), c);
        if s.last().command == c {
            assert(s[s.len() - 1].command == c);
        } else {
            if exists|i: int| 0 <= i < s.len() && #[trigger] s[i].command == c {
                let i = choose|i: int| 0 <= i < s.len() && #[trigger] s[i].command == c;
                assert(i < s.len() - 1);
                assert(s.drop_last()[i].command == c);
            }
        }
    }
}

/// Under unique keys, the count of the key at position `i` is that
/// entry's count.
proof fn lemma_count_at_index(s: Seq<FreqEntryModel>, i: int)
    requires
        0 <= i < s.len(),
        forall|j: int, k: int|
            0 <= j < k < s.len() ==> #[trigger] s[j].command != #[trigger] s[k].command,
    ensures
        count_in(s, s[i].command) == s[i].count,
    decreases s.len(),
{
    if i == s.len() - 1 {
    } else {
        assert(s[i].command != s[s.len() - 1].command);
        assert(s.drop_last()[i] == s[i]);
        lemma_count_at_index(s.drop_last(), i);
    }
}

} // verus!
