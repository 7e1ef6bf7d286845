//! Parsing of the group-membership file: colon-delimited records whose
//! name field holds the escalation keyword contribute their comma-separated
//! member lists to the set of privileged usernames.

use crate::classify::lines_view;
use crate::text::{contains_seq, contains_sub, copy_range, kw_sudo, kw_sudo_chars, vec_contains};
use vstd::prelude::*;

verus! {

/// The parts of `s` split at `sep`: every separator ends a part, and the
/// text after the last separator forms one more part.
pub open spec fn split_spec(s: Seq<char>, sep: char) -> Seq<Seq<char>>
    decreases s.len(),
{
    if s.len() == 0 {
        seq![Seq::<char>::empty()]
    } else if s[0] == sep {
        seq![Seq::<char>::empty()] + split_spec(s.drop_first(), sep)
    } else {
        let r = split_spec(s.drop_first(), sep);
        r.update(0, seq![s[0]] + r[0])
    }
}

/// Splitting yields at least one part.
pub proof fn lemma_split_spec_len(s: Seq<char>, sep: char)
    ensures
        split_spec(s, sep).len() >= 1,
    decreases s.len(),
{
    if s.len() > 0 {
        lemma_split_spec_len(s.drop_first(), sep);
    }
}

/// The parts of `s` split at `sep`, with a single trailing empty part
/// dropped: the behaviour of splitting on terminators, under which an
/// empty text has no parts at all.
pub open spec fn split_term_spec(s: Seq<char>, sep: char) -> Seq<Seq<char>> {
    let p = split_spec(s, sep);
    if p.len() >= 1 && p.last().len() == 0 {
        p.drop_last()
    } else {
        p
    }
}

/// Splits `s` at `sep`, dropping a trailing empty part.
pub fn split_term(s: &Vec<char>, sep: char) -> (r: Vec<Vec<char>>)
    ensures
        lines_view(r@) == split_term_spec(s@, sep),
{
    let mut done: Vec<Vec<char>> = Vec::new();
    let mut cur: Vec<char> = Vec::new();
    let mut i: usize = 0;
    proof {
        assert(s@.subrange(0, s@.len() as int) =~= s@);
        lemma_split_spec_len(s@, sep);
        let rem = split_spec(s@, sep);
        assert(rem =~= seq![rem[0]] + rem.drop_first());
        assert(lines_view(done@) =~= Seq::<Seq<char>>::empty());
        assert(cur@ + rem[0] =~= rem[0]);
    }
    while i < s.len()
        invariant
            i <= s@.len(),
            split_spec(s@, sep).len() >= 1,
            split_spec(s@.subrange(i as int, s@.len() as int), sep).len() >= 1,
            split_spec(s@, sep) == lines_view(done@) + seq![
                cur@ + split_spec(s@.subrange(i as int, s@.len() as int), sep)[0],
            ] + split_spec(s@.subrange(i as int, s@.len() as int), sep).drop_first(),
        decreases s@.len() - i,
    {
        let ghost rem = split_spec(s@.subrange(i as int, s@.len() as int), sep);
        let ghost rem1 = split_spec(s@.subrange(i + 1, s@.len() as int), sep);
        proof {
            lemma_split_spec_len(s@.subrange(i as int, s@.len() as int), sep);
            lemma_split_spec_len(s@.subrange(i + 1, s@.len() as int), sep);
            let sub = s@.subrange(i as int, s@.len() as int);
            assert(sub.len() > 0);
            assert(sub[0] == s@[i as int]);
            assert(sub.drop_first() =~= s@.subrange(i + 1, s@.len() as int));
        }
        if s[i] == sep {
            let finished = cur;
            cur = Vec::new();
            done.push(finished);
            proof {
                assert(rem == seq![Seq::<char>::empty()] + rem1);
                assert(rem[0] =~= Seq::<char>::empty());
                assert(rem.drop_first() =~= rem1);
                assert(finished@ + rem[0] =~= finished@);
                assert(lines_view(done@) =~= lines_view(done@.drop_last()).push(finished@));
                assert(rem1 =~= seq![rem1[0]] + rem1.drop_first());
                assert(lines_view(done@) + seq![cur@ + rem1[0]] + rem1.drop_first()
                    =~= lines_view(done@.drop_last()) + seq![finished@ + rem[0]]
                    + rem.drop_first());
            }
        } else {
            proof {
                assert(rem == rem1.update(0, seq![s@[i as int]] + rem1[0]));
                assert(rem[0] == seq![s@[i as int]] + rem1[0]);
                assert(rem.drop_first() =~= rem1.drop_first());
            }
            let ghost cur_before = cur@;
            cur.push(s[i]);
            proof {
                assert(cur@ + rem1[0] =~= cur_before + rem[0]);
            }
        }
        i += 1;
    }
    proof {
        let tail = s@.subrange(i as int, s@.len() as int);
        assert(tail =~= Seq::<char>::empty());
        assert(split_spec(tail, sep) == seq![Seq::<char>::empty()]);
        assert(cur@ + split_spec(tail, sep)[0] =~= cur@);
        assert(split_spec(tail, sep).drop_first() =~= Seq::<Seq<char>>::empty());
        assert(split_spec(s@, sep) =~= lines_view(done@).push(cur@));
    }
    done.push(cur);
    proof {
        assert(lines_view(done@) =~= split_spec(s@, sep));
    }
    let last = done.len() - 1;
    if done[last].len() == 0 {
        let _ = done.pop();
        proof {
            assert(lines_view(done@) =~= split_spec(s@, sep).drop_last());
            assert(split_spec(s@, sep).last().len() == 0);
        }
    } else {
        proof {
            assert(split_spec(s@, sep).last().len() > 0);
        }
    }
    done
}

/// The colon-delimited fields of a record.
pub open spec fn record_fields(line: Seq<char>) -> Seq<Seq<char>> {
    split_term_spec(line, ':')
}

/// A record is relevant when its name field holds the escalation keyword.
pub open spec fn record_matches(line: Seq<char>) -> bool {
    record_fields(line).len() > 0 && contains_seq(record_fields(line)[0], kw_sudo())
}

/// The usernames a record contributes: the comma-separated entries of its
/// fourth field.  Records with fewer than four fields have no members.
pub open spec fn record_members(line: Seq<char>) -> Seq<Seq<char>> {
    if record_matches(line) && record_fields(line).len() > 3 {
        split_term_spec(record_fields(line)[3], ',')
    } else {
        Seq::empty()
    }
}

/// The set of privileged usernames: the union of the member lists of all
/// relevant records.
pub open spec fn sudoers_of(lines: Seq<Seq<char>>) -> Set<Seq<char>>
    decreases lines.len(),
{
    if lines.len() == 0 {
        Set::empty()
    } else {
        sudoers_of(lines.drop_last()) + record_members(lines.last()).to_set()
    }
}

/// Extracts the privileged usernames from the lines of a group file.
/// The result lists each member of a relevant record exactly once.
pub fn get_sudoers(lines: &Vec<Vec<char>>) -> (users: Vec<Vec<char>>)
    ensures
        lines_view(users@).to_set() == sudoers_of(lines_view(lines@)),
        lines_view(users@).no_duplicates(),
{
    let kw = kw_sudo_chars();
    let mut users: Vec<Vec<char>> = Vec::new();
    let mut i: usize = 0;
    proof {
        assert(lines_view(lines@.subrange(0, 0)) =~= Seq::<Seq<char>>::empty());
        assert(lines_view(users@).to_set() =~= sudoers_of(lines_view(lines@.subrange(0, 0))));
    }
    while i < lines.len()
        invariant
            i <= lines@.len(),
            kw@ == kw_sudo(),
            lines_view(users@).to_set() == sudoers_of(lines_view(lines@.subrange(0, i as int))),
            lines_view(users@).no_duplicates(),
        decreases lines@.len() - i,
    {
        let ghost line_v = lines@[i as int]@;
        let ghost prefix = lines_view(lines@.subrange(0, i as int));
        let ghost prefix1 = lines_view(lines@.subrange(0, i + 1));
        proof {
            assert(lines@.subrange(0, i + 1) =~= lines@.subrange(0, i as int).push(
                lines@[i as int],
            ));
            assert(prefix1 =~= prefix.push(line_v));
            assert(prefix1.drop_last() =~= prefix);
            assert(prefix1.last() == line_v);
            assert(sudoers_of(prefix1) == sudoers_of(prefix) + record_members(line_v).to_set());
        }
        let fields = split_term(&lines[i], ':');
        let mut relevant = false;
        if fields.len() > 0 {
            if contains_sub(&fields[0], &kw) {
                relevant = true;
            }
        }
        proof {
            assert(lines_view(fields@) == record_fields(line_v));
            if fields@.len() > 0 {
                assert(lines_view(fields@)[0] == fields@[0]@);
            }
            assert(relevant == record_matches(line_v));
        }
        if relevant && fields.len() > 3 {
            let members = split_term(&fields[3], ',');
            proof {
                assert(lines_view(fields@)[3] == fields@[3]@);
                assert(lines_view(members@) == record_members(line_v));
            }
            let ghost members_v = lines_view(members@);
            let mut j: usize = 0;
            proof {
                assert(members_v.subrange(0, 0).to_set() =~= Set::<Seq<char>>::empty());
                assert(lines_view(users@).to_set() + members_v.subrange(0, 0).to_set()
                    =~= lines_view(users@).to_set());
            }
            while j < members.len()
                invariant
                    j <= members@.len(),
                    members_v == lines_view(members@),
                    lines_view(users@).to_set() == sudoers_of(prefix) + members_v.subrange(
                        0,
                        j as int,
                    ).to_set(),
                    lines_view(users@).no_duplicates(),
                decreases members@.len() - j,
            {
                let m = copy_range(&members[j], 0, members[j].len());
                proof {
                    assert(m@ =~= members@[j as int]@);
                    assert(members_v[j as int] == m@);
                }
                let ghost users_before = users@;
                let present = vec_contains(&users, &m);
                if !present {
                    users.push(m);
                }
                proof {
                    let sub1 = members_v.subrange(0, j + 1);
                    assert(sub1 =~= members_v.subrange(0, j as int).push(m@));
                    assert forall|x: Seq<char>| sub1.contains(x) <==> (members_v.subrange(
                        0,
                        j as int,
                    ).contains(x) || x == m@) by {
                        if sub1.contains(x) {
                            let q = choose|q: int| 0 <= q < sub1.len() && sub1[q] == x;
                            if q < j {
                                assert(members_v.subrange(0, j as int)[q] == x);
                            }
                        }
                        if members_v.subrange(0, j as int).contains(x) {
                            let q = choose|q: int|
                                0 <= q < j && members_v.subrange(0, j as int)[q] == x;
                            assert(sub1[q] == x);
                        }
                        if x == m@ {
                            assert(sub1[j as int] == x);
                        }
                    }
                    if !present {
                        assert(lines_view(users@) =~= lines_view(users_before).push(m@));
                        assert forall|x: Seq<char>|
                            lines_view(users@).contains(x) <==> (lines_view(
                                users_before,
                            ).contains(x) || x == m@) by {
                            let uv = lines_view(users@);
                            let ub = lines_view(users_before);
                            if uv.contains(x) {
                                let q = choose|q: int| 0 <= q < uv.len() && uv[q] == x;
                                if q < ub.len() {
                                    assert(ub[q] == x);
                                }
                            }
                            if ub.contains(x) {
                                let q = choose|q: int| 0 <= q < ub.len() && ub[q] == x;
                                assert(uv[q] == x);
                            }
                            if x == m@ {
                                assert(uv[uv.len() - 1] == x);
                            }
                        }
                        assert(lines_view(users@).to_set() =~= lines_view(
                            users_before,
                        ).to_set().insert(m@));
                        assert(lines_view(users@).no_duplicates());
                    } else {
                        assert(lines_view(users@).to_set().contains(m@));
                        assert(lines_view(users@).to_set() =~= lines_view(
                            users@,
                        ).to_set().insert(m@));
                    }
                    assert(lines_view(users@).to_set() =~= sudoers_of(prefix) + sub1.to_set());
                }
                j += 1;
            }
            proof {
                assert(members_v.subrange(0, members_v.len() as int) =~= members_v);
                assert(lines_view(users@).to_set() =~= sudoers_of(prefix1));
            }
        } else {
            proof {
                assert(record_members(line_v) =~= Seq::<Seq<char>>::empty());
                assert(record_members(line_v).to_set() =~= Set::<Seq<char>>::empty());
                assert(lines_view(users@).to_set() =~= sudoers_of(prefix1));
            }
        }
        i += 1;
    }
    proof {
        assert(lines@.subrange(0, lines@.len() as int) =~= lines@);
    }
    users
}

} // verus!
