//! Character-sequence primitives: substring search, range comparison,
//! prefix tests and trimming, with exact specifications.

use vstd::prelude::*;

verus! {

/// `pat` occurs in `s` starting at index `i`.
pub open spec fn matches_at(s: Seq<char>, pat: Seq<char>, i: int) -> bool {
    0 <= i && i + pat.len() <= s.len() && s.subrange(i, i + pat.len() as int) == pat
}

/// `pat` occurs somewhere in `s`.
pub open spec fn contains_seq(s: Seq<char>, pat: Seq<char>) -> bool {
    exists|i: int| matches_at(s, pat, i)
}

/// Index of the first occurrence of `pat` in `s`, if any.
pub open spec fn find_seq(s: Seq<char>, pat: Seq<char>) -> Option<int>
    decreases s.len(),
{
    if pat.len() <= s.len() && s.subrange(0, pat.len() as int) == pat {
        Some(0)
    } else if s.len() == 0 {
        None
    } else {
        match find_seq(s.drop_first(), pat) {
            Some(i) => Some(i + 1),
            None => None,
        }
    }
}

/// `find_seq` returns the first match when one exists, and `None` exactly
/// when `pat` occurs nowhere in `s`.
pub proof fn lemma_find_seq(s: Seq<char>, pat: Seq<char>)
    ensures
        match find_seq(s, pat) {
            Some(i) => matches_at(s, pat, i) && (forall|j: int|
                0 <= j < i ==> !matches_at(s, pat, j)),
            None => forall|j: int| !matches_at(s, pat, j),
        },
    decreases s.len(),
{
    if pat.len() <= s.len() && s.subrange(0, pat.len() as int) == pat {
        assert(matches_at(s, pat, 0));
    } else if s.len() == 0 {
        assert forall|j: int| !matches_at(s, pat, j) by {
            if matches_at(s, pat, j) {
                assert(j == 0 && pat.len() == 0);
                assert(s.subrange(0, 0) =~= pat);
            }
        }
    } else {
        let rest = s.drop_first();
        lemma_find_seq(rest, pat);
        assert forall|j: int| 1 <= j && matches_at(s, pat, j) implies matches_at(
            rest,
            pat,
            j - 1,
        ) by {
            assert(rest.subrange(j - 1, j - 1 + pat.len() as int) =~= s.subrange(
                j,
                j + pat.len() as int,
            ));
        }
        assert forall|j: int| 1 <= j && matches_at(rest, pat, j - 1) implies matches_at(
            s,
            pat,
            j,
        ) by {
            assert(s.subrange(j, j + pat.len() as int) =~= rest.subrange(
                j - 1,
                j - 1 + pat.len() as int,
            ));
        }
        match find_seq(rest, pat) {
            Some(i) => {
                assert(matches_at(s, pat, i + 1));
                assert forall|j: int| 0 <= j < i + 1 implies !matches_at(s, pat, j) by {
                    if j == 0 {
                    } else {
                        assert(!matches_at(rest, pat, j - 1));
                    }
                }
            },
            None => {
                assert forall|j: int| !matches_at(s, pat, j) by {
                    if matches_at(s, pat, j) {
                        if j == 0 {
                        } else {
                            assert(matches_at(rest, pat, j - 1));
                        }
                    }
                }
            },
        }
    }
}

/// True exactly when the characters of `s` at `a..b` equal `pat`.
pub fn eq_in_range(s: &Vec<char>, a: usize, b: usize, pat: &Vec<char>) -> (r: bool)
    requires
        a <= b <= s@.len(),
    ensures
        r == (s@.subrange(a as int, b as int) == pat@),
{
    if b - a != pat.len() {
        proof {
            assert(s@.subrange(a as int, b as int).len() == b - a);
        }
        return false;
    }
    let mut k: usize = 0;
    while k < pat.len()
        invariant
            a <= b <= s@.len(),
            b - a == pat@.len(),
            k <= pat@.len(),
            forall|m: int| 0 <= m < k ==> s@[a + m] == pat@[m],
        decreases pat@.len() - k,
    {
        if s[a + k] != pat[k] {
            proof {
                assert(s@.subrange(a as int, b as int)[k as int] == s@[a + k]);
            }
            return false;
        }
        k += 1;
    }
    proof {
        assert(s@.subrange(a as int, b as int) =~= pat@);
    }
    true
}

/// `small` is a (not necessarily strict) prefix of `big`.
pub open spec fn is_prefix_of(small: Seq<char>, big: Seq<char>) -> bool {
    small.len() <= big.len() && small == big.subrange(0, small.len() as int)
}

/// True exactly when the characters of `s` at `a..b` form a prefix of `pat`.
pub fn range_is_prefix(s: &Vec<char>, a: usize, b: usize, pat: &Vec<char>) -> (r: bool)
    requires
        a <= b <= s@.len(),
    ensures
        r == is_prefix_of(s@.subrange(a as int, b as int), pat@),
{
    if b - a > pat.len() {
        proof {
            assert(s@.subrange(a as int, b as int).len() == b - a);
        }
        return false;
    }
    let mut k: usize = 0;
    while k < b - a
        invariant
            a <= b <= s@.len(),
            b - a <= pat@.len(),
            k <= b - a,
            forall|m: int| 0 <= m < k ==> s@[a + m] == pat@[m],
        decreases b - a - k,
    {
        if s[a + k] != pat[k] {
            proof {
                let w = s@.subrange(a as int, b as int);
                assert(w[k as int] == s@[a + k]);
                assert(pat@.subrange(0, w.len() as int)[k as int] == pat@[k as int]);
            }
            return false;
        }
        k += 1;
    }
    proof {
        let w = s@.subrange(a as int, b as int);
        assert(w =~= pat@.subrange(0, w.len() as int));
    }
    true
}

/// Copies the characters of `s` at `a..b` into a fresh vector.
pub fn copy_range(s: &Vec<char>, a: usize, b: usize) -> (r: Vec<char>)
    requires
        a <= b <= s@.len(),
    ensures
        r@ == s@.subrange(a as int, b as int),
{
    let mut r: Vec<char> = Vec::new();
    let mut k: usize = a;
    while k < b
        invariant
            a <= k <= b <= s@.len(),
            r@ =~= s@.subrange(a as int, k as int),
        decreases b - k,
    {
        r.push(s[k]);
        proof {
            assert(r@ =~= s@.subrange(a as int, k + 1));
        }
        k += 1;
    }
    proof {
        assert(r@ =~= s@.subrange(a as int, b as int));
    }
    r
}

/// Index of the first occurrence of `pat` in `s`, as executable code.
pub fn find_sub(s: &Vec<char>, pat: &Vec<char>) -> (r: Option<usize>)
    ensures
        match r {
            Some(i) => find_seq(s@, pat@) == Some(i as int),
            None => find_seq(s@, pat@) is None,
        },
{
    if pat.len() > s.len() {
        proof {
            lemma_find_seq(s@, pat@);
            if find_seq(s@, pat@) is Some {
                let f = find_seq(s@, pat@)->Some_0;
                assert(matches_at(s@, pat@, f));
            }
        }
        return None;
    }
    if pat.len() == 0 {
        proof {
            assert(s@.subrange(0, 0) =~= pat@);
            assert(find_seq(s@, pat@) == Some(0int));
        }
        return Some(0);
    }
    let n = s.len();
    let m = pat.len();
    let end = n - m;
    let mut i: usize = 0;
    loop
        invariant
            n == s@.len(),
            m == pat@.len(),
            1 <= m <= n,
            end == n - m,
            i <= end + 1,
            forall|j: int| 0 <= j < i ==> !matches_at(s@, pat@, j),
        decreases end + 1 - i,
    {
        if i > end {
            proof {
                lemma_find_seq(s@, pat@);
                assert forall|j: int| !matches_at(s@, pat@, j) by {
                    if matches_at(s@, pat@, j) {
                        assert(0 <= j <= end);
                    }
                }
            }
            return None;
        }
        if eq_in_range(s, i, i + pat.len(), pat) {
            proof {
                lemma_find_seq(s@, pat@);
                assert(matches_at(s@, pat@, i as int));
                match find_seq(s@, pat@) {
                    Some(f) => {
                        if f < i {
                            assert(!matches_at(s@, pat@, f));
                        }
                        if f > i {
                            assert(!matches_at(s@, pat@, i as int));
                        }
                    },
                    None => {
                        assert(!matches_at(s@, pat@, i as int));
                    },
                }
            }
            return Some(i);
        }
        i += 1;
    }
}

/// Whether `pat` occurs in `s`, as executable code.
pub fn contains_sub(s: &Vec<char>, pat: &Vec<char>) -> (r: bool)
    ensures
        r == contains_seq(s@, pat@),
{
    proof {
        lemma_find_seq(s@, pat@);
    }
    match find_sub(s, pat) {
        Some(_) => true,
        None => false,
    }
}

/// The escalation keyword highlighted inline.
pub open spec fn kw_sudo() -> Seq<char> {
    seq!['s', 'u', 'd', 'o']
}

/// The escalation keyword as a character vector.
pub fn kw_sudo_chars() -> (r: Vec<char>)
    ensures
        r@ == kw_sudo(),
{
    let r = vec!['s', 'u', 'd', 'o'];
    proof {
        assert(r@ =~= kw_sudo());
    }
    r
}

/// Whole-vector character equality.
pub fn chars_eq(a: &Vec<char>, b: &Vec<char>) -> (r: bool)
    ensures
        r == (a@ == b@),
{
    let r = eq_in_range(a, 0, a.len(), b);
    proof {
        assert(a@.subrange(0, a@.len() as int) =~= a@);
    }
    r
}

/// Whether some element of `vs` equals `x`, as character sequences.
pub fn vec_contains(vs: &Vec<Vec<char>>, x: &Vec<char>) -> (r: bool)
    ensures
        r == vs@.map_values(|v: Vec<char>| v@).contains(x@),
{
    let ghost views = vs@.map_values(|v: Vec<char>| v@);
    let mut i: usize = 0;
    while i < vs.len()
        invariant
            i <= vs@.len(),
            views == vs@.map_values(|v: Vec<char>| v@),
            forall|j: int| 0 <= j < i ==> views[j] != x@,
        decreases vs@.len() - i,
    {
        if chars_eq(&vs[i], x) {
            proof {
                assert(views[i as int] == x@);
            }
            return true;
        }
        i += 1;
    }
    proof {
        if views.contains(x@) {
            let j = choose|j: int| 0 <= j < views.len() && views[j] == x@;
            assert(views[j] != x@);
        }
    }
    false
}

/// Characters removed from the ends of a username field.
pub open spec fn is_blank(c: char) -> bool {
    c == ' ' || c == '\t'
}

/// `s` without its leading blanks.
pub open spec fn trim_start_spec(s: Seq<char>) -> Seq<char>
    decreases s.len(),
{
    if s.len() > 0 && is_blank(s[0]) {
        trim_start_spec(s.drop_first())
    } else {
        s
    }
}

/// `s` without its trailing blanks.
pub open spec fn trim_end_spec(s: Seq<char>) -> Seq<char>
    decreases s.len(),
{
    if s.len() > 0 && is_blank(s.last()) {
        trim_end_spec(s.drop_last())
    } else {
        s
    }
}

/// `s` without leading and trailing blanks.
pub open spec fn trim_spec(s: Seq<char>) -> Seq<char> {
    trim_end_spec(trim_start_spec(s))
}

/// Copies the characters of `s` at `a..b`, stripped of leading and
/// trailing blanks, into a fresh vector.
pub fn trim_range(s: &Vec<char>, a: usize, b: usize) -> (r: Vec<char>)
    requires
        a <= b <= s@.len(),
    ensures
        r@ == trim_spec(s@.subrange(a as int, b as int)),
{
    let mut lo = a;
    let mut hi = b;
    while lo < hi && (s[lo] == ' ' || s[lo] == '\t')
        invariant
            a <= lo <= hi <= b <= s@.len(),
            hi == b,
            trim_start_spec(s@.subrange(a as int, b as int)) == trim_start_spec(
                s@.subrange(lo as int, b as int),
            ),
        decreases hi - lo,
    {
        proof {
            let cur = s@.subrange(lo as int, b as int);
            assert(cur[0] == s@[lo as int]);
            assert(cur.drop_first() =~= s@.subrange(lo + 1, b as int));
        }
        lo += 1;
    }
    proof {
        let cur = s@.subrange(lo as int, b as int);
        if cur.len() > 0 {
            assert(cur[0] == s@[lo as int]);
        }
        assert(trim_start_spec(cur) == cur);
    }
    while hi > lo && (s[hi - 1] == ' ' || s[hi - 1] == '\t')
        invariant
            a <= lo <= hi <= b <= s@.len(),
            trim_start_spec(s@.subrange(a as int, b as int)) == s@.subrange(lo as int, b as int),
            trim_end_spec(s@.subrange(lo as int, b as int)) == trim_end_spec(
                s@.subrange(lo as int, hi as int),
            ),
        decreases hi - lo,
    {
        proof {
            let cur = s@.subrange(lo as int, hi as int);
            assert(cur.last() == s@[hi - 1]);
            assert(cur.drop_last() =~= s@.subrange(lo as int, hi - 1));
        }
        hi -= 1;
    }
    proof {
        let cur = s@.subrange(lo as int, hi as int);
        if cur.len() > 0 {
            assert(cur.last() == s@[hi - 1]);
        }
        assert(trim_end_spec(cur) == cur);
    }
    copy_range(s, lo, hi)
}

} // verus!
